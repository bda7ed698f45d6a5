use sorcerers::terrain::{
    connected_groups, get_bodies_of_water, get_body_of_water_at, get_spans_of_land, RealmSite,
};

fn normalised(groups: Vec<Vec<u8>>) -> Vec<Vec<u8>> {
    let mut groups: Vec<Vec<u8>> = groups
        .into_iter()
        .map(|mut g| {
            g.sort();
            g
        })
        .collect();
    groups.sort();
    groups
}

fn site(square: u8, water: u8) -> RealmSite {
    RealmSite { square, water }
}

#[test]
fn touching_water_sites_form_one_body() {
    let sites = vec![site(1, 1), site(2, 2), site(7, 1), site(10, 1), site(3, 0)];
    assert_eq!(normalised(get_bodies_of_water(&sites)), vec![vec![1, 2, 7], vec![10]]);
}

#[test]
fn diagonal_sites_do_not_touch() {
    let sites = vec![site(1, 1), site(7, 1)];
    assert_eq!(normalised(get_bodies_of_water(&sites)), vec![vec![1], vec![7]]);
}

#[test]
fn rows_do_not_wrap_around() {
    let sites = vec![site(5, 1), site(6, 1)];
    assert_eq!(normalised(get_bodies_of_water(&sites)), vec![vec![5], vec![6]]);
}

#[test]
fn land_sites_form_spans_apart_from_water() {
    let sites = vec![site(1, 0), site(2, 1), site(3, 0), site(8, 0), site(6, 0)];
    assert_eq!(normalised(get_spans_of_land(&sites)), vec![vec![1, 6], vec![3, 8]]);
    assert_eq!(normalised(get_bodies_of_water(&sites)), vec![vec![2]]);
}

#[test]
fn a_square_lies_in_its_body_of_water() {
    let sites = vec![site(12, 1), site(13, 1), site(18, 1), site(20, 1)];
    let body = get_body_of_water_at(&sites, 18).unwrap();
    assert_eq!(normalised(vec![body]), vec![vec![12, 13, 18]]);
    assert!(get_body_of_water_at(&sites, 14).is_none());
    assert_eq!(get_body_of_water_at(&sites, 20), Some(vec![20]));
}

#[test]
fn no_sites_no_groups() {
    assert!(get_bodies_of_water(&vec![]).is_empty());
    assert!(get_spans_of_land(&vec![]).is_empty());
}

#[test]
fn groups_follow_a_winding_path() {
    // An S-shaped path through the grid: 1 2 3, 8, 13 12 11, 16.
    let squares = vec![16, 1, 12, 2, 3, 8, 13, 11, 20];
    assert_eq!(
        normalised(connected_groups(&squares)),
        vec![vec![1, 2, 3, 8, 11, 12, 13, 16], vec![20]]
    );
}

#[test]
fn repeated_squares_are_grouped_once() {
    let squares = vec![4, 4, 9];
    assert_eq!(normalised(connected_groups(&squares)), vec![vec![4, 9]]);
}
