use sorcerers::game::UnitAction;
use sorcerers::card::Region;
use sorcerers::game::{
    are_adjacent, are_nearby, cardinal_directions, get_adjacent_zones, get_knight_move_zones,
    get_nearby_zones, resolve_damage_assignment, BaseAction, BaseOption, CancelAction, Direction,
    PlayerAction,
};
use sorcerers::zone::{Location, Zone};

#[test]
fn test_locations_are_adjacent() {
    assert!(
        Location::Square(1, Region::Surface).is_adjacent(&Location::Square(2, Region::Surface))
    );
    assert!(
        Location::Square(3, Region::Surface).is_adjacent(&Location::Square(2, Region::Surface))
    );
    assert!(
        Location::Square(3, Region::Surface).is_adjacent(&Location::Square(4, Region::Surface))
    );
    assert!(
        !Location::Square(3, Region::Surface).is_adjacent(&Location::Square(7, Region::Surface))
    );
    assert!(
        !Location::Square(3, Region::Surface).is_adjacent(&Location::Square(9, Region::Surface))
    );
}

#[test]
fn test_locations_are_nearby() {
    assert!(
        Location::Square(1, Region::Surface).is_nearby(&Location::Square(2, Region::Surface))
    );
    assert!(
        Location::Square(3, Region::Surface).is_nearby(&Location::Square(2, Region::Surface))
    );
    assert!(
        Location::Square(3, Region::Surface).is_nearby(&Location::Square(4, Region::Surface))
    );
    assert!(
        Location::Square(3, Region::Surface).is_nearby(&Location::Square(7, Region::Surface))
    );
    assert!(
        Location::Square(3, Region::Surface).is_nearby(&Location::Square(9, Region::Surface))
    );
}

#[test]
fn test_get_adjacent_squares() {
    let adj = get_adjacent_zones(&Zone::Location(Location::Square(8, Region::Surface)));
    assert!(adj.contains(&Zone::Location(Location::Square(3, Region::Surface))));
    assert!(adj.contains(&Zone::Location(Location::Square(7, Region::Surface))));
    assert!(adj.contains(&Zone::Location(Location::Square(9, Region::Surface))));
    assert!(adj.contains(&Zone::Location(Location::Square(13, Region::Surface))));
}

fn sq(s: u8) -> Zone {
    Zone::Location(Location::Square(s, Region::Surface))
}

#[test]
fn adjacent_zones_of_a_middle_square_are_listed_in_order() {
    assert_eq!(get_adjacent_zones(&sq(8)), vec![sq(13), sq(3), sq(9), sq(7), sq(8)]);
}

#[test]
fn adjacent_zones_do_not_wrap_across_rows() {
    assert_eq!(get_adjacent_zones(&sq(5)), vec![sq(10), sq(4), sq(5)]);
    assert_eq!(get_adjacent_zones(&sq(6)), vec![sq(11), sq(1), sq(7), sq(6)]);
    assert!(!are_adjacent(&sq(5), &sq(6)));
    assert!(!are_adjacent(&sq(6), &sq(5)));
}

#[test]
fn adjacent_zones_of_corner_squares() {
    assert_eq!(get_adjacent_zones(&sq(1)), vec![sq(6), sq(2), sq(1)]);
    assert_eq!(get_adjacent_zones(&sq(20)), vec![sq(15), sq(19), sq(20)]);
}

#[test]
fn adjacent_zones_keep_the_region() {
    let z = Zone::Location(Location::Square(8, Region::Underground));
    let adj = get_adjacent_zones(&z);
    assert!(adj.contains(&Zone::Location(Location::Square(3, Region::Underground))));
    assert!(!adj.contains(&sq(3)));
}

#[test]
fn zones_off_the_board_have_no_neighbours() {
    assert!(get_adjacent_zones(&Zone::Hand).is_empty());
    assert!(get_nearby_zones(&Zone::Cemetery).is_empty());
    assert!(get_knight_move_zones(&Zone::Hand).is_empty());
}

#[test]
fn nearby_zones_of_a_corner_square() {
    assert_eq!(get_nearby_zones(&sq(1)), vec![sq(6), sq(2), sq(1), sq(7)]);
}

#[test]
fn nearby_zones_of_a_middle_square() {
    let near = get_nearby_zones(&sq(8));
    assert_eq!(near.len(), 9);
    for s in [2, 3, 4, 7, 8, 9, 12, 13, 14] {
        assert!(near.contains(&sq(s)));
    }
    assert!(are_nearby(&sq(8), &sq(14)));
    assert!(!are_nearby(&sq(8), &sq(10)));
}

#[test]
fn adjacent_intersections_are_shifted_intersections() {
    let z = Zone::Location(Location::Intersection(vec![8, 7, 2, 3], Region::Surface));
    let adj = get_adjacent_zones(&z);
    assert_eq!(
        adj,
        vec![
            Zone::Location(Location::Intersection(vec![7, 8, 12, 13], Region::Surface)),
            Zone::Location(Location::Intersection(vec![3, 4, 8, 9], Region::Surface)),
            Zone::Location(Location::Intersection(vec![1, 2, 6, 7], Region::Surface)),
        ]
    );
}

#[test]
fn nearby_zones_of_an_intersection_include_overlapping_intersections() {
    let z = Zone::Location(Location::Intersection(vec![1, 2, 6, 7], Region::Surface));
    let near = get_nearby_zones(&z);
    assert!(near.contains(&Zone::Location(Location::Intersection(
        vec![2, 3, 7, 8],
        Region::Surface
    ))));
    assert!(near.contains(&Zone::Location(Location::Intersection(
        vec![6, 7, 11, 12],
        Region::Surface
    ))));
    assert!(!near.contains(&z));
    assert!(near.contains(&sq(12)));
}

#[test]
fn all_intersections_are_the_twelve_corners() {
    let all = Zone::all_intersections();
    assert_eq!(all.len(), 12);
    assert_eq!(
        all[0],
        Zone::Location(Location::Intersection(vec![1, 2, 6, 7], Region::Surface))
    );
    assert_eq!(
        all[11],
        Zone::Location(Location::Intersection(vec![14, 15, 19, 20], Region::Surface))
    );
}

#[test]
fn knight_moves_from_a_corner() {
    assert_eq!(get_knight_move_zones(&sq(1)), vec![sq(12), sq(8)]);
}

#[test]
fn knight_moves_land_on_the_surface() {
    let z = Zone::Location(Location::Square(8, Region::Underground));
    let moves = get_knight_move_zones(&z);
    assert_eq!(moves, vec![sq(19), sq(17), sq(15), sq(11), sq(5), sq(1)]);
}

#[test]
fn knight_moves_are_symmetric_on_the_board() {
    for a in 1..=20u8 {
        for b in get_knight_move_zones(&sq(a)) {
            assert!(get_knight_move_zones(&b).contains(&sq(a)));
        }
    }
}

#[test]
fn adjacency_is_symmetric_on_the_board() {
    for a in 1..=20u8 {
        for b in 1..=20u8 {
            assert_eq!(are_adjacent(&sq(a), &sq(b)), are_adjacent(&sq(b), &sq(a)));
            assert_eq!(are_nearby(&sq(a), &sq(b)), are_nearby(&sq(b), &sq(a)));
            if are_adjacent(&sq(a), &sq(b)) {
                assert!(are_nearby(&sq(a), &sq(b)));
            }
        }
    }
}

#[test]
fn normalise_flips_directions() {
    assert_eq!(Direction::Up.normalise(true), Direction::Down);
    assert_eq!(Direction::TopLeft.normalise(true), Direction::BottomRight);
    assert_eq!(Direction::Left.normalise(false), Direction::Left);
    for d in [Direction::Up, Direction::BottomLeft, Direction::Right] {
        assert_eq!(d.normalise(true).normalise(true), d);
    }
}

#[test]
fn rotate_turns_clockwise() {
    assert_eq!(Direction::Up.rotate(1).unwrap(), Direction::TopRight);
    assert_eq!(Direction::Up.rotate(2).unwrap(), Direction::Right);
    assert_eq!(Direction::TopLeft.rotate(1).unwrap(), Direction::Up);
    assert_eq!(Direction::Left.rotate(8).unwrap(), Direction::Left);
    assert_eq!(Direction::Right.rotate(4).unwrap(), Direction::Left);
    assert_eq!(Direction::Down.rotate(255).unwrap(), Direction::BottomRight);
}

#[test]
fn direction_names() {
    assert_eq!(Direction::TopLeft.get_name(), "Top Left");
    assert_eq!(Direction::Down.get_name(), "Down");
    assert_eq!(
        cardinal_directions(),
        [Direction::Up, Direction::Down, Direction::Left, Direction::Right]
    );
}

#[test]
fn action_names() {
    assert_eq!(BaseAction::DrawSite.get_name(), "Draw Site");
    assert_eq!(BaseAction::DrawSpell.get_name(), "Draw Spell");
    assert_eq!(BaseAction::Cancel.get_name(), "Cancel");
    assert_eq!(CancelAction.get_name(), "Cancel");
    assert!(!CancelAction.is_special_ability());
    assert_eq!(BaseOption::Yes.label(), "Yes");
    assert_eq!(BaseOption::No.label(), "No");
}

#[test]
fn damage_assignment_goes_to_each_defender() {
    let a = uuid::Uuid::new_v4();
    let b = uuid::Uuid::new_v4();
    let c = uuid::Uuid::new_v4();
    let r = resolve_damage_assignment(5, &[a, b, c], &vec![(b, 2), (a, 3)]).unwrap();
    assert_eq!(r, vec![(a, 3), (b, 2), (c, 0)]);
}

#[test]
fn damage_assignment_must_use_all_damage() {
    let a = uuid::Uuid::new_v4();
    let r = resolve_damage_assignment(5, &[a], &vec![(a, 4)]);
    assert_eq!(
        r.unwrap_err(),
        "assigned combat damage 4 does not match available damage 5"
    );
}

#[test]
fn damage_assignment_must_go_to_defenders() {
    let a = uuid::Uuid::new_v4();
    let b = uuid::Uuid::new_v4();
    let r = resolve_damage_assignment(3, &[a], &vec![(a, 1), (b, 2)]);
    assert_eq!(
        r.unwrap_err(),
        "combat damage assignment contains non-defender card"
    );
}

#[test]
fn unit_actions_are_named() {
    assert_eq!(UnitAction::Move.get_name(), "Move");
    assert_eq!(UnitAction::RangedAttack.get_name(), "Ranged Attack");
    assert_eq!(UnitAction::Surface.get_name(), "Surface");
    assert_eq!(UnitAction::PickUpMinion.get_name(), "Pick Up Minion");
    assert_eq!(UnitAction::DropMinion.get_name(), "Drop Minion");
    let id = uuid::Uuid::new_v4();
    let name = "Torshammar Trinket".to_string();
    assert_eq!(
        UnitAction::PickUpArtifact { artifact_id: id, artifact_name: name.clone() }.get_name(),
        "Pick Up Torshammar Trinket"
    );
    assert_eq!(
        UnitAction::DropArtifact { artifact_id: id, artifact_name: name }.get_name(),
        "Drop Torshammar Trinket"
    );
}

#[test]
fn zone_lists_hold_each_square_once() {
    for s in 1..=20u8 {
        let z = Zone::Location(Location::Square(s, Region::Underground));
        for list in [get_adjacent_zones(&z), get_nearby_zones(&z), get_knight_move_zones(&z)] {
            for (i, a) in list.iter().enumerate() {
                for b in list.iter().skip(i + 1) {
                    assert_ne!(a, b);
                }
            }
        }
        assert!(get_knight_move_zones(&z).len() <= 8);
    }
    let corner = Zone::Location(Location::Square(1, Region::Surface));
    assert_eq!(get_knight_move_zones(&corner).len(), 2);
    assert_eq!(get_nearby_zones(&corner).len(), 4);
}

#[test]
fn accepted_damage_adds_up_to_the_amount() {
    let (a, b, c) = (uuid::Uuid::new_v4(), uuid::Uuid::new_v4(), uuid::Uuid::new_v4());
    let r = resolve_damage_assignment(7, &[a, b, c], &vec![(c, 4), (a, 3)]).unwrap();
    assert_eq!(r.iter().map(|(_, d)| *d as u32).sum::<u32>(), 7);
    assert_eq!(r, vec![(a, 3), (b, 0), (c, 4)]);
}
