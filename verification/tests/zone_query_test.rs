use sorcerers::card::Region;
use sorcerers::zone::{Location, Zone};
use sorcerers::zone_query::{consults_zone_modifiers, zone_choice, PlacedSite, ZoneChoice, ZoneQueryModel};
use uuid::Uuid;

fn sq(s: u8) -> Zone {
    Zone::Location(Location::Square(s, Region::Surface))
}

fn query() -> ZoneQueryModel {
    ZoneQueryModel { zone: None, options: None, random: false, sites_only: false, controlled_by: None, allow_modifiers: true }
}

#[test]
fn a_fixed_zone_answers_at_once() {
    let q = ZoneQueryModel { zone: Some(sq(4)), random: true, ..query() };
    assert!(matches!(zone_choice(&q, &vec![]), ZoneChoice::Fixed(z) if z == sq(4)));
    assert!(!consults_zone_modifiers(&q));
    assert!(consults_zone_modifiers(&query()));
    assert!(!consults_zone_modifiers(&ZoneQueryModel { allow_modifiers: false, ..query() }));
}

#[test]
fn random_queries_are_picked_at_random() {
    let q = ZoneQueryModel { random: true, options: Some(vec![sq(1)]), ..query() };
    assert!(matches!(zone_choice(&q, &vec![]), ZoneChoice::Random));
}

#[test]
fn options_are_offered_as_locations() {
    let q = ZoneQueryModel { options: Some(vec![sq(1), Zone::Hand, sq(9)]), ..query() };
    match zone_choice(&q, &vec![]) {
        ZoneChoice::Pick(zs) => assert_eq!(zs, vec![sq(1), sq(9)]),
        other => panic!("unexpected {other:?}"),
    }
}

#[test]
fn site_queries_offer_the_sites_of_their_controller() {
    let (a, b) = (Uuid::new_v4(), Uuid::new_v4());
    let sites = vec![
        PlacedSite { zone: sq(3), controller_id: a },
        PlacedSite { zone: sq(3), controller_id: a },
        PlacedSite { zone: sq(8), controller_id: b },
        PlacedSite { zone: sq(12), controller_id: a },
    ];
    let q = ZoneQueryModel { sites_only: true, controlled_by: Some(a), ..query() };
    match zone_choice(&q, &sites) {
        ZoneChoice::Pick(zs) => assert_eq!(zs, vec![sq(3), sq(12)]),
        other => panic!("unexpected {other:?}"),
    }
    let q = ZoneQueryModel { sites_only: true, ..query() };
    match zone_choice(&q, &sites) {
        ZoneChoice::Pick(zs) => assert_eq!(zs, vec![sq(3), sq(8), sq(12)]),
        other => panic!("unexpected {other:?}"),
    }
    assert!(matches!(zone_choice(&query(), &sites), ZoneChoice::PickInRealm));
}

#[test]
fn a_random_answer_is_one_of_the_options() {
    let options = vec![
        sorcerers::zone::Zone::Location(sorcerers::zone::Location::Square(3, sorcerers::card::Region::Surface)),
        sorcerers::zone::Zone::Location(sorcerers::zone::Location::Square(5, sorcerers::card::Region::Surface)),
    ];
    for _ in 0..20 {
        let z = sorcerers::zone_query::random_zone(&options);
        assert!(options.contains(&z));
    }
}
