use sorcerers::card::{Ability, CardStatus, CardType, Rarity, Region};
use sorcerers::card_query::{card_matches, card_occupies_zone, spatial_zones, CardModel, CardQueryModel, SpatialFilterModel};
use sorcerers::query::{NumericFilter, StringFilter, ValueFilter, VecFilter};
use sorcerers::thresholds::Element;
use sorcerers::zone::{Location, Zone};
use uuid::Uuid;

fn square(s: u8) -> Zone {
    Zone::Location(Location::Square(s, Region::Surface))
}

fn minion(owner: Uuid) -> CardModel {
    CardModel {
        id: Uuid::new_v4(),
        name: "Pit Vipers".to_string(),
        zone: square(8),
        in_play: true,
        region: Region::Surface,
        controller_id: owner,
        owner_id: owner,
        card_type: CardType::Minion,
        is_minion: true,
        is_avatar: false,
        tapped: false,
        rarity: Rarity::Ordinary,
        oversized: false,
        bearer: None,
        printed_mana: Some(Some(2)),
        elements: vec![Element::Earth],
        abilities: vec![Ability::Lethal],
        statuses: vec![],
        site_water: None,
        site_types: None,
        artifact_types: None,
        minion_types: Some(vec![3]),
        power: Some(1),
        targetable_by: vec![owner],
    }
}

#[test]
fn an_unfiltered_query_matches_cards_in_play() {
    let q = CardQueryModel::default();
    let mut c = minion(Uuid::new_v4());
    assert!(card_matches(&q, &c));
    c.in_play = false;
    c.zone = Zone::Hand;
    assert!(!card_matches(&q, &c));
    let q = CardQueryModel { include_not_in_play: Some(true), ..CardQueryModel::default() };
    assert!(card_matches(&q, &c));
}

#[test]
fn property_filters_must_all_hold() {
    let owner = Uuid::new_v4();
    let c = minion(owner);
    let q = CardQueryModel {
        card_types: Some(vec![CardType::Minion]),
        controlled_by: Some(vec![ValueFilter::Equals(owner)]),
        card_name: Some(vec![StringFilter::ContainsSubstr("Viper".to_string())]),
        mana_cost: Some(NumericFilter::LessThanOrEqualTo(2)),
        power: Some(NumericFilter::GreaterThanOrEqualTo(1)),
        abilities: Some(vec![VecFilter::With(Ability::Lethal)]),
        statuses: Some(vec![VecFilter::Without(CardStatus::Disabled)]),
        elements: Some(vec![Element::Fire, Element::Earth]),
        minion_types: Some(vec![3, 4]),
        ..CardQueryModel::default()
    };
    assert!(card_matches(&q, &c));
    let q2 = CardQueryModel { mana_cost: Some(NumericFilter::LessThan(2)), ..q.clone() };
    assert!(!card_matches(&q2, &c));
    let q3 = CardQueryModel { controlled_by: Some(vec![ValueFilter::NotEquals(owner)]), ..q.clone() };
    assert!(!card_matches(&q3, &c));
    let q4 = CardQueryModel { site_types: Some(vec![1]), ..q.clone() };
    assert!(!card_matches(&q4, &c));
    let q5 = CardQueryModel { card_types: Some(vec![CardType::Site]), ..q };
    assert!(!card_matches(&q5, &c));
}

#[test]
fn animated_cards_count_as_minions() {
    let mut c = minion(Uuid::new_v4());
    c.card_type = CardType::Aura;
    let q = CardQueryModel { card_types: Some(vec![CardType::Minion]), ..CardQueryModel::default() };
    assert!(card_matches(&q, &c));
    c.is_minion = false;
    assert!(!card_matches(&q, &c));
}

#[test]
fn a_card_on_an_intersection_stands_in_its_corner_squares() {
    let corner = Zone::Location(Location::Intersection(vec![2, 3, 7, 8], Region::Surface));
    assert!(card_occupies_zone(&corner, &square(7)));
    assert!(!card_occupies_zone(&corner, &square(9)));
    assert!(!card_occupies_zone(&corner, &Zone::Location(Location::Square(7, Region::Underground))));
    assert!(card_occupies_zone(&square(7), &square(7)));
    assert!(!card_occupies_zone(&square(7), &corner));
    let mut c = minion(Uuid::new_v4());
    c.zone = corner;
    let q = CardQueryModel { spatial_zones: vec![vec![square(1), square(3)]], ..CardQueryModel::default() };
    assert!(card_matches(&q, &c));
    let q = CardQueryModel { spatial_zones: vec![vec![square(3)], vec![square(20)]], ..CardQueryModel::default() };
    assert!(!card_matches(&q, &c));
}

#[test]
fn with_any_holds_when_a_listed_value_is_missing() {
    let c = minion(Uuid::new_v4());
    let q = CardQueryModel {
        abilities: Some(vec![VecFilter::WithAny(vec![Ability::Lethal, Ability::Airborne])]),
        ..CardQueryModel::default()
    };
    assert!(card_matches(&q, &c));
    let q = CardQueryModel { abilities: Some(vec![VecFilter::WithAny(vec![Ability::Lethal])]), ..CardQueryModel::default() };
    assert!(!card_matches(&q, &c));
}

#[test]
fn cross_card_filters_use_what_the_game_resolved() {
    let c = minion(Uuid::new_v4());
    let carrier = Uuid::new_v4();
    let q = CardQueryModel { bearer_of: Some(Some(c.id)), ..CardQueryModel::default() };
    assert!(card_matches(&q, &c));
    let q = CardQueryModel { bearer_of: Some(None), ..CardQueryModel::default() };
    assert!(!card_matches(&q, &c));
    let q = CardQueryModel { carried_by: Some(Some(carrier)), ..CardQueryModel::default() };
    assert!(!card_matches(&q, &c));
    let q = CardQueryModel { range_zones: Some(vec![square(8)]), attack_targets: Some(vec![c.id]), ..CardQueryModel::default() };
    assert!(card_matches(&q, &c));
    let q = CardQueryModel { can_be_targeted_by_player: Some(Uuid::new_v4()), ..CardQueryModel::default() };
    assert!(!card_matches(&q, &c));
    let q = CardQueryModel { site_is_water: Some(false), ..CardQueryModel::default() };
    assert!(!card_matches(&q, &c));
}

#[test]
fn spatial_filters_resolve_against_the_cards() {
    let mut c = minion(Uuid::new_v4());
    let aura = minion(Uuid::new_v4());
    let cards = vec![c.clone(), aura.clone()];
    let auras = vec![(aura.id, vec![square(2), square(3)])];
    let filters = vec![
        SpatialFilterModel::ZoneOfCard(c.id),
        SpatialFilterModel::ZoneOfCard(Uuid::new_v4()),
        SpatialFilterModel::AffectedZonesOfCard(aura.id),
        SpatialFilterModel::AffectedZonesOfCard(c.id),
        SpatialFilterModel::AroundCardInPlay { card_id: c.id, zones: vec![square(7), square(9)] },
        SpatialFilterModel::Locations(vec![square(1)]),
    ];
    let zs = spatial_zones(&filters, &cards, &auras);
    assert_eq!(zs[0], vec![square(8)]);
    assert!(zs[1].is_empty());
    assert_eq!(zs[2], vec![square(2), square(3)]);
    assert_eq!(zs[3], vec![square(8)]);
    assert_eq!(zs[4], vec![square(7), square(9)]);
    assert_eq!(zs[5], vec![square(1)]);
    c.in_play = false;
    let zs = spatial_zones(&filters, &vec![c, aura], &auras);
    assert!(zs[4].is_empty());
}

#[test]
fn filters_on_abilities_statuses_and_identifiers_compare_by_value() {
    assert!(ValueFilter::Equals(Ability::Movement(2)).matches(&Ability::Movement(2)));
    assert!(!ValueFilter::Equals(Ability::Movement(2)).matches(&Ability::Movement(3)));
    assert!(VecFilter::With(CardStatus::Disabled).matches(&[CardStatus::Silenced, CardStatus::Disabled]));
    assert!(!VecFilter::With(Ability::Ranged(1)).matches(&[Ability::Ranged(2)]));
    let (a, b) = (Uuid::new_v4(), Uuid::new_v4());
    assert!(ValueFilter::OneOf(vec![a, b]).matches_id(&b));
    assert!(!ValueFilter::NoneOf(vec![a]).matches_id(&a));
    assert!(ValueFilter::NotEquals(a).matches_id(&b));
}
