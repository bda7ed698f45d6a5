use sorcerers::card::{Ability, CardType, Rarity, Region};
use sorcerers::card_query::{CardModel, CardQueryModel};
use sorcerers::combat::{
    chosen_defenders, combat_query_matches, duel_effects, group_fight_effects, possible_defenders, strike_effects,
    CombatEffect, CombatError, CombatQuery, DamageModel, Fighter,
};
use sorcerers::effect::FightContext;
use sorcerers::thresholds::Element;
use sorcerers::zone::{Location, Zone};
use uuid::Uuid;

fn square(s: u8) -> Zone {
    Zone::Location(Location::Square(s, Region::Surface))
}

fn fighter(s: u8, power: Option<u16>) -> Fighter {
    Fighter {
        id: Uuid::new_v4(),
        controller_id: Uuid::new_v4(),
        zone: square(s),
        in_fight_zone: false,
        power,
        first_strike: false,
        strikes_back: true,
        survives_first_strikes: true,
    }
}

fn hit(e: &CombatEffect) -> (Uuid, Uuid, u16) {
    match e {
        CombatEffect::TakeDamage { card_id, from, damage: DamageModel::Fight { amount, context: FightContext::Attack } } => {
            (*card_id, *from, *amount)
        }
        _ => panic!("expected a blow of an attack"),
    }
}

#[test]
fn both_units_strike_at_once_without_first_strike() {
    let a = fighter(3, Some(4));
    let d = fighter(8, Some(2));
    let e = duel_effects(&a, &d, FightContext::Attack).unwrap();
    assert_eq!(e.len(), 3);
    assert_eq!(hit(&e[0]), (a.id, d.id, 2));
    assert_eq!(hit(&e[1]), (d.id, a.id, 4));
    match &e[2] {
        CombatEffect::MoveCard { card_id, from, to, .. } => {
            assert_eq!(*card_id, a.id);
            assert_eq!((from, to), (&square(3), &square(8)));
        }
        _ => panic!("expected the attacker to move"),
    }
}

#[test]
fn first_strike_goes_first_and_the_dead_do_not_strike_back() {
    let mut a = fighter(8, Some(4));
    a.in_fight_zone = true;
    a.first_strike = true;
    let mut d = fighter(8, Some(2));
    d.survives_first_strikes = false;
    let e = duel_effects(&a, &d, FightContext::FightOnly).unwrap();
    assert_eq!(e.len(), 1);
    assert!(matches!(e[0], CombatEffect::TakeDamage { card_id, damage: DamageModel::Fight { amount: 4, context: FightContext::FightOnly }, .. } if card_id == d.id));
    d.survives_first_strikes = true;
    d.first_strike = true;
    a.first_strike = false;
    a.survives_first_strikes = true;
    let e = duel_effects(&a, &d, FightContext::FightOnly).unwrap();
    assert_eq!(e.len(), 2);
    assert!(matches!(e[1], CombatEffect::TakeDamage { card_id, .. } if card_id == a.id));
    assert!(matches!(e[0], CombatEffect::TakeDamage { card_id, .. } if card_id == d.id));
    let powerless = fighter(8, None);
    assert_eq!(duel_effects(&powerless, &d, FightContext::Attack).err(), Some(CombatError::NoPower));
}

#[test]
fn strikes_deal_the_strikers_power() {
    let s = fighter(1, Some(3));
    let t = Uuid::new_v4();
    let e = strike_effects(&s, false, &t).unwrap();
    assert!(matches!(e[..], [CombatEffect::TakeDamage { card_id, damage: DamageModel::Strike { amount: 3 }, .. }] if card_id == t));
    assert!(strike_effects(&s, true, &t).unwrap().is_empty());
    assert_eq!(strike_effects(&fighter(1, None), false, &t).err(), Some(CombatError::NoPower));
    assert!(strike_effects(&fighter(1, None), true, &t).unwrap().is_empty());
}

#[test]
fn defenders_share_the_assigned_damage_while_it_lasts() {
    let a = fighter(3, Some(5));
    let mut d1 = fighter(8, Some(1));
    d1.in_fight_zone = true;
    d1.strikes_back = false;
    let d2 = fighter(9, Some(2));
    let ds = vec![d1.clone(), d2.clone()];
    let asg = Some(vec![(d2.id, 4), (d1.id, 3)]);
    let e = group_fight_effects(&a, &square(8), &ds, &asg, FightContext::Attack).unwrap();
    assert_eq!(e.len(), 6);
    assert_eq!(hit(&e[0]), (a.id, d2.id, 2));
    assert_eq!(hit(&e[1]), (d2.id, a.id, 2));
    assert_eq!(hit(&e[2]), (d1.id, a.id, 3));
    assert!(matches!(&e[3], CombatEffect::MoveCard { card_id, to, .. } if *card_id == d2.id && *to == square(8)));
    assert!(matches!(e[4], CombatEffect::Tap { card_id } if card_id == d1.id));
    assert!(matches!(e[5], CombatEffect::MoveCard { card_id, .. } if card_id == a.id));
    let e = group_fight_effects(&a, &square(8), &ds, &None, FightContext::Attack).unwrap();
    assert_eq!(hit(&e[1]), (d2.id, a.id, 5));
    assert_eq!(hit(&e[2]), (d1.id, a.id, 5));
}

#[test]
fn first_strikes_come_before_the_rest_of_a_group_fight() {
    let mut a = fighter(8, Some(3));
    a.in_fight_zone = true;
    let mut d1 = fighter(8, Some(2));
    d1.in_fight_zone = true;
    d1.first_strike = true;
    let mut d2 = fighter(8, Some(4));
    d2.in_fight_zone = true;
    d2.survives_first_strikes = true;
    let ds = vec![d1.clone(), d2.clone()];
    let e = group_fight_effects(&a, &square(8), &ds, &None, FightContext::Attack).unwrap();
    // built: tap d1, tap d2, d1 strikes a, a strikes d1, a strikes d2, d2 strikes a
    assert_eq!(e.len(), 6);
    assert_eq!(hit(&e[0]), (a.id, d2.id, 4));
    assert_eq!(hit(&e[1]), (d2.id, a.id, 3));
    assert_eq!(hit(&e[2]), (d1.id, a.id, 3));
    assert_eq!(hit(&e[3]), (a.id, d1.id, 2));
    a.survives_first_strikes = false;
    let e = group_fight_effects(&a, &square(8), &ds, &None, FightContext::Attack).unwrap();
    assert_eq!(e.len(), 4);
    let mut silent = d2.clone();
    silent.power = None;
    let ds = vec![d1.clone(), silent];
    assert_eq!(group_fight_effects(&a, &square(8), &ds, &None, FightContext::Attack).err(), Some(CombatError::NoPower));
}

#[test]
fn stealth_and_own_cards_leave_no_defenders() {
    let (p, q, c1, c2) = (Uuid::new_v4(), Uuid::new_v4(), Uuid::new_v4(), Uuid::new_v4());
    let legal = vec![c1, c2];
    assert_eq!(possible_defenders(true, &p, &q, &legal), legal);
    assert!(possible_defenders(false, &p, &q, &legal).is_empty());
    assert!(possible_defenders(true, &p, &p, &legal).is_empty());
    assert_eq!(chosen_defenders(&vec![c2, Uuid::new_v4(), c1], &legal, &vec![c1]), vec![c1]);
}

fn unit(owner: Uuid) -> CardModel {
    CardModel {
        id: Uuid::new_v4(),
        name: "Pit Vipers".to_string(),
        zone: square(8),
        in_play: true,
        region: Region::Surface,
        controller_id: owner,
        owner_id: owner,
        card_type: CardType::Minion,
        is_minion: true,
        is_avatar: false,
        tapped: false,
        rarity: Rarity::Ordinary,
        oversized: false,
        bearer: None,
        printed_mana: Some(Some(2)),
        elements: vec![Element::Earth],
        abilities: vec![Ability::Lethal],
        statuses: vec![],
        site_water: None,
        site_types: None,
        artifact_types: None,
        minion_types: Some(vec![3]),
        power: Some(1),
        targetable_by: vec![owner],
    }
}

#[test]
fn damage_queries_look_at_source_and_target() {
    let (p, q) = (Uuid::new_v4(), Uuid::new_v4());
    let (mine, theirs) = (unit(p), unit(q));
    let cards = vec![mine.clone(), theirs.clone()];
    let hit = CombatEffect::TakeDamage { card_id: theirs.id, from: mine.id, damage: DamageModel::Strike { amount: 1 } };
    let mut by_p = CardQueryModel::default();
    by_p.controlled_by = Some(vec![sorcerers::query::ValueFilter::Equals(p)]);
    let any = CombatQuery::DamageDealt { source: None, target: None };
    assert!(combat_query_matches(&any, &hit, &cards));
    let from_p = CombatQuery::DamageDealt { source: Some(by_p.clone()), target: None };
    assert!(combat_query_matches(&from_p, &hit, &cards));
    let to_p = CombatQuery::DamageDealt { source: None, target: Some(by_p.clone()) };
    assert!(!combat_query_matches(&to_p, &hit, &cards));
    let moves = CombatQuery::MoveCard { card: by_p };
    assert!(!combat_query_matches(&moves, &hit, &cards));
    let step = CombatEffect::MoveCard { player_id: p, card_id: mine.id, from: square(8), to: square(9) };
    assert!(combat_query_matches(&moves, &step, &cards));
}
