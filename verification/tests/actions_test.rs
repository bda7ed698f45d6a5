use sorcerers::actions::{
    attack_effects, carry_effects, chosen_interceptors, immediate_action_effects, move_effects, ActionEffect,
};
use sorcerers::actions::{carried_minions, minions_to_pick_up};
use sorcerers::card::{Ability, CardType, Rarity, Region};
use sorcerers::thresholds::Element;
use sorcerers::card_query::CardModel;
use sorcerers::game::UnitAction;
use sorcerers::zone::{Location, Zone};
use uuid::Uuid;

fn square(s: u8) -> Zone {
    Zone::Location(Location::Square(s, Region::Surface))
}

#[test]
fn changing_region_taps_and_artifacts_change_hands_at_once() {
    let (unit, artifact) = (Uuid::new_v4(), Uuid::new_v4());
    let e = immediate_action_effects(&UnitAction::Burrow, &unit).unwrap();
    assert!(matches!(e[..], [ActionEffect::SetCardRegion { card_id, destination: Region::Underground, tap: true }] if card_id == unit));
    let e = immediate_action_effects(&UnitAction::Submerge, &unit).unwrap();
    assert!(matches!(e[..], [ActionEffect::SetCardRegion { destination: Region::Underwater, tap: true, .. }]));
    let e = immediate_action_effects(&UnitAction::Surface, &unit).unwrap();
    assert!(matches!(e[..], [ActionEffect::SetCardRegion { destination: Region::Surface, tap: true, .. }]));
    let pick = UnitAction::PickUpArtifact { artifact_id: artifact, artifact_name: "Torshammar Trinket".to_string() };
    let e = immediate_action_effects(&pick, &unit).unwrap();
    assert!(matches!(e[..], [ActionEffect::SetBearer { card_id, bearer_id: Some(b) }] if card_id == artifact && b == unit));
    let drop = UnitAction::DropArtifact { artifact_id: artifact, artifact_name: "Torshammar Trinket".to_string() };
    let e = immediate_action_effects(&drop, &unit).unwrap();
    assert!(matches!(e[..], [ActionEffect::SetBearer { card_id, bearer_id: None }] if card_id == artifact));
    assert!(immediate_action_effects(&UnitAction::Attack, &unit).is_none());
    assert!(immediate_action_effects(&UnitAction::Move, &unit).is_none());
    assert!(immediate_action_effects(&UnitAction::PickUpMinion, &unit).is_none());
}

#[test]
fn carried_minions_follow_the_pick() {
    let (unit, a, b) = (Uuid::new_v4(), Uuid::new_v4(), Uuid::new_v4());
    let e = carry_effects(&unit, &vec![a, b], true);
    assert_eq!(e.len(), 2);
    assert!(matches!(e[1], ActionEffect::SetBearer { card_id, bearer_id: Some(c) } if card_id == b && c == unit));
    let e = carry_effects(&unit, &vec![b], false);
    assert!(matches!(e[..], [ActionEffect::SetBearer { card_id, bearer_id: None }] if card_id == b));
    assert!(carry_effects(&unit, &vec![], true).is_empty());
}

#[test]
fn attacks_with_and_without_defenders() {
    let (attacker, target, opponent, d1, d2) = (Uuid::new_v4(), Uuid::new_v4(), Uuid::new_v4(), Uuid::new_v4(), Uuid::new_v4());
    let e = attack_effects(&attacker, &target, &square(8), &opponent, &vec![], &square(1), &vec![]);
    assert!(matches!(&e[..], [ActionEffect::Attack { defender_id, defending_ids, damage_assignment: None, .. }] if *defender_id == target && defending_ids.is_empty()));

    let e = attack_effects(&attacker, &target, &square(8), &opponent, &vec![d1], &square(9), &vec![]);
    assert_eq!(e.len(), 3);
    assert!(matches!(&e[0], ActionEffect::Attack { defender_id, damage_assignment: None, .. } if *defender_id == d1));
    match &e[1] {
        ActionEffect::MoveCard { player_id, card_id, from, to, tap, through_path } => {
            assert_eq!((*player_id, *card_id, *tap), (opponent, d1, true));
            assert_eq!((from, to), (&square(9), &square(8)));
            assert!(through_path.is_none());
        }
        _ => panic!("expected the defender to move"),
    }
    assert!(matches!(e[2], ActionEffect::DeclareDefender { attacker_id, defender_id } if attacker_id == attacker && defender_id == d1));

    let shares = vec![(d1, 2), (d2, 1)];
    let e = attack_effects(&attacker, &target, &square(8), &opponent, &vec![d1, d2], &square(9), &shares);
    assert_eq!(e.len(), 3);
    match &e[0] {
        ActionEffect::Attack { attacker_id, defender_id, defending_ids, damage_assignment } => {
            assert_eq!((*attacker_id, *defender_id), (attacker, target));
            assert_eq!(defending_ids, &vec![d1, d2]);
            assert_eq!(damage_assignment, &Some(shares.clone()));
        }
        _ => panic!("expected the attack first"),
    }
    assert!(matches!(e[2], ActionEffect::DeclareDefender { defender_id, .. } if defender_id == d2));
}

#[test]
fn moves_step_backwards_after_the_interception() {
    let (player, unit, i1, i2) = (Uuid::new_v4(), Uuid::new_v4(), Uuid::new_v4(), Uuid::new_v4());
    let path = vec![square(1), square(2), square(3)];
    let e = move_effects(&player, &unit, &path, &vec![], 4, &vec![]);
    assert_eq!(e.len(), 2);
    match &e[0] {
        ActionEffect::MoveCard { from, to, tap, through_path, .. } => {
            assert_eq!((from, to, *tap), (&square(2), &square(3), true));
            assert_eq!(through_path, &Some(path.clone()));
        }
        _ => panic!("expected a step"),
    }
    assert!(matches!(&e[1], ActionEffect::MoveCard { from, .. } if *from == square(1)));

    let e = move_effects(&player, &unit, &path, &vec![i1], 4, &vec![]);
    assert_eq!(e.len(), 3);
    assert!(matches!(&e[0], ActionEffect::Attack { defender_id, damage_assignment: Some(d), .. } if *defender_id == i1 && *d == vec![(i1, 4)]));
    let e = move_effects(&player, &unit, &path, &vec![i1, i2], 4, &vec![(i1, 1), (i2, 3)]);
    assert!(matches!(&e[0], ActionEffect::Attack { defending_ids, damage_assignment: Some(d), .. } if *defending_ids == vec![i1, i2] && *d == vec![(i1, 1), (i2, 3)]));
    assert!(move_effects(&player, &unit, &vec![square(4)], &vec![], 4, &vec![]).is_empty());
    assert_eq!(chosen_interceptors(&vec![i2, unit, i1], &vec![i1, i2]), vec![i2, i1]);
}

fn unit(zone: Zone, is_minion: bool) -> CardModel {
    let owner = Uuid::new_v4();
    CardModel {
        id: Uuid::new_v4(),
        name: "Unit".to_string(),
        zone,
        in_play: true,
        region: Region::Surface,
        controller_id: owner,
        owner_id: owner,
        card_type: if is_minion { CardType::Minion } else { CardType::Avatar },
        is_minion,
        is_avatar: !is_minion,
        tapped: false,
        rarity: Rarity::Ordinary,
        oversized: false,
        bearer: None,
        printed_mana: Some(Some(2)),
        elements: vec![Element::Earth],
        abilities: vec![Ability::Lethal],
        statuses: vec![],
        site_water: None,
        site_types: None,
        artifact_types: None,
        minion_types: Some(vec![3]),
        power: Some(1),
        targetable_by: vec![owner],
    }
}

#[test]
fn units_pick_up_free_minions_where_they_stand() {
    let carrier = unit(square(8), false);
    let here = unit(square(8), true);
    let elsewhere = unit(square(9), true);
    let mut carried = unit(square(8), true);
    carried.bearer = Some(carrier.id);
    let mut in_hand = unit(Zone::Hand, true);
    in_hand.in_play = false;
    let avatar = unit(square(8), false);
    let cards = vec![carrier.clone(), here.clone(), elsewhere, carried.clone(), in_hand, avatar];
    assert_eq!(minions_to_pick_up(&carrier, &cards), vec![here.id]);
    assert_eq!(carried_minions(&carrier.id, &cards), vec![carried.id]);
    assert!(carried_minions(&here.id, &cards).is_empty());
}
