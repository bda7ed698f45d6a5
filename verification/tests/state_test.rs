use sorcerers::card::Ability;
use sorcerers::state::{
    AbilityRemoval, AffinityModifier, Player, Standings, Turn, TurnError, TurnIterator,
};
use sorcerers::thresholds::Thresholds;

#[test]
fn test_turn_iterator() {
    let player_one = uuid::Uuid::new_v4();
    let player_two = uuid::Uuid::new_v4();
    let mut it = TurnIterator::new(vec![player_one, player_two]);

    assert_eq!(it.current().player_id, player_one);

    let curr = it.next();
    assert!(curr.is_some());
    assert_eq!(curr.unwrap().player_id, player_two);

    it.override_next(Turn::controlled_by(player_two, player_one));

    let curr = it.next();
    assert!(curr.is_some());
    let curr = curr.unwrap();
    assert_eq!(curr.player_id, player_two);
    assert_eq!(curr.controller_override, Some(player_one));

    let curr = it.next();
    assert!(curr.is_some());
    assert_eq!(curr.unwrap().player_id, player_one);
}

#[test]
fn test_turn_iterator_skips_next_turn() {
    let player_one = uuid::Uuid::new_v4();
    let player_two = uuid::Uuid::new_v4();
    let player_three = uuid::Uuid::new_v4();
    let mut it = TurnIterator::new(vec![player_one, player_two, player_three]);

    it.skip_next_for(&player_two);

    let curr = it.next();
    assert!(curr.is_some());
    assert_eq!(curr.unwrap().player_id, player_three);
}

#[test]
fn test_turn_iterator_skips_future_multiplayer_turn() {
    let player_one = uuid::Uuid::new_v4();
    let player_two = uuid::Uuid::new_v4();
    let player_three = uuid::Uuid::new_v4();
    let mut it = TurnIterator::new(vec![player_one, player_two, player_three]);

    it.skip_next_for(&player_three);

    let curr = it.next();
    assert!(curr.is_some());
    assert_eq!(curr.unwrap().player_id, player_two);

    let curr = it.next();
    assert!(curr.is_some());
    assert_eq!(curr.unwrap().player_id, player_one);
}

#[test]
fn test_turn_iterator_skips_overridden_turn() {
    let player_one = uuid::Uuid::new_v4();
    let player_two = uuid::Uuid::new_v4();
    let player_three = uuid::Uuid::new_v4();
    let mut it = TurnIterator::new(vec![player_one, player_two, player_three]);

    it.override_next(Turn::controlled_by(player_three, player_one));
    it.skip_next_for(&player_three);

    let curr = it.next();
    assert!(curr.is_some());
    assert_eq!(curr.unwrap().player_id, player_two);
}

#[test]
fn turns_cycle_through_the_seating_order() {
    let p1 = uuid::Uuid::new_v4();
    let p2 = uuid::Uuid::new_v4();
    let p3 = uuid::Uuid::new_v4();
    let mut it = TurnIterator::new(vec![p1, p2, p3]);
    let order: Vec<_> = (0..6).map(|_| it.next().unwrap().player_id).collect();
    assert_eq!(order, vec![p2, p3, p1, p2, p3, p1]);
    assert_eq!(it.next_turn().player_id, p2);
}

#[test]
fn skipping_a_later_player_keeps_the_turns_before_it() {
    let p1 = uuid::Uuid::new_v4();
    let p2 = uuid::Uuid::new_v4();
    let p3 = uuid::Uuid::new_v4();
    let p4 = uuid::Uuid::new_v4();
    let mut it = TurnIterator::new(vec![p1, p2, p3, p4]);
    it.skip_next_for(&p4);
    let order: Vec<_> = (0..5).map(|_| it.next().unwrap().player_id).collect();
    assert_eq!(order, vec![p2, p3, p1, p2, p3]);
}

#[test]
fn skipping_an_absent_player_changes_nothing() {
    let p1 = uuid::Uuid::new_v4();
    let p2 = uuid::Uuid::new_v4();
    let stranger = uuid::Uuid::new_v4();
    let mut it = TurnIterator::new(vec![p1, p2]);
    it.skip_next_for(&stranger);
    assert_eq!(it.next().unwrap().player_id, p2);
    assert_eq!(it.next().unwrap().player_id, p1);
}

#[test]
fn upcoming_turns_come_after_earlier_overrides() {
    let p1 = uuid::Uuid::new_v4();
    let p2 = uuid::Uuid::new_v4();
    let mut it = TurnIterator::new(vec![p1, p2]);
    it.override_next(Turn::new(p1));
    it.override_upcoming(vec![Turn::controlled_by(p2, p1), Turn::new(p2)]);
    let t = it.next().unwrap();
    assert_eq!(t.player_id, p1);
    assert_eq!(t.controller_id(), p1);
    let t = it.next().unwrap();
    assert_eq!(t.player_id, p2);
    assert_eq!(t.controller_id(), p1);
    assert_eq!(t.controller_override(), Some(p1));
    let t = it.next().unwrap();
    assert_eq!(t.controller_override(), None);
    assert_eq!(it.next().unwrap().player_id, p2);
}

#[test]
fn a_turn_controlled_by_its_own_player_has_no_override() {
    let p1 = uuid::Uuid::new_v4();
    let t = Turn::controlled_by(p1, p1);
    assert_eq!(t.controller_override(), None);
    assert_eq!(t.controller_id(), p1);
    assert_eq!(t.player_id(), p1);
}

#[test]
fn exact_removal_removes_only_its_ability() {
    let r = AbilityRemoval::exact(Ability::Airborne);
    assert!(r.removes(&Ability::Airborne));
    assert!(!r.removes(&Ability::Stealth));
    assert!(!r.is_silence());
    assert!(!r.removes_special_abilities());
}

#[test]
fn silence_removes_keyword_abilities() {
    let r = AbilityRemoval::SpecialAbilities;
    assert!(r.is_silence());
    assert!(r.removes_special_abilities());
    assert!(r.removes(&Ability::Movement(99)));
    assert!(r.removes(&Ability::Ranged(99)));
    assert!(r.removes(&Ability::CarryMinions(99)));
    assert!(r.removes(&Ability::Immobile));
    assert!(r.removes(&Ability::CannotDefend));
}

#[test]
fn losing_all_abilities_except_some_keeps_those() {
    let r = AbilityRemoval::AllAbilitiesExcept(vec![Ability::Stealth]);
    assert!(r.removes(&Ability::Airborne));
    assert!(r.removes(&Ability::Flooded));
    assert!(!r.removes(&Ability::Stealth));
    assert!(r.removes_special_abilities());
    assert!(AbilityRemoval::AllAbilities.removes(&Ability::Flooded));
}

fn t(fire: u8, air: u8, earth: u8, water: u8) -> Thresholds {
    Thresholds { fire, air, earth, water }
}

#[test]
fn affinity_modifiers() {
    let mut a = t(1, 0, 3, 2);
    AffinityModifier::AddMinimum(t(2, 1, 1, 0)).apply(&mut a);
    assert_eq!(a, t(2, 1, 3, 2));
    AffinityModifier::Remove(t(5, 0, 1, 1)).apply(&mut a);
    assert_eq!(a, t(0, 1, 2, 1));
    AffinityModifier::SetTo(t(0, 0, 0, 9)).apply(&mut a);
    assert_eq!(a, t(0, 0, 0, 9));
}

#[test]
fn test_game_is_over_only_when_one_player_remains() {
    let first_player = Player { id: uuid::Uuid::new_v4(), name: "Player 1".to_string() };
    let second_player = Player { id: uuid::Uuid::new_v4(), name: "Player 2".to_string() };
    let third_player = Player { id: uuid::Uuid::new_v4(), name: "Player 3".to_string() };
    let mut state = Standings {
        players: vec![first_player.clone(), second_player.clone()],
        eliminated_players: vec![],
    };
    state.players.push(third_player.clone());

    assert_eq!(state.living_players().len(), 3);
    assert!(state.winner_if_game_over().is_none());

    state.eliminate_player(first_player.id);
    assert_eq!(state.living_players().len(), 2);
    assert!(state.winner_if_game_over().is_none());

    state.eliminate_player(second_player.id);
    assert_eq!(state.winner_if_game_over().map(|player| player.id), Some(third_player.id));
}

#[test]
fn eliminating_twice_changes_nothing() {
    let a = Player { id: uuid::Uuid::new_v4(), name: "A".to_string() };
    let b = Player { id: uuid::Uuid::new_v4(), name: "B".to_string() };
    let mut state = Standings { players: vec![a.clone(), b.clone()], eliminated_players: vec![] };
    state.eliminate_player(a.id);
    state.eliminate_player(a.id);
    assert_eq!(state.eliminated_players, vec![a.id]);
    assert!(state.is_player_eliminated(&a.id));
    assert!(!state.is_player_eliminated(&b.id));
    let living: Vec<String> = state.living_players().iter().map(|p| p.name.clone()).collect();
    assert_eq!(living, vec!["B".to_string()]);
    assert_eq!(state.winner_if_game_over().map(|p| p.name.clone()), Some("B".to_string()));
}

#[test]
fn everyone_eliminated_means_no_winner() {
    let a = Player { id: uuid::Uuid::new_v4(), name: "A".to_string() };
    let mut state = Standings { players: vec![a.clone()], eliminated_players: vec![] };
    assert_eq!(state.winner_if_game_over().map(|p| p.id), Some(a.id));
    state.eliminate_player(a.id);
    assert!(state.winner_if_game_over().is_none());
    assert!(state.living_players().is_empty());
}

#[test]
fn the_controller_decides_for_the_current_player() {
    let (one, two) = (uuid::Uuid::new_v4(), uuid::Uuid::new_v4());
    let mut it = TurnIterator::new(vec![one, two]);
    assert_eq!(it.decision_player(&one), one);
    assert_eq!(it.decision_player(&two), two);
    it.override_next(Turn::controlled_by(one, two));
    it.next();
    assert_eq!(it.decision_player(&one), two);
    assert_eq!(it.decision_player(&two), two);
}

#[test]
fn advancing_to_a_players_turn() {
    let (one, two, three) = (uuid::Uuid::new_v4(), uuid::Uuid::new_v4(), uuid::Uuid::new_v4());
    let mut it = TurnIterator::new(vec![one, two, three]);
    assert_eq!(it.advance_to_turn(&one).unwrap().player_id, one);
    assert_eq!(it.current().player_id, one);
    assert_eq!(it.advance_to_turn(&two).unwrap().player_id, two);
    assert_eq!(it.current().player_id, two);
    assert_eq!(
        it.advance_to_turn(&two.clone()).map(|t| t.player_id),
        Ok(two)
    );
    assert_eq!(
        it.advance_to_turn(&one).map(|t| t.player_id),
        Err(TurnError::UnexpectedTurn { expected: one, got: three })
    );
    assert_eq!(it.current().player_id, three);
}

#[test]
fn an_unexpected_turn_names_both_players() {
    let (one, two) = (uuid::Uuid::new_v4(), uuid::Uuid::new_v4());
    let e = TurnError::UnexpectedTurn { expected: one, got: two };
    assert_eq!(e.message(), format!("expected next turn for player {}, got {}", one, two));
}
