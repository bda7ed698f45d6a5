use sorcerers::card::{Ability, CardType, Rarity, Region};
use sorcerers::card_query::{CardModel, CardQueryModel};
use sorcerers::query::ValueFilter;
use sorcerers::thresholds::Element;
use sorcerers::zone::{Location, Zone};
use sorcerers::rules::{
    add_counter, expire_counters, CardCounters, CounterKind, CounterModel, apply_effect, effect_description, effect_query_matches, EffectQueryModel, CardState, EffectError, EffectModel, FollowUp, GameModel, UnitState,
};
use sorcerers::combat::DamageModel;
use sorcerers::deck::Deck;
use sorcerers::effect::DrawKind;
use sorcerers::state::{Phase, Player, Standings, Turn, TurnError, TurnIterator};
use uuid::Uuid;

struct Setup {
    game: GameModel,
    one: Uuid,
    two: Uuid,
    avatar_one: Uuid,
    minion: Uuid,
}

fn setup() -> Setup {
    let (one, two) = (Uuid::new_v4(), Uuid::new_v4());
    let (avatar_one, minion) = (Uuid::new_v4(), Uuid::new_v4());
    let game = GameModel {
        standings: Standings {
            players: vec![
                Player { id: one, name: "One".to_string() },
                Player { id: two, name: "Two".to_string() },
            ],
            eliminated_players: vec![],
        },
        turns: TurnIterator::new(vec![one, two]),
        phase: Phase::Mulligan,
        turns_taken: 0,
        player_one: one,
        mana: vec![(one, 3)],
        avatars: vec![(one, avatar_one)],
        decks: vec![Deck {
            name: "One's deck".to_string(),
            player_id: one,
            sites: vec![],
            spells: vec![minion],
            avatar: avatar_one,
        }],
        cards: vec![
            CardState {
                id: avatar_one,
                tapped: false,
                in_hand: false,
                is_site: false,
                in_play: true,
                summoning_sick: true,
                can_die: false,
                provided_mana: 0,
                power: None,
                disabled: false,
                stealth: false,
                controller_id: one,
                bearer: None,
                unit: Some(UnitState { toughness: 20, damage: 5 }),
                deaths_door: Some(false),
            },
            CardState {
                id: minion,
                tapped: true,
                in_hand: false,
                is_site: false,
                in_play: true,
                summoning_sick: true,
                can_die: false,
                provided_mana: 0,
                power: None,
                disabled: false,
                stealth: false,
                controller_id: one,
                bearer: None,
                unit: Some(UnitState { toughness: 3, damage: 2 }), deaths_door: None },
        ],
    };
    Setup { game, one, two, avatar_one, minion }
}

#[test]
fn setting_an_avatars_life_sets_its_damage() {
    let mut s = setup();
    assert_eq!(apply_effect(&mut s.game, &EffectModel::SetAvatarLife { player_id: s.one, life: 12 }), Ok(vec![]));
    assert_eq!(s.game.cards[0].unit, Some(UnitState { toughness: 20, damage: 8 }));
    assert_eq!(s.game.cards[0].deaths_door, Some(false));
    assert_eq!(
        apply_effect(&mut s.game, &EffectModel::SetAvatarLife { player_id: s.two, life: 12 }),
        Err(EffectError::NoAvatar)
    );
    assert_eq!(EffectError::NoAvatar.message(), "failed to get player avatar id");
}

#[test]
fn an_avatar_without_life_goes_to_deaths_door_and_stays_there() {
    let mut s = setup();
    apply_effect(&mut s.game, &EffectModel::AdjustAvatarLife { player_id: s.one, amount: -40 }).unwrap();
    assert_eq!(s.game.cards[0].unit, Some(UnitState { toughness: 20, damage: 20 }));
    assert_eq!(s.game.cards[0].deaths_door, Some(true));
    apply_effect(&mut s.game, &EffectModel::AdjustAvatarLife { player_id: s.one, amount: 10 }).unwrap();
    apply_effect(&mut s.game, &EffectModel::Heal { card_id: s.avatar_one, amount: 10 }).unwrap();
    assert_eq!(s.game.cards[0].unit, Some(UnitState { toughness: 20, damage: 20 }));
}

#[test]
fn gaining_life_stops_at_toughness() {
    let mut s = setup();
    apply_effect(&mut s.game, &EffectModel::AdjustAvatarLife { player_id: s.one, amount: 100 }).unwrap();
    assert_eq!(s.game.cards[0].unit, Some(UnitState { toughness: 20, damage: 0 }));
    apply_effect(&mut s.game, &EffectModel::AdjustAvatarLife { player_id: s.one, amount: i16::MIN }).unwrap();
    assert_eq!(s.game.cards[0].deaths_door, Some(true));
}

#[test]
fn healing_and_tapping_change_one_card() {
    let mut s = setup();
    apply_effect(&mut s.game, &EffectModel::Heal { card_id: s.minion, amount: 5 }).unwrap();
    assert_eq!(s.game.cards[1].unit, Some(UnitState { toughness: 3, damage: 0 }));
    apply_effect(&mut s.game, &EffectModel::SetTapped { card_id: s.minion, tapped: false }).unwrap();
    assert!(!s.game.cards[1].tapped);
    s.game.cards[1].unit = None;
    assert_eq!(apply_effect(&mut s.game, &EffectModel::Heal { card_id: s.minion, amount: 1 }), Err(EffectError::NoUnitBase));
}

#[test]
fn mana_changes_and_ends_of_turn() {
    let mut s = setup();
    apply_effect(&mut s.game, &EffectModel::AdjustMana { player_id: s.one, mana: -2 }).unwrap();
    apply_effect(&mut s.game, &EffectModel::AdjustMana { player_id: s.two, mana: 4 }).unwrap();
    assert_eq!(s.game.mana, vec![(s.one, 1), (s.two, 4)]);
    apply_effect(&mut s.game, &EffectModel::AdjustMana { player_id: s.two, mana: -5 }).unwrap();
    assert_eq!(s.game.mana[1], (s.two, 255));
    let next = apply_effect(&mut s.game, &EffectModel::EndTurn { player_id: s.one }).unwrap();
    assert_eq!(next, vec![FollowUp::FinishEndTurn { player_id: s.one }]);
    assert_eq!(s.game.mana[0], (s.one, 0));
    assert_eq!(s.game.phase, Phase::Main);
}

#[test]
fn players_and_turns() {
    let mut s = setup();
    apply_effect(&mut s.game, &EffectModel::SkipNextTurn { player_id: s.two }).unwrap();
    assert_eq!(s.game.turns.next_turn().player_id, s.one);
    apply_effect(&mut s.game, &EffectModel::OverrideNextTurn { turn: Turn::new(s.two) }).unwrap();
    assert_eq!(s.game.turns.next_turn().player_id, s.two);
    apply_effect(&mut s.game, &EffectModel::PlayerLost { player_id: s.two }).unwrap();
    assert_eq!(s.game.standings.winner_if_game_over().map(|p| p.id), Some(s.one));
    assert_eq!(apply_effect(&mut s.game, &EffectModel::Notify { message: "hi".to_string() }), Ok(vec![]));
    assert_eq!(apply_effect(&mut s.game, &EffectModel::Noop), Ok(vec![]));
}

#[test]
fn effects_are_described_in_the_log() {
    let s = setup();
    let players = s.game.standings.players.clone();
    let names = vec![(s.minion, "Pit Vipers".to_string())];
    let d = |e: EffectModel| effect_description(&e, &players, &names, &vec![]);
    assert_eq!(d(EffectModel::Noop), None);
    assert_eq!(d(EffectModel::Notify { message: "Hello".to_string() }), Some("Hello".to_string()));
    assert_eq!(d(EffectModel::PlayerLost { player_id: s.one }), Some("One has lost the game".to_string()));
    assert_eq!(d(EffectModel::SkipNextTurn { player_id: s.two }), Some("Two skips their next turn".to_string()));
    assert_eq!(
        d(EffectModel::OverrideNextTurn { turn: Turn::controlled_by(s.two, s.one) }),
        Some("One will control Two's next turn".to_string())
    );
    assert_eq!(
        d(EffectModel::OverrideNextTurn { turn: Turn::new(s.two) }),
        Some("Two will control their next turn".to_string())
    );
    assert_eq!(
        d(EffectModel::SetAvatarLife { player_id: s.one, life: 7 }),
        Some("One's Avatar life becomes 7".to_string())
    );
    assert_eq!(d(EffectModel::AdjustAvatarLife { player_id: s.one, amount: 3 }), Some("One gains 3 life".to_string()));
    assert_eq!(d(EffectModel::AdjustAvatarLife { player_id: s.one, amount: -12 }), Some("One loses 12 life".to_string()));
    assert_eq!(
        d(EffectModel::Heal { card_id: s.minion, amount: 2 }),
        Some("Pit Vipers heals Pit Vipers for 2 health".to_string())
    );
    assert_eq!(d(EffectModel::SetTapped { card_id: s.minion, tapped: true }), None);
    assert_eq!(d(EffectModel::AdjustMana { player_id: s.one, mana: 1 }), None);
    assert_eq!(d(EffectModel::EndTurn { player_id: Uuid::new_v4() }), Some("Unknown Player passes the turn".to_string()));
}

#[test]
fn effect_queries_wait_for_their_effects() {
    let (p, q, card) = (Uuid::new_v4(), Uuid::new_v4(), Uuid::new_v4());
    let end = EffectModel::EndTurn { player_id: p };
    assert!(effect_query_matches(&EffectQueryModel::TurnEnd { player_id: None }, &end, &vec![]));
    assert!(effect_query_matches(&EffectQueryModel::TurnEnd { player_id: Some(p) }, &end, &vec![]));
    assert!(!effect_query_matches(&EffectQueryModel::TurnEnd { player_id: Some(q) }, &end, &vec![]));
    let untap = EffectModel::SetTapped { card_id: card, tapped: false };
    let tap = EffectModel::SetTapped { card_id: card, tapped: true };
    let on_card = EffectQueryModel::UntapCard { cards: vec![card] };
    assert!(effect_query_matches(&on_card, &untap, &vec![]));
    assert!(!effect_query_matches(&on_card, &tap, &vec![]));
    assert!(!effect_query_matches(&EffectQueryModel::UntapCard { cards: vec![q] }, &untap, &vec![]));
    let any = EffectQueryModel::OneOf(vec![EffectQueryModel::Other, EffectQueryModel::TurnEnd { player_id: Some(q) }, on_card]);
    assert!(effect_query_matches(&any, &untap, &vec![]));
    assert!(!effect_query_matches(&any, &end, &vec![]));
    assert!(!effect_query_matches(&EffectQueryModel::OneOf(vec![]), &end, &vec![]));
    let start = EffectModel::StartTurn { player_id: p };
    assert!(effect_query_matches(&EffectQueryModel::TurnStart { player_id: None }, &start, &vec![]));
    assert!(effect_query_matches(&EffectQueryModel::TurnStart { player_id: Some(p) }, &start, &vec![]));
    assert!(!effect_query_matches(&EffectQueryModel::TurnStart { player_id: Some(q) }, &start, &vec![]));
    assert!(!effect_query_matches(&EffectQueryModel::TurnStart { player_id: None }, &end, &vec![]));
    assert!(!effect_query_matches(&EffectQueryModel::TurnEnd { player_id: None }, &start, &vec![]));
}

#[test]
fn counters_expire_on_their_effect() {
    let (p, q, unit, site) = (Uuid::new_v4(), Uuid::new_v4(), Uuid::new_v4(), Uuid::new_v4());
    let until_end = |who: Uuid| CounterModel {
        id: Uuid::new_v4(),
        expires_on_effect: Some(EffectQueryModel::TurnEnd { player_id: Some(who) }),
    };
    let lasting = || CounterModel { id: Uuid::new_v4(), expires_on_effect: None };
    let mut cards = vec![
        CardCounters {
            card_id: unit,
            is_unit: true,
            unit_in_play: true,
            ability_counters: vec![until_end(p), lasting(), until_end(q)],
            status_counters: vec![until_end(p)],
            power_counters: vec![until_end(p)],
        },
        CardCounters {
            card_id: site,
            is_unit: false,
            unit_in_play: false,
            ability_counters: vec![until_end(p)],
            status_counters: vec![lasting(), until_end(p)],
            power_counters: vec![until_end(p)],
        },
    ];
    expire_counters(&mut cards, &EffectModel::EndTurn { player_id: p }, &vec![]);
    assert_eq!(cards[0].ability_counters.len(), 2);
    assert!(cards[0].ability_counters[0].expires_on_effect.is_none());
    assert!(cards[0].status_counters.is_empty());
    assert!(cards[0].power_counters.is_empty());
    assert_eq!(cards[1].ability_counters.len(), 1);
    assert_eq!(cards[1].status_counters.len(), 1);
    assert_eq!(cards[1].power_counters.len(), 1);
    assert_eq!(cards[1].card_id, site);
    expire_counters(&mut cards, &EffectModel::EndTurn { player_id: p }, &vec![]);
    assert_eq!(cards[0].ability_counters.len(), 2);
    assert_eq!(cards[1].status_counters.len(), 1);
}

#[test]
fn effects_name_their_source() {
    let (p, c) = (Uuid::new_v4(), Uuid::new_v4());
    assert_eq!(EffectModel::Noop.source_id(), None);
    assert_eq!(EffectModel::PlayerLost { player_id: p }.source_id(), Some(&p));
    assert_eq!(EffectModel::Heal { card_id: c, amount: 1 }.source_id(), Some(&c));
    assert_eq!(EffectModel::OverrideNextTurn { turn: Turn::new(p) }.source_id(), None);
    assert_eq!(EffectModel::EndTurn { player_id: p }.source_id(), Some(&p));
}

#[test]
fn drawing_moves_the_top_card_to_the_hand() {
    let mut s = setup();
    let next = apply_effect(&mut s.game, &EffectModel::DrawCard { player_id: s.one, count: 1, kind: DrawKind::Spell }).unwrap();
    assert!(next.is_empty());
    assert!(s.game.cards[1].in_hand);
    assert!(s.game.decks[0].spells.is_empty());
}

#[test]
fn drawing_from_an_empty_pile_loses_the_game() {
    let mut s = setup();
    let next = apply_effect(&mut s.game, &EffectModel::DrawCard { player_id: s.one, count: 2, kind: DrawKind::Spell }).unwrap();
    assert_eq!(next, vec![FollowUp::PlayerLost { player_id: s.one }]);
    assert!(s.game.cards[1].in_hand);
    let next = apply_effect(&mut s.game, &EffectModel::DrawCard { player_id: s.one, count: 1, kind: DrawKind::Site }).unwrap();
    assert_eq!(next, vec![FollowUp::PlayerLost { player_id: s.one }]);
}

#[test]
fn draws_by_choice_and_without_a_deck() {
    let mut s = setup();
    assert_eq!(
        apply_effect(&mut s.game, &EffectModel::DrawCard { player_id: s.one, count: 2, kind: DrawKind::Choice }),
        Ok(vec![FollowUp::ChooseDraws { player_id: s.one, count: 2 }])
    );
    assert_eq!(
        apply_effect(&mut s.game, &EffectModel::DrawCard { player_id: s.two, count: 1, kind: DrawKind::Site }),
        Err(EffectError::NoDeck)
    );
    assert_eq!(apply_effect(&mut s.game, &EffectModel::DrawCard { player_id: s.two, count: 0, kind: DrawKind::Site }), Ok(vec![]));
    let players = s.game.standings.players.clone();
    assert_eq!(
        effect_description(&EffectModel::DrawCard { player_id: s.one, count: 2, kind: DrawKind::Site }, &players, &vec![], &vec![]),
        Some("One draws 2 sites".to_string())
    );
    assert_eq!(
        effect_description(&EffectModel::DrawCard { player_id: s.two, count: 1, kind: DrawKind::Choice }, &players, &vec![], &vec![]),
        Some("Two draws 1 card".to_string())
    );
    assert_eq!(effect_description(&EffectModel::DrawCard { player_id: s.two, count: 0, kind: DrawKind::Spell }, &players, &vec![], &vec![]), None);
    let q = EffectQueryModel::DrawCard { player_id: Some(s.one) };
    assert!(effect_query_matches(&q, &EffectModel::DrawCard { player_id: s.one, count: 1, kind: DrawKind::Spell }, &vec![]));
    assert!(!effect_query_matches(&q, &EffectModel::DrawCard { player_id: s.two, count: 1, kind: DrawKind::Spell }, &vec![]));
}

#[test]
fn carrying_and_control_change_one_card() {
    let mut s = setup();
    assert_eq!(
        apply_effect(&mut s.game, &EffectModel::SetBearer { card_id: s.minion, bearer_id: Some(s.avatar_one) }),
        Ok(vec![])
    );
    assert_eq!(s.game.cards[1].bearer, Some(s.avatar_one));
    assert_eq!(s.game.cards[0].bearer, None);
    apply_effect(&mut s.game, &EffectModel::SetBearer { card_id: s.minion, bearer_id: None }).unwrap();
    assert_eq!(s.game.cards[1].bearer, None);
    assert_eq!(
        apply_effect(&mut s.game, &EffectModel::SetBearer { card_id: Uuid::new_v4(), bearer_id: None }),
        Ok(vec![])
    );
    apply_effect(&mut s.game, &EffectModel::SetController { card_id: s.minion, player_id: s.two }).unwrap();
    assert_eq!(s.game.cards[1].controller_id, s.two);
    assert_eq!(s.game.cards[0].controller_id, s.one);
}

#[test]
fn carrying_and_control_are_described_in_the_log() {
    let s = setup();
    let players = s.game.standings.players.clone();
    let names = vec![(s.minion, "Pit Vipers".to_string()), (s.avatar_one, "Sorcerer".to_string())];
    assert_eq!(
        effect_description(&EffectModel::SetBearer { card_id: s.minion, bearer_id: Some(s.avatar_one) }, &players, &names, &vec![]),
        Some("Pit Vipers is now carried by Sorcerer".to_string())
    );
    assert_eq!(
        effect_description(&EffectModel::SetBearer { card_id: s.minion, bearer_id: None }, &players, &names, &vec![]),
        Some("Pit Vipers is no longer carried".to_string())
    );
    assert_eq!(
        effect_description(&EffectModel::SetController { card_id: s.minion, player_id: s.two }, &players, &names, &vec![]),
        Some("Two gains control of Pit Vipers".to_string())
    );
    assert_eq!(EffectModel::SetBearer { card_id: s.minion, bearer_id: None }.source_id(), Some(&s.minion));
    assert_eq!(EffectModel::SetController { card_id: s.minion, player_id: s.two }.source_id(), Some(&s.minion));
}

#[test]
fn rearranging_puts_the_current_players_piles_in_a_new_order() {
    let mut s = setup();
    let spells = vec![s.minion, s.avatar_one];
    assert_eq!(
        apply_effect(&mut s.game, &EffectModel::RearrangeDeck { spells: spells.clone(), sites: vec![s.minion] }),
        Ok(vec![])
    );
    assert_eq!(s.game.decks[0].spells, spells);
    assert_eq!(s.game.decks[0].sites, vec![s.minion]);
    let players = s.game.standings.players.clone();
    let e = EffectModel::RearrangeDeck { spells: vec![], sites: vec![] };
    assert_eq!(effect_description(&e, &players, &vec![], &vec![]), None);
    assert_eq!(e.source_id(), None);
    s.game.turns = TurnIterator::new(vec![s.two, s.one]);
    assert_eq!(apply_effect(&mut s.game, &e), Err(EffectError::NoDeck));
    assert_eq!(s.game.decks[0].spells, spells);
}

#[test]
fn the_end_of_turn_clean_up_heals_units_and_lets_avatars_at_deaths_door_die() {
    let mut s = setup();
    s.game.cards[0].deaths_door = Some(true);
    let next = apply_effect(&mut s.game, &EffectModel::FinishEndTurn { player_id: s.one }).unwrap();
    assert_eq!(next, vec![FollowUp::StartTurn { player_id: s.two }]);
    assert_eq!(s.game.cards[0].unit, Some(UnitState { toughness: 20, damage: 5 }));
    assert!(s.game.cards[0].can_die);
    assert!(!s.game.cards[0].summoning_sick);
    assert_eq!(s.game.cards[1].unit, Some(UnitState { toughness: 3, damage: 0 }));
    assert!(!s.game.cards[1].summoning_sick);
    s.game.cards[1].unit = Some(UnitState { toughness: 3, damage: 1 });
    s.game.cards[1].in_play = false;
    apply_effect(&mut s.game, &EffectModel::FinishEndTurn { player_id: s.one }).unwrap();
    assert_eq!(s.game.cards[1].unit, Some(UnitState { toughness: 3, damage: 1 }));
    let players = s.game.standings.players.clone();
    let e = EffectModel::FinishEndTurn { player_id: s.one };
    assert_eq!(effect_description(&e, &players, &vec![], &vec![]), None);
    assert_eq!(e.source_id(), Some(&s.one));
    assert!(apply_effect(&mut s.game, &EffectModel::StartTurn { player_id: s.two }).is_ok());
    assert_eq!(s.game.turns.current().player_id, s.two);
}

#[test]
fn a_turn_starts_with_untapped_cards_and_the_mana_they_provide() {
    let mut s = setup();
    s.game.cards[1].provided_mana = 3;
    s.game.cards[0].provided_mana = 1;
    s.game.cards[0].tapped = true;
    let next = apply_effect(&mut s.game, &EffectModel::StartTurn { player_id: s.one }).unwrap();
    assert_eq!(
        next,
        vec![FollowUp::Wait { player_id: s.one }, FollowUp::FinishStartTurn { player_id: s.one, previous_controller: s.one }]
    );
    assert!(!s.game.cards[0].tapped && !s.game.cards[1].tapped);
    assert_eq!(s.game.mana[0], (s.one, 4));
    s.game.cards[1].tapped = true;
    s.game.cards[1].in_play = false;
    apply_effect(&mut s.game, &EffectModel::StartTurn { player_id: s.one }).unwrap();
    assert!(s.game.cards[1].tapped);
    assert_eq!(s.game.mana[0], (s.one, 1));
    let players = s.game.standings.players.clone();
    assert_eq!(
        effect_description(&EffectModel::StartTurn { player_id: s.two }, &players, &vec![], &vec![]),
        Some("--- Two's turn begins ---".to_string())
    );
}

#[test]
fn starting_a_turn_out_of_order_is_refused() {
    let mut s = setup();
    let stranger = Uuid::new_v4();
    let r = apply_effect(&mut s.game, &EffectModel::StartTurn { player_id: stranger });
    let e = EffectError::Turn(TurnError::UnexpectedTurn { expected: stranger, got: s.two });
    assert_eq!(r, Err(e));
    assert_eq!(s.game.turns.current().player_id, s.two);
    assert_eq!(e.message(), format!("expected next turn for player {}, got {}", stranger, s.two));
    let next = apply_effect(&mut s.game, &EffectModel::StartTurn { player_id: s.two }).unwrap();
    assert_eq!(next[1], FollowUp::FinishStartTurn { player_id: s.two, previous_controller: s.two });
    assert_eq!(s.game.mana[1], (s.two, 0));
}

#[test]
fn the_first_player_skips_the_draw_of_the_first_turn() {
    let mut s = setup();
    let e = EffectModel::FinishStartTurn { player_id: s.one, previous_controller: s.two };
    assert_eq!(apply_effect(&mut s.game, &e), Ok(vec![FollowUp::Resume { player_id: s.two }]));
    assert_eq!(s.game.turns_taken, 1);
    assert_eq!(
        apply_effect(&mut s.game, &e),
        Ok(vec![FollowUp::ChooseStartingDraw { chooser: s.one, player_id: s.one }, FollowUp::Resume { player_id: s.two }])
    );
    assert_eq!(s.game.turns_taken, 2);
    let players = s.game.standings.players.clone();
    assert_eq!(effect_description(&e, &players, &vec![], &vec![]), None);
    assert_eq!(e.source_id(), Some(&s.one));
}

#[test]
fn counters_join_the_list_of_their_kind() {
    let (unit, site) = (Uuid::new_v4(), Uuid::new_v4());
    let counter = || CounterModel { id: Uuid::new_v4(), expires_on_effect: None };
    let empty = |card_id: Uuid, is_unit: bool| CardCounters {
        card_id,
        is_unit,
        unit_in_play: is_unit,
        ability_counters: vec![],
        status_counters: vec![],
        power_counters: vec![],
    };
    let mut cards = vec![empty(unit, true), empty(site, false)];
    add_counter(&mut cards, &unit, CounterKind::Power, counter());
    add_counter(&mut cards, &unit, CounterKind::Ability, counter());
    add_counter(&mut cards, &unit, CounterKind::Status, counter());
    add_counter(&mut cards, &site, CounterKind::Power, counter());
    add_counter(&mut cards, &site, CounterKind::Ability, counter());
    add_counter(&mut cards, &site, CounterKind::Status, counter());
    assert_eq!(
        (cards[0].power_counters.len(), cards[0].ability_counters.len(), cards[0].status_counters.len()),
        (1, 1, 1)
    );
    assert_eq!(
        (cards[1].power_counters.len(), cards[1].ability_counters.len(), cards[1].status_counters.len()),
        (0, 0, 1)
    );
    assert_eq!(cards[1].card_id, site);
}

#[test]
fn strikes_lose_stealth_and_deal_the_strikers_power() {
    let mut s = setup();
    s.game.cards[1].power = Some(3);
    s.game.cards[1].stealth = true;
    let e = EffectModel::Strike { striker_id: s.minion, target_id: s.avatar_one };
    assert_eq!(
        apply_effect(&mut s.game, &e),
        Ok(vec![FollowUp::TakeDamage { card_id: s.avatar_one, from: s.minion, damage: DamageModel::Strike { amount: 3 } }])
    );
    assert!(!s.game.cards[1].stealth);
    s.game.cards[1].disabled = true;
    assert_eq!(apply_effect(&mut s.game, &e), Ok(vec![]));
    s.game.cards[1].disabled = false;
    s.game.cards[1].power = None;
    assert_eq!(apply_effect(&mut s.game, &e), Err(EffectError::NoPower));
    assert_eq!(EffectError::NoPower.message(), "attacker has no power");
    let players = s.game.standings.players.clone();
    let names = vec![(s.minion, "Pit Vipers".to_string()), (s.avatar_one, "Sorcerer".to_string())];
    assert_eq!(
        effect_description(&e, &players, &names, &s.game.cards),
        Some("One strikes Sorcerer with Pit Vipers".to_string())
    );
    assert_eq!(e.source_id(), Some(&s.minion));
}

#[test]
fn killed_minions_are_buried() {
    let mut s = setup();
    let e = EffectModel::KillMinion { card_id: s.minion, killer_id: s.avatar_one, from_attack: true };
    assert_eq!(apply_effect(&mut s.game, &e), Ok(vec![FollowUp::BuryCard { card_id: s.minion }]));
    let players = s.game.standings.players.clone();
    let names = vec![(s.minion, "Pit Vipers".to_string()), (s.avatar_one, "Sorcerer".to_string())];
    assert_eq!(effect_description(&e, &players, &names, &vec![]), Some("Sorcerer kills Pit Vipers".to_string()));
    assert_eq!(e.source_id(), Some(&s.minion));
    let d = EffectModel::DeclareDefender { attacker_id: s.avatar_one, defender_id: s.minion };
    assert_eq!(apply_effect(&mut s.game, &d), Ok(vec![]));
    assert_eq!(effect_description(&d, &players, &names, &vec![]), None);
    assert_eq!(d.source_id(), Some(&s.minion));
}

#[test]
fn kill_and_defence_queries_look_at_the_cards() {
    let unit = |owner: Uuid| CardModel {
        id: Uuid::new_v4(),
        name: "Pit Vipers".to_string(),
        zone: Zone::Location(Location::Square(8, Region::Surface)),
        in_play: true,
        region: Region::Surface,
        controller_id: owner,
        owner_id: owner,
        card_type: CardType::Minion,
        is_minion: true,
        is_avatar: false,
        tapped: false,
        rarity: Rarity::Ordinary,
        oversized: false,
        bearer: None,
        printed_mana: Some(Some(2)),
        elements: vec![Element::Earth],
        abilities: vec![Ability::Lethal],
        statuses: vec![],
        site_water: None,
        site_types: None,
        artifact_types: None,
        minion_types: Some(vec![3]),
        power: Some(1),
        targetable_by: vec![owner],
    };
    let (p, q) = (Uuid::new_v4(), Uuid::new_v4());
    let (mine, theirs) = (unit(p), unit(q));
    let cards = vec![mine.clone(), theirs.clone()];
    let mut of_p = CardQueryModel::default();
    of_p.controlled_by = Some(vec![ValueFilter::Equals(p)]);
    let mut of_q = CardQueryModel::default();
    of_q.controlled_by = Some(vec![ValueFilter::Equals(q)]);
    let kill = EffectModel::KillMinion { card_id: theirs.id, killer_id: mine.id, from_attack: true };
    let killed = |unit: &CardQueryModel, killer: Option<CardQueryModel>, from_attack: Option<bool>| {
        EffectQueryModel::UnitKilled { unit: unit.clone(), killer, from_attack }
    };
    assert!(effect_query_matches(&killed(&of_q, None, None), &kill, &cards));
    assert!(effect_query_matches(&killed(&of_q, Some(of_p.clone()), Some(true)), &kill, &cards));
    assert!(!effect_query_matches(&killed(&of_q, Some(of_q.clone()), None), &kill, &cards));
    assert!(!effect_query_matches(&killed(&of_q, None, Some(false)), &kill, &cards));
    assert!(!effect_query_matches(&killed(&of_p, None, None), &kill, &cards));
    let defend = EffectModel::DeclareDefender { attacker_id: mine.id, defender_id: theirs.id };
    let declared = EffectQueryModel::DefendDeclared { attacker: of_p.clone(), defender: of_q.clone() };
    assert!(effect_query_matches(&declared, &defend, &cards));
    assert!(!effect_query_matches(&declared, &kill, &cards));
    let wrong = EffectQueryModel::DefendDeclared { attacker: of_q.clone(), defender: of_q.clone() };
    assert!(!effect_query_matches(&wrong, &defend, &cards));
    assert!(effect_query_matches(&EffectQueryModel::OneOf(vec![wrong, declared]), &defend, &cards));
}
