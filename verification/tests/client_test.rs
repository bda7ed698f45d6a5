use sorcerers::client::{handle_client_message, ClientMessageModel, MessageError, Reaction};
use sorcerers::deck::Deck;
use sorcerers::effect::DrawKind;
use sorcerers::rules::{CardState, EffectModel, GameModel, UnitState};
use sorcerers::state::{Phase, Player, Standings, TurnIterator};
use uuid::Uuid;

struct Table {
    game: GameModel,
    game_id: Uuid,
    one: Uuid,
    two: Uuid,
    site: Uuid,
    minion: Uuid,
}

fn card(id: Uuid, owner: Uuid, is_site: bool) -> CardState {
    CardState {
        id,
        tapped: false,
        in_hand: true,
        is_site,
        in_play: false,
        summoning_sick: false,
        can_die: false,
        provided_mana: 0,
        power: None,
        disabled: false,
        stealth: false,
        controller_id: owner,
        bearer: None,
        unit: if is_site { None } else { Some(UnitState { toughness: 1, damage: 0 }) },
        deaths_door: None,
    }
}

fn table() -> Table {
    let (one, two, game_id) = (Uuid::new_v4(), Uuid::new_v4(), Uuid::new_v4());
    let (site, minion, avatar_one, avatar_two) = (Uuid::new_v4(), Uuid::new_v4(), Uuid::new_v4(), Uuid::new_v4());
    let deck = |player_id: Uuid, avatar: Uuid| Deck { name: "Deck".to_string(), player_id, sites: vec![], spells: vec![], avatar };
    let game = GameModel {
        standings: Standings {
            players: vec![
                Player { id: one, name: "One".to_string() },
                Player { id: two, name: "Two".to_string() },
            ],
            eliminated_players: vec![],
        },
        turns: TurnIterator::new(vec![one, two]),
        phase: Phase::Mulligan,
        turns_taken: 0,
        player_one: one,
        mana: vec![],
        avatars: vec![(one, avatar_one), (two, avatar_two)],
        decks: vec![deck(one, avatar_one)],
        cards: vec![card(site, one, true), card(minion, one, false), card(avatar_one, one, false), card(avatar_two, two, false)],
    };
    Table { game, game_id, one, two, site, minion }
}

fn handle(game: &mut GameModel, game_id: Uuid, accepted: &mut Vec<Uuid>, m: ClientMessageModel) -> Result<Vec<Reaction>, MessageError> {
    handle_client_message(game, accepted, &game_id, &m)
}

#[test]
fn messages_for_another_game_or_from_strangers_are_refused() {
    let mut t = table();
    let mut accepted = vec![];
    let other = Uuid::new_v4();
    let r = handle(&mut t.game, t.game_id, &mut accepted, ClientMessageModel::EndTurn { game_id: other, player_id: t.one });
    assert_eq!(r.as_ref().err(), Some(&MessageError::WrongGame { message_game_id: other, game_id: t.game_id }));
    assert_eq!(
        r.err().unwrap().message(),
        format!("message game id {} does not match state game id {}", other, t.game_id)
    );
    let stranger = Uuid::new_v4();
    let r = handle(&mut t.game, t.game_id, &mut accepted, ClientMessageModel::PlayerDisconnected { game_id: t.game_id, player_id: stranger });
    assert_eq!(r.as_ref().err(), Some(&MessageError::UnknownPlayer { player_id: stranger }));
    assert_eq!(
        r.err().unwrap().message(),
        format!("message player id {} does not match any player in state", stranger)
    );
    let r = handle(
        &mut t.game,
        t.game_id,
        &mut accepted,
        ClientMessageModel::Other { game_id: t.game_id, player_id: t.one, card_ids: vec![t.site, Uuid::new_v4()] },
    );
    assert_eq!(r.as_ref().err(), Some(&MessageError::UnknownCard));
    assert_eq!(MessageError::UnknownCard.message(), "invalid card id");
    assert!(t.game.cards.iter().all(|c| c.in_hand));
}

#[test]
fn only_the_controller_of_the_turn_ends_it() {
    let mut t = table();
    let mut accepted = vec![];
    let r = handle(&mut t.game, t.game_id, &mut accepted, ClientMessageModel::EndTurn { game_id: t.game_id, player_id: t.two }).unwrap();
    assert!(r.is_empty());
    let r = handle(&mut t.game, t.game_id, &mut accepted, ClientMessageModel::EndTurn { game_id: t.game_id, player_id: t.one }).unwrap();
    assert_eq!(r.len(), 1);
    assert!(matches!(r[0], Reaction::Queue(EffectModel::EndTurn { player_id }) if player_id == t.one));
}

#[test]
fn a_player_who_leaves_is_announced() {
    let mut t = table();
    let mut accepted = vec![];
    let r = handle(&mut t.game, t.game_id, &mut accepted, ClientMessageModel::PlayerDisconnected { game_id: t.game_id, player_id: t.two })
        .unwrap();
    assert_eq!(r.len(), 1);
    assert!(matches!(r[0], Reaction::PlayerLeft { player_id } if player_id == t.two));
    let r = handle(&mut t.game, t.game_id, &mut accepted, ClientMessageModel::Other { game_id: t.game_id, player_id: t.two, card_ids: vec![] })
        .unwrap();
    assert!(r.is_empty());
}

#[test]
fn the_mulligan_ends_when_every_player_has_kept_a_hand() {
    let mut t = table();
    let mut accepted = vec![];
    let pick = |t: &Table, player_id: Uuid, card_ids: Vec<Uuid>| ClientMessageModel::PickCards {
        game_id: t.game_id,
        player_id,
        card_ids,
    };
    let m = pick(&t, t.one, vec![t.site, t.minion, t.site]);
    let r = handle(&mut t.game, t.game_id, &mut accepted, m).unwrap();
    assert_eq!(r.len(), 2);
    assert!(matches!(r[0], Reaction::Queue(EffectModel::DrawCard { count: 2, kind: DrawKind::Site, player_id }) if player_id == t.one));
    assert!(matches!(r[1], Reaction::Queue(EffectModel::DrawCard { count: 1, kind: DrawKind::Spell, .. })));
    assert!(!t.game.cards[0].in_hand);
    assert!(!t.game.cards[1].in_hand);
    assert!(t.game.cards[2].in_hand);
    assert_eq!(accepted, vec![t.one]);
    assert_eq!(t.game.phase, Phase::Mulligan);

    let m = pick(&t, t.two, vec![]);
    assert_eq!(handle(&mut t.game, t.game_id, &mut accepted, m).err(), Some(MessageError::NoDeck));
    assert_eq!(MessageError::NoDeck.message(), "failed to get player deck");
    assert_eq!(accepted, vec![t.one]);

    let avatar_two = t.game.avatars[1].1;
    t.game.decks.push(Deck { name: "Deck".to_string(), player_id: t.two, sites: vec![], spells: vec![], avatar: avatar_two });
    let m = pick(&t, t.one, vec![]);
    handle(&mut t.game, t.game_id, &mut accepted, m).unwrap();
    assert_eq!(accepted, vec![t.one]);
    assert_eq!(t.game.phase, Phase::Mulligan);
    let m = pick(&t, t.two, vec![]);
    let r = handle(&mut t.game, t.game_id, &mut accepted, m).unwrap();
    assert_eq!(r.len(), 3);
    assert!(matches!(r[0], Reaction::Queue(EffectModel::DrawCard { count: 0, kind: DrawKind::Site, .. })));
    assert!(matches!(r[2], Reaction::MulligansEnded));
    assert_eq!(t.game.phase, Phase::Main);

    let m = pick(&t, t.one, vec![t.minion]);
    assert!(handle(&mut t.game, t.game_id, &mut accepted, m).unwrap().is_empty());
}

#[test]
fn clicks_offer_actions_or_play_the_card() {
    let mut t = table();
    let mut accepted = vec![];
    let click = |t: &Table, player_id: Uuid, card_id: Uuid| ClientMessageModel::ClickCard { game_id: t.game_id, player_id, card_id };
    let m = click(&t, t.two, t.minion);
    assert!(handle(&mut t.game, t.game_id, &mut accepted, m).unwrap().is_empty());
    let m = click(&t, t.one, t.minion);
    let r = handle(&mut t.game, t.game_id, &mut accepted, m).unwrap();
    assert!(matches!(r[..], [Reaction::PlayCard { player_id, card_id }] if player_id == t.one && card_id == t.minion));
    t.game.cards[1].in_play = true;
    t.game.cards[1].summoning_sick = true;
    let m = click(&t, t.one, t.minion);
    assert!(handle(&mut t.game, t.game_id, &mut accepted, m).unwrap().is_empty());
    t.game.cards[1].summoning_sick = false;
    let m = click(&t, t.one, t.minion);
    let r = handle(&mut t.game, t.game_id, &mut accepted, m).unwrap();
    assert!(matches!(r[..], [Reaction::ChooseAction { player_id, card_id }] if player_id == t.one && card_id == t.minion));
    t.game.cards[1].controller_id = t.two;
    let m = click(&t, t.one, t.minion);
    assert!(handle(&mut t.game, t.game_id, &mut accepted, m).unwrap().is_empty());
    let m = click(&t, t.one, Uuid::new_v4());
    assert_eq!(handle(&mut t.game, t.game_id, &mut accepted, m).err(), Some(MessageError::UnknownCard));
}
