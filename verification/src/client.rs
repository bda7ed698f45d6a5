//! What the game does with a message from a player's client: the checks
//! that every message passes, and the decisions on leaving the game, on
//! ending a turn, on a click on a card and on the cards returned at the
//! mulligan.
//!
//! The answer is a list of reactions, which the game's loop carries out:
//! telling the other players, queueing effects, and closing the mulligan.

use crate::effect::DrawKind;
use crate::ids::{same_id, uuid_display_string, uuid_display_text, CardId, PlayerId};
use crate::rules::{
    card_ids, card_index, deck_index, find_card, find_deck, lemma_card_index, lemma_card_index_update, turn_controller, CardState,
    EffectModel, GameModel, GameView,
};
use crate::state::Phase;
use vstd::prelude::*;
use vstd::set_lib::lemma_subset_equality;

verus! {

/// A message from a player's client, each naming its game and its player.
#[derive(Debug, Clone)]
pub enum ClientMessageModel {
    /// The player's connection was lost.
    PlayerDisconnected { game_id: uuid::Uuid, player_id: PlayerId },
    /// The player ends the turn.
    EndTurn { game_id: uuid::Uuid, player_id: PlayerId },
    /// The player clicks a card.
    ClickCard { game_id: uuid::Uuid, player_id: PlayerId, card_id: CardId },
    /// The cards the player returns from the opening hand.
    PickCards { game_id: uuid::Uuid, player_id: PlayerId, card_ids: Vec<CardId> },
    /// Another message, which the game's loop answers itself, with the
    /// cards that it names.
    Other { game_id: uuid::Uuid, player_id: PlayerId, card_ids: Vec<CardId> },
}

impl ClientMessageModel {
    /// The game the message is for.
    pub open spec fn game_of(&self) -> uuid::Uuid {
        match self {
            ClientMessageModel::PlayerDisconnected { game_id, .. } => *game_id,
            ClientMessageModel::EndTurn { game_id, .. } => *game_id,
            ClientMessageModel::ClickCard { game_id, .. } => *game_id,
            ClientMessageModel::PickCards { game_id, .. } => *game_id,
            ClientMessageModel::Other { game_id, .. } => *game_id,
        }
    }

    /// The player who sent the message.
    pub open spec fn player_of(&self) -> PlayerId {
        match self {
            ClientMessageModel::PlayerDisconnected { player_id, .. } => *player_id,
            ClientMessageModel::EndTurn { player_id, .. } => *player_id,
            ClientMessageModel::ClickCard { player_id, .. } => *player_id,
            ClientMessageModel::PickCards { player_id, .. } => *player_id,
            ClientMessageModel::Other { player_id, .. } => *player_id,
        }
    }

    /// The cards the message names.
    pub open spec fn cards_of(&self) -> Seq<CardId> {
        match self {
            ClientMessageModel::ClickCard { card_id, .. } => seq![*card_id],
            ClientMessageModel::PickCards { card_ids, .. } => card_ids@,
            ClientMessageModel::Other { card_ids, .. } => card_ids@,
            _ => Seq::empty(),
        }
    }

    /// The game the message is for.
    pub fn game_id(&self) -> (r: &uuid::Uuid)
        ensures
            *r == self.game_of(),
    {
        match self {
            ClientMessageModel::PlayerDisconnected { game_id, .. } => game_id,
            ClientMessageModel::EndTurn { game_id, .. } => game_id,
            ClientMessageModel::ClickCard { game_id, .. } => game_id,
            ClientMessageModel::PickCards { game_id, .. } => game_id,
            ClientMessageModel::Other { game_id, .. } => game_id,
        }
    }

    /// The player who sent the message.
    pub fn player_id(&self) -> (r: &PlayerId)
        ensures
            *r == self.player_of(),
    {
        match self {
            ClientMessageModel::PlayerDisconnected { player_id, .. } => player_id,
            ClientMessageModel::EndTurn { player_id, .. } => player_id,
            ClientMessageModel::ClickCard { player_id, .. } => player_id,
            ClientMessageModel::PickCards { player_id, .. } => player_id,
            ClientMessageModel::Other { player_id, .. } => player_id,
        }
    }
}

/// What the game's loop does after a message.
#[derive(Debug, Clone)]
pub enum Reaction {
    /// The player has left: the others are told, and the game ends.
    PlayerLeft { player_id: PlayerId },
    /// The effect joins the queue.
    Queue(EffectModel),
    /// The player picks one of the actions of a card in play.
    ChooseAction { player_id: PlayerId, card_id: CardId },
    /// The player plays a card that is not in play, if it can be played.
    PlayCard { player_id: PlayerId, card_id: CardId },
    /// Every player has kept a hand: the queued effects are applied, then
    /// every player is told that the mulligans are over and is sent the
    /// state of the game.
    MulligansEnded,
}

/// Why a message was refused.
#[derive(Debug, Clone, Copy, PartialEq, Eq)]
pub enum MessageError {
    /// The message is for another game.
    WrongGame { message_game_id: uuid::Uuid, game_id: uuid::Uuid },
    /// The sender is not a player of the game.
    UnknownPlayer { player_id: PlayerId },
    /// The message names a card that is not in the game.
    UnknownCard,
    /// The player has no deck.
    NoDeck,
}

/// The message reported for error `e`.
pub open spec fn error_text(e: MessageError) -> Seq<char> {
    match e {
        MessageError::WrongGame { message_game_id, game_id } => "message game id "@ + uuid_display_text(
            message_game_id,
        ) + " does not match state game id "@ + uuid_display_text(game_id),
        MessageError::UnknownPlayer { player_id } => "message player id "@ + uuid_display_text(player_id)
            + " does not match any player in state"@,
        MessageError::UnknownCard => "invalid card id"@,
        MessageError::NoDeck => "failed to get player deck"@,
    }
}

impl MessageError {
    /// The message reported for this error.
    pub fn message(&self) -> (r: String)
        ensures
            r@ == error_text(*self),
    {
        match self {
            MessageError::WrongGame { message_game_id, game_id } => {
                let mut t = String::from_str("message game id ");
                let a = uuid_display_string(message_game_id);
                t.append(a.as_str());
                t.append(" does not match state game id ");
                let b = uuid_display_string(game_id);
                t.append(b.as_str());
                t
            },
            MessageError::UnknownPlayer { player_id } => {
                let mut t = String::from_str("message player id ");
                let a = uuid_display_string(player_id);
                t.append(a.as_str());
                t.append(" does not match any player in state");
                t
            },
            MessageError::UnknownCard => String::from_str("invalid card id"),
            MessageError::NoDeck => String::from_str("failed to get player deck"),
        }
    }
}

/// Why game `g`, whose identifier is `game_id`, refuses message `m`, if it
/// does: the message is for another game, its sender is no player of the
/// game, or it names a card that is not in the game.
pub open spec fn rejection(g: GameView, game_id: uuid::Uuid, m: ClientMessageModel) -> Option<MessageError> {
    if m.game_of() != game_id {
        Some(MessageError::WrongGame { message_game_id: m.game_of(), game_id })
    } else if !(exists|i: int| 0 <= i < g.players.len() && (#[trigger] g.players[i]).id == m.player_of()) {
        Some(MessageError::UnknownPlayer { player_id: m.player_of() })
    } else if exists|k: int| 0 <= k < m.cards_of().len() && card_index(g.cards, #[trigger] m.cards_of()[k]) is None {
        Some(MessageError::UnknownCard)
    } else {
        None
    }
}

/// The cards `cards` after each of `ids`, one after the other, left its
/// owner's hand; the card counts as in its pile again, though no deck
/// receives it.
pub open spec fn returned(cards: Seq<CardState>, ids: Seq<CardId>) -> Seq<CardState>
    decreases ids.len(),
{
    if ids.len() == 0 {
        cards
    } else {
        let c = returned(cards, ids.drop_last());
        match card_index(c, ids.last()) {
            Some(i) => c.update(i, CardState { in_hand: false, ..c[i] }),
            None => c,
        }
    }
}

/// How many of `ids` name sites among `cards`, each occurrence counted.
pub open spec fn sites_among(cards: Seq<CardState>, ids: Seq<CardId>) -> nat
    decreases ids.len(),
{
    if ids.len() == 0 {
        0
    } else {
        sites_among(cards, ids.drop_last()) + match card_index(cards, ids.last()) {
            Some(i) => if cards[i].is_site {
                1nat
            } else {
                0nat
            },
            None => 0nat,
        }
    }
}

/// The players who have kept their hands, `accepted`, once player `p` has.
pub open spec fn accepting(accepted: Seq<PlayerId>, p: PlayerId) -> Seq<PlayerId> {
    if accepted.contains(p) {
        accepted
    } else {
        accepted.push(p)
    }
}

/// What a click of player `p` on card `card_id` leads to in game `g`. Only
/// the controller of the current turn can click, and the turn's player
/// acts. A card in play offers its actions when the acting player controls
/// it, unless it is a unit with summoning sickness; another card is
/// played.
pub open spec fn clicked(g: GameView, p: PlayerId, card_id: CardId) -> Seq<Reaction> {
    let acting = g.turns.current.player_id;
    let c = g.cards[card_index(g.cards, card_id)->0];
    if p != turn_controller(g.turns.current) {
        Seq::empty()
    } else if !c.in_play {
        seq![Reaction::PlayCard { player_id: acting, card_id }]
    } else if c.controller_id != acting || (c.unit is Some && c.summoning_sick) {
        Seq::empty()
    } else {
        seq![Reaction::ChooseAction { player_id: acting, card_id }]
    }
}

/// What handling message `m` does to game `g`, whose identifier is
/// `game_id`, with the players `accepted` having kept their hands: the
/// game, those players and the reactions afterwards, or why the message was
/// refused.
pub open spec fn handled(g: GameView, accepted: Seq<PlayerId>, game_id: uuid::Uuid, m: ClientMessageModel) -> (
    GameView,
    Seq<PlayerId>,
    Result<Seq<Reaction>, MessageError>,
) {
    match rejection(g, game_id, m) {
        Some(e) => (g, accepted, Err(e)),
        None => match m {
            ClientMessageModel::PlayerDisconnected { player_id, .. } => (
                g,
                accepted,
                Ok(seq![Reaction::PlayerLeft { player_id }]),
            ),
            ClientMessageModel::EndTurn { player_id, .. } => if player_id == turn_controller(g.turns.current) {
                (g, accepted, Ok(seq![Reaction::Queue(EffectModel::EndTurn { player_id: g.turns.current.player_id })]))
            } else {
                (g, accepted, Ok(Seq::empty()))
            },
            ClientMessageModel::ClickCard { player_id, card_id, .. } => (g, accepted, Ok(clicked(g, player_id, card_id))),
            ClientMessageModel::PickCards { player_id, card_ids, .. } => if g.phase != Phase::Mulligan {
                (g, accepted, Ok(Seq::empty()))
            } else if deck_index(g.decks, player_id) is None {
                (g, accepted, Err(MessageError::NoDeck))
            } else {
                let sites = sites_among(g.cards, card_ids@);
                let spells = card_ids@.len() - sites;
                let draws = seq![
                    Reaction::Queue(EffectModel::DrawCard { player_id, count: (sites % 256) as u8, kind: DrawKind::Site }),
                    Reaction::Queue(EffectModel::DrawCard { player_id, count: (spells % 256) as u8, kind: DrawKind::Spell }),
                ];
                let now = accepting(accepted, player_id);
                if now.len() == g.players.len() {
                    (
                        GameView { cards: returned(g.cards, card_ids@), phase: Phase::Main, ..g },
                        now,
                        Ok(draws.push(Reaction::MulligansEnded)),
                    )
                } else {
                    (GameView { cards: returned(g.cards, card_ids@), ..g }, now, Ok(draws))
                }
            },
            ClientMessageModel::Other { .. } => (g, accepted, Ok(Seq::empty())),
        },
    }
}

/// Returning cards keeps every card in its place, with its identifier and
/// its kind, so that each identifier finds the same position as before.
proof fn lemma_returned(cards: Seq<CardState>, ids: Seq<CardId>)
    ensures
        returned(cards, ids).len() == cards.len(),
        forall|j: int|
            0 <= j < cards.len() ==> (#[trigger] returned(cards, ids)[j]).id == cards[j].id
                && returned(cards, ids)[j].is_site == cards[j].is_site,
        forall|id: CardId| #[trigger] card_index(returned(cards, ids), id) == card_index(cards, id),
    decreases ids.len(),
{
    if ids.len() > 0 {
        lemma_returned(cards, ids.drop_last());
        let c = returned(cards, ids.drop_last());
        lemma_card_index(c, ids.last());
        if let Some(i) = card_index(c, ids.last()) {
            let c2 = CardState { in_hand: false, ..c[i] };
            assert forall|id: CardId| card_index(returned(cards, ids), id) == card_index(cards, id) by {
                lemma_card_index_update(c, i, c2, id);
            }
        }
    }
}

/// Whether a player of `players` has the identifier `p`.
fn has_player(players: &Vec<crate::state::Player>, p: &PlayerId) -> (r: bool)
    ensures
        r == exists|i: int| 0 <= i < players@.len() && (#[trigger] players@[i]).id == *p,
{
    let mut i: usize = 0;
    while i < players.len()
        invariant
            i <= players@.len(),
            forall|j: int| 0 <= j < i ==> players@[j].id != *p,
        decreases players@.len() - i,
    {
        if same_id(&players[i].id, p) {
            return true;
        }
        i += 1;
    }
    false
}

/// Whether every one of `ids` is a card of `cards`.
fn cards_known(cards: &Vec<CardState>, ids: &Vec<CardId>) -> (r: bool)
    ensures
        r == !(exists|k: int| 0 <= k < ids@.len() && card_index(cards@, #[trigger] ids@[k]) is None),
{
    let mut k: usize = 0;
    while k < ids.len()
        invariant
            k <= ids@.len(),
            forall|j: int| 0 <= j < k ==> card_index(cards@, #[trigger] ids@[j]) is Some,
        decreases ids@.len() - k,
    {
        if find_card(cards, &ids[k]).is_none() {
            return false;
        }
        k += 1;
    }
    true
}

/// Checks message `m` against game `game`, whose identifier is `game_id`.
fn check_message(game: &GameModel, game_id: &uuid::Uuid, m: &ClientMessageModel) -> (r: Result<(), MessageError>)
    ensures
        r matches Err(e) ==> rejection(game.view(), *game_id, *m) == Some(e),
        r is Ok ==> rejection(game.view(), *game_id, *m) is None,
{
    let mg = m.game_id();
    if !same_id(mg, game_id) {
        return Err(MessageError::WrongGame { message_game_id: *mg, game_id: *game_id });
    }
    let p = m.player_id();
    if !has_player(&game.standings.players, p) {
        return Err(MessageError::UnknownPlayer { player_id: *p });
    }
    proof {
        let i = choose|i: int| 0 <= i < game.standings.players@.len() && (#[trigger] game.standings.players@[i]).id == *p;
        assert(game.view().players[i].id == m.player_of());
    }
    match m {
        ClientMessageModel::ClickCard { card_id, .. } => {
            if find_card(&game.cards, card_id).is_none() {
                proof {
                    assert(m.cards_of()[0] == *card_id);
                }
                return Err(MessageError::UnknownCard);
            }
        },
        ClientMessageModel::PickCards { card_ids, .. } => {
            assert(m.cards_of() == card_ids@);
            if !cards_known(&game.cards, card_ids) {
                return Err(MessageError::UnknownCard);
            }
        },
        ClientMessageModel::Other { card_ids, .. } => {
            assert(m.cards_of() == card_ids@);
            if !cards_known(&game.cards, card_ids) {
                return Err(MessageError::UnknownCard);
            }
        },
        _ => {},
    }
    Ok(())
}

/// Takes each of `ids` out of its owner's hand, and counts the sites among
/// them.
fn return_cards(game: &mut GameModel, ids: &Vec<CardId>) -> (sites: usize)
    requires
        old(game).valid(),
        forall|k: int| 0 <= k < ids@.len() ==> card_index(old(game).cards@, #[trigger] ids@[k]) is Some,
    ensures
        final(game).valid(),
        final(game).view() == (GameView { cards: returned(old(game).view().cards, ids@), ..old(game).view() }),
        sites == sites_among(old(game).cards@, ids@),
        sites <= ids@.len(),
{
    let ghost g = game.view();
    let mut sites: usize = 0;
    let mut k: usize = 0;
    while k < ids.len()
        invariant
            k <= ids@.len(),
            g == old(game).view(),
            game.view() == (GameView { cards: returned(g.cards, ids@.take(k as int)), ..g }),
            sites == sites_among(g.cards, ids@.take(k as int)),
            sites <= k,
            forall|j: int| 0 <= j < ids@.len() ==> card_index(g.cards, #[trigger] ids@[j]) is Some,
        decreases ids@.len() - k,
    {
        proof {
            lemma_returned(g.cards, ids@.take(k as int));
            lemma_card_index(g.cards, ids@[k as int]);
            assert(card_index(game.cards@, ids@[k as int]) == card_index(g.cards, ids@[k as int]));
        }
        let i = find_card(&game.cards, &ids[k]).unwrap();
        let c = game.cards[i];
        if c.is_site {
            sites = sites + 1;
        }
        game.cards.set(i, CardState { in_hand: false, ..c });
        proof {
            assert(ids@.take(k + 1).drop_last() =~= ids@.take(k as int));
            assert(ids@.take(k + 1).last() == ids@[k as int]);
        }
        k += 1;
    }
    proof {
        assert(ids@.take(ids@.len() as int) =~= ids@);
        lemma_returned(g.cards, ids@);
        assert(card_ids(game.cards@) =~= card_ids(g.cards));
    }
    sites
}

/// Records that player `p` has kept a hand.
fn accept(accepted: &mut Vec<PlayerId>, p: &PlayerId)
    requires
        old(accepted)@.no_duplicates(),
    ensures
        final(accepted)@ == accepting(old(accepted)@, *p),
        final(accepted)@.no_duplicates(),
{
    let mut i: usize = 0;
    while i < accepted.len()
        invariant
            i <= accepted@.len(),
            accepted@ == old(accepted)@,
            accepted@.no_duplicates(),
            forall|j: int| 0 <= j < i ==> accepted@[j] != *p,
        decreases accepted@.len() - i,
    {
        if same_id(&accepted[i], p) {
            proof {
                assert(accepted@.contains(*p));
            }
            return;
        }
        i += 1;
    }
    proof {
        assert(!accepted@.contains(*p));
    }
    accepted.push(*p);
}

/// Handles message `message` in game `game`, whose identifier is
/// `game_id`, with `accepted` the players who have kept their hands.
///
/// A message for another game, from someone who is not a player, or naming
/// a card that is not in the game is refused. A player who leaves is
/// announced. Only the controller of the current turn can end it, and it
/// ends for the turn's player; clicks on cards are handled as `clicked`
/// says. During the mulligan, returned cards leave the hand, the decks
/// staying as they are, and as many sites and spells are drawn in their
/// place;
/// once every player has kept a hand the main phase begins. Other messages
/// are left to the game's loop.
pub fn handle_client_message(
    game: &mut GameModel,
    accepted: &mut Vec<PlayerId>,
    game_id: &uuid::Uuid,
    message: &ClientMessageModel,
) -> (r: Result<Vec<Reaction>, MessageError>)
    requires
        old(game).valid(),
        old(accepted)@.no_duplicates(),
    ensures
        final(game).valid(),
        final(accepted)@.no_duplicates(),
        final(game).view() == handled(old(game).view(), old(accepted)@, *game_id, *message).0,
        final(accepted)@ == handled(old(game).view(), old(accepted)@, *game_id, *message).1,
        r matches Ok(v) ==> handled(old(game).view(), old(accepted)@, *game_id, *message).2 == Ok::<
            Seq<Reaction>,
            MessageError,
        >(v@),
        r matches Err(e) ==> handled(old(game).view(), old(accepted)@, *game_id, *message).2 == Err::<
            Seq<Reaction>,
            MessageError,
        >(e),
{
    match check_message(game, game_id, message) {
        Err(e) => {
            return Err(e);
        },
        Ok(()) => {},
    }
    match message {
        ClientMessageModel::PlayerDisconnected { player_id, .. } => {
            let mut v: Vec<Reaction> = Vec::new();
            v.push(Reaction::PlayerLeft { player_id: *player_id });
            assert(v@ =~= seq![Reaction::PlayerLeft { player_id: *player_id }]);
            Ok(v)
        },
        ClientMessageModel::EndTurn { player_id, .. } => {
            let t = game.turns.current();
            if same_id(player_id, &t.controller_id()) {
                let mut v: Vec<Reaction> = Vec::new();
                v.push(Reaction::Queue(EffectModel::EndTurn { player_id: t.player_id() }));
                assert(v@ =~= seq![Reaction::Queue(EffectModel::EndTurn { player_id: t.player_id })]);
                Ok(v)
            } else {
                Ok(Vec::new())
            }
        },
        ClientMessageModel::ClickCard { player_id, card_id, .. } => {
            let t = game.turns.current();
            let acting = t.player_id();
            let mut v: Vec<Reaction> = Vec::new();
            if !same_id(player_id, &t.controller_id()) {
                assert(v@ =~= clicked(game.view(), *player_id, *card_id));
                return Ok(v);
            }
            proof {
                assert(message.cards_of()[0] == *card_id);
                assert(card_index(game.view().cards, message.cards_of()[0]) is Some);
                lemma_card_index(game.cards@, *card_id);
            }
            let i = find_card(&game.cards, card_id).unwrap();
            let c = game.cards[i];
            if !c.in_play {
                v.push(Reaction::PlayCard { player_id: acting, card_id: *card_id });
                assert(v@ =~= clicked(game.view(), *player_id, *card_id));
                return Ok(v);
            }
            if !same_id(&c.controller_id, &acting) || (c.unit.is_some() && c.summoning_sick) {
                assert(v@ =~= clicked(game.view(), *player_id, *card_id));
                return Ok(v);
            }
            v.push(Reaction::ChooseAction { player_id: acting, card_id: *card_id });
            assert(v@ =~= clicked(game.view(), *player_id, *card_id));
            Ok(v)
        },
        ClientMessageModel::PickCards { player_id, card_ids, .. } => {
            match game.phase {
                Phase::Mulligan => {},
                _ => {
                    return Ok(Vec::new());
                },
            }
            if find_deck(&game.decks, player_id).is_none() {
                return Err(MessageError::NoDeck);
            }
            assert(message.cards_of() == card_ids@);
            assert(forall|k: int| 0 <= k < card_ids@.len() ==> card_index(game.cards@, #[trigger] card_ids@[k]) is Some);
            let sites = return_cards(game, card_ids);
            let spells = card_ids.len() - sites;
            let mut v: Vec<Reaction> = Vec::new();
            v.push(
                Reaction::Queue(
                    EffectModel::DrawCard { player_id: *player_id, count: (sites % 256) as u8, kind: DrawKind::Site },
                ),
            );
            v.push(
                Reaction::Queue(
                    EffectModel::DrawCard { player_id: *player_id, count: (spells % 256) as u8, kind: DrawKind::Spell },
                ),
            );
            let ghost draws = v@;
            assert(draws =~= seq![
                Reaction::Queue(EffectModel::DrawCard { player_id: *player_id, count: (sites % 256) as u8, kind: DrawKind::Site }),
                Reaction::Queue(EffectModel::DrawCard { player_id: *player_id, count: (spells % 256) as u8, kind: DrawKind::Spell }),
            ]);
            accept(accepted, player_id);
            if accepted.len() == game.standings.players.len() {
                game.phase = Phase::Main;
                v.push(Reaction::MulligansEnded);
                assert(v@ =~= draws.push(Reaction::MulligansEnded));
            }
            Ok(v)
        },
        ClientMessageModel::Other { .. } => Ok(Vec::new()),
    }
}

/// The identifiers of players `players`, in seating order.
pub open spec fn player_ids(players: Seq<crate::state::Player>) -> Seq<PlayerId> {
    players.map_values(|pl: crate::state::Player| pl.id)
}

/// A refused message changes nothing: the game and the players who have
/// kept their hands stay as they were.
pub proof fn refused_messages_change_nothing(g: GameView, accepted: Seq<PlayerId>, game_id: uuid::Uuid, m: ClientMessageModel)
    requires
        rejection(g, game_id, m) is Some,
    ensures
        handled(g, accepted, game_id, m).0 == g,
        handled(g, accepted, game_id, m).1 == accepted,
        handled(g, accepted, game_id, m).2 == Err::<Seq<Reaction>, MessageError>(rejection(g, game_id, m)->0),
{
}

/// Ending a turn changes nothing at once, and only the controller of the
/// current turn can ask for it: then the turn of its player ends.
pub proof fn only_the_turns_controller_ends_it(g: GameView, accepted: Seq<PlayerId>, game_id: uuid::Uuid, m: ClientMessageModel)
    requires
        rejection(g, game_id, m) is None,
        m is EndTurn,
    ensures
        handled(g, accepted, game_id, m).0 == g,
        handled(g, accepted, game_id, m).1 == accepted,
        handled(g, accepted, game_id, m).2 == Ok::<Seq<Reaction>, MessageError>(
            if m.player_of() == turn_controller(g.turns.current) {
                seq![Reaction::Queue(EffectModel::EndTurn { player_id: g.turns.current.player_id })]
            } else {
                Seq::empty()
            },
        ),
{
}

/// The mulligan ends with the hand that the last player keeps: after a
/// player returns cards, the main phase has begun exactly when every
/// player has kept a hand.
pub proof fn mulligans_end_once_every_player_has_kept_a_hand(
    g: GameView,
    accepted: Seq<PlayerId>,
    game_id: uuid::Uuid,
    m: ClientMessageModel,
)
    requires
        rejection(g, game_id, m) is None,
        m is PickCards,
        g.phase == Phase::Mulligan,
        deck_index(g.decks, m.player_of()) is Some,
        player_ids(g.players).no_duplicates(),
        accepted.no_duplicates(),
        forall|q: PlayerId| accepted.contains(q) ==> player_ids(g.players).contains(q),
    ensures
        handled(g, accepted, game_id, m).0.phase == Phase::Main <==> forall|q: PlayerId|
            player_ids(g.players).contains(q) ==> (q == m.player_of() || accepted.contains(q)),
{
    let p = m.player_of();
    let ids = player_ids(g.players);
    let now = accepting(accepted, p);
    let i = choose|i: int| 0 <= i < g.players.len() && (#[trigger] g.players[i]).id == p;
    assert(ids[i] == p);
    assert(now.no_duplicates());
    assert forall|q: PlayerId| now.contains(q) implies ids.contains(q) by {
        if !accepted.contains(q) {
            assert(q == p);
        }
    }
    now.unique_seq_to_set();
    ids.unique_seq_to_set();
    assert(now.to_set().subset_of(ids.to_set()));
    if now.len() == g.players.len() {
        lemma_subset_equality(now.to_set(), ids.to_set());
        assert forall|q: PlayerId| ids.contains(q) implies (q == p || accepted.contains(q)) by {
            assert(ids.to_set().contains(q));
            assert(now.to_set().contains(q));
        }
    }
    if forall|q: PlayerId| ids.contains(q) ==> (q == p || accepted.contains(q)) {
        assert(ids.to_set() =~= now.to_set()) by {
            assert forall|q: PlayerId| ids.to_set().contains(q) implies now.to_set().contains(q) by {
                assert(ids.contains(q));
                if q != p {
                    assert(accepted.contains(q));
                    let k = choose|k: int| 0 <= k < accepted.len() && accepted[k] == q;
                    assert(now.contains(q)) by {
                        if !accepted.contains(p) {
                            assert(now[k] == q);
                        }
                    }
                } else {
                    if !accepted.contains(p) {
                        assert(now[now.len() - 1] == p);
                    }
                }
            }
        }
    }
}

/// Cards sent back from the hand leave it, and no other card changes,
/// where no two cards of the game share an identifier.
pub proof fn returned_cards_leave_the_hand(cards: Seq<CardState>, ids: Seq<CardId>)
    requires
        forall|a: int, b: int| 0 <= a < b < cards.len() ==> cards[a].id != cards[b].id,
    ensures
        returned(cards, ids).len() == cards.len(),
        forall|j: int|
            0 <= j < cards.len() ==> #[trigger] returned(cards, ids)[j] == if ids.contains(cards[j].id) {
                CardState { in_hand: false, ..cards[j] }
            } else {
                cards[j]
            },
    decreases ids.len(),
{
    lemma_returned(cards, ids);
    if ids.len() > 0 {
        let rest = ids.drop_last();
        returned_cards_leave_the_hand(cards, rest);
        let c = returned(cards, rest);
        lemma_returned(cards, rest);
        lemma_card_index(cards, ids.last());
        assert forall|j: int| 0 <= j < cards.len() implies #[trigger] returned(cards, ids)[j] == if ids.contains(cards[j].id) {
            CardState { in_hand: false, ..cards[j] }
        } else {
            cards[j]
        } by {
            assert(c[j] == if rest.contains(cards[j].id) {
                CardState { in_hand: false, ..cards[j] }
            } else {
                cards[j]
            });
            assert(ids =~= rest.push(ids.last()));
            if cards[j].id == ids.last() {
                assert(ids.contains(cards[j].id)) by {
                    assert(ids[ids.len() - 1] == cards[j].id);
                }
            } else {
                if ids.contains(cards[j].id) {
                    let k = choose|k: int| 0 <= k < ids.len() && ids[k] == cards[j].id;
                    assert(rest[k] == cards[j].id);
                }
                if rest.contains(cards[j].id) {
                    let k = choose|k: int| 0 <= k < rest.len() && rest[k] == cards[j].id;
                    assert(ids[k] == cards[j].id);
                }
            }
        }
    }
}

/// Only the cards returned at the mulligan change the game: every other
/// message leaves it, and the players who have kept their hands, as they
/// were; and a player who has kept a hand stays among them.
pub proof fn only_the_mulligan_changes_the_game(
    g: GameView,
    accepted: Seq<PlayerId>,
    game_id: uuid::Uuid,
    m: ClientMessageModel,
)
    ensures
        !(m is PickCards) ==> handled(g, accepted, game_id, m).0 == g && handled(g, accepted, game_id, m).1
            == accepted,
        forall|q: PlayerId| accepted.contains(q) ==> #[trigger] handled(g, accepted, game_id, m).1.contains(q),
{
    assert forall|q: PlayerId| accepted.contains(q) implies #[trigger] handled(g, accepted, game_id, m).1.contains(q) by {
        if m is PickCards && rejection(g, game_id, m) is None && g.phase == Phase::Mulligan && deck_index(
            g.decks,
            m.player_of(),
        ) is Some {
            let now = accepting(accepted, m.player_of());
            if !accepted.contains(m.player_of()) {
                let k = choose|k: int| 0 <= k < accepted.len() && accepted[k] == q;
                assert(now[k] == q);
            }
        }
    }
}

/// A click on a card changes nothing at once. Only the controller of the
/// current turn gets an answer, and the answer is for the turn's player and
/// the clicked card: a card out of play is to be played; a card in play
/// offers its actions exactly when the turn's player controls it and it is
/// not a unit with summoning sickness.
pub proof fn clicks_answer_only_the_turns_controller(
    g: GameView,
    accepted: Seq<PlayerId>,
    game_id: uuid::Uuid,
    p: PlayerId,
    card_id: CardId,
)
    requires
        rejection(g, game_id, ClientMessageModel::ClickCard { game_id, player_id: p, card_id }) is None,
    ensures
        ({
            let m = ClientMessageModel::ClickCard { game_id, player_id: p, card_id };
            let h = handled(g, accepted, game_id, m);
            let acting = g.turns.current.player_id;
            let c = g.cards[card_index(g.cards, card_id)->0];
            let rs = h.2->Ok_0;
            &&& h.0 == g && h.1 == accepted && h.2 is Ok
            &&& p != turn_controller(g.turns.current) ==> rs.len() == 0
            &&& p == turn_controller(g.turns.current) && !c.in_play ==> rs == seq![
                Reaction::PlayCard { player_id: acting, card_id },
            ]
            &&& p == turn_controller(g.turns.current) && c.in_play ==> (rs.len() > 0 <==> (c.controller_id
                == acting && !(c.unit is Some && c.summoning_sick)))
            &&& forall|k: int| 0 <= k < rs.len() ==> (#[trigger] rs[k]) == Reaction::PlayCard {
                player_id: acting,
                card_id,
            } || rs[k] == Reaction::ChooseAction { player_id: acting, card_id }
        }),
{
}

} // verus!
