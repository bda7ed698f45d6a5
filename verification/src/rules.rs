//! Applying game effects to the state of a game: the effects that change
//! who is still playing, the order of turns, the start and the end of a
//! turn, the life of the avatars, the damage, tapping, carrying and control
//! of cards, the players' decks and hands, and the players' mana.
//!
//! An effect reaches this module after ongoing effects had their chance to
//! change it; what it leads to next comes back as follow-up effects, which
//! the game queues in front of the others.

use crate::actions::copy_ids;
use crate::card_query::{unless_none, CardModel, CardQueryModel};
use crate::combat::{card_lookup_ok, card_query_holds, card_query_ok, DamageModel};
use crate::deck::Deck;
use crate::effect::{displayed_player_name, player_name, DrawKind};
use crate::ids::{same_id, CardId, PlayerId};
use crate::text::{decimal, push_decimal};
use crate::state::{skipped, turn_error_text, Phase, Player, Standings, Turn, TurnError, TurnIterator, TurnOrder};
use crate::thresholds::wrap_i8;
use vstd::prelude::*;

verus! {

/// What an effect reads and changes of a card.
#[derive(Debug, Clone, Copy, PartialEq, Eq)]
pub struct CardState {
    pub id: CardId,
    pub tapped: bool,
    /// Whether the card is in its owner's hand.
    pub in_hand: bool,
    /// Whether the card is a site.
    pub is_site: bool,
    /// Whether the card is in play, in the realm.
    pub in_play: bool,
    /// Whether the card has summoning sickness.
    pub summoning_sick: bool,
    /// Whether an avatar at death's door can now die.
    pub can_die: bool,
    /// The mana the card provides its controller at the start of a turn.
    pub provided_mana: u8,
    /// The card's power, if it has one.
    pub power: Option<u16>,
    /// Whether the card is disabled.
    pub disabled: bool,
    /// Whether the card has stealth.
    pub stealth: bool,
    /// Who controls the card.
    pub controller_id: PlayerId,
    /// The card carrying this one.
    pub bearer: Option<CardId>,
    /// The toughness and damage of a unit.
    pub unit: Option<UnitState>,
    /// Whether an avatar is at death's door; `None` for other cards.
    pub deaths_door: Option<bool>,
}

/// The toughness of a unit and the damage it has taken.
#[derive(Debug, Clone, Copy, PartialEq, Eq, Structural)]
pub struct UnitState {
    pub toughness: u16,
    pub damage: u16,
}

/// The state of a game, as far as the effects of this module read and
/// change it.
#[derive(Debug)]
pub struct GameModel {
    pub standings: Standings,
    pub turns: TurnIterator,
    pub phase: Phase,
    /// The mana of each player who has had some.
    pub mana: Vec<(PlayerId, u8)>,
    /// Each player's avatar.
    pub avatars: Vec<(PlayerId, CardId)>,
    /// Each player's deck.
    pub decks: Vec<Deck>,
    pub cards: Vec<CardState>,
    /// How many turns have been taken.
    pub turns_taken: usize,
    /// The player who took the first turn.
    pub player_one: PlayerId,
}

/// A game effect.
#[derive(Debug, Clone)]
pub enum EffectModel {
    Noop,
    Notify { message: String },
    PlayerLost { player_id: PlayerId },
    SkipNextTurn { player_id: PlayerId },
    OverrideNextTurn { turn: Turn },
    SetAvatarLife { player_id: PlayerId, life: u16 },
    AdjustAvatarLife { player_id: PlayerId, amount: i16 },
    Heal { card_id: CardId, amount: u16 },
    SetTapped { card_id: CardId, tapped: bool },
    AdjustMana { player_id: PlayerId, mana: i8 },
    EndTurn { player_id: PlayerId },
    DrawCard { player_id: PlayerId, count: u8, kind: DrawKind },
    SetBearer { card_id: CardId, bearer_id: Option<CardId> },
    SetController { card_id: CardId, player_id: PlayerId },
    /// The current player's piles, put in a new order.
    RearrangeDeck { spells: Vec<CardId>, sites: Vec<CardId> },
    /// The clean-up at the end of a player's turn.
    FinishEndTurn { player_id: PlayerId },
    /// The start of a player's turn.
    StartTurn { player_id: PlayerId },
    /// The draw at the start of a player's turn; `previous_controller`
    /// controlled the turn before.
    FinishStartTurn { player_id: PlayerId, previous_controller: PlayerId },
    /// A unit strikes a card.
    Strike { striker_id: CardId, target_id: CardId },
    /// A minion is killed, by the card `killer_id`.
    KillMinion { card_id: CardId, killer_id: CardId, from_attack: bool },
    /// A unit steps in to defend against an attacker.
    DeclareDefender { attacker_id: CardId, defender_id: CardId },
}

/// An effect that applying another one leads to.
#[derive(Debug, Clone, Copy, PartialEq, Eq)]
pub enum FollowUp {
    /// Finishes the turn of the player: the end-of-turn clean-up.
    FinishEndTurn { player_id: PlayerId },
    /// The player has lost the game; queued behind the other effects.
    PlayerLost { player_id: PlayerId },
    /// Asks the player, `count` times, which pile to draw from, drawing one
    /// card from it after each answer.
    ChooseDraws { player_id: PlayerId, count: u8 },
    /// Starts the turn of the player.
    StartTurn { player_id: PlayerId },
    /// Lets the player draw at the start of the turn; `previous_controller`
    /// controlled the turn before.
    FinishStartTurn { player_id: PlayerId, previous_controller: PlayerId },
    /// Tells the player to wait for the others.
    Wait { player_id: PlayerId },
    /// Asks `chooser` which pile the player draws from at the start of the
    /// turn, and draws from it.
    ChooseStartingDraw { chooser: PlayerId, player_id: PlayerId },
    /// Lets the player act again.
    Resume { player_id: PlayerId },
    /// The card takes damage from the card `from`.
    TakeDamage { card_id: CardId, from: CardId, damage: DamageModel },
    /// The card goes to the cemetery.
    BuryCard { card_id: CardId },
}

/// Why an effect could not be applied.
#[derive(Debug, Clone, Copy, PartialEq, Eq)]
pub enum EffectError {
    /// The player has no avatar.
    NoAvatar,
    /// The card is not a unit.
    NoUnitBase,
    /// The card is not an avatar.
    NoAvatarBase,
    /// The player has no deck.
    NoDeck,
    /// The turn to start is not the next one.
    Turn(TurnError),
    /// The striking unit has no power.
    NoPower,
}

impl EffectError {
    /// The message reported for this error.
    pub fn message(&self) -> (r: String)
        ensures
            r@ == (match *self {
                EffectError::NoAvatar => "failed to get player avatar id"@,
                EffectError::NoUnitBase => "card has no unit base"@,
                EffectError::NoAvatarBase => "avatar has no avatar base component"@,
                EffectError::NoDeck => "failed to find player deck"@,
                EffectError::Turn(e) => turn_error_text(e),
                EffectError::NoPower => "attacker has no power"@,
            }),
    {
        match self {
            EffectError::NoAvatar => String::from_str("failed to get player avatar id"),
            EffectError::NoUnitBase => String::from_str("card has no unit base"),
            EffectError::NoAvatarBase => String::from_str("avatar has no avatar base component"),
            EffectError::NoDeck => String::from_str("failed to find player deck"),
            EffectError::Turn(e) => e.message(),
            EffectError::NoPower => String::from_str("attacker has no power"),
        }
    }
}

/// The piles of a player's deck, the top of each being its last card.
pub struct PilesView {
    pub name: Seq<char>,
    pub player_id: PlayerId,
    pub avatar: CardId,
    pub sites: Seq<CardId>,
    pub spells: Seq<CardId>,
}

/// The piles of the decks `decks`.
pub open spec fn piles_of(decks: Seq<Deck>) -> Seq<PilesView> {
    decks.map_values(
        |d: Deck| PilesView { name: d.name@, player_id: d.player_id, avatar: d.avatar, sites: d.sites@, spells: d.spells@ },
    )
}

/// The mathematical value of a `GameModel`.
pub struct GameView {
    pub players: Seq<Player>,
    pub eliminated: Seq<PlayerId>,
    pub turns: TurnOrder,
    pub phase: Phase,
    pub mana: Seq<(PlayerId, u8)>,
    pub avatars: Seq<(PlayerId, CardId)>,
    pub decks: Seq<PilesView>,
    pub cards: Seq<CardState>,
    pub turns_taken: usize,
    pub player_one: PlayerId,
}

impl GameModel {
    /// The mathematical value of the game.
    pub open spec fn view(&self) -> GameView {
        GameView {
            players: self.standings.players@,
            eliminated: self.standings.eliminated_players@,
            turns: self.turns@,
            phase: self.phase,
            mana: self.mana@,
            avatars: self.avatars@,
            decks: piles_of(self.decks@),
            cards: self.cards@,
            turns_taken: self.turns_taken,
            player_one: self.player_one,
        }
    }

    /// What every game keeps: the avatars and the cards of the decks are
    /// cards of the game, and no card, and no player's mana, avatar or deck,
    /// is listed twice.
    pub open spec fn valid(&self) -> bool {
        &&& self.knows_its_cards()
        &&& keys_unique(self.view())
    }

    /// Whether the avatars and the cards of the decks are cards of the
    /// game.
    pub open spec fn knows_its_cards(&self) -> bool {
        cards_known(self.view())
    }
}

/// The identifiers of the cards `cards`.
pub open spec fn card_ids(cards: Seq<CardState>) -> Seq<CardId> {
    cards.map_values(|c: CardState| c.id)
}

/// The players of the entries `m`.
pub open spec fn keys_of<V>(m: Seq<(PlayerId, V)>) -> Seq<PlayerId> {
    m.map_values(|e: (PlayerId, V)| e.0)
}

/// The players of the decks `decks`.
pub open spec fn deck_owners(decks: Seq<PilesView>) -> Seq<PlayerId> {
    decks.map_values(|d: PilesView| d.player_id)
}

/// Whether game `g` lists no card twice, and no player's mana, avatar or
/// deck twice.
pub open spec fn keys_unique(g: GameView) -> bool {
    &&& card_ids(g.cards).no_duplicates()
    &&& keys_of(g.mana).no_duplicates()
    &&& keys_of(g.avatars).no_duplicates()
    &&& deck_owners(g.decks).no_duplicates()
}

/// Whether the avatars and the cards of the decks of game `g` are cards of
/// the game.
pub open spec fn cards_known(g: GameView) -> bool {
    &&& forall|i: int| 0 <= i < g.avatars.len() ==> card_index(g.cards, (#[trigger] g.avatars[i]).1) is Some
    &&& decks_known(g.decks, g.cards)
}

/// Whether every card of the decks `decks` is one of `cards`.
pub open spec fn decks_known(decks: Seq<PilesView>, cards: Seq<CardState>) -> bool {
    &&& forall|d: int, k: int|
        0 <= d < decks.len() && 0 <= k < decks[d].sites.len() ==> card_index(cards, #[trigger] decks[d].sites[k])
            is Some
    &&& forall|d: int, k: int|
        0 <= d < decks.len() && 0 <= k < decks[d].spells.len() ==> card_index(cards, #[trigger] decks[d].spells[k])
            is Some
}

/// The position of the deck of player `p`.
pub open spec fn deck_index(decks: Seq<PilesView>, p: PlayerId) -> Option<int>
    decreases decks.len(),
{
    if decks.len() == 0 {
        None
    } else {
        match deck_index(decks.drop_last(), p) {
            Some(i) => Some(i),
            None => if decks.last().player_id == p {
                Some(decks.len() - 1)
            } else {
                None
            },
        }
    }
}

/// One draw by player `p` from the pile of kind `kind` (a site or a
/// spell): the top card goes to the hand; the outcome also says whether
/// the pile was empty, which loses the player the game.
pub open spec fn draw_one(g: GameView, p: PlayerId, kind: DrawKind) -> (GameView, bool) {
    let d = deck_index(g.decks, p)->0;
    let deck = g.decks[d];
    let pile = if kind is Site { deck.sites } else { deck.spells };
    if pile.len() == 0 {
        (g, true)
    } else {
        let top = pile.last();
        let new_deck = if kind is Site {
            PilesView { sites: pile.drop_last(), ..deck }
        } else {
            PilesView { spells: pile.drop_last(), ..deck }
        };
        let i = card_index(g.cards, top)->0;
        (
            GameView {
                decks: g.decks.update(d, new_deck),
                cards: g.cards.update(i, CardState { in_hand: true, ..g.cards[i] }),
                ..g
            },
            false,
        )
    }
}

/// `k` draws by player `p` from the pile of kind `kind`, stopping at the
/// first empty pile.
pub open spec fn draws(g: GameView, p: PlayerId, kind: DrawKind, k: nat) -> (GameView, bool)
    decreases k,
{
    if k == 0 {
        (g, false)
    } else {
        let (g1, lost) = draws(g, p, kind, (k - 1) as nat);
        if lost {
            (g1, true)
        } else {
            draw_one(g1, p, kind)
        }
    }
}

/// The position of the first card of `cards` with identifier `id`.
pub open spec fn card_index(cards: Seq<CardState>, id: CardId) -> Option<int>
    decreases cards.len(),
{
    if cards.len() == 0 {
        None
    } else {
        match card_index(cards.drop_last(), id) {
            Some(i) => Some(i),
            None => if cards.last().id == id {
                Some(cards.len() - 1)
            } else {
                None
            },
        }
    }
}

/// The avatar of player `p`.
pub open spec fn avatar_of(avatars: Seq<(PlayerId, CardId)>, p: PlayerId) -> Option<CardId>
    decreases avatars.len(),
{
    if avatars.len() == 0 {
        None
    } else if avatars[0].0 == p {
        Some(avatars[0].1)
    } else {
        avatar_of(avatars.drop_first(), p)
    }
}

/// The position of the first mana entry of player `p`.
pub open spec fn mana_index(mana: Seq<(PlayerId, u8)>, p: PlayerId) -> Option<int>
    decreases mana.len(),
{
    if mana.len() == 0 {
        None
    } else {
        match mana_index(mana.drop_last(), p) {
            Some(i) => Some(i),
            None => if mana.last().0 == p {
                Some(mana.len() - 1)
            } else {
                None
            },
        }
    }
}

/// The mana of player `p`: none when the player has no entry.
pub open spec fn mana_of(mana: Seq<(PlayerId, u8)>, p: PlayerId) -> u8 {
    match mana_index(mana, p) {
        Some(i) => mana[i].1,
        None => 0,
    }
}

/// The mana entries with the mana of `p` set to `v`.
pub open spec fn with_mana(mana: Seq<(PlayerId, u8)>, p: PlayerId, v: u8) -> Seq<(PlayerId, u8)> {
    match mana_index(mana, p) {
        Some(i) => mana.update(i, (p, v)),
        None => mana.push((p, v)),
    }
}

/// `a - b`, floored at zero.
pub open spec fn floor_sub16(a: u16, b: u16) -> u16 {
    if a < b {
        0
    } else {
        (a - b) as u16
    }
}

/// `a + b`, capped at the largest `u16`.
pub open spec fn cap_add16(a: u16, b: u16) -> u16 {
    if a + b > u16::MAX {
        u16::MAX
    } else {
        (a + b) as u16
    }
}

/// The life of a unit: its toughness less its damage, floored at zero.
pub open spec fn life_of(u: UnitState) -> u16 {
    floor_sub16(u.toughness, u.damage)
}

/// The life a unit of life `life` and toughness `toughness` has after a
/// change of `amount`, between zero and its toughness.
pub open spec fn adjusted_life(life: u16, toughness: u16, amount: i16) -> u16 {
    let moved = if amount >= 0 {
        cap_add16(life, amount as u16)
    } else {
        floor_sub16(life, if amount == i16::MIN { i16::MAX as u16 } else { (-amount) as u16 })
    };
    if moved < toughness {
        moved
    } else {
        toughness
    }
}

/// The mana `m` after a change of `d`, the sum read as an `i8` and stored
/// back as a `u8`.
pub open spec fn adjusted_mana(m: u8, d: i8) -> u8 {
    let s = wrap_i8(m) + d;
    if s < 0 {
        (s + 256) as u8
    } else {
        s as u8
    }
}

/// The mana that the cards `cards` in play and controlled by player `p`
/// provide.
pub open spec fn provided_total(cards: Seq<CardState>, p: PlayerId) -> nat
    decreases cards.len(),
{
    if cards.len() == 0 {
        0
    } else {
        provided_total(cards.drop_last(), p) + if cards.last().in_play && cards.last().controller_id == p {
            cards.last().provided_mana as nat
        } else {
            0nat
        }
    }
}

/// Whether the turn order lets effect `e` take place: the clean-up at the
/// end of a turn and the start of another player's turn need a next turn,
/// and the count of turns taken must have room for one more.
pub open spec fn turn_order_allows(g: GameView, e: EffectModel) -> bool {
    match e {
        EffectModel::FinishEndTurn { .. } => g.turns.has_next(),
        EffectModel::StartTurn { player_id } => g.turns.current.player_id != player_id ==> g.turns.has_next(),
        EffectModel::FinishStartTurn { .. } => g.turns_taken < usize::MAX,
        _ => true,
    }
}

/// Card `c` at the start of player `p`'s turn: a card in play under the
/// player's control untaps.
pub open spec fn untapped_for(c: CardState, p: PlayerId) -> CardState {
    if c.in_play && c.controller_id == p {
        CardState { tapped: false, ..c }
    } else {
        c
    }
}

/// Who makes the decisions during turn `t`.
pub open spec fn turn_controller(t: Turn) -> PlayerId {
    match t.controller_override {
        Some(c) => c,
        None => t.player_id,
    }
}

/// Whether the mana that effect `e` computes fits, as the game computes it:
/// a change of mana in an `i8`, and the mana of a new turn in a `u8`.
pub open spec fn mana_change_fits(g: GameView, e: EffectModel) -> bool {
    match e {
        EffectModel::AdjustMana { player_id, mana } => -128 <= wrap_i8(mana_of(g.mana, player_id)) + mana
            <= 127,
        EffectModel::StartTurn { player_id } => provided_total(g.cards, player_id) <= 255,
        _ => true,
    }
}

/// Whether effect `e` names only cards of the game.
pub open spec fn names_known_cards(g: GameView, e: EffectModel) -> bool {
    match e {
        EffectModel::Heal { card_id, .. } => card_index(g.cards, card_id) is Some,
        EffectModel::SetTapped { card_id, .. } => card_index(g.cards, card_id) is Some,
        EffectModel::SetController { card_id, .. } => card_index(g.cards, card_id) is Some,
        EffectModel::Strike { striker_id, .. } => card_index(g.cards, striker_id) is Some,
        EffectModel::RearrangeDeck { spells, sites } => (forall|k: int|
            0 <= k < spells@.len() ==> card_index(g.cards, #[trigger] spells@[k]) is Some) && (forall|k: int|
            0 <= k < sites@.len() ==> card_index(g.cards, #[trigger] sites@[k]) is Some),
        _ => true,
    }
}

/// Card `c` after the clean-up at the end of a turn: a unit in play loses
/// its summoning sickness; an avatar at death's door can die from now on,
/// and any other unit's damage heals.
pub open spec fn finished_turn(c: CardState) -> CardState {
    match c.unit {
        Some(u) => if !c.in_play {
            c
        } else if c.deaths_door is Some {
            CardState { summoning_sick: false, can_die: c.can_die || c.deaths_door == Some(true), ..c }
        } else {
            CardState { summoning_sick: false, unit: Some(UnitState { damage: 0, ..u }), ..c }
        },
        None => c,
    }
}

/// Card `c` with the damage of its unit set so that its life is `life`,
/// and, where that leaves it without life, at death's door. The outcome is
/// the card and whether an avatar base was missing for that.
pub open spec fn with_life(c: CardState, u: UnitState, life: u16) -> (CardState, bool) {
    let damage = floor_sub16(u.toughness, life);
    let c2 = CardState { unit: Some(UnitState { damage, ..u }), ..c };
    if damage >= u.toughness {
        match c.deaths_door {
            Some(_) => (CardState { deaths_door: Some(true), ..c2 }, false),
            None => (c2, true),
        }
    } else {
        (c2, false)
    }
}

/// What effect `e` makes of the card `c`, an avatar whose life it sets or
/// changes, and the error it meets on the way.
pub open spec fn avatar_life_effect(c: CardState, e: EffectModel) -> (CardState, Option<EffectError>) {
    if c.deaths_door == Some(true) {
        (c, None)
    } else {
        match c.unit {
            None => (c, Some(EffectError::NoUnitBase)),
            Some(u) => {
                let life = match e {
                    EffectModel::SetAvatarLife { life, .. } => life,
                    EffectModel::AdjustAvatarLife { amount, .. } => adjusted_life(
                        life_of(u),
                        u.toughness,
                        amount,
                    ),
                    _ => life_of(u),
                };
                let (c2, missing) = with_life(c, u, life);
                (c2, if missing { Some(EffectError::NoAvatarBase) } else { None })
            },
        }
    }
}

/// What applying effect `e` makes of the game `g`, and the error it meets,
/// if any.
pub open spec fn applied(g: GameView, e: EffectModel) -> (GameView, Option<EffectError>) {
    match e {
        EffectModel::Noop => (g, None),
        EffectModel::Notify { .. } => (g, None),
        EffectModel::PlayerLost { player_id } => (
            GameView {
                eliminated: if g.eliminated.contains(player_id) {
                    g.eliminated
                } else {
                    g.eliminated.push(player_id)
                },
                ..g
            },
            None,
        ),
        EffectModel::SkipNextTurn { player_id } => (GameView { turns: skipped(g.turns, player_id), ..g }, None),
        EffectModel::OverrideNextTurn { turn } => (
            GameView { turns: TurnOrder { overrides: seq![turn] + g.turns.overrides, ..g.turns }, ..g },
            None,
        ),
        EffectModel::SetAvatarLife { player_id, .. } => avatar_life_change(g, player_id, e),
        EffectModel::AdjustAvatarLife { player_id, .. } => avatar_life_change(g, player_id, e),
        EffectModel::Heal { card_id, amount } => {
            let i = card_index(g.cards, card_id)->0;
            let c = g.cards[i];
            if c.deaths_door == Some(true) {
                (g, None)
            } else {
                match c.unit {
                    None => (g, Some(EffectError::NoUnitBase)),
                    Some(u) => (
                        GameView {
                            cards: g.cards.update(
                                i,
                                CardState {
                                    unit: Some(UnitState { damage: floor_sub16(u.damage, amount), ..u }),
                                    ..c
                                },
                            ),
                            ..g
                        },
                        None,
                    ),
                }
            }
        },
        EffectModel::SetTapped { card_id, tapped } => {
            let i = card_index(g.cards, card_id)->0;
            (GameView { cards: g.cards.update(i, CardState { tapped, ..g.cards[i] }), ..g }, None)
        },
        EffectModel::AdjustMana { player_id, mana } => (
            GameView {
                mana: with_mana(g.mana, player_id, adjusted_mana(mana_of(g.mana, player_id), mana)),
                ..g
            },
            None,
        ),
        EffectModel::EndTurn { player_id } => (
            GameView { mana: with_mana(g.mana, player_id, 0), phase: Phase::Main, ..g },
            None,
        ),
        EffectModel::SetBearer { card_id, bearer_id } => match card_index(g.cards, card_id) {
            Some(i) => (GameView { cards: g.cards.update(i, CardState { bearer: bearer_id, ..g.cards[i] }), ..g }, None),
            None => (g, None),
        },
        EffectModel::SetController { card_id, player_id } => {
            let i = card_index(g.cards, card_id)->0;
            (GameView { cards: g.cards.update(i, CardState { controller_id: player_id, ..g.cards[i] }), ..g }, None)
        },
        EffectModel::Strike { striker_id, .. } => {
            let i = card_index(g.cards, striker_id)->0;
            let c = g.cards[i];
            (
                GameView { cards: g.cards.update(i, CardState { stealth: false, ..c }), ..g },
                if !c.disabled && c.power is None {
                    Some(EffectError::NoPower)
                } else {
                    None
                },
            )
        },
        EffectModel::KillMinion { .. } => (g, None),
        EffectModel::DeclareDefender { .. } => (g, None),
        EffectModel::RearrangeDeck { spells, sites } => match deck_index(g.decks, g.turns.current.player_id) {
            Some(d) => (
                GameView { decks: g.decks.update(d, PilesView { spells: spells@, sites: sites@, ..g.decks[d] }), ..g },
                None,
            ),
            None => (g, Some(EffectError::NoDeck)),
        },
        EffectModel::FinishEndTurn { .. } => (GameView { cards: g.cards.map_values(|c: CardState| finished_turn(c)), ..g }, None),
        EffectModel::FinishStartTurn { .. } => (GameView { turns_taken: (g.turns_taken + 1) as usize, ..g }, None),
        EffectModel::StartTurn { player_id } => {
            let t = if g.turns.current.player_id == player_id {
                g.turns
            } else {
                g.turns.advanced()
            };
            if t.current.player_id != player_id {
                (
                    GameView { turns: t, ..g },
                    Some(EffectError::Turn(TurnError::UnexpectedTurn { expected: player_id, got: t.current.player_id })),
                )
            } else {
                (
                    GameView {
                        turns: t,
                        cards: g.cards.map_values(|c: CardState| untapped_for(c, player_id)),
                        mana: with_mana(g.mana, player_id, provided_total(g.cards, player_id) as u8),
                        ..g
                    },
                    None,
                )
            }
        },
        EffectModel::DrawCard { player_id, count, kind } => if count == 0 || kind is Choice {
            (g, None)
        } else if deck_index(g.decks, player_id) is None {
            (g, Some(EffectError::NoDeck))
        } else {
            (draws(g, player_id, kind, count as nat).0, None)
        },
    }
}

/// What setting or changing the life of the avatar of `p` makes of `g`.
pub open spec fn avatar_life_change(g: GameView, p: PlayerId, e: EffectModel) -> (GameView, Option<EffectError>) {
    match avatar_of(g.avatars, p) {
        None => (g, Some(EffectError::NoAvatar)),
        Some(id) => {
            let i = card_index(g.cards, id)->0;
            let (c, err) = avatar_life_effect(g.cards[i], e);
            (GameView { cards: g.cards.update(i, c), ..g }, err)
        },
    }
}

/// The effects that applying `e` leads to.
pub open spec fn follow_ups(g: GameView, e: EffectModel) -> Seq<FollowUp> {
    match e {
        EffectModel::EndTurn { player_id } => seq![FollowUp::FinishEndTurn { player_id }],
        EffectModel::Strike { striker_id, target_id } => {
            let c = g.cards[card_index(g.cards, striker_id)->0];
            if c.disabled {
                Seq::empty()
            } else {
                seq![
                    FollowUp::TakeDamage {
                        card_id: target_id,
                        from: striker_id,
                        damage: DamageModel::Strike { amount: c.power->0 },
                    },
                ]
            }
        },
        EffectModel::KillMinion { card_id, .. } => seq![FollowUp::BuryCard { card_id }],
        EffectModel::FinishEndTurn { .. } => seq![FollowUp::StartTurn { player_id: g.turns.upcoming().player_id }],
        EffectModel::FinishStartTurn { player_id, previous_controller } => if g.turns_taken == 0 && player_id
            == g.player_one {
            seq![FollowUp::Resume { player_id: previous_controller }]
        } else {
            seq![
                FollowUp::ChooseStartingDraw { chooser: turn_controller(g.turns.current), player_id },
                FollowUp::Resume { player_id: previous_controller },
            ]
        },
        EffectModel::StartTurn { player_id } => seq![
            FollowUp::Wait { player_id: turn_controller(g.turns.current) },
            FollowUp::FinishStartTurn { player_id, previous_controller: turn_controller(g.turns.current) },
        ],
        EffectModel::DrawCard { player_id, count, kind } => if count == 0 {
            Seq::empty()
        } else if kind is Choice {
            seq![FollowUp::ChooseDraws { player_id, count }]
        } else if deck_index(g.decks, player_id) is Some && draws(g, player_id, kind, count as nat).1 {
            seq![FollowUp::PlayerLost { player_id }]
        } else {
            Seq::empty()
        },
        _ => Seq::empty(),
    }
}

/// Whether effect `e` applies to `g` without an error.
pub open spec fn effect_applies(g: GameView, e: EffectModel) -> bool {
    applied(g, e).1 is None
}

/// Where `card_index` points, the card has that identifier.
pub(crate) proof fn lemma_card_index(cards: Seq<CardState>, id: CardId)
    ensures
        card_index(cards, id) matches Some(i) ==> 0 <= i < cards.len() && cards[i].id == id,
        card_index(cards, id) is None ==> forall|k: int| 0 <= k < cards.len() ==> cards[k].id != id,
    decreases cards.len(),
{
    if cards.len() > 0 {
        lemma_card_index(cards.drop_last(), id);
        if card_index(cards.drop_last(), id) is None {
            assert forall|k: int| 0 <= k < cards.len() - 1 implies cards[k].id != id by {
                assert(cards.drop_last()[k] == cards[k]);
            }
        }
    }
}

/// Changing a card but not its identifier leaves every card where it was.
pub(crate) proof fn lemma_card_index_update(cards: Seq<CardState>, i: int, c: CardState, id: CardId)
    requires
        0 <= i < cards.len(),
        c.id == cards[i].id,
    ensures
        card_index(cards.update(i, c), id) == card_index(cards, id),
    decreases cards.len(),
{
    let u = cards.update(i, c);
    if i < cards.len() - 1 {
        lemma_card_index_update(cards.drop_last(), i, c, id);
        assert(u.drop_last() =~= cards.drop_last().update(i, c));
    } else {
        assert(u.drop_last() =~= cards.drop_last());
    }
}

/// The position of the card with identifier `id`.
pub(crate) fn find_card(cards: &Vec<CardState>, id: &CardId) -> (r: Option<usize>)
    ensures
        r matches Some(i) ==> card_index(cards@, *id) == Some(i as int),
        r is None ==> card_index(cards@, *id) is None,
{
    let mut i: usize = 0;
    while i < cards.len()
        invariant
            i <= cards@.len(),
            card_index(cards@.take(i as int), *id) is None,
        decreases cards@.len() - i,
    {
        assert(cards@.take(i + 1).drop_last() =~= cards@.take(i as int));
        if same_id(&cards[i].id, id) {
            proof {
                lemma_card_index_prefix(cards@, i as int + 1, *id);
            }
            return Some(i);
        }
        i += 1;
    }
    assert(cards@.take(cards@.len() as int) =~= cards@);
    None
}

/// A card found in a prefix is found at the same place in the whole.
proof fn lemma_card_index_prefix(cards: Seq<CardState>, k: int, id: CardId)
    requires
        0 <= k <= cards.len(),
        card_index(cards.take(k), id) is Some,
    ensures
        card_index(cards, id) == card_index(cards.take(k), id),
    decreases cards.len() - k,
{
    if k < cards.len() {
        assert(cards.take(k + 1).drop_last() =~= cards.take(k));
        lemma_card_index_prefix(cards, k + 1, id);
    } else {
        assert(cards.take(k) =~= cards);
    }
}

/// The avatar of player `p`.
fn find_avatar(avatars: &Vec<(PlayerId, CardId)>, p: &PlayerId) -> (r: Option<CardId>)
    ensures
        r == avatar_of(avatars@, *p),
{
    let mut i: usize = 0;
    assert(avatars@.skip(0) =~= avatars@);
    while i < avatars.len()
        invariant
            i <= avatars@.len(),
            avatar_of(avatars@, *p) == avatar_of(avatars@.skip(i as int), *p),
        decreases avatars@.len() - i,
    {
        assert(avatars@.skip(i as int).drop_first() =~= avatars@.skip(i + 1));
        if same_id(&avatars[i].0, p) {
            return Some(avatars[i].1);
        }
        i += 1;
    }
    None
}

/// The position of the mana entry of player `p`.
fn find_mana(mana: &Vec<(PlayerId, u8)>, p: &PlayerId) -> (r: Option<usize>)
    ensures
        r matches Some(i) ==> mana_index(mana@, *p) == Some(i as int) && i < mana@.len() && mana@[i as int].0 == *p,
        r is None ==> mana_index(mana@, *p) is None,
{
    let mut i: usize = 0;
    while i < mana.len()
        invariant
            i <= mana@.len(),
            mana_index(mana@.take(i as int), *p) is None,
        decreases mana@.len() - i,
    {
        assert(mana@.take(i + 1).drop_last() =~= mana@.take(i as int));
        if same_id(&mana[i].0, p) {
            proof {
                lemma_mana_index_prefix(mana@, i as int + 1, *p);
            }
            return Some(i);
        }
        i += 1;
    }
    assert(mana@.take(mana@.len() as int) =~= mana@);
    None
}

/// A mana entry found in a prefix is found at the same place in the
/// whole.
proof fn lemma_mana_index_prefix(mana: Seq<(PlayerId, u8)>, k: int, p: PlayerId)
    requires
        0 <= k <= mana.len(),
        mana_index(mana.take(k), p) is Some,
    ensures
        mana_index(mana, p) == mana_index(mana.take(k), p),
    decreases mana.len() - k,
{
    if k < mana.len() {
        assert(mana.take(k + 1).drop_last() =~= mana.take(k));
        lemma_mana_index_prefix(mana, k + 1, p);
    } else {
        assert(mana.take(k) =~= mana);
    }
}

/// The mana of player `p`, and the position of its entry.
fn mana_entry(mana: &Vec<(PlayerId, u8)>, p: &PlayerId) -> (r: (u8, Option<usize>))
    ensures
        r.0 == mana_of(mana@, *p),
        r.1 matches Some(i) ==> mana_index(mana@, *p) == Some(i as int) && i < mana@.len(),
        r.1 is None ==> mana_index(mana@, *p) is None,
{
    match find_mana(mana, p) {
        Some(i) => (mana[i].1, Some(i)),
        None => (0, None),
    }
}

/// Sets the mana of player `p` to `v`.
fn set_mana(mana: &mut Vec<(PlayerId, u8)>, p: &PlayerId, v: u8)
    ensures
        final(mana)@ == with_mana(old(mana)@, *p, v),
{
    match find_mana(mana, p) {
        Some(i) => {
            mana.set(i, (*p, v));
        },
        None => {
            mana.push((*p, v));
        },
    }
}

/// `a - b`, floored at zero.
fn floor_sub(a: u16, b: u16) -> (r: u16)
    ensures
        r == floor_sub16(a, b),
{
    if a < b {
        0
    } else {
        a - b
    }
}

/// The card `c`, an avatar, after effect `e` sets or changes its life.
fn change_avatar_life(c: CardState, e: &EffectModel) -> (r: (CardState, Option<EffectError>))
    ensures
        r == avatar_life_effect(c, *e),
{
    if c.deaths_door == Some(true) {
        return (c, None);
    }
    match c.unit {
        None => (c, Some(EffectError::NoUnitBase)),
        Some(u) => {
            let life = match e {
                EffectModel::SetAvatarLife { life, .. } => *life,
                EffectModel::AdjustAvatarLife { amount, .. } => {
                    let current = floor_sub(u.toughness, u.damage);
                    let moved = if *amount >= 0 {
                        current.saturating_add(*amount as u16)
                    } else {
                        let by: u16 = if *amount == i16::MIN {
                            i16::MAX as u16
                        } else {
                            (-*amount) as u16
                        };
                        floor_sub(current, by)
                    };
                    if moved < u.toughness {
                        moved
                    } else {
                        u.toughness
                    }
                },
                _ => floor_sub(u.toughness, u.damage),
            };
            let damage = floor_sub(u.toughness, life);
            let c2 = CardState { unit: Some(UnitState { damage, ..u }), ..c };
            if damage >= u.toughness {
                match c.deaths_door {
                    Some(_) => (CardState { deaths_door: Some(true), ..c2 }, None),
                    None => (c2, Some(EffectError::NoAvatarBase)),
                }
            } else {
                (c2, None)
            }
        },
    }
}

/// Applies effect `effect` to the game `state`, as the game does once
/// ongoing effects have had their chance to change it, and gives the
/// effects it leads to. On an error the game keeps what was changed before
/// the error was met.
pub fn apply_effect(state: &mut GameModel, effect: &EffectModel) -> (r: Result<Vec<FollowUp>, EffectError>)
    requires
        old(state).valid(),
        mana_change_fits(old(state).view(), *effect),
        names_known_cards(old(state).view(), *effect),
        turn_order_allows(old(state).view(), *effect),
    ensures
        final(state).valid(),
        final(state).view() == applied(old(state).view(), *effect).0,
        r is Ok <==> effect_applies(old(state).view(), *effect),
        r matches Err(err) ==> applied(old(state).view(), *effect).1 == Some(err),
        r matches Ok(next) ==> next@ == follow_ups(old(state).view(), *effect),
        *effect matches EffectModel::Heal { card_id, amount } ==> {
            let i = card_index(old(state).cards@, card_id)->0;
            let c = old(state).cards@[i];
            c.deaths_door != Some(true) && c.unit is Some ==> {
                &&& r is Ok
                &&& final(state).cards@[i].unit is Some
                &&& final(state).cards@[i].unit->0.toughness == c.unit->0.toughness
                &&& final(state).cards@[i].unit->0.damage as int == if c.unit->0.damage >= amount {
                    c.unit->0.damage - amount
                } else {
                    0
                }
            }
        },
{
    let ghost g = state.view();
    let r = apply_known(state, effect);
    proof {
        if !(*effect is DrawCard) {
            lemma_applied_keeps_keys(g, *effect);
        }
        if let EffectModel::Heal { card_id, amount } = *effect {
            healing_takes_off_the_amount(g, card_id, amount);
        }
    }
    r
}

/// `apply_effect`, with the cards of the game known before and after, and
/// a draw keeping the game valid.
#[verifier::rlimit(40)]
fn apply_known(state: &mut GameModel, effect: &EffectModel) -> (r: Result<Vec<FollowUp>, EffectError>)
    requires
        old(state).valid(),
        mana_change_fits(old(state).view(), *effect),
        names_known_cards(old(state).view(), *effect),
        turn_order_allows(old(state).view(), *effect),
    ensures
        final(state).knows_its_cards(),
        *effect is DrawCard ==> final(state).valid(),
        final(state).view() == applied(old(state).view(), *effect).0,
        r is Ok <==> effect_applies(old(state).view(), *effect),
        r matches Err(err) ==> applied(old(state).view(), *effect).1 == Some(err),
        r matches Ok(next) ==> next@ == follow_ups(old(state).view(), *effect),
{
    let ghost g = state.view();
    match effect {
        EffectModel::Noop | EffectModel::Notify { .. } => Ok(Vec::new()),
        EffectModel::PlayerLost { player_id } => {
            state.standings.eliminate_player(*player_id);
            Ok(Vec::new())
        },
        EffectModel::SkipNextTurn { player_id } => {
            state.turns.skip_next_for(player_id);
            Ok(Vec::new())
        },
        EffectModel::OverrideNextTurn { turn } => {
            state.turns.override_next(*turn);
            Ok(Vec::new())
        },
        EffectModel::SetAvatarLife { player_id, .. } | EffectModel::AdjustAvatarLife { player_id, .. } => {
            match find_avatar(&state.avatars, player_id) {
                None => Err(EffectError::NoAvatar),
                Some(avatar_id) => {
                    proof {
                        let k = choose|k: int| 0 <= k < g.avatars.len() && g.avatars[k].0 == *player_id;
                        lemma_avatar_of(g.avatars, *player_id);
                        lemma_card_index(g.cards, avatar_id);
                    }
                    let i = find_card(&state.cards, &avatar_id).unwrap();
                    proof {
                        lemma_card_index(g.cards, avatar_id);
                    }
                    let (c, err) = change_avatar_life(state.cards[i], effect);
                    set_card(state, i, c);
                    match err {
                        Some(e) => Err(e),
                        None => Ok(Vec::new()),
                    }
                },
            }
        },
        EffectModel::Heal { card_id, amount } => {
            let i = find_card(&state.cards, card_id).unwrap();
            proof {
                lemma_card_index(g.cards, *card_id);
            }
            let c = state.cards[i];
            if c.deaths_door == Some(true) {
                return Ok(Vec::new());
            }
            match c.unit {
                None => Err(EffectError::NoUnitBase),
                Some(u) => {
                    let c2 = CardState { unit: Some(UnitState { damage: floor_sub(u.damage, *amount), ..u }), ..c };
                    set_card(state, i, c2);
                    Ok(Vec::new())
                },
            }
        },
        EffectModel::SetTapped { card_id, tapped } => {
            let i = find_card(&state.cards, card_id).unwrap();
            proof {
                lemma_card_index(g.cards, *card_id);
            }
            let c2 = CardState { tapped: *tapped, ..state.cards[i] };
            set_card(state, i, c2);
            Ok(Vec::new())
        },
        EffectModel::AdjustMana { player_id, mana } => {
            let (m, _) = mana_entry(&state.mana, player_id);
            let mi: i16 = if m < 128 {
                m as i16
            } else {
                m as i16 - 256
            };
            let s: i16 = mi + *mana as i16;
            let v: u8 = if s < 0 {
                (s + 256) as u8
            } else {
                s as u8
            };
            set_mana(&mut state.mana, player_id, v);
            Ok(Vec::new())
        },
        EffectModel::EndTurn { player_id } => {
            set_mana(&mut state.mana, player_id, 0);
            state.phase = Phase::Main;
            let mut next: Vec<FollowUp> = Vec::new();
            next.push(FollowUp::FinishEndTurn { player_id: *player_id });
            assert(next@ =~= seq![FollowUp::FinishEndTurn { player_id: *player_id }]);
            Ok(next)
        },
        EffectModel::DrawCard { player_id, count, kind } => draw_cards(state, *player_id, *count, *kind),
        EffectModel::SetBearer { card_id, bearer_id } => {
            if let Some(i) = find_card(&state.cards, card_id) {
                proof {
                    lemma_card_index(g.cards, *card_id);
                }
                let c2 = CardState { bearer: *bearer_id, ..state.cards[i] };
                set_card(state, i, c2);
            }
            Ok(Vec::new())
        },
        EffectModel::SetController { card_id, player_id } => {
            let i = find_card(&state.cards, card_id).unwrap();
            proof {
                lemma_card_index(g.cards, *card_id);
            }
            let c2 = CardState { controller_id: *player_id, ..state.cards[i] };
            set_card(state, i, c2);
            Ok(Vec::new())
        },
        EffectModel::Strike { .. } => apply_strike(state, effect),
        EffectModel::KillMinion { card_id, .. } => {
            let mut next: Vec<FollowUp> = Vec::new();
            next.push(FollowUp::BuryCard { card_id: *card_id });
            assert(next@ =~= follow_ups(g, *effect));
            Ok(next)
        },
        EffectModel::DeclareDefender { .. } => Ok(Vec::new()),
        EffectModel::FinishStartTurn { player_id, previous_controller } => {
            let chooser = state.turns.current().controller_id();
            let first = state.turns_taken == 0 && same_id(player_id, &state.player_one);
            state.turns_taken = state.turns_taken + 1;
            let mut next: Vec<FollowUp> = Vec::new();
            if !first {
                next.push(FollowUp::ChooseStartingDraw { chooser, player_id: *player_id });
            }
            next.push(FollowUp::Resume { player_id: *previous_controller });
            assert(next@ =~= follow_ups(g, *effect));
            Ok(next)
        },
        EffectModel::StartTurn { .. } => apply_start_turn(state, effect),
        EffectModel::FinishEndTurn { .. } => apply_finish_end_turn(state, effect),
        EffectModel::RearrangeDeck { .. } => apply_rearrange_deck(state, effect),
    }
}

/// Cards switched to the hand keep their identifiers, so the decks keep
/// naming cards of the game.
pub(crate) proof fn lemma_known_after_update(decks: Seq<PilesView>, cards: Seq<CardState>, i: int, c: CardState)
    requires
        0 <= i < cards.len(),
        c.id == cards[i].id,
        decks_known(decks, cards),
    ensures
        decks_known(decks, cards.update(i, c)),
{
    assert forall|d: int, k: int| 0 <= d < decks.len() && 0 <= k < decks[d].sites.len() implies card_index(
        cards.update(i, c),
        #[trigger] decks[d].sites[k],
    ) is Some by {
        lemma_card_index_update(cards, i, c, decks[d].sites[k]);
    }
    assert forall|d: int, k: int| 0 <= d < decks.len() && 0 <= k < decks[d].spells.len() implies card_index(
        cards.update(i, c),
        #[trigger] decks[d].spells[k],
    ) is Some by {
        lemma_card_index_update(cards, i, c, decks[d].spells[k]);
    }
}

/// Once a pile ran out, further draws change nothing.
proof fn lemma_draws_stop(g: GameView, p: PlayerId, kind: DrawKind, j: nat, m: nat)
    requires
        j <= m,
        draws(g, p, kind, j).1,
    ensures
        draws(g, p, kind, m) == draws(g, p, kind, j),
    decreases m - j,
{
    if j < m {
        lemma_draws_stop(g, p, kind, j, (m - 1) as nat);
    }
}

/// The position of the deck of player `p`.
pub(crate) fn find_deck(decks: &Vec<Deck>, p: &PlayerId) -> (r: Option<usize>)
    ensures
        r matches Some(i) ==> deck_index(piles_of(decks@), *p) == Some(i as int) && i < decks@.len(),
        r is None ==> deck_index(piles_of(decks@), *p) is None,
{
    let ghost all = piles_of(decks@);
    let mut i: usize = 0;
    while i < decks.len()
        invariant
            i <= decks@.len(),
            all == piles_of(decks@),
            deck_index(all.take(i as int), *p) is None,
        decreases decks@.len() - i,
    {
        assert(all.take(i + 1).drop_last() =~= all.take(i as int));
        if same_id(&decks[i].player_id, p) {
            proof {
                lemma_deck_index_prefix(all, i as int + 1, *p);
            }
            return Some(i);
        }
        i += 1;
    }
    assert(all.take(all.len() as int) =~= all);
    None
}

/// A deck found in a prefix is found at the same place in the whole.
proof fn lemma_deck_index_prefix(decks: Seq<PilesView>, k: int, p: PlayerId)
    requires
        0 <= k <= decks.len(),
        deck_index(decks.take(k), p) is Some,
    ensures
        deck_index(decks, p) == deck_index(decks.take(k), p),
    decreases decks.len() - k,
{
    if k < decks.len() {
        assert(decks.take(k + 1).drop_last() =~= decks.take(k));
        lemma_deck_index_prefix(decks, k + 1, p);
    } else {
        assert(decks.take(k) =~= decks);
    }
}

/// Where `deck_index` points, the deck is the player's.
proof fn lemma_deck_index(decks: Seq<PilesView>, p: PlayerId)
    ensures
        deck_index(decks, p) matches Some(i) ==> 0 <= i < decks.len() && decks[i].player_id == p,
    decreases decks.len(),
{
    if decks.len() > 0 {
        lemma_deck_index(decks.drop_last(), p);
    }
}

/// Changing the piles of a deck but not its player leaves every deck where
/// it was.
proof fn lemma_deck_index_update(decks: Seq<PilesView>, i: int, x: PilesView, p: PlayerId)
    requires
        0 <= i < decks.len(),
        x.player_id == decks[i].player_id,
    ensures
        deck_index(decks.update(i, x), p) == deck_index(decks, p),
    decreases decks.len(),
{
    let u = decks.update(i, x);
    if i < decks.len() - 1 {
        lemma_deck_index_update(decks.drop_last(), i, x, p);
        assert(u.drop_last() =~= decks.drop_last().update(i, x));
    } else {
        assert(u.drop_last() =~= decks.drop_last());
    }
}

/// Draws `count` cards of kind `kind` for player `p`.
fn draw_cards(state: &mut GameModel, p: PlayerId, count: u8, kind: DrawKind) -> (r: Result<Vec<FollowUp>, EffectError>)
    requires
        old(state).valid(),
    ensures
        final(state).valid(),
        final(state).view() == applied(old(state).view(), EffectModel::DrawCard { player_id: p, count, kind }).0,
        r is Ok <==> effect_applies(old(state).view(), EffectModel::DrawCard { player_id: p, count, kind }),
        r matches Err(err) ==> applied(old(state).view(), EffectModel::DrawCard { player_id: p, count, kind }).1 == Some(err),
        r matches Ok(next) ==> next@ == follow_ups(old(state).view(), EffectModel::DrawCard { player_id: p, count, kind }),
{
    let ghost g = state.view();
    if count == 0 {
        return Ok(Vec::new());
    }
    if let DrawKind::Choice = kind {
        let mut v: Vec<FollowUp> = Vec::new();
        v.push(FollowUp::ChooseDraws { player_id: p, count });
        assert(v@ =~= seq![FollowUp::ChooseDraws { player_id: p, count }]);
        return Ok(v);
    }
    let d = match find_deck(&state.decks, &p) {
        None => {
            return Err(EffectError::NoDeck);
        },
        Some(d) => d,
    };
    proof {
        lemma_deck_index(g.decks, p);
    }
    let mut k: u8 = 0;
    while k < count
        invariant
            g == old(state).view(),
            k <= count,
            !(kind is Choice),
            d < state.decks@.len(),
            deck_index(state.view().decks, p) == Some(d as int),
            state.view() == draws(g, p, kind, k as nat).0,
            !draws(g, p, kind, k as nat).1,
            state.valid(),
            deck_index(g.decks, p) is Some,
        decreases count - k,
    {
        let ghost before = state.view();
        proof {
            lemma_deck_index(before.decks, p);
        }
        let ghost od = state.decks@[d as int];
        assert(before.decks[d as int] == PilesView { name: od.name@, player_id: od.player_id, avatar: od.avatar, sites: od.sites@, spells: od.spells@ });
        let mut deck = state.decks.remove(d);
        let top = match kind {
            DrawKind::Site => deck.sites.pop(),
            _ => deck.spells.pop(),
        };
        let ghost new_piles = PilesView { name: deck.name@, player_id: deck.player_id, avatar: deck.avatar, sites: deck.sites@, spells: deck.spells@ };
        state.decks.insert(d, deck);
        proof {
            assert(piles_of(state.decks@) =~= before.decks.update(d as int, new_piles));
            lemma_deck_index_update(before.decks, d as int, new_piles, p);
        }
        match top {
            None => {
                proof {
                    assert(new_piles == before.decks[d as int]);
                    assert(before.decks.update(d as int, new_piles) =~= before.decks);
                    assert(state.view() == before);
                    assert(draws(g, p, kind, (k + 1) as nat) == (before, true));
                    lemma_draws_stop(g, p, kind, (k + 1) as nat, count as nat);
                    assert(draws(g, p, kind, count as nat).0 == before);
                    assert(applied(g, EffectModel::DrawCard { player_id: p, count, kind }).0 == draws(g, p, kind, count as nat).0);
                }
                let mut v: Vec<FollowUp> = Vec::new();
                v.push(FollowUp::PlayerLost { player_id: p });
                assert(v@ =~= seq![FollowUp::PlayerLost { player_id: p }]);
                return Ok(v);
            },
            Some(id) => {
                proof {
                    let pile = if kind is Site { before.decks[d as int].sites } else { before.decks[d as int].spells };
                    assert(id == pile.last());
                    assert(decks_known(before.decks, before.cards));
                    assert(card_index(before.cards, id) is Some) by {
                        let dd = d as int;
                        if kind is Site {
                            let kk = pile.len() - 1;
                            assert(before.decks[dd].sites[kk] == id);
                            assert(0 <= dd < before.decks.len());
                        } else {
                            let kk = pile.len() - 1;
                            assert(before.decks[dd].spells[kk] == id);
                            assert(0 <= dd < before.decks.len());
                        }
                    }
                    lemma_card_index(before.cards, id);
                }
                let i = find_card(&state.cards, &id).unwrap();
                let c2 = CardState { in_hand: true, ..state.cards[i] };
                state.cards.set(i, c2);
                proof {
                    let nd = before.decks.update(d as int, new_piles);
                    assert forall|j: int| 0 <= j < state.avatars@.len() implies card_index(
                        state.cards@,
                        (#[trigger] state.avatars@[j]).1,
                    ) is Some by {
                        lemma_card_index_update(before.cards, i as int, c2, state.avatars@[j].1);
                    }
                    assert(decks_known(nd, before.cards)) by {
                        assert forall|dd: int, kk: int| 0 <= dd < nd.len() && 0 <= kk < nd[dd].sites.len()
                            implies card_index(before.cards, #[trigger] nd[dd].sites[kk]) is Some by {
                            if dd == d {
                                assert(nd[dd].sites[kk] == before.decks[dd].sites[kk]);
                            }
                        }
                        assert forall|dd: int, kk: int| 0 <= dd < nd.len() && 0 <= kk < nd[dd].spells.len()
                            implies card_index(before.cards, #[trigger] nd[dd].spells[kk]) is Some by {
                            if dd == d {
                                assert(nd[dd].spells[kk] == before.decks[dd].spells[kk]);
                            }
                        }
                    }
                    lemma_known_after_update(nd, before.cards, i as int, c2);
                    assert(card_ids(state.cards@) =~= card_ids(before.cards));
                    assert(deck_owners(nd) =~= deck_owners(before.decks));
                    assert(state.view() == draw_one(before, p, kind).0);
                }
            },
        }
        k += 1;
    }
    Ok(Vec::new())
}

/// Where a player has an avatar, it is the avatar of one of the entries.
proof fn lemma_avatar_of(avatars: Seq<(PlayerId, CardId)>, p: PlayerId)
    ensures
        avatar_of(avatars, p) matches Some(id) ==> exists|k: int|
            0 <= k < avatars.len() && #[trigger] avatars[k] == (p, id),
    decreases avatars.len(),
{
    if avatars.len() > 0 && avatars[0].0 != p {
        lemma_avatar_of(avatars.drop_first(), p);
        if let Some(id) = avatar_of(avatars, p) {
            let k = choose|k: int| 0 <= k < avatars.drop_first().len() && #[trigger] avatars.drop_first()[k] == (p, id);
            assert(avatars[k + 1] == (p, id));
        }
    } else if avatars.len() > 0 {
        assert(avatars[0] == (p, avatars[0].1));
    }
}

/// An avatar at death's door is out of reach of healing and of changes to
/// its life: those effects leave the game as it is.
pub proof fn deaths_door_holds(g: GameView, e: EffectModel, id: CardId)
    requires
        card_index(g.cards, id) is Some,
        g.cards[card_index(g.cards, id)->0].deaths_door == Some(true),
        match e {
            EffectModel::Heal { card_id, .. } => card_id == id,
            EffectModel::SetAvatarLife { player_id, .. } => avatar_of(g.avatars, player_id) == Some(id),
            EffectModel::AdjustAvatarLife { player_id, .. } => avatar_of(g.avatars, player_id) == Some(id),
            _ => false,
        },
    ensures
        applied(g, e) == (g, None::<EffectError>),
{
    let i = card_index(g.cards, id)->0;
    lemma_card_index(g.cards, id);
    assert(g.cards.update(i, g.cards[i]) =~= g.cards);
}

/// Setting or changing an avatar's life leaves it with no more damage than
/// its toughness, and an avatar left without life is at death's door.
pub proof fn avatar_life_stays_in_bounds(c: CardState, e: EffectModel)
    requires
        e is SetAvatarLife || e is AdjustAvatarLife,
        c.unit is Some,
        c.deaths_door is Some,
    ensures
        avatar_life_effect(c, e).1 is None,
        avatar_life_effect(c, e).0.unit->0.damage <= c.unit->0.toughness || c.deaths_door == Some(true),
        c.deaths_door == Some(true) || (life_of(avatar_life_effect(c, e).0.unit->0) == 0
            ==> avatar_life_effect(c, e).0.deaths_door == Some(true)),
{
}

/// Changing a player's mana by an amount and then by its opposite gives
/// the mana back, where neither change overflows.
pub proof fn mana_changes_undo(m: u8, d: i8)
    requires
        -128 <= wrap_i8(m) + d <= 127,
        -128 <= wrap_i8(adjusted_mana(m, d)) - d <= 127,
        d != i8::MIN,
    ensures
        adjusted_mana(adjusted_mana(m, d), (-d) as i8) == m,
{
}

/// The name of the card `id` in `names`.
pub open spec fn name_in(names: Seq<(CardId, String)>, id: CardId) -> Option<Seq<char>>
    decreases names.len(),
{
    if names.len() == 0 {
        None
    } else if names[0].0 == id {
        Some(names[0].1@)
    } else {
        name_in(names.drop_first(), id)
    }
}

/// The text shown in the game log for effect `e`, if any; `players` are
/// the players of the game and `names` the names of its cards.
pub open spec fn description_of(
    e: EffectModel,
    players: Seq<Player>,
    names: Seq<(CardId, String)>,
    cards: Seq<CardState>,
) -> Option<Seq<char>> {
    match e {
        EffectModel::Noop => None,
        EffectModel::Strike { striker_id, target_id } => Some(displayed_player_name(
            players,
            cards[card_index(cards, striker_id)->0].controller_id,
        ) + " strikes "@ + name_in(names, target_id)->0 + " with "@ + name_in(names, striker_id)->0),
        EffectModel::KillMinion { card_id, killer_id, .. } => Some(name_in(names, killer_id)->0 + " kills "@
            + name_in(names, card_id)->0),
        EffectModel::DeclareDefender { .. } => None,
        EffectModel::Notify { message } => Some(message@),
        EffectModel::PlayerLost { player_id } => Some(displayed_player_name(players, player_id) + " has lost the game"@),
        EffectModel::SkipNextTurn { player_id } => Some(displayed_player_name(players, player_id)
            + " skips their next turn"@),
        EffectModel::OverrideNextTurn { turn } => match turn.controller_override {
            Some(c) => Some(displayed_player_name(players, c) + " will control "@ + displayed_player_name(
                players,
                turn.player_id,
            ) + "'s next turn"@),
            None => Some(displayed_player_name(players, turn.player_id) + " will control their next turn"@),
        },
        EffectModel::SetAvatarLife { player_id, life } => Some(displayed_player_name(players, player_id)
            + "'s Avatar life becomes "@ + decimal(life as nat)),
        EffectModel::AdjustAvatarLife { player_id, amount } => if amount >= 0 {
            Some(displayed_player_name(players, player_id) + " gains "@ + decimal(amount as nat) + " life"@)
        } else {
            Some(displayed_player_name(players, player_id) + " loses "@ + decimal(
                if amount == i16::MIN { i16::MAX as nat } else { (-amount) as nat },
            ) + " life"@)
        },
        EffectModel::Heal { card_id, amount } => {
            let card = name_in(names, card_id)->0;
            Some(card + " heals "@ + card + " for "@ + decimal(amount as nat) + " health"@)
        },
        EffectModel::SetTapped { .. } => None,
        EffectModel::AdjustMana { .. } => None,
        EffectModel::EndTurn { player_id } => Some(displayed_player_name(players, player_id) + " passes the turn"@),
        EffectModel::DrawCard { player_id, count, kind } => if count == 0 {
            None
        } else {
            Some(displayed_player_name(players, player_id) + " draws "@ + decimal(count as nat) + " "@
                + draw_noun(kind, count))
        },
        EffectModel::SetBearer { card_id, bearer_id } => match bearer_id {
            Some(carrier) => Some(name_in(names, card_id)->0 + " is now carried by "@ + name_in(names, carrier)->0),
            None => Some(name_in(names, card_id)->0 + " is no longer carried"@),
        },
        EffectModel::SetController { card_id, player_id } => Some(displayed_player_name(players, player_id)
            + " gains control of "@ + name_in(names, card_id)->0),
        EffectModel::RearrangeDeck { .. } => None,
        EffectModel::FinishEndTurn { .. } => None,
        EffectModel::StartTurn { player_id } => Some("--- "@ + displayed_player_name(players, player_id)
            + "'s turn begins ---"@),
        EffectModel::FinishStartTurn { .. } => None,
    }
}

/// What a draw of `count` cards of kind `kind` is called.
pub open spec fn draw_noun(kind: DrawKind, count: u8) -> Seq<char> {
    match kind {
        DrawKind::Site => if count == 1 { "site"@ } else { "sites"@ },
        DrawKind::Spell => if count == 1 { "spell"@ } else { "spells"@ },
        DrawKind::Choice => if count == 1 { "card"@ } else { "cards"@ },
    }
}

/// The name of the card `id`.
fn find_name<'a>(names: &'a Vec<(CardId, String)>, id: &CardId) -> (r: Option<&'a String>)
    ensures
        match r {
            Some(n) => name_in(names@, *id) == Some(n@),
            None => name_in(names@, *id) is None,
        },
{
    let mut i: usize = 0;
    assert(names@.skip(0) =~= names@);
    while i < names.len()
        invariant
            i <= names@.len(),
            name_in(names@, *id) == name_in(names@.skip(i as int), *id),
        decreases names@.len() - i,
    {
        assert(names@.skip(i as int).drop_first() =~= names@.skip(i + 1));
        if same_id(&names[i].0, id) {
            return Some(&names[i].1);
        }
        i += 1;
    }
    None
}

/// The text shown in the game log for `effect`, if any.
pub fn effect_description(
    effect: &EffectModel,
    players: &[Player],
    names: &Vec<(CardId, String)>,
    cards: &Vec<CardState>,
) -> (r: Option<String>)
    requires
        *effect matches EffectModel::Strike { striker_id, target_id } ==> name_in(names@, striker_id) is Some
            && name_in(names@, target_id) is Some && card_index(cards@, striker_id) is Some,
        *effect matches EffectModel::KillMinion { card_id, killer_id, .. } ==> name_in(names@, card_id) is Some
            && name_in(names@, killer_id) is Some,
        *effect matches EffectModel::Heal { card_id, .. } ==> name_in(names@, card_id) is Some,
        *effect matches EffectModel::SetBearer { card_id, bearer_id } ==> name_in(names@, card_id) is Some
            && (bearer_id matches Some(b) ==> name_in(names@, b) is Some),
        *effect matches EffectModel::SetController { card_id, .. } ==> name_in(names@, card_id) is Some,
    ensures
        match r {
            Some(t) => description_of(*effect, players@, names@, cards@) == Some(t@),
            None => description_of(*effect, players@, names@, cards@) is None,
        },
{
    match effect {
        EffectModel::Noop => None,
        EffectModel::Strike { striker_id, target_id } => {
            let i = find_card(cards, striker_id).unwrap();
            proof {
                lemma_card_index(cards@, *striker_id);
            }
            let striker = find_name(names, striker_id).unwrap();
            let target = find_name(names, target_id).unwrap();
            let mut t = String::from_str(player_name(&cards[i].controller_id, players));
            t.append(" strikes ");
            t.append(target.as_str());
            t.append(" with ");
            t.append(striker.as_str());
            Some(t)
        },
        EffectModel::KillMinion { card_id, killer_id, .. } => {
            let killer = find_name(names, killer_id).unwrap();
            let card = find_name(names, card_id).unwrap();
            let mut t = String::from_str(killer.as_str());
            t.append(" kills ");
            t.append(card.as_str());
            Some(t)
        },
        EffectModel::DeclareDefender { .. } => None,
        EffectModel::Notify { message } => Some(message.clone()),
        EffectModel::PlayerLost { player_id } => {
            let mut t = String::from_str(player_name(player_id, players));
            t.append(" has lost the game");
            Some(t)
        },
        EffectModel::SkipNextTurn { player_id } => {
            let mut t = String::from_str(player_name(player_id, players));
            t.append(" skips their next turn");
            Some(t)
        },
        EffectModel::OverrideNextTurn { turn } => match turn.controller_override() {
            Some(c) => {
                let mut t = String::from_str(player_name(&c, players));
                t.append(" will control ");
                t.append(player_name(&turn.player_id(), players));
                t.append("'s next turn");
                Some(t)
            },
            None => {
                let mut t = String::from_str(player_name(&turn.player_id(), players));
                t.append(" will control their next turn");
                Some(t)
            },
        },
        EffectModel::SetAvatarLife { player_id, life } => {
            let mut t = String::from_str(player_name(player_id, players));
            t.append("'s Avatar life becomes ");
            push_decimal(&mut t, *life as u64);
            Some(t)
        },
        EffectModel::AdjustAvatarLife { player_id, amount } => {
            let mut t = String::from_str(player_name(player_id, players));
            if *amount >= 0 {
                t.append(" gains ");
                push_decimal(&mut t, *amount as u64);
            } else {
                t.append(" loses ");
                let by: u64 = if *amount == i16::MIN {
                    i16::MAX as u64
                } else {
                    (-*amount) as u64
                };
                push_decimal(&mut t, by);
            }
            t.append(" life");
            Some(t)
        },
        EffectModel::Heal { card_id, amount } => {
            let card = find_name(names, card_id).unwrap();
            let mut t = String::from_str(card.as_str());
            t.append(" heals ");
            t.append(card.as_str());
            t.append(" for ");
            push_decimal(&mut t, *amount as u64);
            t.append(" health");
            Some(t)
        },
        EffectModel::SetTapped { .. } => None,
        EffectModel::AdjustMana { .. } => None,
        EffectModel::EndTurn { player_id } => {
            let mut t = String::from_str(player_name(player_id, players));
            t.append(" passes the turn");
            Some(t)
        },
        EffectModel::DrawCard { player_id, count, kind } => {
            if *count == 0 {
                return None;
            }
            let mut t = String::from_str(player_name(player_id, players));
            t.append(" draws ");
            push_decimal(&mut t, *count as u64);
            t.append(" ");
            let noun = match kind {
                DrawKind::Site => if *count == 1 { "site" } else { "sites" },
                DrawKind::Spell => if *count == 1 { "spell" } else { "spells" },
                DrawKind::Choice => if *count == 1 { "card" } else { "cards" },
            };
            t.append(noun);
            Some(t)
        },
        EffectModel::SetBearer { card_id, bearer_id } => {
            let card = find_name(names, card_id).unwrap();
            let mut t = String::from_str(card.as_str());
            match bearer_id {
                Some(b) => {
                    let carrier = find_name(names, b).unwrap();
                    t.append(" is now carried by ");
                    t.append(carrier.as_str());
                },
                None => {
                    t.append(" is no longer carried");
                },
            }
            Some(t)
        },
        EffectModel::SetController { card_id, player_id } => {
            let card = find_name(names, card_id).unwrap();
            let mut t = String::from_str(player_name(player_id, players));
            t.append(" gains control of ");
            t.append(card.as_str());
            Some(t)
        },
        EffectModel::RearrangeDeck { .. } => None,
        EffectModel::FinishEndTurn { .. } => None,
        EffectModel::StartTurn { player_id } => {
            let mut t = String::from_str("--- ");
            t.append(player_name(player_id, players));
            t.append("'s turn begins ---");
            Some(t)
        },
        EffectModel::FinishStartTurn { .. } => None,
    }
}

/// A query on effects, as far as it concerns the effects of this module:
/// ongoing effects and counters use such queries to wait for an effect.
#[derive(Debug)]
pub enum EffectQueryModel {
    /// Any of the queries.
    OneOf(Vec<EffectQueryModel>),
    /// The end of the turn of the player, or of anyone.
    TurnEnd { player_id: Option<PlayerId> },
    /// The start of the turn of the player, or of anyone.
    TurnStart { player_id: Option<PlayerId> },
    /// The untapping of one of the cards that the query's card query
    /// matches, as the game resolved it.
    UntapCard { cards: Vec<CardId> },
    /// A draw by the player, or by anyone.
    DrawCard { player_id: Option<PlayerId> },
    /// A unit that the first query matches is killed, by a card that the
    /// second matches, if any, in an attack or not, if that is asked.
    UnitKilled { unit: CardQueryModel, killer: Option<CardQueryModel>, from_attack: Option<bool> },
    /// A unit that the second query matches steps in to defend against an
    /// attacker that the first matches.
    DefendDeclared { attacker: CardQueryModel, defender: CardQueryModel },
    /// A query on effects that this module does not apply.
    Other,
}

/// Whether effect `e` is one that query `q` waits for, the cards of the
/// game being `cards`.
pub open spec fn effect_query_holds(q: EffectQueryModel, e: EffectModel, cards: Seq<CardModel>) -> bool
    decreases q,
{
    match q {
        EffectQueryModel::OneOf(qs) => exists|i: int|
            0 <= i < qs@.len() && effect_query_holds(#[trigger] qs@[i], e, cards),
        EffectQueryModel::UnitKilled { unit, killer, from_attack } => match e {
            EffectModel::KillMinion { card_id, killer_id, from_attack: f } => card_query_holds(unit, cards, card_id)
                && unless_none(killer, |k: CardQueryModel| card_query_holds(k, cards, killer_id)) && unless_none(
                from_attack,
                |a: bool| a == f,
            ),
            _ => false,
        },
        EffectQueryModel::DefendDeclared { attacker, defender } => match e {
            EffectModel::DeclareDefender { attacker_id, defender_id } => card_query_holds(attacker, cards, attacker_id)
                && card_query_holds(defender, cards, defender_id),
            _ => false,
        },
        EffectQueryModel::TurnEnd { player_id } => match e {
            EffectModel::EndTurn { player_id: p } => match player_id {
                Some(q) => q == p,
                None => true,
            },
            _ => false,
        },
        EffectQueryModel::TurnStart { player_id } => match e {
            EffectModel::StartTurn { player_id: p } => match player_id {
                Some(q) => q == p,
                None => true,
            },
            _ => false,
        },
        EffectQueryModel::UntapCard { cards } => match e {
            EffectModel::SetTapped { card_id, tapped } => !tapped && cards@.contains(card_id),
            _ => false,
        },
        EffectQueryModel::DrawCard { player_id } => match e {
            EffectModel::DrawCard { player_id: p, .. } => match player_id {
                Some(q) => q == p,
                None => true,
            },
            _ => false,
        },
        EffectQueryModel::Other => false,
    }
}

/// Whether the cards that the game looks up to hold query `q` against
/// effect `e` are among `cards`: the game fails where one is missing. A
/// query for any of several stops at the first that holds.
pub open spec fn effect_lookups_ok(q: EffectQueryModel, e: EffectModel, cards: Seq<CardModel>) -> bool
    decreases q,
{
    match q {
        EffectQueryModel::OneOf(qs) => forall|i: int|
            0 <= i < qs@.len() ==> ((forall|j: int| 0 <= j < i ==> !effect_query_holds(#[trigger] qs@[j], e, cards))
                ==> effect_lookups_ok(#[trigger] qs@[i], e, cards)),
        EffectQueryModel::UnitKilled { unit, killer, .. } => match e {
            EffectModel::KillMinion { card_id, killer_id, .. } => card_lookup_ok(unit, cards, card_id) && unless_none(
                killer,
                |k: CardQueryModel| card_lookup_ok(k, cards, killer_id),
            ),
            _ => true,
        },
        EffectQueryModel::DefendDeclared { attacker, defender } => match e {
            EffectModel::DeclareDefender { attacker_id, defender_id } => card_lookup_ok(attacker, cards, attacker_id)
                && (card_query_holds(attacker, cards, attacker_id) ==> card_lookup_ok(defender, cards, defender_id)),
            _ => true,
        },
        _ => true,
    }
}

/// Whether `effect` is one that `query` waits for, the cards of the game
/// being `cards`.
#[verifier::loop_isolation(false)]
pub fn effect_query_matches(query: &EffectQueryModel, effect: &EffectModel, cards: &Vec<CardModel>) -> (r: bool)
    requires
        effect_lookups_ok(*query, *effect, cards@),
    ensures
        r == effect_query_holds(*query, *effect, cards@),
    decreases query,
{
    match query {
        EffectQueryModel::OneOf(qs) => {
            let mut i: usize = 0;
            while i < qs.len()
                invariant
                    i <= qs@.len(),
                    *query == EffectQueryModel::OneOf(*qs),
                    forall|j: int| 0 <= j < i ==> !effect_query_holds(#[trigger] qs@[j], *effect, cards@),
                decreases qs@.len() - i,
            {
                proof {
                    assert(decreases_to!(*query => *qs));
                    assert(decreases_to!(*qs => qs@));
                    assert(decreases_to!(qs@ => qs@[i as int]));
                    assert(effect_lookups_ok(qs@[i as int], *effect, cards@));
                }
                if effect_query_matches(&qs[i], effect, cards) {
                    assert(effect_query_holds(qs@[i as int], *effect, cards@));
                    return true;
                }
                i += 1;
            }
            false
        },
        EffectQueryModel::UnitKilled { unit, killer, from_attack } => match effect {
            EffectModel::KillMinion { card_id, killer_id, from_attack: f } => {
                let unit_ok = card_query_ok(unit, cards, card_id);
                let killer_ok = match killer {
                    Some(k) => card_query_ok(k, cards, killer_id),
                    None => true,
                };
                let attack_ok = match from_attack {
                    Some(a) => *a == *f,
                    None => true,
                };
                unit_ok && killer_ok && attack_ok
            },
            _ => false,
        },
        EffectQueryModel::DefendDeclared { attacker, defender } => match effect {
            EffectModel::DeclareDefender { attacker_id, defender_id } => card_query_ok(attacker, cards, attacker_id)
                && card_query_ok(defender, cards, defender_id),
            _ => false,
        },
        EffectQueryModel::TurnEnd { player_id } => match effect {
            EffectModel::EndTurn { player_id: p } => match player_id {
                Some(q) => same_id(q, p),
                None => true,
            },
            _ => false,
        },
        EffectQueryModel::TurnStart { player_id } => match effect {
            EffectModel::StartTurn { player_id: p } => match player_id {
                Some(q) => same_id(q, p),
                None => true,
            },
            _ => false,
        },
        EffectQueryModel::UntapCard { cards } => match effect {
            EffectModel::SetTapped { card_id, tapped } => {
                if *tapped {
                    false
                } else {
                    let mut i: usize = 0;
                    while i < cards.len()
                        invariant
                            i <= cards@.len(),
                            forall|j: int| 0 <= j < i ==> cards@[j] != *card_id,
                        decreases cards@.len() - i,
                    {
                        if same_id(&cards[i], card_id) {
                            assert(cards@[i as int] == *card_id);
                            return true;
                        }
                        i += 1;
                    }
                    false
                }
            },
            _ => false,
        },
        EffectQueryModel::DrawCard { player_id } => match effect {
            EffectModel::DrawCard { player_id: p, .. } => match player_id {
                Some(q) => same_id(q, p),
                None => true,
            },
            _ => false,
        },
        EffectQueryModel::Other => false,
    }
}

/// A counter on a card, with the effect it lasts until, if any.
#[derive(Debug)]
pub struct CounterModel {
    pub id: CardId,
    pub expires_on_effect: Option<EffectQueryModel>,
}

/// The counters on a card.
#[derive(Debug)]
pub struct CardCounters {
    pub card_id: CardId,
    /// Whether the card is a unit, which can hold ability and power
    /// counters.
    pub is_unit: bool,
    /// Whether the card is a unit in play, whose ability and power
    /// counters can expire.
    pub unit_in_play: bool,
    pub ability_counters: Vec<CounterModel>,
    pub status_counters: Vec<CounterModel>,
    pub power_counters: Vec<CounterModel>,
}

/// Whether counter `c` expires on effect `e`.
pub open spec fn expires_on(c: CounterModel, e: EffectModel, cards: Seq<CardModel>) -> bool {
    match c.expires_on_effect {
        Some(q) => effect_query_holds(q, e, cards),
        None => false,
    }
}

/// The counters of `cs` that do not expire on effect `e`, in order.
pub open spec fn lasting(cs: Seq<CounterModel>, e: EffectModel, cards: Seq<CardModel>) -> Seq<CounterModel>
    decreases cs.len(),
{
    if cs.len() == 0 {
        Seq::empty()
    } else if expires_on(cs.last(), e, cards) {
        lasting(cs.drop_last(), e, cards)
    } else {
        lasting(cs.drop_last(), e, cards).push(cs.last())
    }
}

/// Whether counter `c` expires on `effect`.
fn counter_expires(c: &CounterModel, effect: &EffectModel, models: &Vec<CardModel>) -> (r: bool)
    requires
        lookups_of_counter_ok(*c, *effect, models@),
    ensures
        r == expires_on(*c, *effect, models@),
{
    match &c.expires_on_effect {
        Some(q) => effect_query_matches(q, effect, models),
        None => false,
    }
}

/// Whether the cards that the query of counter `c` looks up for effect
/// `e` are among `cards`.
pub open spec fn lookups_of_counter_ok(c: CounterModel, e: EffectModel, cards: Seq<CardModel>) -> bool {
    match c.expires_on_effect {
        Some(q) => effect_lookups_ok(q, e, cards),
        None => true,
    }
}

/// Whether the cards that the queries of the counters `cs` look up for
/// effect `e` are among `cards`.
pub open spec fn lookups_of_counters_ok(cs: Seq<CounterModel>, e: EffectModel, cards: Seq<CardModel>) -> bool {
    forall|i: int| 0 <= i < cs.len() ==> lookups_of_counter_ok(#[trigger] cs[i], e, cards)
}

/// Takes the counters of `cs` that expire on `effect` away.
fn drop_expired(cs: &mut Vec<CounterModel>, effect: &EffectModel, models: &Vec<CardModel>)
    requires
        lookups_of_counters_ok(old(cs)@, *effect, models@),
    ensures
        final(cs)@ == lasting(old(cs)@, *effect, models@),
{
    let mut old_cs: Vec<CounterModel> = Vec::new();
    std::mem::swap(&mut old_cs, cs);
    let ghost start = old_cs@;
    let mut kept: Vec<CounterModel> = Vec::new();
    let mut i: usize = 0;
    let n = old_cs.len();
    let mut rest = old_cs;
    assert(rest@ =~= start.skip(0));
    while i < n
        invariant
            n == start.len(),
            i <= n,
            rest@ == start.skip(i as int),
            kept@ == lasting(start.take(i as int), *effect, models@),
            lookups_of_counters_ok(start, *effect, models@),
        decreases n - i,
    {
        assert(rest@.len() == n - i);
        let c = rest.remove(0);
        proof {
            assert(c == start[i as int]);
            assert(rest@ =~= start.skip(i + 1));
            assert(start.take(i + 1).drop_last() =~= start.take(i as int));
        }
        if !counter_expires(&c, effect, models) {
            kept.push(c);
        }
        i += 1;
    }
    assert(start.take(n as int) =~= start);
    *cs = kept;
}

/// Takes away, on each card, the counters that expire on `effect`: the
/// ability and power counters of units in play, and the status counters of
/// every card. The queries of the counters look at the cards `models`.
pub fn expire_counters(cards: &mut Vec<CardCounters>, effect: &EffectModel, models: &Vec<CardModel>)
    requires
        forall|i: int|
            0 <= i < old(cards)@.len() ==> {
                let c = #[trigger] old(cards)@[i];
                &&& lookups_of_counters_ok(c.status_counters@, *effect, models@)
                &&& c.unit_in_play ==> lookups_of_counters_ok(c.ability_counters@, *effect, models@)
                    && lookups_of_counters_ok(c.power_counters@, *effect, models@)
            },
    ensures
        final(cards)@.len() == old(cards)@.len(),
        forall|i: int|
            0 <= i < old(cards)@.len() ==> {
                let (before, after) = (old(cards)@[i], #[trigger] final(cards)@[i]);
                &&& after.card_id == before.card_id
                &&& after.unit_in_play == before.unit_in_play
                &&& after.status_counters@ == lasting(before.status_counters@, *effect, models@)
                &&& after.ability_counters@ == if before.unit_in_play {
                    lasting(before.ability_counters@, *effect, models@)
                } else {
                    before.ability_counters@
                }
                &&& after.power_counters@ == if before.unit_in_play {
                    lasting(before.power_counters@, *effect, models@)
                } else {
                    before.power_counters@
                }
            },
{
    let mut old_cards: Vec<CardCounters> = Vec::new();
    std::mem::swap(&mut old_cards, cards);
    let ghost start = old_cards@;
    let n = old_cards.len();
    let mut rest = old_cards;
    assert(rest@ =~= start.skip(0));
    let mut done: Vec<CardCounters> = Vec::new();
    let mut i: usize = 0;
    while i < n
        invariant
            n == start.len(),
            i <= n,
            rest@ == start.skip(i as int),
            done@.len() == i,
            start == old(cards)@,
            forall|k: int|
                0 <= k < start.len() ==> {
                    let c = #[trigger] start[k];
                    &&& lookups_of_counters_ok(c.status_counters@, *effect, models@)
                    &&& c.unit_in_play ==> lookups_of_counters_ok(c.ability_counters@, *effect, models@)
                        && lookups_of_counters_ok(c.power_counters@, *effect, models@)
                },
            forall|k: int|
                0 <= k < i ==> {
                    let (before, after) = (start[k], #[trigger] done@[k]);
                    &&& after.card_id == before.card_id
                    &&& after.unit_in_play == before.unit_in_play
                    &&& after.status_counters@ == lasting(before.status_counters@, *effect, models@)
                    &&& after.ability_counters@ == if before.unit_in_play {
                        lasting(before.ability_counters@, *effect, models@)
                    } else {
                        before.ability_counters@
                    }
                    &&& after.power_counters@ == if before.unit_in_play {
                        lasting(before.power_counters@, *effect, models@)
                    } else {
                        before.power_counters@
                    }
                },
        decreases n - i,
    {
        assert(rest@.len() == n - i);
        let mut c = rest.remove(0);
        proof {
            assert(c == start[i as int]);
            assert(rest@ =~= start.skip(i + 1));
        }
        if c.unit_in_play {
            drop_expired(&mut c.ability_counters, effect, models);
        }
        drop_expired(&mut c.status_counters, effect, models);
        if c.unit_in_play {
            drop_expired(&mut c.power_counters, effect, models);
        }
        done.push(c);
        i += 1;
    }
    *cards = done;
}

/// The player or card that effect `e` concerns, if any.
pub open spec fn source_of(e: EffectModel) -> Option<CardId> {
    match e {
        EffectModel::Noop => None,
        EffectModel::Strike { striker_id, .. } => Some(striker_id),
        EffectModel::KillMinion { card_id, .. } => Some(card_id),
        EffectModel::DeclareDefender { defender_id, .. } => Some(defender_id),
        EffectModel::Notify { .. } => None,
        EffectModel::PlayerLost { player_id } => Some(player_id),
        EffectModel::SkipNextTurn { player_id } => Some(player_id),
        EffectModel::OverrideNextTurn { .. } => None,
        EffectModel::SetAvatarLife { player_id, .. } => Some(player_id),
        EffectModel::AdjustAvatarLife { player_id, .. } => Some(player_id),
        EffectModel::Heal { card_id, .. } => Some(card_id),
        EffectModel::SetTapped { card_id, .. } => Some(card_id),
        EffectModel::AdjustMana { player_id, .. } => Some(player_id),
        EffectModel::EndTurn { player_id } => Some(player_id),
        EffectModel::DrawCard { player_id, .. } => Some(player_id),
        EffectModel::SetBearer { card_id, .. } => Some(card_id),
        EffectModel::SetController { card_id, .. } => Some(card_id),
        EffectModel::RearrangeDeck { .. } => None,
        EffectModel::FinishEndTurn { player_id } => Some(player_id),
        EffectModel::StartTurn { player_id } => Some(player_id),
        EffectModel::FinishStartTurn { player_id, .. } => Some(player_id),
    }
}

impl EffectModel {
    /// The player or card that this effect concerns, if any.
    pub fn source_id(&self) -> (r: Option<&CardId>)
        ensures
            match r {
                Some(id) => source_of(*self) == Some(*id),
                None => source_of(*self) is None,
            },
    {
        match self {
            EffectModel::Noop => None,
            EffectModel::Strike { striker_id, .. } => Some(striker_id),
            EffectModel::KillMinion { card_id, .. } => Some(card_id),
            EffectModel::DeclareDefender { defender_id, .. } => Some(defender_id),
            EffectModel::Notify { .. } => None,
            EffectModel::PlayerLost { player_id } => Some(player_id),
            EffectModel::SkipNextTurn { player_id } => Some(player_id),
            EffectModel::OverrideNextTurn { .. } => None,
            EffectModel::SetAvatarLife { player_id, .. } => Some(player_id),
            EffectModel::AdjustAvatarLife { player_id, .. } => Some(player_id),
            EffectModel::Heal { card_id, .. } => Some(card_id),
            EffectModel::SetTapped { card_id, .. } => Some(card_id),
            EffectModel::AdjustMana { player_id, .. } => Some(player_id),
            EffectModel::EndTurn { player_id } => Some(player_id),
            EffectModel::DrawCard { player_id, .. } => Some(player_id),
            EffectModel::SetBearer { card_id, .. } => Some(card_id),
            EffectModel::SetController { card_id, .. } => Some(card_id),
            EffectModel::RearrangeDeck { .. } => None,
            EffectModel::FinishEndTurn { player_id } => Some(player_id),
            EffectModel::StartTurn { player_id } => Some(player_id),
            EffectModel::FinishStartTurn { player_id, .. } => Some(player_id),
        }
    }
}

/// The pile of kind `kind` (sites for `Site`, else spells) of the deck of
/// player `p`.
pub open spec fn pile_of(g: GameView, p: PlayerId, kind: DrawKind) -> Seq<CardId> {
    let deck = g.decks[deck_index(g.decks, p)->0];
    if kind is Site {
        deck.sites
    } else {
        deck.spells
    }
}

/// Drawing takes cards from the top of the pile, one per draw: while the
/// pile lasts no draw loses the game, and after `k` draws the pile is what
/// it was without its top `k` cards.
pub proof fn draws_take_from_the_top(g: GameView, p: PlayerId, kind: DrawKind, k: nat)
    requires
        deck_index(g.decks, p) is Some,
        k <= pile_of(g, p, kind).len(),
    ensures
        !draws(g, p, kind, k).1,
        deck_index(draws(g, p, kind, k).0.decks, p) == deck_index(g.decks, p),
        pile_of(draws(g, p, kind, k).0, p, kind) == pile_of(g, p, kind).take(pile_of(g, p, kind).len() - k),
    decreases k,
{
    let pile = pile_of(g, p, kind);
    if k == 0 {
        assert(pile.take(pile.len() as int) =~= pile);
    } else {
        draws_take_from_the_top(g, p, kind, (k - 1) as nat);
        let g1 = draws(g, p, kind, (k - 1) as nat).0;
        let d = deck_index(g.decks, p)->0;
        lemma_deck_index(g1.decks, p);
        let deck = g1.decks[d];
        let new_deck = if kind is Site {
            PilesView { sites: pile_of(g1, p, kind).drop_last(), ..deck }
        } else {
            PilesView { spells: pile_of(g1, p, kind).drop_last(), ..deck }
        };
        lemma_deck_index_update(g1.decks, d, new_deck, p);
        assert(pile_of(g1, p, kind).drop_last() =~= pile.take(pile.len() - k));
    }
}

/// Cards with the same identifiers at the same places are found at the
/// same places, and a valid game stays valid with them.
proof fn lemma_same_ids(a: Seq<CardState>, b: Seq<CardState>)
    requires
        a.len() == b.len(),
        forall|k: int| 0 <= k < a.len() ==> a[k].id == b[k].id,
    ensures
        forall|id: CardId| #[trigger] card_index(b, id) == card_index(a, id),
    decreases a.len(),
{
    if a.len() > 0 {
        lemma_same_ids(a.drop_last(), b.drop_last());
        assert forall|id: CardId| #[trigger] card_index(b, id) == card_index(a, id) by {
            assert(card_index(b.drop_last(), id) == card_index(a.drop_last(), id));
        }
    }
}

/// The clean-up at the end of a turn does its work once: a second clean-up
/// changes no card.
pub proof fn turn_clean_up_is_idempotent(g: GameView, player_id: PlayerId)
    ensures
        ({
            let once = applied(g, EffectModel::FinishEndTurn { player_id }).0;
            applied(once, EffectModel::FinishEndTurn { player_id }).0 == once
        }),
{
    let once = applied(g, EffectModel::FinishEndTurn { player_id }).0;
    let twice = applied(once, EffectModel::FinishEndTurn { player_id }).0;
    assert(twice.cards =~= once.cards);
    assert(twice == once);
}

/// The mana of a prefix of the cards is at most that of all of them.
proof fn lemma_provided_prefix(cards: Seq<CardState>, p: PlayerId, i: int)
    requires
        0 <= i <= cards.len(),
    ensures
        provided_total(cards.take(i), p) <= provided_total(cards, p),
    decreases cards.len(),
{
    if i < cards.len() {
        assert(cards.drop_last().take(i) =~= cards.take(i));
        lemma_provided_prefix(cards.drop_last(), p, i);
    } else {
        assert(cards.take(i) =~= cards);
    }
}

/// The turn that the clean-up at the end of a turn starts is the next one
/// in the turn order: starting it never fails.
pub proof fn the_next_turn_starts_after_the_clean_up(g: GameView, player_id: PlayerId)
    requires
        g.turns.has_next(),
    ensures
        ({
            let g1 = applied(g, EffectModel::FinishEndTurn { player_id }).0;
            &&& follow_ups(g, EffectModel::FinishEndTurn { player_id }) == seq![
                FollowUp::StartTurn { player_id: g.turns.upcoming().player_id },
            ]
            &&& turn_order_allows(g1, EffectModel::StartTurn { player_id: g.turns.upcoming().player_id })
            &&& effect_applies(g1, EffectModel::StartTurn { player_id: g.turns.upcoming().player_id })
        }),
{
}

/// Which of a card's lists of counters a counter joins.
#[derive(Debug, Clone, Copy, PartialEq, Eq)]
pub enum CounterKind {
    Power,
    Ability,
    Status,
}

/// Where the counters of card `id` stand in `cards`: the first entry for
/// it.
pub open spec fn counters_index(cards: Seq<CardCounters>, id: CardId) -> Option<int>
    decreases cards.len(),
{
    if cards.len() == 0 {
        None
    } else {
        match counters_index(cards.drop_last(), id) {
            Some(i) => Some(i),
            None => if cards.last().card_id == id {
                Some(cards.len() - 1)
            } else {
                None
            },
        }
    }
}

proof fn lemma_counters_index(cards: Seq<CardCounters>, id: CardId)
    ensures
        counters_index(cards, id) matches Some(i) ==> 0 <= i < cards.len() && cards[i].card_id == id,
        counters_index(cards, id) is None ==> forall|k: int| 0 <= k < cards.len() ==> cards[k].card_id != id,
    decreases cards.len(),
{
    if cards.len() > 0 {
        lemma_counters_index(cards.drop_last(), id);
        if counters_index(cards.drop_last(), id) is None {
            assert forall|k: int| 0 <= k < cards.len() - 1 implies cards[k].card_id != id by {
                assert(cards.drop_last()[k] == cards[k]);
            }
        }
    }
}

/// Puts `counter` on card `card_id`, among its counters of kind `kind`: a
/// status counter on any card, a power or ability counter only on a unit.
pub fn add_counter(cards: &mut Vec<CardCounters>, card_id: &CardId, kind: CounterKind, counter: CounterModel)
    requires
        counters_index(old(cards)@, *card_id) is Some,
    ensures
        final(cards)@.len() == old(cards)@.len(),
        ({
            let i = counters_index(old(cards)@, *card_id)->0;
            let (before, after) = (old(cards)@[i], final(cards)@[i]);
            &&& forall|j: int| 0 <= j < old(cards)@.len() && j != i ==> final(cards)@[j] == old(cards)@[j]
            &&& after.card_id == before.card_id
            &&& after.is_unit == before.is_unit
            &&& after.unit_in_play == before.unit_in_play
            &&& after.status_counters@ == if kind == CounterKind::Status {
                before.status_counters@.push(counter)
            } else {
                before.status_counters@
            }
            &&& after.power_counters@ == if kind == CounterKind::Power && before.is_unit {
                before.power_counters@.push(counter)
            } else {
                before.power_counters@
            }
            &&& after.ability_counters@ == if kind == CounterKind::Ability && before.is_unit {
                before.ability_counters@.push(counter)
            } else {
                before.ability_counters@
            }
        }),
{
    let ghost start = cards@;
    let i = find_counters(cards, card_id);
    proof {
        lemma_counters_index(start, *card_id);
    }
    let mut c = cards.remove(i);
    match kind {
        CounterKind::Status => c.status_counters.push(counter),
        CounterKind::Power => if c.is_unit {
            c.power_counters.push(counter);
        },
        CounterKind::Ability => if c.is_unit {
            c.ability_counters.push(counter);
        },
    }
    cards.insert(i, c);
    proof {
        assert forall|j: int| 0 <= j < start.len() && j != i implies cards@[j] == start[j] by {
            if j < i {
                assert(cards@[j] == start[j]);
            } else {
                assert(cards@[j] == start[j]);
            }
        }
    }
}

/// The position of the first entry of card `id` among `cards`.
fn find_counters(cards: &Vec<CardCounters>, id: &CardId) -> (r: usize)
    requires
        counters_index(cards@, *id) is Some,
    ensures
        r == counters_index(cards@, *id)->0,
{
    let mut i: usize = 0;
    while i < cards.len()
        invariant
            i <= cards@.len(),
            counters_index(cards@, *id) is Some,
            counters_index(cards@.take(i as int), *id) is None,
        decreases cards@.len() - i,
    {
        if same_id(&cards[i].card_id, id) {
            proof {
                lemma_counters_prefix(cards@, *id, i as int);
            }
            return i;
        }
        assert(cards@.take(i + 1).drop_last() =~= cards@.take(i as int));
        i += 1;
    }
    assert(cards@.take(i as int) =~= cards@);
    assert(false);
    0
}

/// Where the first entry of card `id` lies in a prefix of `cards` that
/// has it, it lies in `cards`.
proof fn lemma_counters_prefix(cards: Seq<CardCounters>, id: CardId, i: int)
    requires
        0 <= i < cards.len(),
        counters_index(cards.take(i), id) is None,
        cards[i].card_id == id,
    ensures
        counters_index(cards, id) == Some(i),
    decreases cards.len(),
{
    if i < cards.len() - 1 {
        assert(cards.drop_last().take(i) =~= cards.take(i));
        lemma_counters_prefix(cards.drop_last(), id, i);
    } else {
        assert(cards.drop_last() =~= cards.take(i));
    }
}

/// Taking away the counters that expire on an effect is done at once: a
/// second pass on the same effect takes nothing more away, and no counter
/// that is left expires on it.
pub proof fn expired_counters_are_gone(cs: Seq<CounterModel>, e: EffectModel, cards: Seq<CardModel>)
    ensures
        lasting(lasting(cs, e, cards), e, cards) == lasting(cs, e, cards),
        forall|i: int|
            0 <= i < lasting(cs, e, cards).len() ==> !expires_on(#[trigger] lasting(cs, e, cards)[i], e, cards),
    decreases cs.len(),
{
    if cs.len() > 0 {
        expired_counters_are_gone(cs.drop_last(), e, cards);
        let rest = lasting(cs.drop_last(), e, cards);
        if !expires_on(cs.last(), e, cards) {
            let l = rest.push(cs.last());
            assert(l.drop_last() =~= rest);
            assert(lasting(l, e, cards) == lasting(rest, e, cards).push(cs.last()));
            assert forall|i: int| 0 <= i < l.len() implies !expires_on(#[trigger] l[i], e, cards) by {
                if i < rest.len() {
                    assert(l[i] == rest[i]);
                }
            }
        }
    }
}

/// Drawing more cards than the pile holds draws the whole pile and then
/// loses the game: the draws stop at the empty pile, and the player's loss
/// follows the draw.
pub proof fn drawing_past_the_pile_loses(g: GameView, p: PlayerId, kind: DrawKind, count: u8)
    requires
        deck_index(g.decks, p) is Some,
        !(kind is Choice),
        count > pile_of(g, p, kind).len(),
    ensures
        draws(g, p, kind, count as nat).1,
        draws(g, p, kind, count as nat).0 == draws(g, p, kind, pile_of(g, p, kind).len()).0,
        pile_of(draws(g, p, kind, count as nat).0, p, kind).len() == 0,
        follow_ups(g, EffectModel::DrawCard { player_id: p, count, kind }) == seq![FollowUp::PlayerLost { player_id: p }],
{
    let n = pile_of(g, p, kind).len();
    draws_take_from_the_top(g, p, kind, n);
    let g1 = draws(g, p, kind, n).0;
    assert(pile_of(g, p, kind).take(0) =~= Seq::<CardId>::empty());
    lemma_deck_index(g1.decks, p);
    assert(draws(g, p, kind, n + 1) == draw_one(g1, p, kind));
    assert(draws(g, p, kind, n + 1) == (g1, true));
    lemma_draws_stop(g, p, kind, n + 1, count as nat);
}

/// A query for any of several queries holds of an effect exactly when one
/// of them does, so that one for none of them holds of no effect; and a
/// query for the end or the start of a turn, an untapping or a draw holds
/// only of an effect of that kind.
pub proof fn effect_queries_hold_of_their_kind(q: EffectQueryModel, e: EffectModel, cards: Seq<CardModel>)
    ensures
        q matches EffectQueryModel::OneOf(qs) ==> (effect_query_holds(q, e, cards) <==> exists|i: int|
            0 <= i < qs@.len() && effect_query_holds(#[trigger] qs@[i], e, cards)),
        q matches EffectQueryModel::OneOf(qs) && qs@.len() == 0 ==> !effect_query_holds(q, e, cards),
        q is TurnEnd && effect_query_holds(q, e, cards) ==> e is EndTurn,
        q is TurnStart && effect_query_holds(q, e, cards) ==> e is StartTurn,
        q is UntapCard && effect_query_holds(q, e, cards) ==> e is SetTapped,
        q is DrawCard && effect_query_holds(q, e, cards) ==> e is DrawCard,
        q is UnitKilled && effect_query_holds(q, e, cards) ==> e is KillMinion,
        q is DefendDeclared && effect_query_holds(q, e, cards) ==> e is DeclareDefender,
        q is Other ==> !effect_query_holds(q, e, cards),
{
}

/// Where `mana_index` points, the entry is the player's.
proof fn lemma_mana_index(mana: Seq<(PlayerId, u8)>, p: PlayerId)
    ensures
        mana_index(mana, p) matches Some(i) ==> 0 <= i < mana.len() && mana[i].0 == p,
        mana_index(mana, p) is None ==> !keys_of(mana).contains(p),
    decreases mana.len(),
{
    if mana.len() > 0 {
        lemma_mana_index(mana.drop_last(), p);
        if mana_index(mana, p) is None {
            assert(keys_of(mana.drop_last()) =~= keys_of(mana).drop_last());
            if keys_of(mana).contains(p) {
                let k = choose|k: int| 0 <= k < keys_of(mana).len() && keys_of(mana)[k] == p;
                if k < mana.len() - 1 {
                    assert(keys_of(mana.drop_last())[k] == p);
                }
            }
        }
    }
}

/// Setting a player's mana lists no player twice.
proof fn lemma_with_mana_keys(mana: Seq<(PlayerId, u8)>, p: PlayerId, v: u8)
    requires
        keys_of(mana).no_duplicates(),
    ensures
        keys_of(with_mana(mana, p, v)).no_duplicates(),
{
    lemma_mana_index(mana, p);
    match mana_index(mana, p) {
        Some(i) => {
            assert(keys_of(mana.update(i, (p, v))) =~= keys_of(mana));
        },
        None => {
            assert(keys_of(mana.push((p, v))) =~= keys_of(mana).push(p));
        },
    }
}

/// Applying an effect other than a draw to a game whose cards are known
/// lists no card, and no player's mana, avatar or deck, twice where the
/// game did not.
proof fn lemma_applied_keeps_keys(g: GameView, e: EffectModel)
    requires
        keys_unique(g),
        cards_known(g),
        names_known_cards(g, e),
        !(e is DrawCard),
    ensures
        keys_unique(applied(g, e).0),
{
    let g2 = applied(g, e).0;
    match e {
        EffectModel::SetAvatarLife { player_id, .. } | EffectModel::AdjustAvatarLife { player_id, .. } => {
            if let Some(id) = avatar_of(g.avatars, player_id) {
                lemma_avatar_of(g.avatars, player_id);
                lemma_card_index(g.cards, id);
                assert(card_ids(g2.cards) =~= card_ids(g.cards));
            }
        },
        EffectModel::Heal { card_id, .. } | EffectModel::SetTapped { card_id, .. } | EffectModel::SetBearer {
            card_id,
            ..
        } | EffectModel::SetController { card_id, .. } | EffectModel::Strike { striker_id: card_id, .. } => {
            lemma_card_index(g.cards, card_id);
            assert(card_ids(g2.cards) =~= card_ids(g.cards));
        },
        EffectModel::AdjustMana { player_id, mana } => {
            lemma_with_mana_keys(g.mana, player_id, adjusted_mana(mana_of(g.mana, player_id), mana));
        },
        EffectModel::EndTurn { player_id } => {
            lemma_with_mana_keys(g.mana, player_id, 0);
        },
        EffectModel::RearrangeDeck { .. } => {
            if let Some(d) = deck_index(g.decks, g.turns.current.player_id) {
                lemma_deck_index(g.decks, g.turns.current.player_id);
                assert(deck_owners(g2.decks) =~= deck_owners(g.decks));
            }
        },
        EffectModel::FinishEndTurn { .. } => {
            assert(card_ids(g2.cards) =~= card_ids(g.cards));
        },
        EffectModel::StartTurn { player_id } => {
            assert(card_ids(g2.cards) =~= card_ids(g.cards));
            lemma_with_mana_keys(g.mana, player_id, provided_total(g.cards, player_id) as u8);
        },
        _ => {},
    }
}

/// Replaces card `i` of the game `state` by `c`, a card with the same
/// identifier.
fn set_card(state: &mut GameModel, i: usize, c: CardState)
    requires
        old(state).knows_its_cards(),
        i < old(state).cards@.len(),
        c.id == old(state).cards@[i as int].id,
    ensures
        final(state).knows_its_cards(),
        final(state).view() == (GameView { cards: old(state).view().cards.update(i as int, c), ..old(state).view() }),
{
    let ghost g = state.view();
    state.cards.set(i, c);
    proof {
        lemma_known_after_update(g.decks, g.cards, i as int, c);
        assert forall|j: int| 0 <= j < state.avatars@.len() implies card_index(
            state.cards@,
            (#[trigger] state.avatars@[j]).1,
        ) is Some by {
            lemma_card_index_update(g.cards, i as int, c, state.avatars@[j].1);
        }
    }
}

/// Healing a unit that is not at death's door takes the amount off its
/// damage, down to none, and changes nothing else of the unit or of any
/// other card; a unit at death's door is not healed at all.
pub proof fn healing_takes_off_the_amount(g: GameView, card_id: CardId, amount: u16)
    requires
        card_index(g.cards, card_id) is Some,
    ensures
        ({
            let i = card_index(g.cards, card_id)->0;
            let c = g.cards[i];
            let after = applied(g, EffectModel::Heal { card_id, amount });
            &&& after.0.cards.len() == g.cards.len()
            &&& forall|j: int| 0 <= j < g.cards.len() && j != i ==> after.0.cards[j] == g.cards[j]
            &&& c.deaths_door == Some(true) ==> after.0 == g && after.1 is None
            &&& c.deaths_door != Some(true) && c.unit is Some ==> {
                &&& after.1 is None
                &&& after.0.cards[i].id == c.id
                &&& after.0.cards[i].unit is Some
                &&& after.0.cards[i].unit->0.toughness == c.unit->0.toughness
                &&& after.0.cards[i].unit->0.damage as int == if c.unit->0.damage >= amount {
                    c.unit->0.damage - amount
                } else {
                    0
                }
                &&& after.0.cards[i].unit->0.damage <= c.unit->0.damage
            }
        }),
{
    lemma_card_index(g.cards, card_id);
}

/// Setting a player's mana to `v` gives the player that mana and leaves
/// every other player's as it was.
proof fn lemma_mana_of_with_mana(mana: Seq<(PlayerId, u8)>, p: PlayerId, v: u8, q: PlayerId)
    ensures
        mana_of(with_mana(mana, p, v), p) == v,
        q != p ==> mana_of(with_mana(mana, p, v), q) == mana_of(mana, q),
    decreases mana.len(),
{
    lemma_mana_index(mana, p);
    lemma_mana_index(mana, q);
    match mana_index(mana, p) {
        Some(i) => {
            lemma_mana_index_update(mana, i, (p, v), p);
            lemma_mana_index_update(mana, i, (p, v), q);
        },
        None => {
            let m2 = mana.push((p, v));
            assert(m2.drop_last() =~= mana);
            if q != p {
                assert(mana_index(m2, q) == mana_index(mana, q));
                if let Some(j) = mana_index(mana, q) {
                    assert(m2[j] == mana[j]);
                }
            }
        },
    }
}

/// Replacing the entry at `i` by one of the same player keeps where every
/// player's entry is found.
proof fn lemma_mana_index_update(mana: Seq<(PlayerId, u8)>, i: int, e: (PlayerId, u8), q: PlayerId)
    requires
        0 <= i < mana.len(),
        e.0 == mana[i].0,
    ensures
        mana_index(mana.update(i, e), q) == mana_index(mana, q),
    decreases mana.len(),
{
    let m2 = mana.update(i, e);
    if i < mana.len() - 1 {
        assert(m2.drop_last() =~= mana.drop_last().update(i, e));
        lemma_mana_index_update(mana.drop_last(), i, e, q);
    } else {
        assert(m2.drop_last() =~= mana.drop_last());
    }
}

/// Changing a player's mana by `d` adds `d` to it, the sum wrapping round
/// the 256 values a mana count can hold, and leaves every other player's
/// mana as it was; ending a turn empties the player's mana and returns the
/// game to its main phase.
pub proof fn mana_effects_change_only_the_players_mana(g: GameView, p: PlayerId, d: i8, q: PlayerId)
    requires
        mana_change_fits(g, EffectModel::AdjustMana { player_id: p, mana: d }),
    ensures
        ({
            let m = mana_of(g.mana, p) as int;
            let after = applied(g, EffectModel::AdjustMana { player_id: p, mana: d }).0;
            let now = mana_of(after.mana, p) as int;
            &&& now == m + d || now == m + d + 256 || now == m + d - 256
            &&& q != p ==> mana_of(after.mana, q) == mana_of(g.mana, q)
            &&& after.cards == g.cards && after.turns == g.turns && after.phase == g.phase
        }),
        ({
            let after = applied(g, EffectModel::EndTurn { player_id: p }).0;
            &&& mana_of(after.mana, p) == 0
            &&& q != p ==> mana_of(after.mana, q) == mana_of(g.mana, q)
            &&& after.phase == Phase::Main
            &&& after.cards == g.cards && after.turns == g.turns
            &&& follow_ups(g, EffectModel::EndTurn { player_id: p }) == seq![FollowUp::FinishEndTurn { player_id: p }]
        }),
{
    let m = mana_of(g.mana, p);
    lemma_mana_of_with_mana(g.mana, p, adjusted_mana(m, d), q);
    lemma_mana_of_with_mana(g.mana, p, 0, q);
}

/// The life an avatar's unit `u` has: its toughness less its damage, or
/// none.
pub open spec fn life_left(u: UnitState) -> int {
    if u.damage >= u.toughness {
        0
    } else {
        u.toughness - u.damage
    }
}

/// Setting an avatar's life gives it that life, or its toughness where the
/// life is more, and puts it at death's door exactly when no life is left;
/// changing its life moves it by the amount, between none and its
/// toughness. The avatar's toughness stays, and no other card changes.
pub proof fn avatar_life_is_set_and_moved(g: GameView, p: PlayerId, life: u16, amount: i16)
    requires
        avatar_of(g.avatars, p) is Some,
        card_index(g.cards, avatar_of(g.avatars, p)->0) is Some,
        g.cards[card_index(g.cards, avatar_of(g.avatars, p)->0)->0].deaths_door == Some(false),
        g.cards[card_index(g.cards, avatar_of(g.avatars, p)->0)->0].unit is Some,
    ensures
        ({
            let i = card_index(g.cards, avatar_of(g.avatars, p)->0)->0;
            let u = g.cards[i].unit->0;
            let t = u.toughness as int;
            let set = applied(g, EffectModel::SetAvatarLife { player_id: p, life });
            let want = if life as int > t { t } else { life as int };
            &&& set.1 is None
            &&& set.0.cards[i].unit is Some
            &&& set.0.cards[i].unit->0.toughness == u.toughness
            &&& life_left(set.0.cards[i].unit->0) == want
            &&& set.0.cards[i].deaths_door == Some(want == 0)
            &&& forall|j: int| 0 <= j < g.cards.len() && j != i ==> set.0.cards[j] == g.cards[j]
        }),
        ({
            let i = card_index(g.cards, avatar_of(g.avatars, p)->0)->0;
            let u = g.cards[i].unit->0;
            let t = u.toughness as int;
            let moved = applied(g, EffectModel::AdjustAvatarLife { player_id: p, amount });
            let step = if amount == i16::MIN {
                -32767int
            } else {
                amount as int
            };
            let target = life_left(u) + step;
            let want = if target < 0 {
                0
            } else if target > t {
                t
            } else {
                target
            };
            &&& moved.1 is None
            &&& moved.0.cards[i].unit is Some
            &&& moved.0.cards[i].unit->0.toughness == u.toughness
            &&& life_left(moved.0.cards[i].unit->0) == want
            &&& moved.0.cards[i].deaths_door == Some(want == 0)
            &&& forall|j: int| 0 <= j < g.cards.len() && j != i ==> moved.0.cards[j] == g.cards[j]
        }),
{
    lemma_card_index(g.cards, avatar_of(g.avatars, p)->0);
}

/// Tapping, carrying, control and strikes change the card they name as
/// they say and no other card: the card is tapped or untapped, carried by
/// the bearer or by none, controlled by the player; a striker loses its
/// stealth, and unless disabled deals its power to the target as a strike.
pub proof fn card_effects_change_the_card_they_name(
    g: GameView,
    card_id: CardId,
    tapped: bool,
    bearer_id: Option<CardId>,
    player_id: PlayerId,
    target_id: CardId,
)
    requires
        card_index(g.cards, card_id) is Some,
    ensures
        ({
            let i = card_index(g.cards, card_id)->0;
            let c = g.cards[i];
            let tap = applied(g, EffectModel::SetTapped { card_id, tapped }).0;
            let carry = applied(g, EffectModel::SetBearer { card_id, bearer_id }).0;
            let control = applied(g, EffectModel::SetController { card_id, player_id }).0;
            let strike = applied(g, EffectModel::Strike { striker_id: card_id, target_id });
            &&& tap.cards[i].tapped == tapped && tap.cards[i].id == c.id && tap.cards[i].unit == c.unit
            &&& carry.cards[i].bearer == bearer_id && carry.cards[i].tapped == c.tapped
            &&& control.cards[i].controller_id == player_id && control.cards[i].bearer == c.bearer
            &&& !strike.0.cards[i].stealth && strike.0.cards[i].unit == c.unit
            &&& (strike.1 is Some <==> !c.disabled && c.power is None)
            &&& (c.disabled ==> follow_ups(g, EffectModel::Strike { striker_id: card_id, target_id })
                =~= Seq::<FollowUp>::empty())
            &&& (!c.disabled ==> follow_ups(g, EffectModel::Strike { striker_id: card_id, target_id }) == seq![
                FollowUp::TakeDamage {
                    card_id: target_id,
                    from: card_id,
                    damage: DamageModel::Strike { amount: c.power->0 },
                },
            ])
            &&& forall|j: int|
                0 <= j < g.cards.len() && j != i ==> tap.cards[j] == g.cards[j] && carry.cards[j] == g.cards[j]
                    && control.cards[j] == g.cards[j] && strike.0.cards[j] == g.cards[j]
        }),
{
    lemma_card_index(g.cards, card_id);
}

/// The clean-up at the end of a turn heals every unit in play that is not
/// an avatar and lets every avatar at death's door die; it leaves the
/// damage of avatars and every card out of play as they were.
pub proof fn end_of_turn_heals_units_in_play(g: GameView, player_id: PlayerId)
    ensures
        ({
            let after = applied(g, EffectModel::FinishEndTurn { player_id }).0;
            &&& after.cards.len() == g.cards.len()
            &&& forall|j: int|
                0 <= j < g.cards.len() ==> {
                    let (c, d) = (g.cards[j], #[trigger] after.cards[j]);
                    &&& d.id == c.id
                    &&& !c.in_play || c.unit is None ==> d == c
                    &&& c.in_play && c.unit is Some && c.deaths_door is None ==> d.unit->0.damage == 0
                        && d.unit->0.toughness == c.unit->0.toughness && !d.summoning_sick
                    &&& c.in_play && c.unit is Some && c.deaths_door is Some ==> d.unit == c.unit && (c.deaths_door
                        == Some(true) ==> d.can_die)
                }
        }),
{
}

/// `apply_known` for one kind of effect.
fn apply_start_turn(state: &mut GameModel, effect: &EffectModel) -> (r: Result<Vec<FollowUp>, EffectError>)
    requires
        *effect is StartTurn,
        old(state).valid(),
        mana_change_fits(old(state).view(), *effect),
        names_known_cards(old(state).view(), *effect),
        turn_order_allows(old(state).view(), *effect),
    ensures
        final(state).knows_its_cards(),
        *effect is DrawCard ==> final(state).valid(),
        final(state).view() == applied(old(state).view(), *effect).0,
        r is Ok <==> effect_applies(old(state).view(), *effect),
        r matches Err(err) ==> applied(old(state).view(), *effect).1 == Some(err),
        r matches Ok(next) ==> next@ == follow_ups(old(state).view(), *effect),
{
    let ghost g = state.view();
    match effect {
        EffectModel::StartTurn { player_id } => {
            let previous = state.turns.current().controller_id();
            if let Err(e) = state.turns.advance_to_turn(player_id) {
                return Err(EffectError::Turn(e));
            }
            let ghost before = state.cards@;
            let ghost g1 = state.view();
            let mut total: u8 = 0;
            let mut i: usize = 0;
            while i < state.cards.len()
                invariant
                    i <= state.cards@.len(),
                    state.cards@.len() == before.len(),
                    g == old(state).view(),
                    before == g.cards,
                    g1.cards == before,
                    provided_total(before, *player_id) <= 255,
                    total == provided_total(before.take(i as int), *player_id),
                    state.view() == (GameView { cards: state.cards@, ..g1 }),
                    forall|k: int| 0 <= k < i ==> state.cards@[k] == untapped_for(before[k], *player_id),
                    forall|k: int| i <= k < before.len() ==> state.cards@[k] == before[k],
                decreases before.len() - i,
            {
                proof {
                    assert(before.take(i + 1).drop_last() =~= before.take(i as int));
                    lemma_provided_prefix(before, *player_id, i + 1);
                }
                let c = state.cards[i];
                if c.in_play && same_id(&c.controller_id, player_id) {
                    total = total + c.provided_mana;
                    state.cards.set(i, CardState { tapped: false, ..c });
                }
                i += 1;
            }
            proof {
                assert(before.take(before.len() as int) =~= before);
                assert(state.cards@ =~= before.map_values(|c: CardState| untapped_for(c, *player_id)));
                lemma_same_ids(before, state.cards@);
            }
            set_mana(&mut state.mana, player_id, total);
            let mut next: Vec<FollowUp> = Vec::new();
            next.push(FollowUp::Wait { player_id: previous });
            next.push(FollowUp::FinishStartTurn { player_id: *player_id, previous_controller: previous });
            assert(next@ =~= follow_ups(g, *effect));
            Ok(next)
        },
        _ => {
            assert(false);
            Ok(Vec::new())
        },
    }
}

/// `apply_known` for one kind of effect.
fn apply_finish_end_turn(state: &mut GameModel, effect: &EffectModel) -> (r: Result<Vec<FollowUp>, EffectError>)
    requires
        *effect is FinishEndTurn,
        old(state).valid(),
        mana_change_fits(old(state).view(), *effect),
        names_known_cards(old(state).view(), *effect),
        turn_order_allows(old(state).view(), *effect),
    ensures
        final(state).knows_its_cards(),
        *effect is DrawCard ==> final(state).valid(),
        final(state).view() == applied(old(state).view(), *effect).0,
        r is Ok <==> effect_applies(old(state).view(), *effect),
        r matches Err(err) ==> applied(old(state).view(), *effect).1 == Some(err),
        r matches Ok(next) ==> next@ == follow_ups(old(state).view(), *effect),
{
    let ghost g = state.view();
    match effect {
        EffectModel::FinishEndTurn { .. } => {
            let ghost before = state.cards@;
            let mut i: usize = 0;
            while i < state.cards.len()
                invariant
                    i <= state.cards@.len(),
                    state.cards@.len() == before.len(),
                    g == old(state).view(),
                    before == g.cards,
                    state.view() == (GameView { cards: state.cards@, ..g }),
                    forall|k: int| 0 <= k < i ==> state.cards@[k] == finished_turn(before[k]),
                    forall|k: int| i <= k < before.len() ==> state.cards@[k] == before[k],
                decreases before.len() - i,
            {
                let c = state.cards[i];
                let c2 = match c.unit {
                    Some(u) => if !c.in_play {
                        c
                    } else if c.deaths_door.is_some() {
                        let at_door = match c.deaths_door {
                            Some(d) => d,
                            None => false,
                        };
                        CardState { summoning_sick: false, can_die: c.can_die || at_door, ..c }
                    } else {
                        CardState { summoning_sick: false, unit: Some(UnitState { damage: 0, ..u }), ..c }
                    },
                    None => c,
                };
                state.cards.set(i, c2);
                i += 1;
            }
            proof {
                assert(state.cards@ =~= before.map_values(|c: CardState| finished_turn(c)));
                lemma_same_ids(before, state.cards@);
            }
            let t = state.turns.next_turn();
            let mut next: Vec<FollowUp> = Vec::new();
            next.push(FollowUp::StartTurn { player_id: t.player_id() });
            assert(next@ =~= seq![FollowUp::StartTurn { player_id: g.turns.upcoming().player_id }]);
            Ok(next)
        },
        _ => {
            assert(false);
            Ok(Vec::new())
        },
    }
}

/// `apply_known` for one kind of effect.
fn apply_rearrange_deck(state: &mut GameModel, effect: &EffectModel) -> (r: Result<Vec<FollowUp>, EffectError>)
    requires
        *effect is RearrangeDeck,
        old(state).valid(),
        mana_change_fits(old(state).view(), *effect),
        names_known_cards(old(state).view(), *effect),
        turn_order_allows(old(state).view(), *effect),
    ensures
        final(state).knows_its_cards(),
        *effect is DrawCard ==> final(state).valid(),
        final(state).view() == applied(old(state).view(), *effect).0,
        r is Ok <==> effect_applies(old(state).view(), *effect),
        r matches Err(err) ==> applied(old(state).view(), *effect).1 == Some(err),
        r matches Ok(next) ==> next@ == follow_ups(old(state).view(), *effect),
{
    let ghost g = state.view();
    match effect {
        EffectModel::RearrangeDeck { spells, sites } => {
            let current = state.turns.current().player_id();
            match find_deck(&state.decks, &current) {
                None => Err(EffectError::NoDeck),
                Some(d) => {
                    proof {
                        lemma_deck_index(g.decks, current);
                    }
                    let mut deck = state.decks.remove(d);
                    deck.spells = copy_ids(spells);
                    deck.sites = copy_ids(sites);
                    let ghost new_piles = PilesView { name: deck.name@, player_id: deck.player_id, avatar: deck.avatar, sites: deck.sites@, spells: deck.spells@ };
                    state.decks.insert(d, deck);
                    proof {
                        assert(piles_of(state.decks@) =~= g.decks.update(d as int, new_piles));
                        let nd = g.decks.update(d as int, new_piles);
                        assert forall|dd: int, kk: int| 0 <= dd < nd.len() && 0 <= kk < nd[dd].sites.len()
                            implies card_index(g.cards, #[trigger] nd[dd].sites[kk]) is Some by {
                            if dd == d {
                                assert(nd[dd].sites[kk] == sites@[kk]);
                            } else {
                                assert(nd[dd].sites[kk] == g.decks[dd].sites[kk]);
                            }
                        }
                        assert forall|dd: int, kk: int| 0 <= dd < nd.len() && 0 <= kk < nd[dd].spells.len()
                            implies card_index(g.cards, #[trigger] nd[dd].spells[kk]) is Some by {
                            if dd == d {
                                assert(nd[dd].spells[kk] == spells@[kk]);
                            } else {
                                assert(nd[dd].spells[kk] == g.decks[dd].spells[kk]);
                            }
                        }
                    }
                    Ok(Vec::new())
                },
            }
        },
        _ => {
            assert(false);
            Ok(Vec::new())
        },
    }
}

/// `apply_known` for one kind of effect.
fn apply_strike(state: &mut GameModel, effect: &EffectModel) -> (r: Result<Vec<FollowUp>, EffectError>)
    requires
        *effect is Strike,
        old(state).valid(),
        mana_change_fits(old(state).view(), *effect),
        names_known_cards(old(state).view(), *effect),
        turn_order_allows(old(state).view(), *effect),
    ensures
        final(state).knows_its_cards(),
        *effect is DrawCard ==> final(state).valid(),
        final(state).view() == applied(old(state).view(), *effect).0,
        r is Ok <==> effect_applies(old(state).view(), *effect),
        r matches Err(err) ==> applied(old(state).view(), *effect).1 == Some(err),
        r matches Ok(next) ==> next@ == follow_ups(old(state).view(), *effect),
{
    let ghost g = state.view();
    match effect {
        EffectModel::Strike { striker_id, target_id } => {
            let i = find_card(&state.cards, striker_id).unwrap();
            proof {
                lemma_card_index(g.cards, *striker_id);
            }
            let c = state.cards[i];
            let c2 = CardState { stealth: false, ..c };
            set_card(state, i, c2);
            if c.disabled {
                return Ok(Vec::new());
            }
            match c.power {
                None => Err(EffectError::NoPower),
                Some(p) => {
                    let mut next: Vec<FollowUp> = Vec::new();
                    next.push(
                        FollowUp::TakeDamage {
                            card_id: *target_id,
                            from: *striker_id,
                            damage: DamageModel::Strike { amount: p },
                        },
                    );
                    assert(next@ =~= follow_ups(g, *effect));
                    Ok(next)
                },
            }
        },
        _ => {
            assert(false);
            Ok(Vec::new())
        },
    }
}

/// Starting a player's turn moves the turn order on to that player when
/// it is the next one, and fails, naming the turn that came instead,
/// otherwise. A started turn untaps every card in play that the player
/// controls, and only those, and gives the player the mana that the cards
/// in play under their control provide; the previous controller of the
/// turn waits, and then the player draws.
pub proof fn starting_a_turn_untaps_and_fills_mana(g: GameView, p: PlayerId, q: PlayerId)
    requires
        g.turns.current.player_id != p ==> g.turns.has_next(),
        provided_total(g.cards, p) <= 255,
    ensures
        ({
            let e = EffectModel::StartTurn { player_id: p };
            let after = applied(g, e);
            let next = if g.turns.current.player_id == p {
                g.turns.current
            } else {
                g.turns.upcoming()
            };
            &&& next.player_id != p ==> after.1 == Some(EffectError::Turn(
                TurnError::UnexpectedTurn { expected: p, got: next.player_id },
            ))
            &&& next.player_id == p ==> {
                &&& after.1 is None
                &&& after.0.turns.current == next
                &&& mana_of(after.0.mana, p) as int == provided_total(g.cards, p)
                &&& q != p ==> mana_of(after.0.mana, q) == mana_of(g.mana, q)
                &&& after.0.cards.len() == g.cards.len()
                &&& forall|j: int|
                    0 <= j < g.cards.len() ==> {
                        let (c, d) = (g.cards[j], #[trigger] after.0.cards[j]);
                        &&& d.id == c.id && d.unit == c.unit && d.in_play == c.in_play
                        &&& d.tapped == (c.tapped && !(c.in_play && c.controller_id == p))
                    }
                &&& follow_ups(g, e) == seq![
                    FollowUp::Wait { player_id: turn_controller(g.turns.current) },
                    FollowUp::FinishStartTurn { player_id: p, previous_controller: turn_controller(g.turns.current) },
                ]
            }
        }),
{
    lemma_mana_of_with_mana(g.mana, p, provided_total(g.cards, p) as u8, q);
}

/// Drawing at the start of a turn counts one more turn taken; the player
/// who took the first turn draws nothing on it, and every other start of a
/// turn lets the turn's controller choose the pile; the previous
/// controller acts again afterwards.
pub proof fn the_first_turn_starts_without_a_draw(g: GameView, p: PlayerId, previous: PlayerId)
    requires
        g.turns_taken < usize::MAX,
    ensures
        ({
            let e = EffectModel::FinishStartTurn { player_id: p, previous_controller: previous };
            let next = follow_ups(g, e);
            &&& applied(g, e).0.turns_taken == g.turns_taken + 1
            &&& applied(g, e).1 is None
            &&& next.last() == FollowUp::Resume { player_id: previous }
            &&& (exists|k: int| 0 <= k < next.len() && #[trigger] next[k] is ChooseStartingDraw) <==> !(g.turns_taken
                == 0 && p == g.player_one)
            &&& forall|k: int| 0 <= k < next.len() && (#[trigger] next[k]) is ChooseStartingDraw ==> next[k]
                == FollowUp::ChooseStartingDraw { chooser: turn_controller(g.turns.current), player_id: p }
        }),
{
    let e = EffectModel::FinishStartTurn { player_id: p, previous_controller: previous };
    let next = follow_ups(g, e);
    if !(g.turns_taken == 0 && p == g.player_one) {
        assert(next[0] is ChooseStartingDraw);
    }
}

/// Overriding the next turn makes the given turn the very next one, ahead
/// of every turn that was to come, which all still come after it in their
/// order; nothing else of the game changes.
pub proof fn an_overriding_turn_comes_next(g: GameView, t: Turn)
    ensures
        ({
            let after = applied(g, EffectModel::OverrideNextTurn { turn: t }).0;
            &&& after.turns.has_next()
            &&& after.turns.upcoming() == t
            &&& after.turns.advanced().current == t
            &&& after.turns.advanced().overrides == g.turns.overrides
            &&& after.turns.advanced().normal == g.turns.normal
            &&& after.turns.advanced().index == g.turns.index
            &&& after.turns.current == g.turns.current
            &&& after.cards == g.cards && after.mana == g.mana && after.decks == g.decks
        }),
{
    let after = applied(g, EffectModel::OverrideNextTurn { turn: t }).0;
    assert(after.turns.overrides.drop_first() =~= g.turns.overrides);
}

} // verus!
