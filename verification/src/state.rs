//! Turn order, phases, and the modifiers that ongoing effects apply to
//! abilities and elemental affinities.

use crate::card::{card_ability, special_ability, Ability};
use crate::ids::{same_id, uuid_display_string, uuid_display_text, PlayerId};
use crate::thresholds::Thresholds;
use std::collections::VecDeque;
use vstd::arithmetic::div_mod::{lemma_add_mod_noop, lemma_mod_add_multiples_vanish, lemma_mod_self_0};
use vstd::arithmetic::div_mod::lemma_small_mod;
use vstd::prelude::*;

verus! {

/// A player in a game.
#[derive(Debug, Clone)]
pub struct Player {
    pub id: PlayerId,
    pub name: String,
}

/// The phase of the game.
#[derive(Debug, Clone, Copy, PartialEq, Eq, Structural)]
pub enum Phase {
    Mulligan,
    Main,
}

/// A change that an ongoing effect makes to a card's abilities.
#[derive(Debug, Clone)]
pub enum AbilityModifier {
    Grant(Ability),
    Remove(AbilityRemoval),
}

/// Which abilities an effect takes away.
#[derive(Debug, Clone)]
pub enum AbilityRemoval {
    Exact(Vec<Ability>),
    AllAbilities,
    AllAbilitiesExcept(Vec<Ability>),
    SpecialAbilities,
}

/// The mathematical value of an `AbilityRemoval`.
pub enum RemovalView {
    Exact(Seq<Ability>),
    AllAbilities,
    AllAbilitiesExcept(Seq<Ability>),
    SpecialAbilities,
}

impl View for AbilityRemoval {
    type V = RemovalView;

    open spec fn view(&self) -> RemovalView {
        match self {
            AbilityRemoval::Exact(v) => RemovalView::Exact(v@),
            AbilityRemoval::AllAbilities => RemovalView::AllAbilities,
            AbilityRemoval::AllAbilitiesExcept(v) => RemovalView::AllAbilitiesExcept(v@),
            AbilityRemoval::SpecialAbilities => RemovalView::SpecialAbilities,
        }
    }
}

/// The mathematical value of an `AbilityModifier`.
pub enum ModifierView {
    Grant(Ability),
    Remove(RemovalView),
}

impl View for AbilityModifier {
    type V = ModifierView;

    open spec fn view(&self) -> ModifierView {
        match self {
            AbilityModifier::Grant(a) => ModifierView::Grant(*a),
            AbilityModifier::Remove(r) => ModifierView::Remove(r@),
        }
    }
}

/// A copy of `abilities`.
fn copy_abilities(abilities: &Vec<Ability>) -> (r: Vec<Ability>)
    ensures
        r@ == abilities@,
{
    let mut r: Vec<Ability> = Vec::new();
    let mut i: usize = 0;
    while i < abilities.len()
        invariant
            i <= abilities.len(),
            r@ =~= abilities@.take(i as int),
        decreases abilities.len() - i,
    {
        r.push(abilities[i]);
        i += 1;
    }
    assert(abilities@.take(abilities.len() as int) =~= abilities@);
    r
}

/// Whether removal `rm` takes away the special abilities of a card, which
/// switches off the effects the card is the source of.
pub open spec fn strips_special_abilities(rm: AbilityRemoval) -> bool {
    !(rm is Exact)
}

/// Whether removal `rm` takes away `ability`.
pub open spec fn removal_removes(rm: AbilityRemoval, ability: Ability) -> bool {
    match rm {
        AbilityRemoval::Exact(abilities) => abilities@.contains(ability),
        AbilityRemoval::AllAbilities => card_ability(ability),
        AbilityRemoval::AllAbilitiesExcept(exceptions) => card_ability(ability)
            && !exceptions@.contains(ability),
        AbilityRemoval::SpecialAbilities => special_ability(ability),
    }
}

/// Whether `abilities` holds `ability`.
fn has_ability(abilities: &Vec<Ability>, ability: &Ability) -> (r: bool)
    ensures
        r == abilities@.contains(*ability),
{
    let mut i: usize = 0;
    while i < abilities.len()
        invariant
            i <= abilities.len(),
            forall|j: int| 0 <= j < i ==> abilities@[j] != *ability,
        decreases abilities.len() - i,
    {
        if abilities[i] == *ability {
            assert(abilities@[i as int] == *ability);
            return true;
        }
        i += 1;
    }
    false
}

impl AbilityModifier {
    /// A copy of this modifier.
    pub fn duplicate(&self) -> (r: AbilityModifier)
        ensures
            r@ == self@,
    {
        match self {
            AbilityModifier::Grant(a) => AbilityModifier::Grant(*a),
            AbilityModifier::Remove(rm) => AbilityModifier::Remove(rm.duplicate()),
        }
    }
}

impl AbilityRemoval {
    /// A copy of this removal.
    pub fn duplicate(&self) -> (r: AbilityRemoval)
        ensures
            r@ == self@,
    {
        match self {
            AbilityRemoval::Exact(v) => AbilityRemoval::Exact(copy_abilities(v)),
            AbilityRemoval::AllAbilities => AbilityRemoval::AllAbilities,
            AbilityRemoval::AllAbilitiesExcept(v) => AbilityRemoval::AllAbilitiesExcept(copy_abilities(v)),
            AbilityRemoval::SpecialAbilities => AbilityRemoval::SpecialAbilities,
        }
    }

    /// Removes exactly one ability.
    pub fn exact(ability: Ability) -> (r: Self)
        ensures
            r matches AbilityRemoval::Exact(v) && v@ == seq![ability],
    {
        let v = vec![ability];
        assert(v@ =~= seq![ability]);
        AbilityRemoval::Exact(v)
    }

    /// Whether this removal is a silence.
    pub fn is_silence(&self) -> (r: bool)
        ensures
            r == (*self is SpecialAbilities),
    {
        matches!(self, AbilityRemoval::SpecialAbilities)
    }

    /// Whether this removal takes away the card's special abilities, which
    /// turns off the effects the card itself is the source of.
    pub fn removes_special_abilities(&self) -> (r: bool)
        ensures
            r == strips_special_abilities(*self),
    {
        matches!(
            self,
            AbilityRemoval::AllAbilities | AbilityRemoval::AllAbilitiesExcept(_)
                | AbilityRemoval::SpecialAbilities
        )
    }

    /// Whether this removal takes away `ability`.
    pub fn removes(&self, ability: &Ability) -> (r: bool)
        ensures
            r == removal_removes(*self, *ability),
    {
        match self {
            AbilityRemoval::Exact(abilities) => has_ability(abilities, ability),
            AbilityRemoval::AllAbilities => ability.is_card_ability(),
            AbilityRemoval::AllAbilitiesExcept(exceptions) => {
                ability.is_card_ability() && !has_ability(exceptions, ability)
            },
            AbilityRemoval::SpecialAbilities => ability.is_special_ability(),
        }
    }
}

/// A change that an ongoing effect makes to a card's elemental affinities.
#[derive(Debug, Clone, Copy)]
pub enum AffinityModifier {
    SetTo(Thresholds),
    AddMinimum(Thresholds),
    Remove(Thresholds),
}

/// `max(a, b)`.
pub open spec fn max_u8(a: u8, b: u8) -> u8 {
    if a >= b {
        a
    } else {
        b
    }
}

/// `a - b`, floored at 0.
pub open spec fn floor_sub(a: u8, b: u8) -> u8 {
    if a < b {
        0
    } else {
        (a - b) as u8
    }
}

/// The affinities `t` after modifier `m`.
pub open spec fn modified_affinities(m: AffinityModifier, t: Thresholds) -> Thresholds {
    match m {
        AffinityModifier::SetTo(n) => n,
        AffinityModifier::AddMinimum(min) => Thresholds {
            fire: max_u8(t.fire, min.fire),
            air: max_u8(t.air, min.air),
            earth: max_u8(t.earth, min.earth),
            water: max_u8(t.water, min.water),
        },
        AffinityModifier::Remove(rm) => Thresholds {
            fire: floor_sub(t.fire, rm.fire),
            air: floor_sub(t.air, rm.air),
            earth: floor_sub(t.earth, rm.earth),
            water: floor_sub(t.water, rm.water),
        },
    }
}

impl AffinityModifier {
    /// Applies this modifier to `affinities`: sets them, raises each to a
    /// minimum, or lowers each by an amount without going below zero.
    pub fn apply(&self, affinities: &mut Thresholds)
        ensures
            *final(affinities) == modified_affinities(*self, *old(affinities)),
    {
        match self {
            AffinityModifier::SetTo(new_affinities) => *affinities = *new_affinities,
            AffinityModifier::AddMinimum(minimums) => {
                affinities.fire = if affinities.fire >= minimums.fire {
                    affinities.fire
                } else {
                    minimums.fire
                };
                affinities.air = if affinities.air >= minimums.air {
                    affinities.air
                } else {
                    minimums.air
                };
                affinities.earth = if affinities.earth >= minimums.earth {
                    affinities.earth
                } else {
                    minimums.earth
                };
                affinities.water = if affinities.water >= minimums.water {
                    affinities.water
                } else {
                    minimums.water
                };
            },
            AffinityModifier::Remove(to_remove) => {
                affinities.fire = affinities.fire.saturating_sub(to_remove.fire);
                affinities.air = affinities.air.saturating_sub(to_remove.air);
                affinities.earth = affinities.earth.saturating_sub(to_remove.earth);
                affinities.water = affinities.water.saturating_sub(to_remove.water);
            },
        }
    }
}

/// Applying the same modifier twice is the same as applying it once.
pub proof fn affinity_modifiers_are_idempotent(m: AffinityModifier, t: Thresholds)
    requires
        !(m is Remove),
    ensures
        modified_affinities(m, modified_affinities(m, t)) == modified_affinities(m, t),
{
}

/// Raising to a minimum never lowers an affinity, and removing never raises
/// one.
pub proof fn affinity_modifiers_are_monotone(min: Thresholds, rm: Thresholds, t: Thresholds)
    ensures
        modified_affinities(AffinityModifier::AddMinimum(min), t).fire >= t.fire,
        modified_affinities(AffinityModifier::AddMinimum(min), t).air >= t.air,
        modified_affinities(AffinityModifier::AddMinimum(min), t).earth >= t.earth,
        modified_affinities(AffinityModifier::AddMinimum(min), t).water >= t.water,
        modified_affinities(AffinityModifier::Remove(rm), t).fire <= t.fire,
        modified_affinities(AffinityModifier::Remove(rm), t).air <= t.air,
        modified_affinities(AffinityModifier::Remove(rm), t).earth <= t.earth,
        modified_affinities(AffinityModifier::Remove(rm), t).water <= t.water,
{
}


/// The players of a game and those of them who have been eliminated.
#[derive(Debug, Clone)]
pub struct Standings {
    pub players: Vec<Player>,
    pub eliminated_players: Vec<PlayerId>,
}

/// The players of `players` not in `eliminated`, in seating order.
pub open spec fn living(players: Seq<Player>, eliminated: Seq<PlayerId>) -> Seq<Player>
    decreases players.len(),
{
    if players.len() == 0 {
        Seq::empty()
    } else if eliminated.contains(players.last().id) {
        living(players.drop_last(), eliminated)
    } else {
        living(players.drop_last(), eliminated).push(players.last())
    }
}

/// The winner, once a single player is left.
pub open spec fn winner(players: Seq<Player>, eliminated: Seq<PlayerId>) -> Option<Player> {
    if living(players, eliminated).len() == 1 {
        Some(living(players, eliminated)[0])
    } else {
        None
    }
}

impl Standings {
    /// Marks `player_id` as eliminated.
    pub fn eliminate_player(&mut self, player_id: PlayerId)
        ensures
            final(self).players@ == old(self).players@,
            final(self).eliminated_players@ == if old(self).eliminated_players@.contains(player_id) {
                old(self).eliminated_players@
            } else {
                old(self).eliminated_players@.push(player_id)
            },
            final(self).eliminated_players@.contains(player_id),
            forall|p: PlayerId|
                p != player_id ==> (#[trigger] final(self).eliminated_players@.contains(p)
                    <==> old(self).eliminated_players@.contains(p)),
    {
        if !self.is_player_eliminated(&player_id) {
            let ghost before = self.eliminated_players@;
            self.eliminated_players.push(player_id);
            proof {
                assert(self.eliminated_players@[before.len() as int] == player_id);
                assert forall|p: PlayerId| p != player_id implies (#[trigger] self.eliminated_players@.contains(p)
                    <==> before.contains(p)) by {
                    if self.eliminated_players@.contains(p) {
                        let k = choose|k: int| 0 <= k < self.eliminated_players@.len() && self.eliminated_players@[k] == p;
                        assert(before[k] == p);
                    }
                    if before.contains(p) {
                        let k = choose|k: int| 0 <= k < before.len() && before[k] == p;
                        assert(self.eliminated_players@[k] == p);
                    }
                }
            }
        }
    }

    /// Whether `player_id` has been eliminated.
    pub fn is_player_eliminated(&self, player_id: &PlayerId) -> (r: bool)
        ensures
            r == self.eliminated_players@.contains(*player_id),
    {
        let mut i: usize = 0;
        while i < self.eliminated_players.len()
            invariant
                i <= self.eliminated_players@.len(),
                forall|j: int| 0 <= j < i ==> self.eliminated_players@[j] != *player_id,
            decreases self.eliminated_players@.len() - i,
        {
            if same_id(&self.eliminated_players[i], player_id) {
                return true;
            }
            i += 1;
        }
        false
    }

    /// The players not yet eliminated, in seating order.
    pub fn living_players(&self) -> (r: Vec<&Player>)
        ensures
            r@.map_values(|p: &Player| *p) == living(self.players@, self.eliminated_players@),
    {
        let mut r: Vec<&Player> = Vec::new();
        let mut i: usize = 0;
        while i < self.players.len()
            invariant
                i <= self.players@.len(),
                r@.map_values(|p: &Player| *p) == living(self.players@.take(i as int), self.eliminated_players@),
            decreases self.players@.len() - i,
        {
            assert(self.players@.take(i + 1).drop_last() =~= self.players@.take(i as int));
            if !self.is_player_eliminated(&self.players[i].id) {
                let ghost before = r@;
                r.push(&self.players[i]);
                assert(r@.map_values(|p: &Player| *p) =~= before.map_values(|p: &Player| *p).push(
                    self.players@[i as int],
                ));
            }
            i += 1;
        }
        assert(self.players@.take(self.players@.len() as int) =~= self.players@);
        r
    }

    /// The winner, when exactly one player is left.
    pub fn winner_if_game_over(&self) -> (r: Option<&Player>)
        ensures
            match r {
                Some(p) => winner(self.players@, self.eliminated_players@) == Some(*p),
                None => winner(self.players@, self.eliminated_players@) is None,
            },
    {
        let living_players = self.living_players();
        if living_players.len() == 1 {
            assert(living_players@.map_values(|p: &Player| *p)[0] == *living_players@[0]);
            Some(living_players[0])
        } else {
            None
        }
    }
}

/// Eliminating a player takes just that player out of the living ones and
/// keeps the seating order of the rest.
pub proof fn elimination_removes_one_player(players: Seq<Player>, eliminated: Seq<PlayerId>, p: PlayerId)
    ensures
        living(players, eliminated.push(p)) == living(players, eliminated).filter(
            |q: Player| q.id != p,
        ),
    decreases players.len(),
{
    let e2 = eliminated.push(p);
    if players.len() > 0 {
        elimination_removes_one_player(players.drop_last(), eliminated, p);
        let prev = living(players.drop_last(), eliminated);
        let last = players.last();
        assert(e2.contains(last.id) <==> (eliminated.contains(last.id) || last.id == p)) by {
            if e2.contains(last.id) && last.id != p {
                let k = choose|k: int| 0 <= k < e2.len() && e2[k] == last.id;
                assert(eliminated[k] == last.id);
            }
            if eliminated.contains(last.id) {
                let k = choose|k: int| 0 <= k < eliminated.len() && eliminated[k] == last.id;
                assert(e2[k] == last.id);
            }
            if last.id == p {
                assert(e2[eliminated.len() as int] == p);
            }
        }
        if !eliminated.contains(last.id) {
            prev.lemma_filter_push(last, |q: Player| q.id != p);
        }
    } else {
        assert(living(players, eliminated).filter(|q: Player| q.id != p) =~= Seq::empty());
    }
}

/// The game is over, with a winner, exactly when one player is left, and
/// the winner is that player.
pub proof fn game_is_over_when_one_player_is_left(players: Seq<Player>, eliminated: Seq<PlayerId>)
    ensures
        winner(players, eliminated) is Some <==> living(players, eliminated).len() == 1,
        winner(players, eliminated) is Some ==> living(players, eliminated) == seq![
            winner(players, eliminated)->0,
        ],
{
    if living(players, eliminated).len() == 1 {
        assert(living(players, eliminated) =~= seq![living(players, eliminated)[0]]);
    }
}

/// One turn of the game: whose turn it is, and who controls it when that
/// is someone else.
#[derive(Debug, Clone, Copy)]
pub struct Turn {
    pub player_id: PlayerId,
    pub controller_override: Option<PlayerId>,
}

impl Turn {
    /// An ordinary turn of `player_id`.
    pub fn new(player_id: PlayerId) -> (r: Self)
        ensures
            r.player_id == player_id,
            r.controller_override == None::<PlayerId>,
    {
        Turn { player_id, controller_override: None }
    }

    /// A turn of `player_id` controlled by `controller_id`; there is no
    /// override when the two are the same player.
    pub fn controlled_by(player_id: PlayerId, controller_id: PlayerId) -> (r: Self)
        ensures
            r.player_id == player_id,
            r.controller_override == (if player_id == controller_id {
                None
            } else {
                Some(controller_id)
            }),
    {
        let controller_override = if !same_id(&player_id, &controller_id) {
            Some(controller_id)
        } else {
            None
        };
        Turn { player_id, controller_override }
    }

    /// Whose turn it is.
    pub fn player_id(&self) -> (r: PlayerId)
        ensures
            r == self.player_id,
    {
        self.player_id
    }

    /// Who controls the turn, when that is not its player.
    pub fn controller_override(&self) -> (r: Option<PlayerId>)
        ensures
            r == self.controller_override,
    {
        self.controller_override
    }

    /// Who makes the decisions during this turn.
    pub fn controller_id(&self) -> (r: PlayerId)
        ensures
            r == match self.controller_override {
                Some(c) => c,
                None => self.player_id,
            },
    {
        match self.controller_override {
            Some(c) => c,
            None => self.player_id,
        }
    }
}

/// Why the turn order could not move on to a player's turn.
#[derive(Debug, Clone, Copy, PartialEq, Eq)]
pub enum TurnError {
    /// The next turn belongs to another player.
    UnexpectedTurn { expected: PlayerId, got: PlayerId },
}

/// The message reported for error `e`.
pub open spec fn turn_error_text(e: TurnError) -> Seq<char> {
    match e {
        TurnError::UnexpectedTurn { expected, got } => "expected next turn for player "@ + uuid_display_text(
            expected,
        ) + ", got "@ + uuid_display_text(got),
    }
}

impl TurnError {
    /// The message reported for this error.
    pub fn message(&self) -> (r: String)
        ensures
            r@ == turn_error_text(*self),
    {
        match self {
            TurnError::UnexpectedTurn { expected, got } => {
                let mut msg = String::from_str("expected next turn for player ");
                let e = uuid_display_string(expected);
                msg.append(e.as_str());
                msg.append(", got ");
                let g = uuid_display_string(got);
                msg.append(g.as_str());
                msg
            },
        }
    }
}

/// The order of turns: the players in their seating order, round and
/// round, with turns that effects insert ahead of that order.
#[derive(Debug)]
pub struct TurnIterator {
    current: Turn,
    normal: Vec<Turn>,
    index: usize,
    overrides: VecDeque<Turn>,
}

/// The mathematical value of a `TurnIterator`.
#[verifier::ext_equal]
pub struct TurnOrder {
    /// The turn being played.
    pub current: Turn,
    /// The seating order, one ordinary turn per player.
    pub normal: Seq<Turn>,
    /// The position in `normal` of the next ordinary turn.
    pub index: int,
    /// Turns that come before the next ordinary turn, first one first.
    pub overrides: Seq<Turn>,
}

impl TurnOrder {
    /// What every turn order satisfies: there is at least one player, and
    /// `index` is a position in the seating order, except right after a
    /// single player's order is made.
    pub open spec fn valid(self) -> bool {
        &&& self.normal.len() > 0
        &&& 0 <= self.index
        &&& (self.index < self.normal.len() || (self.index == 1 && self.normal.len() == 1))
    }

    /// Whether a next turn exists: an inserted one, or an ordinary one at
    /// `index`. With a single player and no inserted turn there is none.
    pub open spec fn has_next(self) -> bool {
        self.overrides.len() > 0 || self.index < self.normal.len()
    }

    /// The turn that comes next.
    pub open spec fn upcoming(self) -> Turn {
        if self.overrides.len() > 0 {
            self.overrides[0]
        } else {
            self.normal[self.index]
        }
    }

    /// The order after the next turn is taken.
    pub open spec fn advanced(self) -> TurnOrder {
        if self.overrides.len() > 0 {
            TurnOrder {
                current: self.overrides[0],
                normal: self.normal,
                index: self.index,
                overrides: self.overrides.drop_first(),
            }
        } else {
            TurnOrder {
                current: self.normal[self.index],
                normal: self.normal,
                index: (self.index + 1) % (self.normal.len() as int),
                overrides: self.overrides,
            }
        }
    }

    /// The order after `k` turns are taken.
    pub open spec fn advanced_by(self, k: nat) -> TurnOrder
        decreases k,
    {
        if k == 0 {
            self
        } else {
            self.advanced_by((k - 1) as nat).advanced()
        }
    }
}

/// The position of the first turn of `player_id` in `turns`, at or after
/// position `from`.
pub open spec fn first_turn_of(turns: Seq<Turn>, player_id: PlayerId, from: int) -> Option<int>
    decreases turns.len() - from,
{
    if from < 0 || from >= turns.len() {
        None
    } else if turns[from].player_id == player_id {
        Some(from)
    } else {
        first_turn_of(turns, player_id, from + 1)
    }
}

/// How many ordinary turns, counting from position `index`, come before
/// the first one of `player_id`, looking at offsets from `from` on.
pub open spec fn offset_of_turn(normal: Seq<Turn>, index: int, player_id: PlayerId, from: int) -> Option<int>
    decreases normal.len() - from,
{
    if from < 0 || from >= normal.len() {
        None
    } else if normal[(index + from) % (normal.len() as int)].player_id == player_id {
        Some(from)
    } else {
        offset_of_turn(normal, index, player_id, from + 1)
    }
}

/// The order after the next turn of `player_id` is skipped: an inserted
/// turn of that player is dropped if there is one; otherwise the ordinary
/// turns before that player's are inserted, and the ordinary order resumes
/// after that player's turn.
pub open spec fn skipped(o: TurnOrder, player_id: PlayerId) -> TurnOrder {
    match first_turn_of(o.overrides, player_id, 0) {
        Some(p) => TurnOrder { overrides: o.overrides.remove(p), ..o },
        None => match offset_of_turn(o.normal, o.index, player_id, 0) {
            Some(p) => {
                let n = o.normal.len() as int;
                TurnOrder {
                    overrides: o.overrides + Seq::new(p as nat, |k: int| o.normal[(o.index + k) % n]),
                    index: (o.index + p + 1) % n,
                    ..o
                }
            },
            None => o,
        },
    }
}

/// `(index + k) % n`, computed without overflow.
fn wrap_index(index: usize, k: usize, n: usize) -> (r: usize)
    requires
        index <= n,
        k < n,
    ensures
        r == (index + k) % (n as int),
        r < n,
{
    if k < n - index {
        proof {
            lemma_small_mod((index + k) as nat, n as nat);
        }
        index + k
    } else {
        proof {
            lemma_small_mod((index + k - n) as nat, n as nat);
            lemma_mod_add_multiples_vanish(index + k - n, n as int);
        }
        k - (n - index)
    }
}

impl View for TurnIterator {
    type V = TurnOrder;

    closed spec fn view(&self) -> TurnOrder {
        TurnOrder {
            current: self.current,
            normal: self.normal@,
            index: self.index as int,
            overrides: self.overrides@,
        }
    }
}

impl TurnIterator {
    /// Every turn order is valid.
    #[verifier::type_invariant]
    spec fn is_valid(self) -> bool {
        self@.valid()
    }

    /// The order of the players `normal`, starting with the first player's
    /// turn.
    pub fn new(normal: Vec<PlayerId>) -> (r: Self)
        requires
            normal.len() > 0,
        ensures
            r@.current == Turn::new_spec(normal@[0]),
            r@.normal == normal@.map_values(|p: PlayerId| Turn::new_spec(p)),
            r@.index == 1,
            r@.overrides == Seq::<Turn>::empty(),
            r@.valid(),
    {
        let mut turns: Vec<Turn> = Vec::new();
        let mut i: usize = 0;
        while i < normal.len()
            invariant
                i <= normal.len(),
                turns@ =~= normal@.take(i as int).map_values(|p: PlayerId| Turn::new_spec(p)),
            decreases normal.len() - i,
        {
            turns.push(Turn::new(normal[i]));
            i += 1;
        }
        assert(normal@.take(normal.len() as int) =~= normal@);
        let current = turns[0];
        TurnIterator { current, normal: turns, index: 1, overrides: VecDeque::new() }
    }

    /// The turn being played.
    pub fn current(&self) -> (r: &Turn)
        ensures
            *r == self@.current,
    {
        &self.current
    }

    /// The turn that comes next.
    pub fn next_turn(&self) -> (r: &Turn)
        requires
            self@.has_next(),
        ensures
            *r == self@.upcoming(),
    {
        proof {
            use_type_invariant(self);
        }
        if self.overrides.len() > 0 {
            &self.overrides[0]
        } else {
            &self.normal[self.index]
        }
    }

    /// Makes `value` the next turn, ahead of every other.
    pub fn override_next(&mut self, value: Turn)
        ensures
            final(self)@ == (TurnOrder { overrides: seq![value] + old(self)@.overrides, ..old(self)@ }),
            final(self)@.valid(),
    {
        proof {
            use_type_invariant(&*self);
        }
        let mut overrides: VecDeque<Turn> = VecDeque::new();
        std::mem::swap(&mut overrides, &mut self.overrides);
        overrides.push_front(value);
        self.overrides = overrides;
    }

    /// Inserts `values`, in order, after the turns already inserted.
    pub fn override_upcoming(&mut self, values: Vec<Turn>)
        ensures
            final(self)@ == (TurnOrder { overrides: old(self)@.overrides + values@, ..old(self)@ }),
            final(self)@.valid(),
    {
        proof {
            use_type_invariant(&*self);
        }
        let mut overrides: VecDeque<Turn> = VecDeque::new();
        std::mem::swap(&mut overrides, &mut self.overrides);
        let mut i: usize = 0;
        while i < values.len()
            invariant
                i <= values.len(),
                overrides@ == old(self)@.overrides + values@.take(i as int),
            decreases values.len() - i,
        {
            overrides.push_back(values[i]);
            assert(old(self)@.overrides + values@.take(i + 1) =~= old(self)@.overrides
                + values@.take(i as int) + seq![values@[i as int]]);
            i += 1;
        }
        self.overrides = overrides;
        assert(values@.take(values.len() as int) =~= values@);
        assert(self@.overrides =~= old(self)@.overrides + values@);
    }

    /// Takes the next turn and makes it the current one.
    pub fn next(&mut self) -> (r: Option<Turn>)
        requires
            old(self)@.has_next(),
        ensures
            final(self)@ == old(self)@.advanced(),
            r == Some(final(self)@.current),
            final(self)@.valid(),
    {
        proof {
            use_type_invariant(&*self);
        }
        let mut overrides: VecDeque<Turn> = VecDeque::new();
        std::mem::swap(&mut overrides, &mut self.overrides);
        let front = overrides.pop_front();
        self.overrides = overrides;
        if let Some(value) = front {
            self.current = value;
            assert(self@.overrides =~= old(self)@.overrides.drop_first());
            return Some(self.current);
        }
        assert(self.index < self.normal.len());
        let value = self.normal[self.index];
        proof {
            let n = self.normal.len() as int;
            if self.index + 1 == n {
                lemma_mod_self_0(n);
            } else {
                lemma_small_mod((self.index + 1) as nat, n as nat);
            }
        }
        self.index = if self.index + 1 == self.normal.len() {
            0
        } else {
            self.index + 1
        };
        self.current = value;
        Some(self.current)
    }

    /// Who decides for `player_id`: the controller of the current turn
    /// when it is that player's turn, else the player.
    pub fn decision_player(&self, player_id: &PlayerId) -> (r: PlayerId)
        ensures
            r == if *player_id == self@.current.player_id {
                match self@.current.controller_override {
                    Some(c) => c,
                    None => self@.current.player_id,
                }
            } else {
                *player_id
            },
    {
        if same_id(player_id, &self.current.player_id()) {
            self.current.controller_id()
        } else {
            *player_id
        }
    }

    /// Moves on to the turn of `player_id`: nothing moves when it is that
    /// player's turn already; else the next turn is taken, and it is an
    /// error when that turn is not the player's.
    pub fn advance_to_turn(&mut self, player_id: &PlayerId) -> (r: Result<Turn, TurnError>)
        requires
            old(self)@.current.player_id != *player_id ==> old(self)@.has_next(),
        ensures
            final(self)@.valid(),
            final(self)@ == if old(self)@.current.player_id == *player_id {
                old(self)@
            } else {
                old(self)@.advanced()
            },
            r == if final(self)@.current.player_id == *player_id {
                Ok::<Turn, TurnError>(final(self)@.current)
            } else {
                Err(TurnError::UnexpectedTurn { expected: *player_id, got: final(self)@.current.player_id })
            },
    {
        proof {
            use_type_invariant(&*self);
        }
        if !same_id(&self.current.player_id(), player_id) {
            let turn = self.next();
            let turn = match turn {
                Some(t) => t,
                None => self.current,
            };
            proof {
                use_type_invariant(&*self);
            }
            if !same_id(&turn.player_id(), player_id) {
                return Err(TurnError::UnexpectedTurn { expected: *player_id, got: turn.player_id() });
            }
        }
        Ok(self.current)
    }

    /// Skips the next turn of `player_id`.
    pub fn skip_next_for(&mut self, player_id: &PlayerId)
        ensures
            final(self)@ == skipped(old(self)@, *player_id),
            final(self)@.valid(),
    {
        proof {
            use_type_invariant(&*self);
        }
        let ghost o = self@;
        let mut p: usize = 0;
        while p < self.overrides.len()
            invariant
                self@ == o,
                o == old(self)@,
                o.valid(),
                p <= o.overrides.len(),
                first_turn_of(o.overrides, *player_id, 0) == first_turn_of(
                    o.overrides,
                    *player_id,
                    p as int,
                ),
            decreases self.overrides.len() - p,
        {
            if same_id(&self.overrides[p].player_id, player_id) {
                let mut overrides: VecDeque<Turn> = VecDeque::new();
                std::mem::swap(&mut overrides, &mut self.overrides);
                overrides.remove(p);
                self.overrides = overrides;
                assert(first_turn_of(o.overrides, *player_id, p as int) == Some(p as int));
                assert(self@.overrides =~= o.overrides.remove(p as int));
                assert(self@.normal == o.normal);
                assert(self@.index == o.index);
                assert(self@.current == o.current);
                assert(skipped(o, *player_id).overrides == o.overrides.remove(p as int));
                assert(self@.valid());
                assert(self@ =~= skipped(o, *player_id));
                return;
            }
            p += 1;
        }
        assert(first_turn_of(o.overrides, *player_id, p as int) == None::<int>);
        let n = self.normal.len();
        let mut position: usize = 0;
        let mut found = false;
        while !found && position < n
            invariant
                self@ == o,
                o.valid(),
                first_turn_of(o.overrides, *player_id, 0) == None::<int>,
                n == o.normal.len(),
                n > 0,
                position <= n,
                offset_of_turn(o.normal, o.index, *player_id, 0) == offset_of_turn(
                    o.normal,
                    o.index,
                    *player_id,
                    position as int,
                ),
                0 <= o.index <= n,
                found ==> position < n && o.normal[(o.index + position) % (n as int)].player_id
                    == *player_id,
            decreases n - position + if found { 0int } else { 1int },
        {
            if same_id(&self.normal[wrap_index(self.index, position, n)].player_id, player_id) {
                found = true;
            } else {
                position += 1;
            }
        }
        if !found {
            assert(offset_of_turn(o.normal, o.index, *player_id, n as int) == None::<int>);
            assert(first_turn_of(o.overrides, *player_id, p as int) == None::<int>);
            assert(skipped(o, *player_id) == o);
            return;
        }
        assert(offset_of_turn(o.normal, o.index, *player_id, position as int) == Some(
            position as int,
        ));
        assert(offset_of_turn(o.normal, o.index, *player_id, 0) == Some(position as int));
        let mut overrides: VecDeque<Turn> = VecDeque::new();
        std::mem::swap(&mut overrides, &mut self.overrides);
        let mut k: usize = 0;
        while k < position
            invariant
                o.valid(),
                first_turn_of(o.overrides, *player_id, 0) == None::<int>,
                offset_of_turn(o.normal, o.index, *player_id, 0) == Some(position as int),
                k <= position < n,
                n == o.normal.len(),
                self.normal@ == o.normal,
                self.index == o.index,
                self.current == o.current,
                0 <= o.index <= n,
                overrides@ == o.overrides + Seq::new(
                    k as nat,
                    |j: int| o.normal[(o.index + j) % (n as int)],
                ),
            decreases position - k,
        {
            let t = self.normal[wrap_index(self.index, k, n)];
            overrides.push_back(t);
            assert(overrides@ =~= o.overrides + Seq::new(
                (k + 1) as nat,
                |j: int| o.normal[(o.index + j) % (n as int)],
            ));
            k += 1;
        }
        self.overrides = overrides;
        let last = wrap_index(self.index, position, n);
        proof {
            lemma_add_mod_noop(o.index + position, 1, n as int);
            if n > 1 {
                lemma_small_mod(1, n as nat);
            } else {
                lemma_mod_self_0(1);
            }
            if last + 1 == n {
                lemma_mod_self_0(n as int);
            } else {
                lemma_small_mod((last + 1) as nat, n as nat);
            }
        }
        self.index = if last + 1 == n {
            0
        } else {
            last + 1
        };
        assert(self.index == (o.index + position + 1) % (n as int));
        assert(self@.overrides =~= o.overrides + Seq::new(
            position as nat,
            |j: int| o.normal[(o.index + j) % (n as int)],
        ));
    }
}

impl Turn {
    /// An ordinary turn of `player_id`.
    pub open spec fn new_spec(player_id: PlayerId) -> Turn {
        Turn { player_id, controller_override: None }
    }
}


proof fn lemma_advanced_by_split(o: TurnOrder, a: nat, b: nat)
    ensures
        o.advanced_by(a + b) == o.advanced_by(a).advanced_by(b),
    decreases b,
{
    if b > 0 {
        lemma_advanced_by_split(o, a, (b - 1) as nat);
        assert((a + b - 1) as nat == a + (b - 1) as nat);
    }
}

proof fn lemma_advanced_by_ordinary(o: TurnOrder, k: nat)
    requires
        o.valid(),
        o.overrides.len() == 0,
        o.index < o.normal.len(),
    ensures
        o.advanced_by(k).normal == o.normal,
        o.advanced_by(k).overrides == o.overrides,
        o.advanced_by(k).index == (o.index + k) % (o.normal.len() as int),
        k > 0 ==> o.advanced_by(k).current == o.normal[(o.index + k - 1) % (o.normal.len() as int)],
    decreases k,
{
    let n = o.normal.len() as int;
    if k == 0 {
        lemma_small_mod(o.index as nat, n as nat);
    } else {
        lemma_advanced_by_ordinary(o, (k - 1) as nat);
        let prev = o.advanced_by((k - 1) as nat);
        assert(prev.index == (o.index + k - 1) % n);
        assert(0 <= prev.index < n) by {
            vstd::arithmetic::div_mod::lemma_mod_bound(o.index + k - 1, n);
        }
        lemma_add_mod_noop(o.index + k - 1, 1, n);
        if n > 1 {
            lemma_small_mod(1, n as nat);
        } else {
            lemma_mod_self_0(1);
        }
        vstd::arithmetic::div_mod::lemma_mod_bound(prev.index + 1, n);
        lemma_small_mod(prev.index as nat, n as nat);
    }
}

proof fn lemma_advanced_by_inserted(o: TurnOrder, k: nat)
    requires
        k <= o.overrides.len(),
    ensures
        o.advanced_by(k).normal == o.normal,
        o.advanced_by(k).index == o.index,
        o.advanced_by(k).overrides == o.overrides.skip(k as int),
        k > 0 ==> o.advanced_by(k).current == o.overrides[k - 1],
    decreases k,
{
    if k > 0 {
        lemma_advanced_by_inserted(o, (k - 1) as nat);
        let prev = o.advanced_by((k - 1) as nat);
        assert(prev.overrides.drop_first() =~= o.overrides.skip(k as int));
    } else {
        assert(o.overrides.skip(0) =~= o.overrides);
    }
}

/// With no inserted turns, the players take their turns in seating order,
/// round and round: after `k` turns the order is `k` places further on,
/// and after as many turns as there are players it is back where it was.
pub proof fn turns_follow_the_seating_order(o: TurnOrder, k: nat)
    requires
        o.valid(),
        o.overrides.len() == 0,
        o.index < o.normal.len(),
    ensures
        o.advanced_by(k).overrides.len() == 0,
        o.advanced_by(k).index == (o.index + k) % (o.normal.len() as int),
        k > 0 ==> o.advanced_by(k).current == o.normal[(o.index + k - 1) % (o.normal.len() as int)],
        o.advanced_by(o.normal.len()).index == o.index,
{
    lemma_advanced_by_ordinary(o, k);
    let n = o.normal.len();
    lemma_advanced_by_ordinary(o, n);
    lemma_mod_add_multiples_vanish(o.index, n as int);
    lemma_small_mod(o.index as nat, n as nat);
}

/// A turn inserted with `override_next` is the next one taken, and the
/// order behind it is left as it was.
pub proof fn inserted_turn_is_taken_next(o: TurnOrder, t: Turn)
    ensures
        (TurnOrder { overrides: seq![t] + o.overrides, ..o }).has_next(),
        (TurnOrder { overrides: seq![t] + o.overrides, ..o }).advanced() == (TurnOrder {
            current: t,
            ..o
        }),
{
    let p = TurnOrder { overrides: seq![t] + o.overrides, ..o };
    assert(p.overrides.drop_first() =~= o.overrides);
    assert(p.advanced() =~= TurnOrder { current: t, ..o });
}

/// The skip law for an order with no inserted turns.
proof fn lemma_skip_without_inserted(o: TurnOrder, player_id: PlayerId, j: nat)
    requires
        o.valid(),
        o.overrides.len() == 0,
        o.index < o.normal.len(),
        offset_of_turn(o.normal, o.index, player_id, 0) is Some,
    ensures
        ({
            let q = offset_of_turn(o.normal, o.index, player_id, 0)->0;
            &&& j < q ==> skipped(o, player_id).advanced_by(j + 1).current == o.advanced_by(
                j + 1,
            ).current
            &&& j >= q ==> skipped(o, player_id).advanced_by(j + 1).current == o.advanced_by(
                j + 2,
            ).current
        }),
{
    let q = offset_of_turn(o.normal, o.index, player_id, 0)->0;
    lemma_offset_bounds(o.normal, o.index, player_id, 0);
    let n = o.normal.len() as int;
    assert(first_turn_of(o.overrides, player_id, 0) == None::<int>);
    let s = skipped(o, player_id);
    assert(s.overrides.len() == q);
    lemma_advanced_by_ordinary(o, j + 1);
    lemma_advanced_by_ordinary(o, j + 2);
    if j < q {
        lemma_advanced_by_inserted(s, j + 1);
    } else {
        lemma_advanced_by_inserted(s, q as nat);
        let mid = s.advanced_by(q as nat);
        assert(mid.overrides.len() == 0);
        lemma_advanced_by_split(s, q as nat, 1);
        vstd::arithmetic::div_mod::lemma_mod_bound(o.index + q + 1, n);
        assert(mid.index == (o.index + q + 1) % n);
        lemma_advanced_by_ordinary(mid, 1);
        lemma_add_mod_noop(o.index + q + 1, 1, n);
        if n > 1 {
            lemma_small_mod(1, n as nat);
        } else {
            lemma_mod_self_0(1);
        }
        lemma_small_mod(mid.index as nat, n as nat);
        lemma_advanced_by_ordinary(o, (q + 2) as nat);
        let after = s.advanced_by((q + 1) as nat);
        assert(after == mid.advanced_by(1));
        assert(after.index == (mid.index + 1) % n);
        assert(after.index == o.advanced_by((q + 2) as nat).index);
        assert(after.current == o.normal[mid.index % n]);
        assert(after.current == o.advanced_by((q + 2) as nat).current);
        assert(after.normal == o.advanced_by((q + 2) as nat).normal);
        assert(after.overrides =~= o.advanced_by((q + 2) as nat).overrides);
        assert(after =~= o.advanced_by((q + 2) as nat));
        let rest = (j - q) as nat;
        lemma_advanced_by_split(s, (q + 1) as nat, rest);
        lemma_advanced_by_split(o, (q + 2) as nat, rest);
        assert((q + 1) as nat + rest == j + 1);
        assert((q + 2) as nat + rest == j + 2);
    }
}

proof fn lemma_offset_bounds(normal: Seq<Turn>, index: int, player_id: PlayerId, from: int)
    requires
        from >= 0,
    ensures
        offset_of_turn(normal, index, player_id, from) matches Some(p) ==> from <= p < normal.len()
            && normal[(index + from + (p - from)) % (normal.len() as int)].player_id == player_id,
    decreases normal.len() - from,
{
    if from < normal.len() && normal[(index + from) % (normal.len() as int)].player_id != player_id {
        lemma_offset_bounds(normal, index, player_id, from + 1);
    }
}

/// Two orders that differ at most in the turn being played go on alike:
/// after one turn or more they are the same.
proof fn lemma_advance_forgets_current(a: TurnOrder, b: TurnOrder, k: nat)
    requires
        a.normal == b.normal,
        a.index == b.index,
        a.overrides == b.overrides,
        k >= 1,
    ensures
        a.advanced_by(k) == b.advanced_by(k),
    decreases k,
{
    if k > 1 {
        lemma_advance_forgets_current(a, b, (k - 1) as nat);
    } else {
        assert(a.advanced_by(0) == a);
        assert(b.advanced_by(0) == b);
        assert(a.advanced() =~= b.advanced());
    }
}

proof fn lemma_first_turn_bounds(turns: Seq<Turn>, player_id: PlayerId, from: int)
    requires
        from >= 0,
    ensures
        first_turn_of(turns, player_id, from) matches Some(q) ==> from <= q < turns.len() && turns[q].player_id
            == player_id,
    decreases turns.len() - from,
{
    if from < turns.len() && turns[from].player_id != player_id {
        lemma_first_turn_bounds(turns, player_id, from + 1);
    }
}

/// Where, among the turns still to come of order `o`, the turn that a skip
/// of player `player_id` drops stands, counting from zero: an inserted turn
/// of that player, else the player's next ordinary turn after all the
/// inserted ones. `None` when the player has no turn to come.
pub open spec fn skipped_turn_position(o: TurnOrder, player_id: PlayerId) -> Option<int> {
    match first_turn_of(o.overrides, player_id, 0) {
        Some(q) => Some(q),
        None => match offset_of_turn(o.normal, o.index, player_id, 0) {
            Some(p) => Some(o.overrides.len() + p),
            None => None,
        },
    }
}

/// Skipping the next turn of a player drops exactly that turn, a turn of
/// that player, from the turns to come: the turns before it are taken as before, and every turn
/// after it comes one place earlier than it would have, for good. A
/// player with no turn to come leaves the order as it was, and the turn
/// being played stays the same.
pub proof fn skipping_drops_exactly_one_turn(o: TurnOrder, player_id: PlayerId, j: nat)
    requires
        o.valid(),
        o.index < o.normal.len(),
    ensures
        skipped(o, player_id).current == o.current,
        skipped_turn_position(o, player_id) is None ==> skipped(o, player_id) == o,
        skipped_turn_position(o, player_id) matches Some(q) ==> o.advanced_by((q + 1) as nat).current.player_id
            == player_id,
        skipped_turn_position(o, player_id) matches Some(q) ==> {
            &&& j < q ==> skipped(o, player_id).advanced_by(j + 1).current == o.advanced_by(j + 1).current
            &&& j >= q ==> skipped(o, player_id).advanced_by(j + 1).current == o.advanced_by(j + 2).current
        },
{
    let s = skipped(o, player_id);
    let l = o.overrides.len();
    lemma_first_turn_bounds(o.overrides, player_id, 0);
    match first_turn_of(o.overrides, player_id, 0) {
        Some(q) => {
            lemma_advanced_by_inserted(o, (q + 1) as nat);
            assert(s.overrides =~= o.overrides.remove(q));
            if j < q {
                lemma_advanced_by_inserted(s, j + 1);
                lemma_advanced_by_inserted(o, j + 1);
            } else {
                lemma_advanced_by_inserted(s, q as nat);
                lemma_advanced_by_inserted(o, (q + 1) as nat);
                let a = s.advanced_by(q as nat);
                let b = o.advanced_by((q + 1) as nat);
                assert(a.overrides =~= b.overrides);
                let rest = (j + 1 - q) as nat;
                lemma_advance_forgets_current(a, b, rest);
                lemma_advanced_by_split(s, q as nat, rest);
                lemma_advanced_by_split(o, (q + 1) as nat, rest);
                assert(q as nat + rest == j + 1);
                assert((q + 1) as nat + rest == j + 2);
            }
        },
        None => {
            if let Some(p) = offset_of_turn(o.normal, o.index, player_id, 0) {
                lemma_offset_bounds(o.normal, o.index, player_id, 0);
                let o2 = TurnOrder { overrides: Seq::empty(), ..o };
                let s2 = skipped(o2, player_id);
                assert(first_turn_of(o2.overrides, player_id, 0) == None::<int>);
                assert(s2.overrides =~= Seq::new(p as nat, |k: int| o.normal[(o.index + k) % (o.normal.len() as int)]));
                assert(o.advanced_by((l + p + 1) as nat).current.player_id == player_id) by {
                    lemma_advanced_by_inserted(o, l as nat);
                    let b = o.advanced_by(l as nat);
                    assert(b.overrides =~= o2.overrides);
                    lemma_advance_forgets_current(b, o2, (p + 1) as nat);
                    lemma_advanced_by_split(o, l as nat, (p + 1) as nat);
                    assert(l as nat + (p + 1) as nat == (l + p + 1) as nat);
                    lemma_advanced_by_ordinary(o2, (p + 1) as nat);
                    assert(o.index + 0 + (p - 0) == o.index + (p + 1) - 1);
                }
                if j < l {
                    lemma_advanced_by_inserted(s, j + 1);
                    lemma_advanced_by_inserted(o, j + 1);
                } else {
                    let j2 = (j - l) as nat;
                    lemma_skip_without_inserted(o2, player_id, j2);
                    lemma_advanced_by_inserted(s, l as nat);
                    lemma_advanced_by_inserted(o, l as nat);
                    let a = s.advanced_by(l as nat);
                    let b = o.advanced_by(l as nat);
                    assert(a.overrides =~= s2.overrides);
                    assert(b.overrides =~= o2.overrides);
                    lemma_advance_forgets_current(a, s2, j2 + 1);
                    lemma_advance_forgets_current(b, o2, j2 + 1);
                    lemma_advance_forgets_current(b, o2, j2 + 2);
                    lemma_advanced_by_split(s, l as nat, j2 + 1);
                    lemma_advanced_by_split(o, l as nat, j2 + 1);
                    lemma_advanced_by_split(o, l as nat, j2 + 2);
                    assert(l as nat + (j2 + 1) == j + 1);
                    assert(l as nat + (j2 + 2) == j + 2);
                }
            }
        },
    }
}

} // verus!
