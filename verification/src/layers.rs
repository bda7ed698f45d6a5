//! The layering of continuous effects: the order in which the ongoing
//! effects of the game apply, which of them are switched off because their
//! source was disabled, silenced or stripped of its special abilities by an
//! effect applied before them, and the per-card indexes built from the rest.
//!
//! An effect's card query is resolved by the game state; here each effect
//! carries the cards it resolved to, and the payloads that only the game
//! runs (activated abilities, counters) are found again by the effect's
//! position in the list of ongoing effects.

use crate::card::{Ability, CardStatus};
use crate::ids::{same_id, CardId};
use crate::state::{
    removal_removes, strips_special_abilities, AbilityModifier, AbilityRemoval, ModifierView,
    RemovalView,
};
use vstd::prelude::*;

verus! {

/// What an ongoing effect does, as far as the layering reads it.
#[derive(Debug, Clone)]
pub enum ContinuousEffect {
    /// Changes who controls the affected cards.
    ControllerOverride,
    /// Changes the power of the affected cards.
    ModifyPower { power_diff: i16 },
    /// Changes the power of the affected cards by `power_per_card` for each
    /// of `matching_count` matching cards.
    ModifyPowerForEach { power_per_card: i16, matching_count: i16 },
    /// Grants a keyword ability.
    GrantAbility(Ability),
    /// Puts a status on the affected cards.
    GrantStatus(CardStatus),
    /// Takes abilities away.
    RemoveAbilities(AbilityRemoval),
    /// Grants an activated ability, found again by the effect's position.
    GrantActivatedAbility,
    /// Grants a counter, found again by the effect's position.
    GrantCounter,
    /// Any other ongoing effect.
    Other,
}

/// An ongoing effect with the card that is its source, the time it began,
/// and the cards it affects.
#[derive(Debug, Clone)]
pub struct TimedOngoingEffect {
    pub effect: ContinuousEffect,
    pub source: Option<CardId>,
    pub timestamp: u64,
    pub affected: Vec<CardId>,
}

/// The layer an effect applies in: control first, then what switches
/// abilities off, then what grants, then power.
pub open spec fn layer_of(e: ContinuousEffect) -> u8 {
    match e {
        ContinuousEffect::ControllerOverride => 3,
        ContinuousEffect::ModifyPower { .. } => 6,
        ContinuousEffect::ModifyPowerForEach { .. } => 6,
        ContinuousEffect::GrantStatus(s) => if s is Disabled || s is Silenced {
            2
        } else {
            5
        },
        ContinuousEffect::RemoveAbilities(_) => 2,
        _ => 5,
    }
}

/// The layer `effect` applies in.
pub fn ongoing_effect_layer(effect: &TimedOngoingEffect) -> (r: u8)
    ensures
        r == layer_of(effect.effect),
{
    match &effect.effect {
        ContinuousEffect::ControllerOverride => 3,
        ContinuousEffect::ModifyPower { .. } | ContinuousEffect::ModifyPowerForEach { .. } => 6,
        ContinuousEffect::GrantStatus(CardStatus::Disabled)
        | ContinuousEffect::GrantStatus(CardStatus::Silenced) => 2,
        ContinuousEffect::RemoveAbilities(_) => 2,
        _ => 5,
    }
}

/// Whether the effect at position `i` of `effects` applies before the one
/// at position `j`: by layer, then by time, then by position.
pub open spec fn applies_before(effects: Seq<TimedOngoingEffect>, i: int, j: int) -> bool {
    let (li, lj) = (layer_of(effects[i].effect), layer_of(effects[j].effect));
    let (ti, tj) = (effects[i].timestamp, effects[j].timestamp);
    li < lj || (li == lj && (ti < tj || (ti == tj && i < j)))
}

/// `order` with position `i` put in before the first position it applies
/// before.
pub open spec fn insert_in_order(effects: Seq<TimedOngoingEffect>, order: Seq<usize>, i: usize) -> Seq<usize>
    decreases order.len(),
{
    if order.len() == 0 {
        seq![i]
    } else if applies_before(effects, i as int, order[0] as int) {
        seq![i] + order
    } else {
        seq![order[0]] + insert_in_order(effects, order.drop_first(), i)
    }
}

/// The positions `0..n` of `effects`, in the order they apply.
pub open spec fn order_of_first(effects: Seq<TimedOngoingEffect>, n: nat) -> Seq<usize>
    decreases n,
{
    if n == 0 {
        Seq::empty()
    } else {
        insert_in_order(effects, order_of_first(effects, (n - 1) as nat), (n - 1) as usize)
    }
}

/// The positions of all of `effects`, in the order they apply.
pub open spec fn layered_order(effects: Seq<TimedOngoingEffect>) -> Seq<usize> {
    order_of_first(effects, effects.len())
}

/// Where position `i` goes in `order`: before the first position it
/// applies before.
fn insertion_point(effects: &Vec<TimedOngoingEffect>, order: &Vec<usize>, i: usize) -> (p: usize)
    requires
        i < effects@.len(),
        forall|k: int| 0 <= k < order@.len() ==> order@[k] < effects@.len(),
    ensures
        p <= order@.len(),
        insert_in_order(effects@, order@, i) == order@.take(p as int) + seq![i] + order@.skip(
            p as int,
        ),
{
    let li = ongoing_effect_layer(&effects[i]);
    let ti = effects[i].timestamp;
    let mut p: usize = 0;
    assert(order@.skip(0) =~= order@);
    assert(order@.take(0) + order@ =~= order@);
    while p < order.len()
        invariant
            i < effects@.len(),
            p <= order@.len(),
            forall|k: int| 0 <= k < order@.len() ==> order@[k] < effects@.len(),
            li == layer_of(effects@[i as int].effect),
            ti == effects@[i as int].timestamp,
            insert_in_order(effects@, order@, i) == order@.take(p as int) + insert_in_order(
                effects@,
                order@.skip(p as int),
                i,
            ),
        decreases order@.len() - p,
    {
        let j = order[p];
        let lj = ongoing_effect_layer(&effects[j]);
        let tj = effects[j].timestamp;
        let before = li < lj || (li == lj && (ti < tj || (ti == tj && i < j)));
        assert(order@.skip(p as int)[0] == j);
        if before {
            return p;
        }
        assert(order@.skip(p as int).drop_first() =~= order@.skip(p + 1));
        assert(order@.take(p as int) + seq![j] =~= order@.take(p + 1));
        p += 1;
    }
    assert(order@.skip(p as int) =~= Seq::<usize>::empty());
    p
}

/// The positions of `effects` in the order the effects apply: by layer,
/// then by the time each began, then by position.
pub fn ordered_ongoing_effects(effects: &Vec<TimedOngoingEffect>) -> (order: Vec<usize>)
    ensures
        order@ == layered_order(effects@),
{
    let mut order: Vec<usize> = Vec::new();
    let mut i: usize = 0;
    while i < effects.len()
        invariant
            i <= effects@.len(),
            order@ == order_of_first(effects@, i as nat),
            forall|k: int| 0 <= k < order@.len() ==> order@[k] < i,
        decreases effects@.len() - i,
    {
        let p = insertion_point(effects, &order, i);
        let ghost old_order = order@;
        order.insert(p, i);
        proof {
            assert(order@ =~= old_order.take(p as int) + seq![i] + old_order.skip(p as int));
            assert forall|k: int| 0 <= k < order@.len() implies order@[k] < i + 1 by {
                if k < p {
                    assert(order@[k] == old_order[k]);
                } else if k > p {
                    assert(order@[k] == old_order[k - 1]);
                }
            }
        }
        i += 1;
    }
    order
}

/// Every position of `order` names an effect of `effects`, and each effect
/// applies before every one after it.
pub open spec fn in_layered_order(effects: Seq<TimedOngoingEffect>, order: Seq<usize>) -> bool {
    &&& forall|k: int| 0 <= k < order.len() ==> order[k] < effects.len()
    &&& forall|a: int, b: int|
        0 <= a < b < order.len() ==> applies_before(effects, #[trigger] order[a] as int, #[trigger] order[b] as int)
}

/// Putting a new position into an ordered list keeps it ordered and adds
/// just that position.
proof fn lemma_insert_in_order(effects: Seq<TimedOngoingEffect>, order: Seq<usize>, i: usize)
    requires
        i < effects.len(),
        !order.contains(i),
        order.no_duplicates(),
        in_layered_order(effects, order),
    ensures
        insert_in_order(effects, order, i).len() == order.len() + 1,
        forall|x: usize| #[trigger] insert_in_order(effects, order, i).contains(x) <==> (order.contains(x) || x == i),
        insert_in_order(effects, order, i).no_duplicates(),
        in_layered_order(effects, insert_in_order(effects, order, i)),
    decreases order.len(),
{
    let r = insert_in_order(effects, order, i);
    if order.len() == 0 {
        assert forall|x: usize| #[trigger] r.contains(x) <==> (order.contains(x) || x == i) by {
            if r.contains(x) {
                assert(r[0] == x);
            }
            if x == i {
                assert(r[0] == x);
            }
        }
    } else if applies_before(effects, i as int, order[0] as int) {
        assert(r =~= seq![i] + order);
        assert forall|x: usize| #[trigger] r.contains(x) <==> (order.contains(x) || x == i) by {
            if r.contains(x) && x != i {
                let k = choose|k: int| 0 <= k < r.len() && r[k] == x;
                assert(order[k - 1] == x);
            }
            if order.contains(x) {
                let k = choose|k: int| 0 <= k < order.len() && order[k] == x;
                assert(r[k + 1] == x);
            }
            if x == i {
                assert(r[0] == x);
            }
        }
        assert forall|a: int, b: int| 0 <= a < b < r.len() implies applies_before(
            effects,
            #[trigger] r[a] as int,
            #[trigger] r[b] as int,
        ) by {
            if a == 0 {
                assert(r[b] == order[b - 1]);
                if b - 1 > 0 {
                    assert(applies_before(effects, order[0] as int, order[b - 1] as int));
                }
            } else {
                assert(r[a] == order[a - 1] && r[b] == order[b - 1]);
            }
        }
        assert forall|a: int, b: int| 0 <= a < r.len() && 0 <= b < r.len() && a != b implies r[a] != r[b] by {
            if a == 0 {
                assert(order.contains(r[b]));
            } else if b == 0 {
                assert(order.contains(r[a]));
            } else {
                assert(r[a] == order[a - 1] && r[b] == order[b - 1]);
            }
        }
    } else {
        let rest = order.drop_first();
        assert(!rest.contains(i)) by {
            if rest.contains(i) {
                let k = choose|k: int| 0 <= k < rest.len() && rest[k] == i;
                assert(order[k + 1] == i);
            }
        }
        assert(in_layered_order(effects, rest)) by {
            assert forall|a: int, b: int| 0 <= a < b < rest.len() implies applies_before(
                effects,
                #[trigger] rest[a] as int,
                #[trigger] rest[b] as int,
            ) by {
                assert(rest[a] == order[a + 1] && rest[b] == order[b + 1]);
            }
        }
        lemma_insert_in_order(effects, rest, i);
        let t = insert_in_order(effects, rest, i);
        assert(r =~= seq![order[0]] + t);
        assert(order[0] != i) by {
            assert(order.contains(order[0]));
        }
        assert(applies_before(effects, order[0] as int, i as int));
        assert forall|x: usize| #[trigger] r.contains(x) <==> (order.contains(x) || x == i) by {
            if r.contains(x) && x != order[0] {
                let k = choose|k: int| 0 <= k < r.len() && r[k] == x;
                assert(t[k - 1] == x);
                assert(t.contains(x));
                if rest.contains(x) {
                    let m = choose|m: int| 0 <= m < rest.len() && rest[m] == x;
                    assert(order[m + 1] == x);
                }
            }
            if r.contains(x) && x == order[0] {
                assert(order[0] == x);
            }
            if order.contains(x) {
                let k = choose|k: int| 0 <= k < order.len() && order[k] == x;
                if k == 0 {
                    assert(r[0] == x);
                } else {
                    assert(rest[k - 1] == x);
                    assert(t.contains(x));
                    let m = choose|m: int| 0 <= m < t.len() && t[m] == x;
                    assert(r[m + 1] == x);
                }
            }
            if x == i {
                assert(t.contains(x));
                let m = choose|m: int| 0 <= m < t.len() && t[m] == x;
                assert(r[m + 1] == x);
            }
        }
        assert forall|a: int, b: int| 0 <= a < b < r.len() implies applies_before(
            effects,
            #[trigger] r[a] as int,
            #[trigger] r[b] as int,
        ) by {
            if a == 0 {
                assert(r[b] == t[b - 1]);
                assert(t.contains(t[b - 1]));
                if t[b - 1] != i {
                    assert(rest.contains(t[b - 1]));
                    let m = choose|m: int| 0 <= m < rest.len() && rest[m] == t[b - 1];
                    assert(order[m + 1] == t[b - 1]);
                    assert(applies_before(effects, order[0] as int, order[m + 1] as int));
                }
            } else {
                assert(r[a] == t[a - 1] && r[b] == t[b - 1]);
            }
        }
        assert forall|a: int, b: int| 0 <= a < r.len() && 0 <= b < r.len() && a != b implies r[a] != r[b] by {
            if a == 0 && b > 0 {
                assert(r[b] == t[b - 1]);
                assert(t.contains(t[b - 1]));
                if t[b - 1] != i {
                    let m = choose|m: int| 0 <= m < rest.len() && rest[m] == t[b - 1];
                    assert(order[m + 1] == t[b - 1]);
                }
            } else if b == 0 && a > 0 {
                assert(r[a] == t[a - 1]);
                assert(t.contains(t[a - 1]));
                if t[a - 1] != i {
                    let m = choose|m: int| 0 <= m < rest.len() && rest[m] == t[a - 1];
                    assert(order[m + 1] == t[a - 1]);
                }
            } else if a > 0 && b > 0 {
                assert(r[a] == t[a - 1] && r[b] == t[b - 1]);
            }
        }
    }
}

/// The positions `0..n` in the order they apply: each exactly once, each
/// applying before every one after it.
proof fn lemma_order_of_first(effects: Seq<TimedOngoingEffect>, n: nat)
    requires
        n <= effects.len() <= usize::MAX,
    ensures
        order_of_first(effects, n).len() == n,
        order_of_first(effects, n).no_duplicates(),
        forall|x: usize| #[trigger] order_of_first(effects, n).contains(x) <==> x < n,
        in_layered_order(effects, order_of_first(effects, n)),
    decreases n,
{
    if n > 0 {
        let m = (n - 1) as nat;
        lemma_order_of_first(effects, m);
        assert(m as usize == m);
        lemma_insert_in_order(effects, order_of_first(effects, m), m as usize);
    }
}

/// The ongoing effects apply in layer order: every effect takes its turn
/// exactly once, and an effect of a lower layer, or of the same layer that
/// began earlier, or began at the same time and was added first, goes
/// first.
pub proof fn effects_apply_in_layered_order(effects: Seq<TimedOngoingEffect>)
    requires
        effects.len() <= usize::MAX,
    ensures
        layered_order(effects).len() == effects.len(),
        layered_order(effects).no_duplicates(),
        forall|i: usize| #[trigger] layered_order(effects).contains(i) <==> i < effects.len(),
        forall|a: int, b: int|
            0 <= a < b < effects.len() ==> applies_before(
                effects,
                #[trigger] layered_order(effects)[a] as int,
                #[trigger] layered_order(effects)[b] as int,
            ),
{
    lemma_order_of_first(effects, effects.len());
}

/// Whether `e` switches off the effects of the cards it affects: it
/// disables or silences them, or strips them of their special abilities.
pub open spec fn switches_off(e: ContinuousEffect) -> bool {
    match e {
        ContinuousEffect::GrantStatus(s) => s is Disabled || s is Silenced,
        ContinuousEffect::RemoveAbilities(rm) => strips_special_abilities(rm),
        _ => false,
    }
}

/// Whether the source of `e`, if it has one, is not among `off`.
pub open spec fn source_on(e: TimedOngoingEffect, off: Seq<CardId>) -> bool {
    match e.source {
        Some(id) => !off.contains(id),
        None => true,
    }
}

/// The cards switched off by the first `k` effects of `order` that took
/// effect.
pub open spec fn switched_off(effects: Seq<TimedOngoingEffect>, order: Seq<usize>, k: nat) -> Seq<CardId>
    decreases k,
{
    if k == 0 {
        Seq::empty()
    } else {
        let prev = switched_off(effects, order, (k - 1) as nat);
        let e = effects[order[k - 1] as int];
        if source_on(e, prev) && switches_off(e.effect) {
            prev + e.affected@
        } else {
            prev
        }
    }
}

/// Whether the `k`-th effect of `order` takes effect: its source was not
/// switched off by an effect before it.
pub open spec fn takes_effect(effects: Seq<TimedOngoingEffect>, order: Seq<usize>, k: int) -> bool {
    source_on(effects[order[k] as int], switched_off(effects, order, k as nat))
}

/// What the effects among the first `k` of `order` that take effect add
/// up to, each adding `f` of itself and its position.
pub open spec fn collected<T>(
    effects: Seq<TimedOngoingEffect>,
    order: Seq<usize>,
    k: nat,
    f: spec_fn(TimedOngoingEffect, usize) -> Seq<T>,
) -> Seq<T>
    decreases k,
{
    if k == 0 {
        Seq::empty()
    } else {
        let prev = collected(effects, order, (k - 1) as nat, f);
        if takes_effect(effects, order, k - 1) {
            prev + f(effects[order[k - 1] as int], order[k - 1])
        } else {
            prev
        }
    }
}

/// What each effect that takes effect adds to the list of active effects:
/// its position.
pub open spec fn position_entry() -> spec_fn(TimedOngoingEffect, usize) -> Seq<usize> {
    |e: TimedOngoingEffect, pos: usize| seq![pos]
}

/// The positions of the effects that take effect, in the order they apply.
pub open spec fn active_positions(effects: Seq<TimedOngoingEffect>) -> Seq<usize> {
    collected(effects, layered_order(effects), effects.len(), position_entry())
}

/// Whether `id` is among `ids`.
fn holds_id(ids: &Vec<CardId>, id: &CardId) -> (r: bool)
    ensures
        r == ids@.contains(*id),
{
    let mut i: usize = 0;
    while i < ids.len()
        invariant
            i <= ids@.len(),
            forall|j: int| 0 <= j < i ==> ids@[j] != *id,
        decreases ids@.len() - i,
    {
        if same_id(&ids[i], id) {
            return true;
        }
        i += 1;
    }
    false
}

/// Whether the source of `e` is not among `off`.
fn source_is_on(e: &TimedOngoingEffect, off: &Vec<CardId>) -> (r: bool)
    ensures
        r == source_on(*e, off@),
{
    match &e.source {
        Some(id) => !holds_id(off, id),
        None => true,
    }
}

/// Whether `e` switches off the effects of the cards it affects.
fn is_switching_off(e: &TimedOngoingEffect) -> (r: bool)
    ensures
        r == switches_off(e.effect),
{
    match &e.effect {
        ContinuousEffect::GrantStatus(CardStatus::Disabled)
        | ContinuousEffect::GrantStatus(CardStatus::Silenced) => true,
        ContinuousEffect::RemoveAbilities(rm) => rm.removes_special_abilities(),
        _ => false,
    }
}

/// Appends the cards `e` affects to `off`.
fn add_affected(off: &mut Vec<CardId>, e: &TimedOngoingEffect)
    ensures
        final(off)@ == old(off)@ + e.affected@,
{
    let mut j: usize = 0;
    let ghost start = off@;
    while j < e.affected.len()
        invariant
            j <= e.affected@.len(),
            off@ == start + e.affected@.take(j as int),
        decreases e.affected@.len() - j,
    {
        off.push(e.affected[j]);
        assert(e.affected@.take(j + 1) =~= e.affected@.take(j as int).push(e.affected@[j as int]));
        j += 1;
    }
    assert(e.affected@.take(e.affected@.len() as int) =~= e.affected@);
}

/// The positions of the effects that take effect, in the order they apply:
/// those whose source has not been switched off by an effect applied
/// before them.
pub fn active_continuous_effects(effects: &Vec<TimedOngoingEffect>) -> (r: Vec<usize>)
    ensures
        r@ == active_positions(effects@),
{
    let order = ordered_ongoing_effects(effects);
    proof {
        assert(effects@.len() == effects.len());
        effects_apply_in_layered_order(effects@);
        assert forall|i: int| 0 <= i < order@.len() implies order@[i] < effects@.len() by {
            assert(order@.contains(order@[i]));
        }
    }
    let ghost f = position_entry();
    let mut r: Vec<usize> = Vec::new();
    let mut off: Vec<CardId> = Vec::new();
    let mut k: usize = 0;
    while k < order.len()
        invariant
            order@ == layered_order(effects@),
            order@.len() == effects@.len(),
            forall|i: int| 0 <= i < order@.len() ==> order@[i] < effects@.len(),
            k <= order@.len(),
            f == position_entry(),
            off@ == switched_off(effects@, order@, k as nat),
            r@ == collected(effects@, order@, k as nat, f),
        decreases order@.len() - k,
    {
        let e = &effects[order[k]];
        if source_is_on(e, &off) {
            r.push(order[k]);
            assert(f(*e, order@[k as int]) =~= seq![order@[k as int]]);
            assert(r@ =~= collected(effects@, order@, k as nat, f) + f(*e, order@[k as int]));
            if is_switching_off(e) {
                add_affected(&mut off, e);
            }
        }
        k += 1;
    }
    r
}

/// A temporary effect, as far as the ability index reads it.
#[derive(Debug, Clone)]
pub enum TemporaryKind {
    /// Grants a keyword ability until it expires.
    GrantAbility(Ability),
    /// Any other temporary effect.
    Other,
}

/// A temporary effect with the cards it affects.
#[derive(Debug, Clone)]
pub struct TemporaryEffect {
    pub kind: TemporaryKind,
    pub affected: Vec<CardId>,
}

/// The ability modifiers an effect hands out: one to each card it
/// affects.
pub open spec fn ability_entries() -> spec_fn(TimedOngoingEffect, usize) -> Seq<(CardId, ModifierView)> {
    |e: TimedOngoingEffect, pos: usize|
        match e.effect {
            ContinuousEffect::GrantAbility(a) => e.affected@.map_values(
                |c: CardId| (c, ModifierView::Grant(a)),
            ),
            ContinuousEffect::RemoveAbilities(rm) => e.affected@.map_values(
                |c: CardId| (c, ModifierView::Remove(rm@)),
            ),
            _ => Seq::empty(),
        }
}

/// The statuses an effect hands out.
pub open spec fn status_entries() -> spec_fn(TimedOngoingEffect, usize) -> Seq<(CardId, CardStatus)> {
    |e: TimedOngoingEffect, pos: usize|
        match e.effect {
            ContinuousEffect::GrantStatus(st) => e.affected@.map_values(|c: CardId| (c, st)),
            _ => Seq::empty(),
        }
}

/// The activated abilities an effect hands out, each named by the effect's
/// position.
pub open spec fn activated_entries() -> spec_fn(TimedOngoingEffect, usize) -> Seq<(CardId, usize)> {
    |e: TimedOngoingEffect, pos: usize|
        match e.effect {
            ContinuousEffect::GrantActivatedAbility => e.affected@.map_values(|c: CardId| (c, pos)),
            _ => Seq::empty(),
        }
}

/// The counters an effect hands out, each named by the effect's position.
pub open spec fn counter_entries() -> spec_fn(TimedOngoingEffect, usize) -> Seq<(CardId, usize)> {
    |e: TimedOngoingEffect, pos: usize|
        match e.effect {
            ContinuousEffect::GrantCounter => e.affected@.map_values(|c: CardId| (c, pos)),
            _ => Seq::empty(),
        }
}

/// The cards an effect takes the Flooded ability away from.
pub open spec fn flooded_entries() -> spec_fn(TimedOngoingEffect, usize) -> Seq<CardId> {
    |e: TimedOngoingEffect, pos: usize|
        match e.effect {
            ContinuousEffect::RemoveAbilities(rm) => if removal_removes(rm, Ability::Flooded) {
                e.affected@
            } else {
                Seq::empty()
            },
            _ => Seq::empty(),
        }
}

/// The ability modifiers the temporary effects `temps` hand out.
pub open spec fn temporary_entries(temps: Seq<TemporaryEffect>) -> Seq<(CardId, ModifierView)>
    decreases temps.len(),
{
    if temps.len() == 0 {
        Seq::empty()
    } else {
        let t = temps.last();
        temporary_entries(temps.drop_last()) + match t.kind {
            TemporaryKind::GrantAbility(a) => t.affected@.map_values(|c: CardId| (c, ModifierView::Grant(a))),
            TemporaryKind::Other => Seq::empty(),
        }
    }
}

/// The removal of the Flooded ability alone.
pub open spec fn flooded_removal() -> ModifierView {
    ModifierView::Remove(RemovalView::Exact(seq![Ability::Flooded]))
}

/// What the effects of `effects` that take effect hand out, each adding
/// `f` of itself and its position, in the order they apply.
pub open spec fn handed_out<T>(effects: Seq<TimedOngoingEffect>, f: spec_fn(TimedOngoingEffect, usize) -> Seq<T>) -> Seq<T> {
    collected(effects, layered_order(effects), effects.len(), f)
}

/// The ability modifiers of the realm, card by card in the order they were
/// made: those of the ongoing effects that take effect, in the order they
/// apply, then those of the temporary effects, then, for every card an
/// effect took the Flooded ability away from, one more removal of Flooded
/// alone, so that Flooded stays removed after any grant of it.
pub open spec fn area_ability_modifiers(effects: Seq<TimedOngoingEffect>, temps: Seq<TemporaryEffect>) -> Seq<(CardId, ModifierView)> {
    handed_out(effects, ability_entries()) + temporary_entries(temps) + handed_out(
        effects,
        flooded_entries(),
    ).map_values(|c: CardId| (c, flooded_removal()))
}

/// The views of a list of ability modifiers given to cards.
pub open spec fn modifiers_view(log: Seq<(CardId, AbilityModifier)>) -> Seq<(CardId, ModifierView)> {
    log.map_values(|p: (CardId, AbilityModifier)| (p.0, p.1@))
}

/// What the ongoing effects grant the cards of the realm through their
/// abilities: each list holds what was given to each card, in the order it
/// was given.
#[derive(Debug)]
pub struct AreaModifierIndex {
    pub ability_modifiers: Vec<(CardId, AbilityModifier)>,
    pub grants_statuses: Vec<(CardId, CardStatus)>,
    pub grants_activated_abilities: Vec<(CardId, usize)>,
    pub grants_counters: Vec<(CardId, usize)>,
}

/// Gives modifier `m` to each of `affected`.
fn push_modifiers(log: &mut Vec<(CardId, AbilityModifier)>, affected: &Vec<CardId>, m: &AbilityModifier)
    ensures
        modifiers_view(final(log)@) == modifiers_view(old(log)@) + affected@.map_values(
            |c: CardId| (c, m@),
        ),
{
    let ghost start = modifiers_view(log@);
    let mut j: usize = 0;
    while j < affected.len()
        invariant
            j <= affected@.len(),
            modifiers_view(log@) == start + affected@.take(j as int).map_values(|c: CardId| (c, m@)),
        decreases affected@.len() - j,
    {
        let ghost before = log@;
        log.push((affected[j], m.duplicate()));
        assert(modifiers_view(log@) =~= modifiers_view(before).push((affected@[j as int], m@)));
        assert(affected@.take(j + 1).map_values(|c: CardId| (c, m@)) =~= affected@.take(
            j as int,
        ).map_values(|c: CardId| (c, m@)).push((affected@[j as int], m@)));
        j += 1;
    }
    assert(affected@.take(affected@.len() as int) =~= affected@);
}

/// Gives status `st` to each of `affected`.
fn push_statuses(log: &mut Vec<(CardId, CardStatus)>, affected: &Vec<CardId>, st: CardStatus)
    ensures
        final(log)@ == old(log)@ + affected@.map_values(|c: CardId| (c, st)),
{
    let ghost start = log@;
    let mut j: usize = 0;
    while j < affected.len()
        invariant
            j <= affected@.len(),
            log@ == start + affected@.take(j as int).map_values(|c: CardId| (c, st)),
        decreases affected@.len() - j,
    {
        log.push((affected[j], st));
        assert(affected@.take(j + 1).map_values(|c: CardId| (c, st)) =~= affected@.take(
            j as int,
        ).map_values(|c: CardId| (c, st)).push((affected@[j as int], st)));
        j += 1;
    }
    assert(affected@.take(affected@.len() as int) =~= affected@);
}

/// Names position `pos` for each of `affected`.
fn push_positions(log: &mut Vec<(CardId, usize)>, affected: &Vec<CardId>, pos: usize)
    ensures
        final(log)@ == old(log)@ + affected@.map_values(|c: CardId| (c, pos)),
{
    let ghost start = log@;
    let mut j: usize = 0;
    while j < affected.len()
        invariant
            j <= affected@.len(),
            log@ == start + affected@.take(j as int).map_values(|c: CardId| (c, pos)),
        decreases affected@.len() - j,
    {
        log.push((affected[j], pos));
        assert(affected@.take(j + 1).map_values(|c: CardId| (c, pos)) =~= affected@.take(
            j as int,
        ).map_values(|c: CardId| (c, pos)).push((affected@[j as int], pos)));
        j += 1;
    }
    assert(affected@.take(affected@.len() as int) =~= affected@);
}

impl AreaModifierIndex {
    /// Collects what the ongoing effects that take effect, in the order
    /// they apply, and the temporary effects `temps` give each card.
    pub fn build(effects: &Vec<TimedOngoingEffect>, temps: &Vec<TemporaryEffect>) -> (index: Self)
        ensures
            modifiers_view(index.ability_modifiers@) == area_ability_modifiers(effects@, temps@),
            index.grants_statuses@ == handed_out(effects@, status_entries()),
            index.grants_activated_abilities@ == handed_out(effects@, activated_entries()),
            index.grants_counters@ == handed_out(effects@, counter_entries()),
    {
        let mut index = AreaModifierIndex {
            ability_modifiers: Vec::new(),
            grants_statuses: Vec::new(),
            grants_activated_abilities: Vec::new(),
            grants_counters: Vec::new(),
        };
        let mut off: Vec<CardId> = Vec::new();
        let mut flooded: Vec<CardId> = Vec::new();
        let order = ordered_ongoing_effects(effects);
        proof {
            assert(effects@.len() == effects.len());
            effects_apply_in_layered_order(effects@);
            assert forall|i: int| 0 <= i < order@.len() implies order@[i] < effects@.len() by {
                assert(order@.contains(order@[i]));
            }
            assert(modifiers_view(index.ability_modifiers@) =~= Seq::empty());
        }
        let ghost fa = ability_entries();
        let ghost fs = status_entries();
        let ghost fg = activated_entries();
        let ghost fc = counter_entries();
        let ghost ff = flooded_entries();
        let mut k: usize = 0;
        while k < order.len()
            invariant
                order@ == layered_order(effects@),
                order@.len() == effects@.len(),
                forall|i: int| 0 <= i < order@.len() ==> order@[i] < effects@.len(),
                k <= order@.len(),
                fa == ability_entries(),
                fs == status_entries(),
                fg == activated_entries(),
                fc == counter_entries(),
                ff == flooded_entries(),
                off@ == switched_off(effects@, order@, k as nat),
                modifiers_view(index.ability_modifiers@) == collected(effects@, order@, k as nat, fa),
                index.grants_statuses@ == collected(effects@, order@, k as nat, fs),
                index.grants_activated_abilities@ == collected(effects@, order@, k as nat, fg),
                index.grants_counters@ == collected(effects@, order@, k as nat, fc),
                flooded@ == collected(effects@, order@, k as nat, ff),
            decreases order@.len() - k,
        {
            let pos = order[k];
            let e = &effects[pos];
            if source_is_on(e, &off) {
                let ghost ka = modifiers_view(index.ability_modifiers@);
                let ghost ks = index.grants_statuses@;
                let ghost kg = index.grants_activated_abilities@;
                let ghost kc = index.grants_counters@;
                let ghost kf = flooded@;
                match &e.effect {
                    ContinuousEffect::GrantAbility(a) => {
                        let m = AbilityModifier::Grant(*a);
                        push_modifiers(&mut index.ability_modifiers, &e.affected, &m);
                    },
                    ContinuousEffect::GrantStatus(st) => {
                        push_statuses(&mut index.grants_statuses, &e.affected, *st);
                    },
                    ContinuousEffect::RemoveAbilities(rm) => {
                        if rm.removes(&Ability::Flooded) {
                            add_affected(&mut flooded, e);
                        }
                        let m = AbilityModifier::Remove(rm.duplicate());
                        push_modifiers(&mut index.ability_modifiers, &e.affected, &m);
                    },
                    ContinuousEffect::GrantActivatedAbility => {
                        push_positions(&mut index.grants_activated_abilities, &e.affected, pos);
                    },
                    ContinuousEffect::GrantCounter => {
                        push_positions(&mut index.grants_counters, &e.affected, pos);
                    },
                    _ => {},
                }
                proof {
                    assert(modifiers_view(index.ability_modifiers@) =~= ka + fa(*e, pos));
                    assert(index.grants_statuses@ =~= ks + fs(*e, pos));
                    assert(index.grants_activated_abilities@ =~= kg + fg(*e, pos));
                    assert(index.grants_counters@ =~= kc + fc(*e, pos));
                    assert(flooded@ =~= kf + ff(*e, pos));
                }
                if is_switching_off(e) {
                    add_affected(&mut off, e);
                }
            }
            k += 1;
        }
        let ghost after_effects = modifiers_view(index.ability_modifiers@);
        let mut t: usize = 0;
        while t < temps.len()
            invariant
                t <= temps@.len(),
                index.grants_statuses@ == handed_out(effects@, status_entries()),
                index.grants_activated_abilities@ == handed_out(effects@, activated_entries()),
                index.grants_counters@ == handed_out(effects@, counter_entries()),
                flooded@ == handed_out(effects@, flooded_entries()),
                after_effects == handed_out(effects@, ability_entries()),
                modifiers_view(index.ability_modifiers@) == after_effects + temporary_entries(
                    temps@.take(t as int),
                ),
            decreases temps@.len() - t,
        {
            let ghost before = modifiers_view(index.ability_modifiers@);
            assert(temps@.take(t + 1).drop_last() =~= temps@.take(t as int));
            match &temps[t].kind {
                TemporaryKind::GrantAbility(a) => {
                    let m = AbilityModifier::Grant(*a);
                    push_modifiers(&mut index.ability_modifiers, &temps[t].affected, &m);
                },
                TemporaryKind::Other => {},
            }
            assert(modifiers_view(index.ability_modifiers@) =~= after_effects + temporary_entries(
                temps@.take(t + 1),
            ));
            t += 1;
        }
        assert(temps@.take(temps@.len() as int) =~= temps@);
        let removal = AbilityModifier::Remove(AbilityRemoval::exact(Ability::Flooded));
        assert(removal@ == flooded_removal());
        push_modifiers(&mut index.ability_modifiers, &flooded, &removal);
        index
    }
}

/// The change of power each of the cards an effect affects receives from
/// it: `power_diff`, or `power_per_card` times the number of matching cards
/// where that is not zero.
pub open spec fn power_entries() -> spec_fn(TimedOngoingEffect, usize) -> Seq<(CardId, i16)> {
    |e: TimedOngoingEffect, pos: usize|
        match e.effect {
            ContinuousEffect::ModifyPower { power_diff } => e.affected@.map_values(
                |c: CardId| (c, power_diff),
            ),
            ContinuousEffect::ModifyPowerForEach { power_per_card, matching_count } => if power_per_card
                * matching_count != 0 {
                e.affected@.map_values(|c: CardId| (c, (power_per_card * matching_count) as i16))
            } else {
                Seq::empty()
            },
            _ => Seq::empty(),
        }
}

/// Whether the power an effect hands out fits in an `i16`.
pub open spec fn product_fits(e: ContinuousEffect) -> bool {
    match e {
        ContinuousEffect::ModifyPowerForEach { power_per_card, matching_count } => i16::MIN
            <= power_per_card * matching_count <= i16::MAX,
        _ => true,
    }
}

/// Whether every effect that takes effect hands out a power that fits in
/// an `i16`.
pub open spec fn products_fit(effects: Seq<TimedOngoingEffect>) -> bool {
    forall|k: int|
        0 <= k < effects.len() && takes_effect(effects, layered_order(effects), k) ==> product_fits(
            #[trigger] effects[layered_order(effects)[k] as int].effect,
        )
}

/// What the ongoing effects that take effect give each card directly:
/// each list holds what was given to each card, in the order it was given.
#[derive(Debug)]
pub struct OngoingEffectIndex {
    pub grants_statuses: Vec<(CardId, CardStatus)>,
    pub grants_activated_abilities: Vec<(CardId, usize)>,
    pub power_diffs: Vec<(CardId, i16)>,
}

/// Gives the change of power `d` to each of `affected`.
fn push_powers(log: &mut Vec<(CardId, i16)>, affected: &Vec<CardId>, d: i16)
    ensures
        final(log)@ == old(log)@ + affected@.map_values(|c: CardId| (c, d)),
{
    let ghost start = log@;
    let mut j: usize = 0;
    while j < affected.len()
        invariant
            j <= affected@.len(),
            log@ == start + affected@.take(j as int).map_values(|c: CardId| (c, d)),
        decreases affected@.len() - j,
    {
        log.push((affected[j], d));
        assert(affected@.take(j + 1).map_values(|c: CardId| (c, d)) =~= affected@.take(
            j as int,
        ).map_values(|c: CardId| (c, d)).push((affected@[j as int], d)));
        j += 1;
    }
    assert(affected@.take(affected@.len() as int) =~= affected@);
}

impl OngoingEffectIndex {
    /// Collects what the ongoing effects that take effect, in the order
    /// they apply, give each card.
    pub fn build(effects: &Vec<TimedOngoingEffect>) -> (index: Self)
        requires
            products_fit(effects@),
        ensures
            index.grants_statuses@ == handed_out(effects@, status_entries()),
            index.grants_activated_abilities@ == handed_out(effects@, activated_entries()),
            index.power_diffs@ == handed_out(effects@, power_entries()),
    {
        let mut index = OngoingEffectIndex {
            grants_statuses: Vec::new(),
            grants_activated_abilities: Vec::new(),
            power_diffs: Vec::new(),
        };
        let mut off: Vec<CardId> = Vec::new();
        let order = ordered_ongoing_effects(effects);
        proof {
            assert(effects@.len() == effects.len());
            effects_apply_in_layered_order(effects@);
            assert forall|i: int| 0 <= i < order@.len() implies order@[i] < effects@.len() by {
                assert(order@.contains(order@[i]));
            }
        }
        let ghost fs = status_entries();
        let ghost fg = activated_entries();
        let ghost fp = power_entries();
        let mut k: usize = 0;
        while k < order.len()
            invariant
                order@ == layered_order(effects@),
                order@.len() == effects@.len(),
                forall|i: int| 0 <= i < order@.len() ==> order@[i] < effects@.len(),
                products_fit(effects@),
                k <= order@.len(),
                fs == status_entries(),
                fg == activated_entries(),
                fp == power_entries(),
                off@ == switched_off(effects@, order@, k as nat),
                index.grants_statuses@ == collected(effects@, order@, k as nat, fs),
                index.grants_activated_abilities@ == collected(effects@, order@, k as nat, fg),
                index.power_diffs@ == collected(effects@, order@, k as nat, fp),
            decreases order@.len() - k,
        {
            let pos = order[k];
            let e = &effects[pos];
            if source_is_on(e, &off) {
                let ghost ks = index.grants_statuses@;
                let ghost kg = index.grants_activated_abilities@;
                let ghost kp = index.power_diffs@;
                assert(product_fits(effects@[layered_order(effects@)[k as int] as int].effect));
                match &e.effect {
                    ContinuousEffect::GrantStatus(st) => {
                        push_statuses(&mut index.grants_statuses, &e.affected, *st);
                    },
                    ContinuousEffect::ModifyPower { power_diff } => {
                        push_powers(&mut index.power_diffs, &e.affected, *power_diff);
                    },
                    ContinuousEffect::ModifyPowerForEach { power_per_card, matching_count } => {
                        let d = *power_per_card * *matching_count;
                        if d != 0 {
                            push_powers(&mut index.power_diffs, &e.affected, d);
                        }
                    },
                    ContinuousEffect::GrantActivatedAbility => {
                        push_positions(&mut index.grants_activated_abilities, &e.affected, pos);
                    },
                    _ => {},
                }
                proof {
                    assert(index.grants_statuses@ =~= ks + fs(*e, pos));
                    assert(index.grants_activated_abilities@ =~= kg + fg(*e, pos));
                    assert(index.power_diffs@ =~= kp + fp(*e, pos));
                }
                if is_switching_off(e) {
                    add_affected(&mut off, e);
                }
            }
            k += 1;
        }
        index
    }
}

/// What the list `log` gives the card `id`, in order.
pub open spec fn entries_for<T>(log: Seq<(CardId, T)>, id: CardId) -> Seq<T>
    decreases log.len(),
{
    if log.len() == 0 {
        Seq::empty()
    } else {
        let rest = entries_for(log.drop_last(), id);
        if log.last().0 == id {
            rest.push(log.last().1)
        } else {
            rest
        }
    }
}

/// The total change of power that `log` gives the card `id`.
pub open spec fn power_total(log: Seq<(CardId, i16)>, id: CardId) -> int
    decreases log.len(),
{
    if log.len() == 0 {
        0
    } else {
        power_total(log.drop_last(), id) + if log.last().0 == id {
            log.last().1 as int
        } else {
            0
        }
    }
}

/// Whether every running total of the changes of power that `log` gives
/// the card `id` fits in an `i16`.
pub open spec fn power_totals_fit(log: Seq<(CardId, i16)>, id: CardId) -> bool {
    forall|j: int| 0 <= j <= log.len() ==> i16::MIN <= #[trigger] power_total(log.take(j), id) <= i16::MAX
}

/// The positions that `log` names for the card `id`.
fn positions_for(log: &Vec<(CardId, usize)>, id: &CardId) -> (r: Vec<usize>)
    ensures
        r@ == entries_for(log@, *id),
{
    let mut r: Vec<usize> = Vec::new();
    let mut i: usize = 0;
    while i < log.len()
        invariant
            i <= log@.len(),
            r@ == entries_for(log@.take(i as int), *id),
        decreases log@.len() - i,
    {
        assert(log@.take(i + 1).drop_last() =~= log@.take(i as int));
        if same_id(&log[i].0, id) {
            r.push(log[i].1);
        }
        i += 1;
    }
    assert(log@.take(log@.len() as int) =~= log@);
    r
}

/// The statuses that `log` gives the card `id`.
fn statuses_for(log: &Vec<(CardId, CardStatus)>, id: &CardId) -> (r: Vec<CardStatus>)
    ensures
        r@ == entries_for(log@, *id),
{
    let mut r: Vec<CardStatus> = Vec::new();
    let mut i: usize = 0;
    while i < log.len()
        invariant
            i <= log@.len(),
            r@ == entries_for(log@.take(i as int), *id),
        decreases log@.len() - i,
    {
        assert(log@.take(i + 1).drop_last() =~= log@.take(i as int));
        if same_id(&log[i].0, id) {
            r.push(log[i].1);
        }
        i += 1;
    }
    assert(log@.take(log@.len() as int) =~= log@);
    r
}

/// The views of a list of ability modifiers.
pub open spec fn modifier_views(v: Seq<AbilityModifier>) -> Seq<ModifierView> {
    v.map_values(|m: AbilityModifier| m@)
}

impl AreaModifierIndex {
    /// The ability modifiers given to the card `card_id`, in order.
    pub fn ability_modifiers_from_area_modifiers(&self, card_id: &CardId) -> (r: Vec<AbilityModifier>)
        ensures
            modifier_views(r@) == entries_for(modifiers_view(self.ability_modifiers@), *card_id),
    {
        let log = &self.ability_modifiers;
        let mut r: Vec<AbilityModifier> = Vec::new();
        let mut i: usize = 0;
        while i < log.len()
            invariant
                i <= log@.len(),
                modifier_views(r@) == entries_for(modifiers_view(log@.take(i as int)), *card_id),
            decreases log@.len() - i,
        {
            assert(modifiers_view(log@.take(i + 1)).drop_last() =~= modifiers_view(log@.take(i as int)));
            let ghost before = r@;
            if same_id(&log[i].0, card_id) {
                r.push(log[i].1.duplicate());
                assert(modifier_views(r@) =~= modifier_views(before).push(log@[i as int].1@));
            }
            i += 1;
        }
        assert(log@.take(log@.len() as int) =~= log@);
        r
    }

    /// The positions of the effects that give the card `card_id` a counter.
    pub fn counters_from_area_modifiers(&self, card_id: &CardId) -> (r: Vec<usize>)
        ensures
            r@ == entries_for(self.grants_counters@, *card_id),
    {
        positions_for(&self.grants_counters, card_id)
    }

    /// The positions of the effects that give the card `card_id` an
    /// activated ability.
    pub fn activated_abilities_from_area_modifiers(&self, card_id: &CardId) -> (r: Vec<usize>)
        ensures
            r@ == entries_for(self.grants_activated_abilities@, *card_id),
    {
        positions_for(&self.grants_activated_abilities, card_id)
    }
}

impl OngoingEffectIndex {
    /// The statuses given to the card `card_id`, in order.
    pub fn granted_statuses_from_continuous_effects(&self, card_id: &CardId) -> (r: Vec<CardStatus>)
        ensures
            r@ == entries_for(self.grants_statuses@, *card_id),
    {
        statuses_for(&self.grants_statuses, card_id)
    }

    /// The positions of the effects that give the card `card_id` an
    /// activated ability.
    pub fn activated_abilities_from_continuous_effects(&self, card_id: &CardId) -> (r: Vec<usize>)
        ensures
            r@ == entries_for(self.grants_activated_abilities@, *card_id),
    {
        positions_for(&self.grants_activated_abilities, card_id)
    }

    /// The total change of power given to the card `card_id`.
    pub fn power_diff_from_continuous_effects(&self, card_id: &CardId) -> (r: i16)
        requires
            power_totals_fit(self.power_diffs@, *card_id),
        ensures
            r == power_total(self.power_diffs@, *card_id),
    {
        let log = &self.power_diffs;
        let mut total: i16 = 0;
        let mut i: usize = 0;
        while i < log.len()
            invariant
                i <= log@.len(),
                power_totals_fit(log@, *card_id),
                total == power_total(log@.take(i as int), *card_id),
            decreases log@.len() - i,
        {
            assert(log@.take(i + 1).drop_last() =~= log@.take(i as int));
            assert(i16::MIN <= power_total(log@.take(i + 1), *card_id) <= i16::MAX);
            if same_id(&log[i].0, card_id) {
                total = total + log[i].1;
            }
            i += 1;
        }
        assert(log@.take(log@.len() as int) =~= log@);
        total
    }
}

/// The cards switched off only grow as more effects apply.
proof fn lemma_switched_off_grows(effects: Seq<TimedOngoingEffect>, order: Seq<usize>, a: nat, b: nat, c: CardId)
    requires
        a <= b,
        switched_off(effects, order, a).contains(c),
    ensures
        switched_off(effects, order, b).contains(c),
    decreases b - a,
{
    if a < b {
        lemma_switched_off_grows(effects, order, a, (b - 1) as nat, c);
        let prev = switched_off(effects, order, (b - 1) as nat);
        let k = choose|k: int| 0 <= k < prev.len() && prev[k] == c;
        let e = effects[order[b - 1] as int];
        if source_on(e, prev) && switches_off(e.effect) {
            assert((prev + e.affected@)[k] == c);
        }
    }
}

/// A card that an effect disables, silences or strips of its special
/// abilities is the source of no effect that applies after it: once
/// switched off, a source stays off for the rest of the layering.
pub proof fn switched_off_sources_stay_off(effects: Seq<TimedOngoingEffect>, j: int, k: int, c: CardId)
    requires
        0 <= j < k < effects.len() <= usize::MAX,
        takes_effect(effects, layered_order(effects), j),
        switches_off(effects[layered_order(effects)[j] as int].effect),
        effects[layered_order(effects)[j] as int].affected@.contains(c),
        effects[layered_order(effects)[k] as int].source == Some(c),
    ensures
        !takes_effect(effects, layered_order(effects), k),
{
    let order = layered_order(effects);
    let e = effects[order[j] as int];
    let prev = switched_off(effects, order, j as nat);
    assert(switched_off(effects, order, (j + 1) as nat) == prev + e.affected@);
    let m = choose|m: int| 0 <= m < e.affected@.len() && e.affected@[m] == c;
    assert((prev + e.affected@)[prev.len() + m] == c);
    lemma_switched_off_grows(effects, order, (j + 1) as nat, k as nat, c);
}

/// What the effects at `positions` hand out, each adding `f` of itself and
/// its position, in that order.
pub open spec fn gathered<T>(
    effects: Seq<TimedOngoingEffect>,
    positions: Seq<usize>,
    f: spec_fn(TimedOngoingEffect, usize) -> Seq<T>,
) -> Seq<T>
    decreases positions.len(),
{
    if positions.len() == 0 {
        Seq::empty()
    } else {
        gathered(effects, positions.drop_last(), f) + f(effects[positions.last() as int], positions.last())
    }
}

/// Step by step, what the effects that take effect hand out is what the
/// effects listed as taking effect hand out.
proof fn lemma_collected_gathered<T>(
    effects: Seq<TimedOngoingEffect>,
    order: Seq<usize>,
    k: nat,
    f: spec_fn(TimedOngoingEffect, usize) -> Seq<T>,
)
    ensures
        collected(effects, order, k, f) == gathered(effects, collected(effects, order, k, position_entry()), f),
    decreases k,
{
    if k > 0 {
        lemma_collected_gathered(effects, order, (k - 1) as nat, f);
        let prev = collected(effects, order, (k - 1) as nat, position_entry());
        if takes_effect(effects, order, k - 1) {
            let now = collected(effects, order, k, position_entry());
            assert(position_entry()(effects[order[k - 1] as int], order[k - 1]) =~= seq![order[k - 1]]);
            assert(now =~= prev + seq![order[k - 1]]);
            assert(now.drop_last() =~= prev);
        }
    }
}

/// The indexes hold exactly what the effects listed by
/// `active_continuous_effects` hand out, taken in that order: the three
/// agree on which effects take part.
pub proof fn indexes_follow_the_active_effects<T>(
    effects: Seq<TimedOngoingEffect>,
    f: spec_fn(TimedOngoingEffect, usize) -> Seq<T>,
)
    ensures
        handed_out(effects, f) == gathered(effects, active_positions(effects), f),
{
    lemma_collected_gathered(effects, layered_order(effects), effects.len(), f);
}

/// What a list of gifts gives a card is what its two halves give it.
proof fn lemma_entries_for_concat<T>(x: Seq<(CardId, T)>, y: Seq<(CardId, T)>, id: CardId)
    ensures
        entries_for(x + y, id) == entries_for(x, id) + entries_for(y, id),
    decreases y.len(),
{
    if y.len() == 0 {
        assert(x + y =~= x);
    } else {
        lemma_entries_for_concat(x, y.drop_last(), id);
        assert((x + y).drop_last() =~= x + y.drop_last());
    }
}

/// A list that gives `m` to each of `cards` gives a card among them only
/// `m`, at least once.
proof fn lemma_entries_for_uniform<T>(cards: Seq<CardId>, m: T, id: CardId)
    requires
        cards.contains(id),
    ensures
        entries_for(cards.map_values(|c: CardId| (c, m)), id).len() > 0,
        entries_for(cards.map_values(|c: CardId| (c, m)), id).last() == m,
    decreases cards.len(),
{
    let log = cards.map_values(|c: CardId| (c, m));
    assert(log.drop_last() =~= cards.drop_last().map_values(|c: CardId| (c, m)));
    if cards.last() != id {
        let k = choose|k: int| 0 <= k < cards.len() && cards[k] == id;
        assert(cards.drop_last()[k] == id);
        lemma_entries_for_uniform(cards.drop_last(), m, id);
    }
}

/// What one effect that takes effect hands out is part of what all of
/// them hand out.
proof fn lemma_collected_has<T>(
    effects: Seq<TimedOngoingEffect>,
    order: Seq<usize>,
    n: nat,
    k: int,
    f: spec_fn(TimedOngoingEffect, usize) -> Seq<T>,
    x: T,
)
    requires
        0 <= k < n,
        takes_effect(effects, order, k),
        f(effects[order[k] as int], order[k]).contains(x),
    ensures
        collected(effects, order, n, f).contains(x),
    decreases n,
{
    let prev = collected(effects, order, (n - 1) as nat, f);
    if k == n - 1 {
        let add = f(effects[order[k] as int], order[k]);
        let m = choose|m: int| 0 <= m < add.len() && add[m] == x;
        assert((prev + add)[prev.len() + m] == x);
    } else {
        lemma_collected_has(effects, order, (n - 1) as nat, k, f, x);
        let m = choose|m: int| 0 <= m < prev.len() && prev[m] == x;
        if takes_effect(effects, order, n - 1) {
            assert((prev + f(effects[order[n - 1] as int], order[n - 1]))[m] == x);
        }
    }
}

/// Flooded stays removed: a card that an effect taking effect strips of
/// the Flooded ability ends its list of ability modifiers with a removal of
/// Flooded, after every grant of it, temporary ones included.
pub proof fn removed_flooding_stays_removed(
    effects: Seq<TimedOngoingEffect>,
    temps: Seq<TemporaryEffect>,
    k: int,
    c: CardId,
)
    requires
        0 <= k < effects.len(),
        takes_effect(effects, layered_order(effects), k),
        effects[layered_order(effects)[k] as int].effect matches ContinuousEffect::RemoveAbilities(rm)
            && removal_removes(rm, Ability::Flooded),
        effects[layered_order(effects)[k] as int].affected@.contains(c),
    ensures
        entries_for(area_ability_modifiers(effects, temps), c).len() > 0,
        entries_for(area_ability_modifiers(effects, temps), c).last() == flooded_removal(),
{
    let order = layered_order(effects);
    let e = effects[order[k] as int];
    assert(flooded_entries()(e, order[k]) == e.affected@);
    lemma_collected_has(effects, order, effects.len(), k, flooded_entries(), c);
    let fl = handed_out(effects, flooded_entries());
    let a = handed_out(effects, ability_entries());
    let t = temporary_entries(temps);
    lemma_entries_for_concat(a + t, fl.map_values(|x: CardId| (x, flooded_removal())), c);
    lemma_entries_for_uniform(fl, flooded_removal(), c);
}

} // verus!
