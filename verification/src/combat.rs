//! Fights and strikes: which cards take what damage, in which order, when
//! units fight, and which cards move to the fight first.
//!
//! What only the cards' own rules tell (a unit's power, whether it has
//! first strike, whether it strikes back, whether it stands where the fight
//! is, whether it is still alive once the first strikes are dealt) comes in
//! as plain values of each fighter. The effects come out in the order the
//! game queues them.

use crate::actions::copy_ids;
use crate::card_query::{card_matches, id_filters_hold, id_filters_ok, query_matches, unless_none, CardModel, CardQueryModel};
use crate::effect::FightContext;
use crate::ids::{same_id, CardId, PlayerId};
use crate::zone::{Zone, ZoneView};
use vstd::prelude::*;

verus! {

/// How much damage a card takes, and why.
#[derive(Debug, Clone, Copy, PartialEq, Eq)]
pub enum DamageModel {
    /// A strike of a unit.
    Strike { amount: u16 },
    /// A blow in a fight.
    Fight { amount: u16, context: FightContext },
}

/// An effect of a fight or a strike.
#[derive(Debug, Clone)]
pub enum CombatEffect {
    /// The card takes damage from the card `from`.
    TakeDamage { card_id: CardId, from: CardId, damage: DamageModel },
    /// The card moves to the fight, and is tapped.
    MoveCard { player_id: PlayerId, card_id: CardId, from: Zone, to: Zone },
    /// The card, already where the fight is, is tapped.
    Tap { card_id: CardId },
}

/// The mathematical value of a `CombatEffect`.
pub enum CombatEffectView {
    TakeDamage { card_id: CardId, from: CardId, damage: DamageModel },
    MoveCard { player_id: PlayerId, card_id: CardId, from: ZoneView, to: ZoneView },
    Tap { card_id: CardId },
}

impl View for CombatEffect {
    type V = CombatEffectView;

    open spec fn view(&self) -> CombatEffectView {
        match self {
            CombatEffect::TakeDamage { card_id, from, damage } => CombatEffectView::TakeDamage {
                card_id: *card_id,
                from: *from,
                damage: *damage,
            },
            CombatEffect::MoveCard { player_id, card_id, from, to } => CombatEffectView::MoveCard {
                player_id: *player_id,
                card_id: *card_id,
                from: from@,
                to: to@,
            },
            CombatEffect::Tap { card_id } => CombatEffectView::Tap { card_id: *card_id },
        }
    }
}

/// The values of the effects `s`.
pub open spec fn combat_view(s: Seq<CombatEffect>) -> Seq<CombatEffectView> {
    s.map_values(|e: CombatEffect| e@)
}

/// What a fight reads of a card that takes part in it.
#[derive(Debug, Clone)]
pub struct Fighter {
    pub id: CardId,
    pub controller_id: PlayerId,
    pub zone: Zone,
    /// Whether the card already stands where the fight is.
    pub in_fight_zone: bool,
    /// The card's power, if it has one.
    pub power: Option<u16>,
    pub first_strike: bool,
    /// Whether the card strikes back when it is attacked.
    pub strikes_back: bool,
    /// Whether the card is still alive once the first strikes of the fight
    /// are dealt.
    pub survives_first_strikes: bool,
}

/// Why a fight or a strike could not be resolved.
#[derive(Debug, Clone, Copy, PartialEq, Eq)]
pub enum CombatError {
    /// A card that has to strike has no power.
    NoPower,
}

/// The damage of `amount` dealt in a fight for reason `context`.
pub open spec fn blow(amount: u16, context: FightContext) -> DamageModel {
    DamageModel::Fight { amount, context }
}

/// Card `to` taking a blow of power `amount` from card `from`.
pub open spec fn hit(to: CardId, from: CardId, amount: u16, context: FightContext) -> CombatEffectView {
    CombatEffectView::TakeDamage { card_id: to, from, damage: blow(amount, context) }
}

/// Card `f` moving to zone `to` for the fight, unless it stands there.
pub open spec fn move_in(f: Fighter, to: ZoneView) -> Seq<CombatEffectView> {
    if f.in_fight_zone {
        Seq::empty()
    } else {
        seq![CombatEffectView::MoveCard { player_id: f.controller_id, card_id: f.id, from: f.zone@, to }]
    }
}

/// Whether the fight of `attacker` against `defender` alone fails for want
/// of power: a card that has to strike has none.
pub open spec fn duel_fails(attacker: Fighter, defender: Fighter) -> bool {
    if attacker.first_strike != defender.first_strike {
        let (first, second) = if attacker.first_strike {
            (attacker, defender)
        } else {
            (defender, attacker)
        };
        first.power is None || (second.survives_first_strikes && second.strikes_back && second.power is None)
    } else {
        attacker.power is None || (defender.strikes_back && defender.power is None)
    }
}

/// The effects of the fight of `attacker` against `defender` alone, in the
/// order they are built: the attacker moves to the defender's zone unless
/// it stands there; a card with first strike against one without strikes
/// first, and the other strikes back only if it survives; otherwise both
/// strike at once, the defender only if it strikes back.
pub open spec fn duel_built(attacker: Fighter, defender: Fighter, context: FightContext) -> Seq<CombatEffectView> {
    let approach = move_in(attacker, defender.zone@);
    if attacker.first_strike != defender.first_strike {
        let (first, second) = if attacker.first_strike {
            (attacker, defender)
        } else {
            (defender, attacker)
        };
        approach + seq![hit(second.id, first.id, first.power->0, context)] + if second.survives_first_strikes
            && second.strikes_back {
            seq![hit(first.id, second.id, second.power->0, context)]
        } else {
            Seq::empty()
        }
    } else {
        approach + seq![hit(defender.id, attacker.id, attacker.power->0, context)] + if defender.strikes_back {
            seq![hit(attacker.id, defender.id, defender.power->0, context)]
        } else {
            Seq::empty()
        }
    }
}

/// The effects of the fight of `attacker` against `defender` alone, in the
/// order the game queues them (the reverse of the order they are built).
/// `defender.survives_first_strikes` and `attacker.survives_first_strikes`
/// say whether the card struck first survives, where one of them strikes
/// first.
pub fn duel_effects(attacker: &Fighter, defender: &Fighter, context: FightContext) -> (r: Result<
    Vec<CombatEffect>,
    CombatError,
>)
    ensures
        r is Err <==> duel_fails(*attacker, *defender),
        r matches Ok(v) ==> combat_view(v@) == duel_built(*attacker, *defender, context).reverse(),
        r matches Ok(v) ==> (attacker.id != defender.id ==> (exists|k: int|
            0 <= k < v@.len() && #[trigger] dealt_by(v@[k]@, struck_first(*attacker, *defender).id)) == (
        struck_first(*attacker, *defender).strikes_back && (attacker.first_strike != defender.first_strike
            ==> struck_first(*attacker, *defender).survives_first_strikes))),
{
    let mut v: Vec<CombatEffect> = Vec::new();
    if !attacker.in_fight_zone {
        v.push(
            CombatEffect::MoveCard {
                player_id: attacker.controller_id,
                card_id: attacker.id,
                from: attacker.zone.duplicate(),
                to: defender.zone.duplicate(),
            },
        );
    }
    assert(combat_view(v@) =~= move_in(*attacker, defender.zone@));
    if attacker.first_strike != defender.first_strike {
        let (first, second) = if attacker.first_strike {
            (attacker, defender)
        } else {
            (defender, attacker)
        };
        let p = match first.power {
            Some(p) => p,
            None => {
                return Err(CombatError::NoPower);
            },
        };
        v.push(
            CombatEffect::TakeDamage {
                card_id: second.id,
                from: first.id,
                damage: DamageModel::Fight { amount: p, context },
            },
        );
        if second.survives_first_strikes && second.strikes_back {
            let q = match second.power {
                Some(q) => q,
                None => {
                    return Err(CombatError::NoPower);
                },
            };
            v.push(
                CombatEffect::TakeDamage {
                    card_id: first.id,
                    from: second.id,
                    damage: DamageModel::Fight { amount: q, context },
                },
            );
        }
    } else {
        let p = match attacker.power {
            Some(p) => p,
            None => {
                return Err(CombatError::NoPower);
            },
        };
        v.push(
            CombatEffect::TakeDamage {
                card_id: defender.id,
                from: attacker.id,
                damage: DamageModel::Fight { amount: p, context },
            },
        );
        if defender.strikes_back {
            let q = match defender.power {
                Some(q) => q,
                None => {
                    return Err(CombatError::NoPower);
                },
            };
            v.push(
                CombatEffect::TakeDamage {
                    card_id: attacker.id,
                    from: defender.id,
                    damage: DamageModel::Fight { amount: q, context },
                },
            );
        }
    }
    assert(combat_view(v@) =~= duel_built(*attacker, *defender, context));
    let r = reversed(v);
    proof {
        if attacker.id != defender.id {
            duels_strike_back_only_when_they_may(*attacker, *defender, context);
            let built = duel_built(*attacker, *defender, context);
            let second = struck_first(*attacker, *defender).id;
            let m = built.len();
            assert(combat_view(r@).len() == m);
            assert forall|k: int| 0 <= k < m implies #[trigger] r@[k]@ == built[m - 1 - k] by {
                assert(combat_view(r@)[k] == r@[k]@);
            }
            if exists|k: int| 0 <= k < m && #[trigger] dealt_by(built[k], second) {
                let k = choose|k: int| 0 <= k < m && #[trigger] dealt_by(built[k], second);
                assert(r@[m - 1 - k]@ == built[k]);
                assert(dealt_by(r@[m - 1 - k]@, second));
            }
            if exists|k: int| 0 <= k < r@.len() && #[trigger] dealt_by(r@[k]@, second) {
                let k = choose|k: int| 0 <= k < r@.len() && #[trigger] dealt_by(r@[k]@, second);
                assert(dealt_by(built[m - 1 - k], second));
            }
            let cond = struck_first(*attacker, *defender).strikes_back && (attacker.first_strike
                != defender.first_strike ==> struck_first(*attacker, *defender).survives_first_strikes);
            assert((exists|k: int| 0 <= k < m && #[trigger] dealt_by(built[k], second)) == cond);
            assert((exists|k: int| 0 <= k < r@.len() && #[trigger] dealt_by(r@[k]@, second)) == cond);
        }
    }
    let result: Result<Vec<CombatEffect>, CombatError> = Ok(r);
    assert(result matches Ok(v) ==> v@ == r@);
    result
}

/// The effects `v` in reverse order.
fn reversed(v: Vec<CombatEffect>) -> (r: Vec<CombatEffect>)
    ensures
        combat_view(r@) == combat_view(v@).reverse(),
{
    let mut rest = v;
    let ghost all = rest@;
    let mut r: Vec<CombatEffect> = Vec::new();
    while rest.len() > 0
        invariant
            rest@ == all.take(rest@.len() as int),
            rest@.len() <= all.len(),
            r@.len() == all.len() - rest@.len(),
            forall|k: int| 0 <= k < r@.len() ==> (#[trigger] r@[k])@ == all[all.len() - 1 - k]@,
        decreases rest@.len(),
    {
        let e = rest.pop().unwrap();
        r.push(e);
        assert(rest@ =~= all.take(rest@.len() as int));
    }
    assert(combat_view(r@) =~= combat_view(all).reverse());
    r
}

/// The effect of a strike by `striker` on `target`: a disabled striker
/// does not strike; otherwise the target takes the striker's power as the
/// damage of a strike.
pub open spec fn strike(striker: Fighter, disabled: bool, target: CardId) -> Seq<CombatEffectView> {
    if disabled {
        Seq::empty()
    } else {
        seq![
            CombatEffectView::TakeDamage {
                card_id: target,
                from: striker.id,
                damage: DamageModel::Strike { amount: striker.power->0 },
            },
        ]
    }
}

/// The effects of a strike by `striker`, disabled or not, on `target`. A
/// striker that is not disabled and has no power cannot strike.
pub fn strike_effects(striker: &Fighter, disabled: bool, target: &CardId) -> (r: Result<Vec<CombatEffect>, CombatError>)
    ensures
        r is Err <==> !disabled && striker.power is None,
        r matches Ok(v) ==> combat_view(v@) == strike(*striker, disabled, *target),
{
    let mut v: Vec<CombatEffect> = Vec::new();
    if !disabled {
        match striker.power {
            Some(p) => {
                v.push(
                    CombatEffect::TakeDamage { card_id: *target, from: striker.id, damage: DamageModel::Strike { amount: p } },
                );
            },
            None => {
                return Err(CombatError::NoPower);
            },
        }
    }
    assert(combat_view(v@) =~= strike(*striker, disabled, *target));
    Ok(v)
}

/// The damage that the attacker's player asked for card `id` in the
/// assignment `a`: the first entry for it, else none.
pub open spec fn requested(a: Seq<(CardId, u16)>, id: CardId) -> u16
    decreases a.len(),
{
    if a.len() == 0 {
        0
    } else if a[0].0 == id {
        a[0].1
    } else {
        requested(a.drop_first(), id)
    }
}

/// The damage that each request of `reqs` gets, in order, out of
/// `remaining`: as much as asked, while some is left.
pub open spec fn shares(remaining: u16, reqs: Seq<u16>) -> Seq<u16>
    decreases reqs.len(),
{
    if reqs.len() == 0 {
        Seq::empty()
    } else {
        let a = if reqs[0] < remaining {
            reqs[0]
        } else {
            remaining
        };
        seq![a] + shares((remaining - a) as u16, reqs.drop_first())
    }
}

/// The share of card `id` among the cards `ids` with shares `amounts`:
/// that of its last place, else none.
pub open spec fn share_of(ids: Seq<CardId>, amounts: Seq<u16>, id: CardId) -> u16
    decreases ids.len(),
{
    if ids.len() == 0 || amounts.len() != ids.len() {
        0
    } else if ids.last() == id {
        amounts.last()
    } else {
        share_of(ids.drop_last(), amounts.drop_last(), id)
    }
}

/// The identifiers of the fighters `fs`.
pub open spec fn ids_of(fs: Seq<Fighter>) -> Seq<CardId> {
    fs.map_values(|f: Fighter| f.id)
}

/// The damage that the defender `id` takes from an attacker of power
/// `power` among the defenders `ds`: all of it without an assignment,
/// else its share of the assignment `a`.
pub open spec fn defender_damage(power: u16, ds: Seq<Fighter>, a: Option<Seq<(CardId, u16)>>, id: CardId) -> u16 {
    match a {
        None => power,
        Some(a) => share_of(
            ids_of(ds),
            shares(power, ds.map_values(|f: Fighter| requested(a, f.id))),
            id,
        ),
    }
}

/// Whether one of the defenders `ds` with first strike is card `id`.
pub open spec fn first_striker_among(ds: Seq<Fighter>, id: CardId) -> bool {
    exists|j: int| 0 <= j < ds.len() && ds[j].first_strike && ds[j].id == id
}

/// Whether the fight of `attacker` against the defenders `ds` fails for
/// want of power: the attacker has none, or a defender that strikes back
/// has none.
pub open spec fn group_fight_fails(attacker: Fighter, ds: Seq<Fighter>) -> bool {
    let first_phase = attacker.first_strike || exists|j: int| 0 <= j < ds.len() && ds[j].first_strike;
    ||| attacker.power is None
    ||| first_phase && exists|j: int|
        0 <= j < ds.len() && ds[j].first_strike && ds[j].strikes_back && (#[trigger] ds[j]).power is None
    ||| first_phase && exists|j: int|
        0 <= j < ds.len() && !first_striker_among(ds, ds[j].id) && ds[j].survives_first_strikes
            && ds[j].strikes_back && (#[trigger] ds[j]).power is None
    ||| !first_phase && exists|j: int| 0 <= j < ds.len() && ds[j].strikes_back && (#[trigger] ds[j]).power is None
}

/// Every defender of `ds` comes to the fight in zone `zone`: tapped where
/// it stands there already, else moving there.
pub open spec fn approaches(zone: ZoneView, ds: Seq<Fighter>) -> Seq<CombatEffectView>
    decreases ds.len(),
{
    if ds.len() == 0 {
        Seq::empty()
    } else {
        let d = ds.last();
        approaches(zone, ds.drop_last()) + if true {
            seq![if d.in_fight_zone {
                CombatEffectView::Tap { card_id: d.id }
            } else {
                CombatEffectView::MoveCard { player_id: d.controller_id, card_id: d.id, from: d.zone@, to: zone }
            }]
        } else {
            Seq::empty()
        }
    }
}

/// The attacker strikes every defender of `ds`, each taking its damage
/// among the defenders `all`.
pub open spec fn strikes_on(attacker: Fighter, context: FightContext, all: Seq<Fighter>, a: Option<Seq<(CardId, u16)>>, ds: Seq<Fighter>) -> Seq<CombatEffectView>
    decreases ds.len(),
{
    if ds.len() == 0 {
        Seq::empty()
    } else {
        let d = ds.last();
        strikes_on(attacker, context, all, a, ds.drop_last()) + if true {
            seq![hit(d.id, attacker.id, defender_damage(attacker.power->0, all, a, d.id), context)]
        } else {
            Seq::empty()
        }
    }
}

/// Each defender of `ds` with first strike that strikes back strikes the
/// attacker.
pub open spec fn first_strikes_back(attacker: Fighter, context: FightContext, ds: Seq<Fighter>) -> Seq<CombatEffectView>
    decreases ds.len(),
{
    if ds.len() == 0 {
        Seq::empty()
    } else {
        let d = ds.last();
        first_strikes_back(attacker, context, ds.drop_last()) + if d.first_strike && d.strikes_back {
            seq![hit(attacker.id, d.id, d.power->0, context)]
        } else {
            Seq::empty()
        }
    }
}

/// The attacker strikes every defender of `ds` that survived the first
/// strikes.
pub open spec fn strikes_on_survivors(attacker: Fighter, context: FightContext, all: Seq<Fighter>, a: Option<Seq<(CardId, u16)>>, ds: Seq<Fighter>) -> Seq<CombatEffectView>
    decreases ds.len(),
{
    if ds.len() == 0 {
        Seq::empty()
    } else {
        let d = ds.last();
        strikes_on_survivors(attacker, context, all, a, ds.drop_last()) + if d.survives_first_strikes {
            seq![hit(d.id, attacker.id, defender_damage(attacker.power->0, all, a, d.id), context)]
        } else {
            Seq::empty()
        }
    }
}

/// Each defender of `ds` without first strike among `all` that survived
/// the first strikes and strikes back strikes the attacker.
pub open spec fn late_strikes_back(attacker: Fighter, context: FightContext, all: Seq<Fighter>, ds: Seq<Fighter>) -> Seq<CombatEffectView>
    decreases ds.len(),
{
    if ds.len() == 0 {
        Seq::empty()
    } else {
        let d = ds.last();
        late_strikes_back(attacker, context, all, ds.drop_last()) + if !first_striker_among(all, d.id) && d.survives_first_strikes && d.strikes_back {
            seq![hit(attacker.id, d.id, d.power->0, context)]
        } else {
            Seq::empty()
        }
    }
}

/// Each defender of `ds` that strikes back strikes the attacker.
pub open spec fn strikes_back(attacker: Fighter, context: FightContext, ds: Seq<Fighter>) -> Seq<CombatEffectView>
    decreases ds.len(),
{
    if ds.len() == 0 {
        Seq::empty()
    } else {
        let d = ds.last();
        strikes_back(attacker, context, ds.drop_last()) + if d.strikes_back {
            seq![hit(attacker.id, d.id, d.power->0, context)]
        } else {
            Seq::empty()
        }
    }
}

/// The effects of the fight of `attacker` against the defenders `ds` in
/// zone `zone`, with the damage assignment `a`, in the order they are
/// built.
///
/// The attacker and every defender come to the fight: those that stand
/// there already are tapped. Where a card with first strike takes part,
/// the first strikes come first: the attacker's, if it has first strike,
/// on every defender, then those of the defenders with first strike that
/// strike back; afterwards an attacker without first strike that survived
/// strikes every surviving defender, and every surviving defender without
/// first strike that strikes back strikes the attacker. Otherwise the
/// attacker strikes every defender and every defender that strikes back
/// strikes the attacker.
pub open spec fn group_fight_built(
    attacker: Fighter,
    zone: ZoneView,
    ds: Seq<Fighter>,
    a: Option<Seq<(CardId, u16)>>,
    context: FightContext,
) -> Seq<CombatEffectView> {
    let approach = move_in(attacker, zone) + approaches(zone, ds);
    let first_phase = attacker.first_strike || exists|j: int| 0 <= j < ds.len() && ds[j].first_strike;
    if first_phase {
        approach + (if attacker.first_strike {
            strikes_on(attacker, context, ds, a, ds)
        } else {
            Seq::empty()
        }) + first_strikes_back(attacker, context, ds) + (if attacker.survives_first_strikes
            && !attacker.first_strike {
            strikes_on_survivors(attacker, context, ds, a, ds)
        } else {
            Seq::empty()
        }) + late_strikes_back(attacker, context, ds, ds)
    } else {
        approach + strikes_on(attacker, context, ds, a, ds) + strikes_back(attacker, context, ds)
    }
}

/// The assignment `a` as a value.
pub open spec fn assignment_view(a: Option<Vec<(CardId, u16)>>) -> Option<Seq<(CardId, u16)>> {
    match a {
        Some(v) => Some(v@),
        None => None,
    }
}

/// Adds effect `e` at the end of `v`.
fn push_effect(v: &mut Vec<CombatEffect>, e: CombatEffect)
    ensures
        combat_view(final(v)@) == combat_view(old(v)@).push(e@),
{
    v.push(e);
    assert(combat_view(v@) =~= combat_view(old(v)@).push(e@));
}

/// The damage asked for card `id` in the assignment `a`.
fn requested_for(a: &Vec<(CardId, u16)>, id: &CardId) -> (r: u16)
    ensures
        r == requested(a@, *id),
{
    let mut i: usize = 0;
    assert(a@.skip(0) =~= a@);
    while i < a.len()
        invariant
            i <= a@.len(),
            requested(a@, *id) == requested(a@.skip(i as int), *id),
        decreases a@.len() - i,
    {
        assert(a@.skip(i as int).drop_first() =~= a@.skip(i + 1));
        assert(a@.skip(i as int)[0] == a@[i as int]);
        if same_id(&a[i].0, id) {
            return a[i].1;
        }
        i += 1;
    }
    assert(a@.skip(i as int) =~= Seq::<(CardId, u16)>::empty());
    0
}

/// The shares of the defenders `ds` of the damage `power`, by the
/// assignment `a`.
fn compute_shares(power: u16, ds: &Vec<Fighter>, a: &Vec<(CardId, u16)>) -> (r: Vec<u16>)
    ensures
        r@ == shares(power, ds@.map_values(|f: Fighter| requested(a@, f.id))),
{
    let ghost reqs = ds@.map_values(|f: Fighter| requested(a@, f.id));
    let mut r: Vec<u16> = Vec::new();
    let mut remaining = power;
    let mut i: usize = 0;
    assert(reqs.skip(0) =~= reqs);
    assert(r@ + shares(remaining, reqs.skip(0)) =~= shares(power, reqs));
    while i < ds.len()
        invariant
            i <= ds@.len(),
            reqs == ds@.map_values(|f: Fighter| requested(a@, f.id)),
            r@ + shares(remaining, reqs.skip(i as int)) == shares(power, reqs),
        decreases ds@.len() - i,
    {
        let q = requested_for(a, &ds[i].id);
        assert(reqs.skip(i as int)[0] == q);
        assert(reqs.skip(i as int).drop_first() =~= reqs.skip(i + 1));
        let share = if q < remaining {
            q
        } else {
            remaining
        };
        let ghost before = r@;
        r.push(share);
        assert(r@ + shares((remaining - share) as u16, reqs.skip(i + 1)) =~= before + shares(
            remaining,
            reqs.skip(i as int),
        ));
        remaining = remaining - share;
        i += 1;
    }
    assert(reqs.skip(i as int) =~= Seq::<u16>::empty());
    assert(r@ + Seq::<u16>::empty() =~= r@);
    r
}

/// The share of card `id` among the defenders `ds` with shares `amounts`.
fn share_for(ds: &Vec<Fighter>, amounts: &Vec<u16>, id: &CardId) -> (r: u16)
    ensures
        r == share_of(ids_of(ds@), amounts@, *id),
{
    if amounts.len() != ds.len() {
        return 0;
    }
    let ghost ids = ids_of(ds@);
    let mut i: usize = ds.len();
    assert(ids.take(i as int) =~= ids);
    assert(amounts@.take(i as int) =~= amounts@);
    while i > 0
        invariant
            i <= ds@.len(),
            amounts@.len() == ds@.len(),
            ids == ids_of(ds@),
            share_of(ids, amounts@, *id) == share_of(ids.take(i as int), amounts@.take(i as int), *id),
        decreases i,
    {
        assert(ids.take(i as int).last() == ds@[i - 1].id);
        assert(ids.take(i as int).drop_last() =~= ids.take(i - 1));
        assert(amounts@.take(i as int).drop_last() =~= amounts@.take(i - 1));
        if same_id(&ds[i - 1].id, id) {
            return amounts[i - 1];
        }
        i -= 1;
    }
    0
}

/// Whether one of the defenders `ds` with first strike is card `id`.
fn is_first_striker(ds: &Vec<Fighter>, id: &CardId) -> (r: bool)
    ensures
        r == first_striker_among(ds@, *id),
{
    let mut i: usize = 0;
    while i < ds.len()
        invariant
            i <= ds@.len(),
            forall|j: int| 0 <= j < i ==> !(ds@[j].first_strike && ds@[j].id == *id),
        decreases ds@.len() - i,
    {
        if ds[i].first_strike && same_id(&ds[i].id, id) {
            return true;
        }
        i += 1;
    }
    false
}

/// The effects of the fight of `attacker` against the defenders `ds` in
/// zone `zone` (the zone of the card attacked), with the damage assignment
/// `a` where the attacker's player shared out the damage, in the order the
/// game queues them (the reverse of the order they are built). Without an
/// assignment every defender takes the attacker's whole power; with one,
/// the defenders take in turn what was asked for them, while the power
/// lasts.
pub fn group_fight_effects(
    attacker: &Fighter,
    zone: &Zone,
    ds: &Vec<Fighter>,
    a: &Option<Vec<(CardId, u16)>>,
    context: FightContext,
) -> (r: Result<Vec<CombatEffect>, CombatError>)
    ensures
        r is Err <==> group_fight_fails(*attacker, ds@),
        r matches Ok(v) ==> combat_view(v@) == group_fight_built(*attacker, zone@, ds@, assignment_view(*a), context).reverse(),
{
    let p = match attacker.power {
        Some(p) => p,
        None => {
            return Err(CombatError::NoPower);
        },
    };
    let ghost av = assignment_view(*a);
    let amounts = match a {
        Some(asg) => compute_shares(p, ds, asg),
        None => Vec::new(),
    };
    let mut v: Vec<CombatEffect> = Vec::new();
    if !attacker.in_fight_zone {
        push_effect(
            &mut v,
            CombatEffect::MoveCard {
                player_id: attacker.controller_id,
                card_id: attacker.id,
                from: attacker.zone.duplicate(),
                to: zone.duplicate(),
            },
        );
    }
    assert(combat_view(v@) =~= move_in(*attacker, zone@));
        {
            let ghost base = combat_view(v@);
            let mut i: usize = 0;
            while i < ds.len()
                invariant
                    i <= ds@.len(),
                    combat_view(v@) == base + approaches(zone@, ds@.take(i as int)),
                decreases ds@.len() - i,
            {
                proof {
                    assert(ds@.take(i + 1).drop_last() =~= ds@.take(i as int));
                    assert(ds@.take(i + 1).last() == ds@[i as int]);
                }
                let d = &ds[i];
                if true {
                    push_effect(&mut v, if d.in_fight_zone {
                        CombatEffect::Tap { card_id: d.id }
                    } else {
                        CombatEffect::MoveCard { player_id: d.controller_id, card_id: d.id, from: d.zone.duplicate(), to: zone.duplicate() }
                    });
                }
                i += 1;
            }
            assert(ds@.take(ds@.len() as int) =~= ds@);
        }

    let mut first_phase = attacker.first_strike;
    let mut k: usize = 0;
    while k < ds.len()
        invariant
            k <= ds@.len(),
            first_phase == (attacker.first_strike || exists|j: int| 0 <= j < k && ds@[j].first_strike),
        decreases ds@.len() - k,
    {
        if ds[k].first_strike {
            first_phase = true;
        }
        k += 1;
    }
    assert(first_phase == (attacker.first_strike || exists|j: int| 0 <= j < ds@.len() && ds@[j].first_strike));
    if first_phase {
        if attacker.first_strike {
        {
            let ghost base = combat_view(v@);
            let mut i: usize = 0;
            while i < ds.len()
                invariant
                    i <= ds@.len(),
                    combat_view(v@) == base + strikes_on(*attacker, context, ds@, av, ds@.take(i as int)),
                    av == assignment_view(*a),
                    p == attacker.power->0,
                    a is Some ==> amounts@ == shares(p, ds@.map_values(|f: Fighter| requested(av->0, f.id))),
                decreases ds@.len() - i,
            {
                proof {
                    assert(ds@.take(i + 1).drop_last() =~= ds@.take(i as int));
                    assert(ds@.take(i + 1).last() == ds@[i as int]);
                }
                let d = &ds[i];
                if true {
                    let dm = match a {
                        None => p,
                        Some(_) => share_for(ds, &amounts, &d.id),
                    };
                    push_effect(&mut v, CombatEffect::TakeDamage { card_id: d.id, from: attacker.id, damage: DamageModel::Fight { amount: dm, context } });
                }
                i += 1;
            }
            assert(ds@.take(ds@.len() as int) =~= ds@);
        }

        }
        {
            let ghost base = combat_view(v@);
            let mut i: usize = 0;
            while i < ds.len()
                invariant
                    i <= ds@.len(),
                    combat_view(v@) == base + first_strikes_back(*attacker, context, ds@.take(i as int)),
                    (attacker.first_strike || exists|j: int| 0 <= j < ds@.len() && ds@[j].first_strike),
                forall|j: int| 0 <= j < i ==> !(ds@[j].first_strike && ds@[j].strikes_back && (#[trigger] ds@[j]).power is None),
                decreases ds@.len() - i,
            {
                proof {
                    assert(ds@.take(i + 1).drop_last() =~= ds@.take(i as int));
                    assert(ds@.take(i + 1).last() == ds@[i as int]);
                }
                let d = &ds[i];
                if d.first_strike && d.strikes_back {
                    let q = match d.power {
                    Some(q) => q,
                    None => {
                        return Err(CombatError::NoPower);
                    },
                };
                push_effect(&mut v, CombatEffect::TakeDamage { card_id: attacker.id, from: d.id, damage: DamageModel::Fight { amount: q, context } });
                }
                i += 1;
            }
            assert(ds@.take(ds@.len() as int) =~= ds@);
        }

        if attacker.survives_first_strikes && !attacker.first_strike {
        {
            let ghost base = combat_view(v@);
            let mut i: usize = 0;
            while i < ds.len()
                invariant
                    i <= ds@.len(),
                    combat_view(v@) == base + strikes_on_survivors(*attacker, context, ds@, av, ds@.take(i as int)),
                    av == assignment_view(*a),
                    p == attacker.power->0,
                    a is Some ==> amounts@ == shares(p, ds@.map_values(|f: Fighter| requested(av->0, f.id))),
                decreases ds@.len() - i,
            {
                proof {
                    assert(ds@.take(i + 1).drop_last() =~= ds@.take(i as int));
                    assert(ds@.take(i + 1).last() == ds@[i as int]);
                }
                let d = &ds[i];
                if d.survives_first_strikes {
                    let dm = match a {
                        None => p,
                        Some(_) => share_for(ds, &amounts, &d.id),
                    };
                    push_effect(&mut v, CombatEffect::TakeDamage { card_id: d.id, from: attacker.id, damage: DamageModel::Fight { amount: dm, context } });
                }
                i += 1;
            }
            assert(ds@.take(ds@.len() as int) =~= ds@);
        }

        }
        {
            let ghost base = combat_view(v@);
            let mut i: usize = 0;
            while i < ds.len()
                invariant
                    i <= ds@.len(),
                    combat_view(v@) == base + late_strikes_back(*attacker, context, ds@, ds@.take(i as int)),
                    (attacker.first_strike || exists|j: int| 0 <= j < ds@.len() && ds@[j].first_strike),
                forall|j: int| 0 <= j < i ==> !(!first_striker_among(ds@, ds@[j].id) && ds@[j].survives_first_strikes && ds@[j].strikes_back && (#[trigger] ds@[j]).power is None),
                decreases ds@.len() - i,
            {
                proof {
                    assert(ds@.take(i + 1).drop_last() =~= ds@.take(i as int));
                    assert(ds@.take(i + 1).last() == ds@[i as int]);
                }
                let d = &ds[i];
                if !is_first_striker(ds, &d.id) && d.survives_first_strikes && d.strikes_back {
                    let q = match d.power {
                    Some(q) => q,
                    None => {
                        return Err(CombatError::NoPower);
                    },
                };
                push_effect(&mut v, CombatEffect::TakeDamage { card_id: attacker.id, from: d.id, damage: DamageModel::Fight { amount: q, context } });
                }
                i += 1;
            }
            assert(ds@.take(ds@.len() as int) =~= ds@);
        }

    } else {
        {
            let ghost base = combat_view(v@);
            let mut i: usize = 0;
            while i < ds.len()
                invariant
                    i <= ds@.len(),
                    combat_view(v@) == base + strikes_on(*attacker, context, ds@, av, ds@.take(i as int)),
                    av == assignment_view(*a),
                    p == attacker.power->0,
                    a is Some ==> amounts@ == shares(p, ds@.map_values(|f: Fighter| requested(av->0, f.id))),
                decreases ds@.len() - i,
            {
                proof {
                    assert(ds@.take(i + 1).drop_last() =~= ds@.take(i as int));
                    assert(ds@.take(i + 1).last() == ds@[i as int]);
                }
                let d = &ds[i];
                if true {
                    let dm = match a {
                        None => p,
                        Some(_) => share_for(ds, &amounts, &d.id),
                    };
                    push_effect(&mut v, CombatEffect::TakeDamage { card_id: d.id, from: attacker.id, damage: DamageModel::Fight { amount: dm, context } });
                }
                i += 1;
            }
            assert(ds@.take(ds@.len() as int) =~= ds@);
        }

        {
            let ghost base = combat_view(v@);
            let mut i: usize = 0;
            while i < ds.len()
                invariant
                    i <= ds@.len(),
                    combat_view(v@) == base + strikes_back(*attacker, context, ds@.take(i as int)),
                    !(attacker.first_strike || exists|j: int| 0 <= j < ds@.len() && ds@[j].first_strike),
                forall|j: int| 0 <= j < i ==> !(ds@[j].strikes_back && (#[trigger] ds@[j]).power is None),
                decreases ds@.len() - i,
            {
                proof {
                    assert(ds@.take(i + 1).drop_last() =~= ds@.take(i as int));
                    assert(ds@.take(i + 1).last() == ds@[i as int]);
                }
                let d = &ds[i];
                if d.strikes_back {
                    let q = match d.power {
                    Some(q) => q,
                    None => {
                        return Err(CombatError::NoPower);
                    },
                };
                push_effect(&mut v, CombatEffect::TakeDamage { card_id: attacker.id, from: d.id, damage: DamageModel::Fight { amount: q, context } });
                }
                i += 1;
            }
            assert(ds@.take(ds@.len() as int) =~= ds@);
        }

    }
    let ghost built = combat_view(v@);
    assert(built =~= group_fight_built(*attacker, zone@, ds@, av, context));
    Ok(reversed(v))
}

/// Whether an attack can be defended, as it is declared: not by an
/// attacker with stealth.
pub open spec fn defendable(attacker_has_stealth: bool) -> bool {
    !attacker_has_stealth
}

/// The cards that may defend an attack by a player's card on a card of
/// `defending_player`: none where the attack cannot be defended or the
/// attacking player attacks their own card, else the legal defenders.
pub open spec fn offered_defenders(
    can_be_defended: bool,
    attacking_player: PlayerId,
    defending_player: PlayerId,
    legal: Seq<CardId>,
) -> Seq<CardId> {
    if can_be_defended && attacking_player != defending_player {
        legal
    } else {
        Seq::empty()
    }
}

/// The cards that may defend an attack, where `can_be_defended` says
/// whether the attacker was without stealth as it declared the attack,
/// and `legal` lists the cards that the rules let defend.
pub fn possible_defenders(
    can_be_defended: bool,
    attacking_player: &PlayerId,
    defending_player: &PlayerId,
    legal: &Vec<CardId>,
) -> (r: Vec<CardId>)
    ensures
        r@ == offered_defenders(can_be_defended, *attacking_player, *defending_player, legal@),
{
    if can_be_defended && !same_id(attacking_player, defending_player) {
        copy_ids(legal)
    } else {
        Vec::new()
    }
}

/// Whether `items` holds the identifier `id`.
fn has_card(items: &Vec<CardId>, id: &CardId) -> (r: bool)
    ensures
        r == items@.contains(*id),
{
    let mut i: usize = 0;
    while i < items.len()
        invariant
            i <= items@.len(),
            forall|j: int| 0 <= j < i ==> items@[j] != *id,
        decreases items@.len() - i,
    {
        if same_id(&items[i], id) {
            return true;
        }
        i += 1;
    }
    false
}

/// The defenders picked, `picked`, that count: those among the cards that
/// were offered, `offered`, and that may still defend, `legal`, in the
/// order they were picked.
pub fn chosen_defenders(picked: &Vec<CardId>, offered: &Vec<CardId>, legal: &Vec<CardId>) -> (r: Vec<CardId>)
    ensures
        r@ == picked@.filter(|id: CardId| offered@.contains(id) && legal@.contains(id)),
{
    let ghost f = |id: CardId| offered@.contains(id) && legal@.contains(id);
    let mut v: Vec<CardId> = Vec::new();
    let mut i: usize = 0;
    while i < picked.len()
        invariant
            i <= picked@.len(),
            f == (|id: CardId| offered@.contains(id) && legal@.contains(id)),
            v@ == picked@.take(i as int).filter(f),
        decreases picked@.len() - i,
    {
        proof {
            assert(picked@.take(i + 1) =~= picked@.take(i as int).push(picked@[i as int]));
            picked@.take(i as int).lemma_filter_push(picked@[i as int], f);
        }
        if has_card(offered, &picked[i]) && has_card(legal, &picked[i]) {
            v.push(picked[i]);
        }
        i += 1;
    }
    assert(picked@.take(picked@.len() as int) =~= picked@);
    v
}

/// An attacker that has stealth as it declares its attack cannot be
/// defended against: no card is offered to defend it.
pub proof fn stealthy_attackers_cannot_be_defended(
    attacking_player: PlayerId,
    defending_player: PlayerId,
    legal: Seq<CardId>,
    picked: Seq<CardId>,
)
    ensures
        offered_defenders(defendable(true), attacking_player, defending_player, legal) == Seq::<CardId>::empty(),
        picked.filter(
            |id: CardId|
                offered_defenders(defendable(true), attacking_player, defending_player, legal).contains(id)
                    && legal.contains(id),
        ) == Seq::<CardId>::empty(),
    decreases picked.len(),
{
    let f = |id: CardId|
        offered_defenders(defendable(true), attacking_player, defending_player, legal).contains(id)
            && legal.contains(id);
    if picked.len() > 0 {
        stealthy_attackers_cannot_be_defended(attacking_player, defending_player, legal, picked.drop_last());
        assert(picked =~= picked.drop_last().push(picked.last()));
        picked.drop_last().lemma_filter_push(picked.last(), f);
    }
}

/// A query on the effects of fights, which an ongoing effect or a counter
/// waits for.
#[derive(Debug, Clone)]
pub enum CombatQuery {
    /// Damage dealt by a card that the first query matches, if any, to a
    /// card that the second matches, if any.
    DamageDealt { source: Option<CardQueryModel>, target: Option<CardQueryModel> },
    /// A card that the query matches moves.
    MoveCard { card: CardQueryModel },
}

/// The position of card `id` among `cards`: the first with it.
pub open spec fn model_index(cards: Seq<CardModel>, id: CardId) -> Option<int>
    decreases cards.len(),
{
    if cards.len() == 0 {
        None
    } else {
        match model_index(cards.drop_last(), id) {
            Some(i) => Some(i),
            None => if cards.last().id == id {
                Some(cards.len() - 1)
            } else {
                None
            },
        }
    }
}

/// Whether query `q` matches card `id` among `cards`.
pub open spec fn card_query_holds(q: CardQueryModel, cards: Seq<CardModel>, id: CardId) -> bool {
    match model_index(cards, id) {
        Some(i) => query_matches(q, cards[i]),
        None => false,
    }
}

/// Whether query `q` can be held against card `id` among `cards`: the
/// game looks the card up once the query's filters on identifiers let it
/// through, and fails where it is missing.
pub open spec fn card_lookup_ok(q: CardQueryModel, cards: Seq<CardModel>, id: CardId) -> bool {
    unless_none(q.card_id, |fs: Vec<crate::query::ValueFilter<CardId>>| id_filters_hold(fs@, id)) ==> model_index(
        cards,
        id,
    ) is Some
}

/// Whether effect `e` is one that query `q` waits for, the cards being
/// `cards`.
pub open spec fn combat_query_holds(q: CombatQuery, e: CombatEffectView, cards: Seq<CardModel>) -> bool {
    match (q, e) {
        (CombatQuery::DamageDealt { source, target }, CombatEffectView::TakeDamage { card_id, from, .. }) => {
            unless_none(source, |s: CardQueryModel| card_query_holds(s, cards, from)) && unless_none(
                target,
                |t: CardQueryModel| card_query_holds(t, cards, card_id),
            )
        },
        (CombatQuery::MoveCard { card }, CombatEffectView::MoveCard { card_id, .. }) => card_query_holds(
            card,
            cards,
            card_id,
        ),
        _ => false,
    }
}

/// Whether the cards that query `q` looks up for effect `e` are among
/// `cards`: the game looks each of them up, and fails where one is not.
pub open spec fn looked_up_cards_exist(q: CombatQuery, e: CombatEffectView, cards: Seq<CardModel>) -> bool {
    match (q, e) {
        (CombatQuery::DamageDealt { source, target }, CombatEffectView::TakeDamage { card_id, from, .. }) => {
            &&& unless_none(source, |s: CardQueryModel| card_lookup_ok(s, cards, from))
            &&& unless_none(source, |s: CardQueryModel| card_query_holds(s, cards, from)) ==> unless_none(
                target,
                |t: CardQueryModel| card_lookup_ok(t, cards, card_id),
            )
        },
        (CombatQuery::MoveCard { card }, CombatEffectView::MoveCard { card_id, .. }) => card_lookup_ok(
            card,
            cards,
            card_id,
        ),
        _ => true,
    }
}

/// The position of card `id` among `cards`.
pub(crate) fn find_model(cards: &Vec<CardModel>, id: &CardId) -> (r: Option<usize>)
    ensures
        r matches Some(i) ==> model_index(cards@, *id) == Some(i as int) && i < cards@.len(),
        r is None ==> model_index(cards@, *id) is None,
{
    let mut i: usize = 0;
    while i < cards.len()
        invariant
            i <= cards@.len(),
            model_index(cards@.take(i as int), *id) is None,
        decreases cards@.len() - i,
    {
        assert(cards@.take(i + 1).drop_last() =~= cards@.take(i as int));
        if same_id(&cards[i].id, id) {
            proof {
                lemma_model_prefix(cards@, *id, i as int);
            }
            return Some(i);
        }
        i += 1;
    }
    assert(cards@.take(i as int) =~= cards@);
    None
}

/// Where card `id` first stands at `i`, it is found there.
proof fn lemma_model_prefix(cards: Seq<CardModel>, id: CardId, i: int)
    requires
        0 <= i < cards.len(),
        model_index(cards.take(i), id) is None,
        cards[i].id == id,
    ensures
        model_index(cards, id) == Some(i),
    decreases cards.len(),
{
    if i < cards.len() - 1 {
        assert(cards.drop_last().take(i) =~= cards.take(i));
        lemma_model_prefix(cards.drop_last(), id, i);
    } else {
        assert(cards.drop_last() =~= cards.take(i));
    }
}

/// Whether query `q` matches card `id` among `cards`.
pub(crate) fn card_query_ok(q: &CardQueryModel, cards: &Vec<CardModel>, id: &CardId) -> (r: bool)
    requires
        card_lookup_ok(*q, cards@, *id),
    ensures
        r == card_query_holds(*q, cards@, *id),
{
    if let Some(fs) = &q.card_id {
        if !id_filters_ok(fs, id) {
            proof {
                match model_index(cards@, *id) {
                    Some(i) => {
                        lemma_model_index(cards@, *id);
                    },
                    None => {},
                }
            }
            return false;
        }
    }
    let i = find_model(cards, id).unwrap();
    card_matches(q, &cards[i])
}

/// Where `model_index` points, the card has that identifier.
pub(crate) proof fn lemma_model_index(cards: Seq<CardModel>, id: CardId)
    ensures
        model_index(cards, id) matches Some(i) ==> 0 <= i < cards.len() && cards[i].id == id,
    decreases cards.len(),
{
    if cards.len() > 0 {
        lemma_model_index(cards.drop_last(), id);
    }
}

/// Whether effect `e` is one that query `q` waits for, the cards being
/// `cards`.
pub fn combat_query_matches(q: &CombatQuery, e: &CombatEffect, cards: &Vec<CardModel>) -> (r: bool)
    requires
        looked_up_cards_exist(*q, e@, cards@),
    ensures
        r == combat_query_holds(*q, e@, cards@),
{
    match (q, e) {
        (CombatQuery::DamageDealt { source, target }, CombatEffect::TakeDamage { card_id, from, .. }) => {
            if let Some(sq) = source {
                if !card_query_ok(sq, cards, from) {
                    return false;
                }
            }
            if let Some(tq) = target {
                if !card_query_ok(tq, cards, card_id) {
                    return false;
                }
            }
            true
        },
        (CombatQuery::MoveCard { card }, CombatEffect::MoveCard { card_id, .. }) => card_query_ok(card, cards, card_id),
        _ => false,
    }
}

/// The sum of the amounts `s`.
pub open spec fn total(s: Seq<u16>) -> int
    decreases s.len(),
{
    if s.len() == 0 {
        0
    } else {
        s[0] + total(s.drop_first())
    }
}

/// Sharing out an attacker's power never deals more than the power, and
/// no defender gets more than was asked for it; where the requests add up
/// to no more than the power, each gets what was asked.
pub proof fn shared_damage_stays_within_the_power(power: u16, reqs: Seq<u16>)
    ensures
        shares(power, reqs).len() == reqs.len(),
        total(shares(power, reqs)) <= power,
        forall|k: int| 0 <= k < reqs.len() ==> #[trigger] shares(power, reqs)[k] <= reqs[k],
        total(reqs) <= power ==> shares(power, reqs) == reqs,
    decreases reqs.len(),
{
    if reqs.len() > 0 {
        let a = if reqs[0] < power {
            reqs[0]
        } else {
            power
        };
        let rest = reqs.drop_first();
        shared_damage_stays_within_the_power((power - a) as u16, rest);
        let sh = shares(power, reqs);
        assert(sh.drop_first() =~= shares((power - a) as u16, rest));
        assert(sh[0] == a);
        assert forall|k: int| 0 <= k < reqs.len() implies #[trigger] shares(power, reqs)[k] <= reqs[k] by {
            if k > 0 {
                assert(sh[k] == shares((power - a) as u16, rest)[k - 1]);
            }
        }
        lemma_total_nonnegative(rest);
        if total(reqs) <= power {
            assert(a == reqs[0]);
            assert(sh =~= reqs);
        }
    } else {
        assert(shares(power, reqs) =~= reqs);
    }
}

proof fn lemma_total_nonnegative(s: Seq<u16>)
    ensures
        total(s) >= 0,
    decreases s.len(),
{
    if s.len() > 0 {
        lemma_total_nonnegative(s.drop_first());
    }
}

/// After the first strikes of a fight, only defenders that survived them,
/// strike back, and have not struck already strike the attacker: every
/// late blow comes from such a defender of the fight, at its power.
pub proof fn only_survivors_strike_back_late(attacker: Fighter, context: FightContext, all: Seq<Fighter>, ds: Seq<Fighter>)
    ensures
        forall|k: int|
            0 <= k < late_strikes_back(attacker, context, all, ds).len() ==> exists|j: int|
                0 <= j < ds.len() && ds[j].survives_first_strikes && ds[j].strikes_back && !first_striker_among(
                    all,
                    ds[j].id,
                ) && #[trigger] late_strikes_back(attacker, context, all, ds)[k] == hit(
                    attacker.id,
                    ds[j].id,
                    ds[j].power->0,
                    context,
                ),
    decreases ds.len(),
{
    if ds.len() > 0 {
        let rest = ds.drop_last();
        only_survivors_strike_back_late(attacker, context, all, rest);
        let l = late_strikes_back(attacker, context, all, ds);
        let lr = late_strikes_back(attacker, context, all, rest);
        assert forall|k: int| 0 <= k < l.len() implies exists|j: int|
            0 <= j < ds.len() && ds[j].survives_first_strikes && ds[j].strikes_back && !first_striker_among(
                all,
                ds[j].id,
            ) && #[trigger] l[k] == hit(attacker.id, ds[j].id, ds[j].power->0, context) by {
            if k < lr.len() {
                assert(l[k] == lr[k]);
                let j = choose|j: int|
                    0 <= j < rest.len() && rest[j].survives_first_strikes && rest[j].strikes_back
                        && !first_striker_among(all, rest[j].id) && #[trigger] lr[k] == hit(
                        attacker.id,
                        rest[j].id,
                        rest[j].power->0,
                        context,
                    );
                assert(ds[j] == rest[j]);
            } else {
                let j = ds.len() - 1;
                assert(ds[j] == ds.last());
            }
        }
    }
}

/// The card of a duel that strikes first: the defender where only it has
/// first strike, else the attacker.
pub open spec fn striking_first(attacker: Fighter, defender: Fighter) -> Fighter {
    if defender.first_strike && !attacker.first_strike {
        defender
    } else {
        attacker
    }
}

/// The other card of a duel, struck first.
pub open spec fn struck_first(attacker: Fighter, defender: Fighter) -> Fighter {
    if defender.first_strike && !attacker.first_strike {
        attacker
    } else {
        defender
    }
}

/// Whether effect `e` is a blow or strike dealt by card `id`.
pub open spec fn dealt_by(e: CombatEffectView, id: CardId) -> bool {
    match e {
        CombatEffectView::TakeDamage { from, .. } => from == id,
        _ => false,
    }
}

/// In a fight of two cards, the card that strikes first (the one with first
/// strike, where only one has it, else the attacker) always deals its
/// power to the other; the other strikes back, once and at its power,
/// exactly when it strikes back at all and, where it was struck first, it
/// survived; nothing else deals damage.
pub proof fn duels_strike_back_only_when_they_may(attacker: Fighter, defender: Fighter, context: FightContext)
    requires
        attacker.id != defender.id,
    ensures
        ({
            let first = striking_first(attacker, defender);
            let second = struck_first(attacker, defender);
            let one_first = attacker.first_strike != defender.first_strike;
            let built = duel_built(attacker, defender, context);
            &&& exists|k: int|
                0 <= k < built.len() && built[k] == CombatEffectView::TakeDamage {
                    card_id: second.id,
                    from: first.id,
                    damage: DamageModel::Fight { amount: first.power->0, context },
                }
            &&& (exists|k: int| 0 <= k < built.len() && #[trigger] dealt_by(built[k], second.id)) <==> (
            second.strikes_back && (one_first ==> second.survives_first_strikes))
            &&& forall|k: int|
                0 <= k < built.len() && #[trigger] dealt_by(built[k], second.id) ==> built[k]
                    == CombatEffectView::TakeDamage {
                    card_id: first.id,
                    from: second.id,
                    damage: DamageModel::Fight { amount: second.power->0, context },
                }
            &&& forall|k: int|
                0 <= k < built.len() && (#[trigger] built[k]) is TakeDamage ==> dealt_by(built[k], first.id)
                    || dealt_by(built[k], second.id)
        }),
{
    let first = striking_first(attacker, defender);
    let second = struck_first(attacker, defender);
    let one_first = attacker.first_strike != defender.first_strike;
    let cond = second.strikes_back && (one_first ==> second.survives_first_strikes);
    let approach = move_in(attacker, defender.zone@);
    let blow = hit(second.id, first.id, first.power->0, context);
    let back = hit(first.id, second.id, second.power->0, context);
    let tail = if cond {
        seq![back]
    } else {
        Seq::<CombatEffectView>::empty()
    };
    let built = duel_built(attacker, defender, context);
    assert(built =~= approach + seq![blow] + tail);
    let n = approach.len() as int;
    assert(forall|k: int| 0 <= k < n ==> (#[trigger] approach[k]) is MoveCard);
    assert(built[n] == blow);
    assert forall|k: int| 0 <= k < built.len() && #[trigger] dealt_by(built[k], second.id) implies built[k] == back by {
        if k < n {
            assert(built[k] == approach[k]);
        } else if k == n {
            assert(built[k] == blow);
        } else {
            assert(built[k] == back);
        }
    }
    assert forall|k: int| 0 <= k < built.len() && (#[trigger] built[k]) is TakeDamage implies dealt_by(
        built[k],
        first.id,
    ) || dealt_by(built[k], second.id) by {
        if k < n {
            assert(built[k] == approach[k]);
        }
    }
    assert(0 <= n < built.len() && built[n] == CombatEffectView::TakeDamage {
        card_id: second.id,
        from: first.id,
        damage: DamageModel::Fight { amount: first.power->0, context },
    });
    if cond {
        assert(built[n + 1] == back);
        assert(dealt_by(built[n + 1], second.id));
    } else {
        assert(built.len() == n + 1);
        assert forall|k: int| 0 <= k < built.len() implies !#[trigger] dealt_by(built[k], second.id) by {
            if k < n {
                assert(built[k] == approach[k]);
            } else {
                assert(built[k] == blow);
            }
        }
    }
}

/// Whether effect `e` of the fight of `attacker` against the defenders
/// `ds` is a blow that may be dealt there: the attacker's on one of the
/// defenders, at that defender's share of its power, or the blow of a
/// defender that strikes back, on the attacker, at the defender's power.
pub open spec fn allowed_blow(
    e: CombatEffectView,
    attacker: Fighter,
    ds: Seq<Fighter>,
    a: Option<Seq<(CardId, u16)>>,
    context: FightContext,
) -> bool {
    match e {
        CombatEffectView::TakeDamage { card_id, from, damage } => {
            ||| from == attacker.id && exists|j: int|
                0 <= j < ds.len() && (#[trigger] ds[j]).id == card_id && damage == DamageModel::Fight {
                    amount: defender_damage(attacker.power->0, ds, a, card_id),
                    context,
                }
            ||| exists|j: int|
                0 <= j < ds.len() && (#[trigger] ds[j]).id == from && ds[j].strikes_back && card_id == attacker.id
                    && damage == DamageModel::Fight { amount: ds[j].power->0, context }
        },
        _ => true,
    }
}

/// Whether `ds` is a prefix of `all`.
pub open spec fn prefix_of(ds: Seq<Fighter>, all: Seq<Fighter>) -> bool {
    ds.len() <= all.len() && forall|j: int| 0 <= j < ds.len() ==> ds[j] == all[j]
}

proof fn lemma_prefix_drop_last(ds: Seq<Fighter>, all: Seq<Fighter>)
    requires
        prefix_of(ds, all),
        ds.len() > 0,
    ensures
        prefix_of(ds.drop_last(), all),
        all[ds.len() - 1] == ds.last(),
{
}

proof fn lemma_blows_of_segments(
    attacker: Fighter,
    zone: ZoneView,
    all: Seq<Fighter>,
    a: Option<Seq<(CardId, u16)>>,
    context: FightContext,
    ds: Seq<Fighter>,
)
    requires
        prefix_of(ds, all),
    ensures
        forall|k: int| 0 <= k < approaches(zone, ds).len() ==> allowed_blow(#[trigger] approaches(zone, ds)[k], attacker, all, a, context),
        forall|k: int| 0 <= k < strikes_on(attacker, context, all, a, ds).len() ==> allowed_blow(
            #[trigger] strikes_on(attacker, context, all, a, ds)[k], attacker, all, a, context),
        forall|k: int| 0 <= k < strikes_on_survivors(attacker, context, all, a, ds).len() ==> allowed_blow(
            #[trigger] strikes_on_survivors(attacker, context, all, a, ds)[k], attacker, all, a, context),
        forall|k: int| 0 <= k < first_strikes_back(attacker, context, ds).len() ==> allowed_blow(
            #[trigger] first_strikes_back(attacker, context, ds)[k], attacker, all, a, context),
        forall|k: int| 0 <= k < late_strikes_back(attacker, context, all, ds).len() ==> allowed_blow(
            #[trigger] late_strikes_back(attacker, context, all, ds)[k], attacker, all, a, context),
        forall|k: int| 0 <= k < strikes_back(attacker, context, ds).len() ==> allowed_blow(
            #[trigger] strikes_back(attacker, context, ds)[k], attacker, all, a, context),
    decreases ds.len(),
{
    if ds.len() > 0 {
        let rest = ds.drop_last();
        let d = ds.last();
        let n = ds.len() - 1;
        lemma_prefix_drop_last(ds, all);
        lemma_blows_of_segments(attacker, zone, all, a, context, rest);
        assert(all[n] == d);
        let seg1 = approaches(zone, ds);
        assert forall|k: int| 0 <= k < seg1.len() implies allowed_blow(#[trigger] seg1[k], attacker, all, a, context) by {
            if k < approaches(zone, rest).len() {
                assert(seg1[k] == approaches(zone, rest)[k]);
            }
        }
        let seg2 = strikes_on(attacker, context, all, a, ds);
        assert forall|k: int| 0 <= k < seg2.len() implies allowed_blow(#[trigger] seg2[k], attacker, all, a, context) by {
            if k < strikes_on(attacker, context, all, a, rest).len() {
                assert(seg2[k] == strikes_on(attacker, context, all, a, rest)[k]);
            }
        }
        let seg3 = strikes_on_survivors(attacker, context, all, a, ds);
        assert forall|k: int| 0 <= k < seg3.len() implies allowed_blow(#[trigger] seg3[k], attacker, all, a, context) by {
            if k < strikes_on_survivors(attacker, context, all, a, rest).len() {
                assert(seg3[k] == strikes_on_survivors(attacker, context, all, a, rest)[k]);
            }
        }
        let seg4 = first_strikes_back(attacker, context, ds);
        assert forall|k: int| 0 <= k < seg4.len() implies allowed_blow(#[trigger] seg4[k], attacker, all, a, context) by {
            if k < first_strikes_back(attacker, context, rest).len() {
                assert(seg4[k] == first_strikes_back(attacker, context, rest)[k]);
            }
        }
        let seg5 = late_strikes_back(attacker, context, all, ds);
        assert forall|k: int| 0 <= k < seg5.len() implies allowed_blow(#[trigger] seg5[k], attacker, all, a, context) by {
            if k < late_strikes_back(attacker, context, all, rest).len() {
                assert(seg5[k] == late_strikes_back(attacker, context, all, rest)[k]);
            }
        }
        let seg6 = strikes_back(attacker, context, ds);
        assert forall|k: int| 0 <= k < seg6.len() implies allowed_blow(#[trigger] seg6[k], attacker, all, a, context) by {
            if k < strikes_back(attacker, context, rest).len() {
                assert(seg6[k] == strikes_back(attacker, context, rest)[k]);
            }
        }
    }
}

/// In a fight against several defenders, every blow is one that may be
/// dealt there: the attacker strikes only defenders of the fight, each at
/// its share of the attacker's power, and only defenders that strike back
/// strike the attacker, each at its own power.
pub proof fn group_fights_deal_only_allowed_blows(
    attacker: Fighter,
    zone: ZoneView,
    ds: Seq<Fighter>,
    a: Option<Seq<(CardId, u16)>>,
    context: FightContext,
)
    ensures
        forall|k: int|
            0 <= k < group_fight_built(attacker, zone, ds, a, context).len() ==> allowed_blow(
                #[trigger] group_fight_built(attacker, zone, ds, a, context)[k],
                attacker,
                ds,
                a,
                context,
            ),
{
    lemma_blows_of_segments(attacker, zone, ds, a, context, ds);
    let built = group_fight_built(attacker, zone, ds, a, context);
    let m = move_in(attacker, zone);
    assert(forall|k: int| 0 <= k < m.len() ==> (#[trigger] m[k]) is MoveCard);
    let first_phase = attacker.first_strike || exists|j: int| 0 <= j < ds.len() && ds[j].first_strike;
    let empty = Seq::<CombatEffectView>::empty();
    let ap = m + approaches(zone, ds);
    assert forall|k: int| 0 <= k < ap.len() implies allowed_blow(#[trigger] ap[k], attacker, ds, a, context) by {
        if k < m.len() {
            assert(ap[k] == m[k]);
        } else {
            assert(ap[k] == approaches(zone, ds)[k - m.len()]);
        }
    }
    if first_phase {
        let s1 = if attacker.first_strike {
            strikes_on(attacker, context, ds, a, ds)
        } else {
            empty
        };
        let s3 = if attacker.survives_first_strikes && !attacker.first_strike {
            strikes_on_survivors(attacker, context, ds, a, ds)
        } else {
            empty
        };
        lemma_concat_allowed(ap, s1, attacker, ds, a, context);
        let x1 = ap + s1;
        lemma_concat_allowed(x1, first_strikes_back(attacker, context, ds), attacker, ds, a, context);
        let x2 = x1 + first_strikes_back(attacker, context, ds);
        lemma_concat_allowed(x2, s3, attacker, ds, a, context);
        let x3 = x2 + s3;
        lemma_concat_allowed(x3, late_strikes_back(attacker, context, ds, ds), attacker, ds, a, context);
        assert(built == x3 + late_strikes_back(attacker, context, ds, ds));
    } else {
        lemma_concat_allowed(ap, strikes_on(attacker, context, ds, a, ds), attacker, ds, a, context);
        let x1 = ap + strikes_on(attacker, context, ds, a, ds);
        lemma_concat_allowed(x1, strikes_back(attacker, context, ds), attacker, ds, a, context);
        assert(built == x1 + strikes_back(attacker, context, ds));
    }
}

proof fn lemma_concat_allowed(
    x: Seq<CombatEffectView>,
    y: Seq<CombatEffectView>,
    attacker: Fighter,
    ds: Seq<Fighter>,
    a: Option<Seq<(CardId, u16)>>,
    context: FightContext,
)
    requires
        forall|k: int| 0 <= k < x.len() ==> allowed_blow(#[trigger] x[k], attacker, ds, a, context),
        forall|k: int| 0 <= k < y.len() ==> allowed_blow(#[trigger] y[k], attacker, ds, a, context),
    ensures
        forall|k: int| 0 <= k < (x + y).len() ==> allowed_blow(#[trigger] (x + y)[k], attacker, ds, a, context),
{
    assert forall|k: int| 0 <= k < (x + y).len() implies allowed_blow(#[trigger] (x + y)[k], attacker, ds, a, context) by {
        if k < x.len() {
            assert((x + y)[k] == x[k]);
        } else {
            assert((x + y)[k] == y[k - x.len()]);
        }
    }
}

} // verus!
