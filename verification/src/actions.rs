//! What a unit's action leads to, once the players have answered what it
//! asks: the effects of burrowing, submerging and surfacing, of picking up
//! and dropping what a unit carries, of an attack with its defenders, and
//! of a move with the units that intercept it.
//!
//! The questions themselves (which target, which path, whether to defend,
//! how to share the damage) are asked by the game's loop; the answers come
//! here as arguments.

use crate::card::{CardType, Region};
use crate::card_query::{card_occupies_zone, occupies, CardModel};
use crate::game::UnitAction;
use crate::ids::{CardId, PlayerId};
use crate::zone::{Zone, ZoneView};
use vstd::prelude::*;

verus! {

/// An effect that a unit's action queues.
#[derive(Debug, Clone)]
pub enum ActionEffect {
    /// The card moves to another region of its square.
    SetCardRegion { card_id: CardId, destination: Region, tap: bool },
    /// The card is carried by another, or by none.
    SetBearer { card_id: CardId, bearer_id: Option<CardId> },
    /// The attacker strikes the defender; several defenders share the
    /// damage as assigned.
    Attack {
        attacker_id: CardId,
        defender_id: CardId,
        defending_ids: Vec<CardId>,
        damage_assignment: Option<Vec<(CardId, u16)>>,
    },
    /// The card moves one step, from a zone to the next, along a path.
    MoveCard {
        player_id: PlayerId,
        card_id: CardId,
        from: Zone,
        to: Zone,
        tap: bool,
        through_path: Option<Vec<Zone>>,
    },
    /// The defender steps in against the attacker.
    DeclareDefender { attacker_id: CardId, defender_id: CardId },
}

/// The mathematical value of an `ActionEffect`.
pub enum ActionEffectView {
    SetCardRegion { card_id: CardId, destination: Region, tap: bool },
    SetBearer { card_id: CardId, bearer_id: Option<CardId> },
    Attack {
        attacker_id: CardId,
        defender_id: CardId,
        defending_ids: Seq<CardId>,
        damage_assignment: Option<Seq<(CardId, u16)>>,
    },
    MoveCard {
        player_id: PlayerId,
        card_id: CardId,
        from: ZoneView,
        to: ZoneView,
        tap: bool,
        through_path: Option<Seq<ZoneView>>,
    },
    DeclareDefender { attacker_id: CardId, defender_id: CardId },
}

impl View for ActionEffect {
    type V = ActionEffectView;

    open spec fn view(&self) -> ActionEffectView {
        match self {
            ActionEffect::SetCardRegion { card_id, destination, tap } => ActionEffectView::SetCardRegion {
                card_id: *card_id,
                destination: *destination,
                tap: *tap,
            },
            ActionEffect::SetBearer { card_id, bearer_id } => ActionEffectView::SetBearer {
                card_id: *card_id,
                bearer_id: *bearer_id,
            },
            ActionEffect::Attack { attacker_id, defender_id, defending_ids, damage_assignment } => ActionEffectView::Attack {
                attacker_id: *attacker_id,
                defender_id: *defender_id,
                defending_ids: defending_ids@,
                damage_assignment: match damage_assignment {
                    Some(d) => Some(d@),
                    None => None,
                },
            },
            ActionEffect::MoveCard { player_id, card_id, from, to, tap, through_path } => ActionEffectView::MoveCard {
                player_id: *player_id,
                card_id: *card_id,
                from: from@,
                to: to@,
                tap: *tap,
                through_path: match through_path {
                    Some(p) => Some(p@.map_values(|z: Zone| z@)),
                    None => None,
                },
            },
            ActionEffect::DeclareDefender { attacker_id, defender_id } => ActionEffectView::DeclareDefender {
                attacker_id: *attacker_id,
                defender_id: *defender_id,
            },
        }
    }
}

/// The values of the effects `s`.
pub open spec fn effects_view(s: Seq<ActionEffect>) -> Seq<ActionEffectView> {
    s.map_values(|e: ActionEffect| e@)
}

/// The effects of action `a` of card `card_id` when it asks nothing:
/// changing region taps the unit, and an artifact is picked up or dropped.
/// `None` for the actions that ask the players first.
pub open spec fn immediate_effects(a: UnitAction, card_id: CardId) -> Option<Seq<ActionEffectView>> {
    match a {
        UnitAction::Burrow => Some(
            seq![ActionEffectView::SetCardRegion { card_id, destination: Region::Underground, tap: true }],
        ),
        UnitAction::Submerge => Some(
            seq![ActionEffectView::SetCardRegion { card_id, destination: Region::Underwater, tap: true }],
        ),
        UnitAction::Surface => Some(
            seq![ActionEffectView::SetCardRegion { card_id, destination: Region::Surface, tap: true }],
        ),
        UnitAction::PickUpArtifact { artifact_id, .. } => Some(
            seq![ActionEffectView::SetBearer { card_id: artifact_id, bearer_id: Some(card_id) }],
        ),
        UnitAction::DropArtifact { artifact_id, .. } => Some(
            seq![ActionEffectView::SetBearer { card_id: artifact_id, bearer_id: None }],
        ),
        _ => None,
    }
}

/// The effects of action `action` of card `card_id` when the action asks
/// nothing; `None` when it asks the players first.
pub fn immediate_action_effects(action: &UnitAction, card_id: &CardId) -> (r: Option<Vec<ActionEffect>>)
    ensures
        r is None <==> immediate_effects(*action, *card_id) is None,
        r matches Some(v) ==> immediate_effects(*action, *card_id) == Some(effects_view(v@)),
{
    let e = match action {
        UnitAction::Burrow => ActionEffect::SetCardRegion {
            card_id: *card_id,
            destination: Region::Underground,
            tap: true,
        },
        UnitAction::Submerge => ActionEffect::SetCardRegion {
            card_id: *card_id,
            destination: Region::Underwater,
            tap: true,
        },
        UnitAction::Surface => ActionEffect::SetCardRegion { card_id: *card_id, destination: Region::Surface, tap: true },
        UnitAction::PickUpArtifact { artifact_id, .. } => ActionEffect::SetBearer {
            card_id: *artifact_id,
            bearer_id: Some(*card_id),
        },
        UnitAction::DropArtifact { artifact_id, .. } => ActionEffect::SetBearer { card_id: *artifact_id, bearer_id: None },
        _ => {
            return None;
        },
    };
    let mut v: Vec<ActionEffect> = Vec::new();
    v.push(e);
    assert(effects_view(v@) =~= seq![e@]);
    Some(v)
}

/// The effects of picking up (`pick_up`) or dropping the minions `picked`
/// by the unit `carrier`: each picked minion is carried by it, or by none.
pub open spec fn carrying(carrier: CardId, picked: Seq<CardId>, pick_up: bool) -> Seq<ActionEffectView> {
    picked.map_values(
        |m: CardId|
            ActionEffectView::SetBearer {
                card_id: m,
                bearer_id: if pick_up {
                    Some(carrier)
                } else {
                    None
                },
            },
    )
}

/// The effects of the unit `carrier` picking up (`pick_up`) or dropping
/// the minions that its player picked, `picked`.
pub fn carry_effects(carrier: &CardId, picked: &Vec<CardId>, pick_up: bool) -> (r: Vec<ActionEffect>)
    ensures
        effects_view(r@) == carrying(*carrier, picked@, pick_up),
{
    let bearer_id = if pick_up {
        Some(*carrier)
    } else {
        None
    };
    let mut v: Vec<ActionEffect> = Vec::new();
    let mut i: usize = 0;
    while i < picked.len()
        invariant
            i <= picked@.len(),
            v@.len() == i,
            bearer_id == (if pick_up {
                Some(*carrier)
            } else {
                None::<CardId>
            }),
            forall|k: int| 0 <= k < i ==> (#[trigger] v@[k])@ == (ActionEffectView::SetBearer { card_id: picked@[k], bearer_id }),
        decreases picked@.len() - i,
    {
        v.push(ActionEffect::SetBearer { card_id: picked[i], bearer_id });
        i += 1;
    }
    assert(effects_view(v@) =~= carrying(*carrier, picked@, pick_up));
    v
}

/// The defenders `defenders` stepping in against `attacker`, one after the
/// other.
pub open spec fn declared(attacker: CardId, defenders: Seq<CardId>) -> Seq<ActionEffectView> {
    defenders.map_values(|d: CardId| ActionEffectView::DeclareDefender { attacker_id: attacker, defender_id: d })
}

/// The effects of an attack by `attacker` on `target`, in zone
/// `target_zone`, when the opponent `opponent` answered with the defenders
/// `defenders`, the first of them in zone `first_zone`, and several
/// defenders share the damage as `damage` says.
///
/// Without defenders the target is attacked. A single defender is attacked
/// in its place and moves, tapped, to the target's zone, the attack coming
/// first so that the move is made before it strikes. Several defenders are
/// attacked together, with the damage shared out. Every defender is
/// declared after that.
pub open spec fn attack(
    attacker: CardId,
    target: CardId,
    target_zone: ZoneView,
    opponent: PlayerId,
    defenders: Seq<CardId>,
    first_zone: ZoneView,
    damage: Seq<(CardId, u16)>,
) -> Seq<ActionEffectView> {
    if defenders.len() == 0 {
        seq![
            ActionEffectView::Attack {
                attacker_id: attacker,
                defender_id: target,
                defending_ids: Seq::empty(),
                damage_assignment: None,
            },
        ]
    } else if defenders.len() == 1 {
        seq![
            ActionEffectView::Attack {
                attacker_id: attacker,
                defender_id: defenders[0],
                defending_ids: Seq::empty(),
                damage_assignment: None,
            },
            ActionEffectView::MoveCard {
                player_id: opponent,
                card_id: defenders[0],
                from: first_zone,
                to: target_zone,
                tap: true,
                through_path: None,
            },
        ] + declared(attacker, defenders)
    } else {
        seq![
            ActionEffectView::Attack {
                attacker_id: attacker,
                defender_id: target,
                defending_ids: defenders,
                damage_assignment: Some(damage),
            },
        ] + declared(attacker, defenders)
    }
}

/// A copy of the identifiers `ids`.
pub(crate) fn copy_ids(ids: &Vec<CardId>) -> (r: Vec<CardId>)
    ensures
        r@ == ids@,
{
    let mut v: Vec<CardId> = Vec::new();
    let mut i: usize = 0;
    while i < ids.len()
        invariant
            i <= ids@.len(),
            v@ =~= ids@.take(i as int),
        decreases ids@.len() - i,
    {
        v.push(ids[i]);
        i += 1;
        assert(v@ =~= ids@.take(i as int));
    }
    assert(ids@.take(ids@.len() as int) =~= ids@);
    v
}

/// A copy of the damage shares `d`.
fn copy_shares(d: &Vec<(CardId, u16)>) -> (r: Vec<(CardId, u16)>)
    ensures
        r@ == d@,
{
    let mut v: Vec<(CardId, u16)> = Vec::new();
    let mut i: usize = 0;
    while i < d.len()
        invariant
            i <= d@.len(),
            v@ =~= d@.take(i as int),
        decreases d@.len() - i,
    {
        v.push(d[i]);
        i += 1;
        assert(v@ =~= d@.take(i as int));
    }
    assert(d@.take(d@.len() as int) =~= d@);
    v
}

/// The defenders `defenders` stepping in against `attacker`.
fn declare_all(attacker: &CardId, defenders: &Vec<CardId>, v: &mut Vec<ActionEffect>)
    ensures
        effects_view(final(v)@) == effects_view(old(v)@) + declared(*attacker, defenders@),
{
    let ghost start = v@;
    let mut i: usize = 0;
    while i < defenders.len()
        invariant
            i <= defenders@.len(),
            v@.len() == start.len() + i,
            forall|k: int| 0 <= k < start.len() ==> v@[k] == start[k],
            forall|k: int|
                0 <= k < i ==> (#[trigger] v@[start.len() + k])@ == (ActionEffectView::DeclareDefender {
                    attacker_id: *attacker,
                    defender_id: defenders@[k],
                }),
        decreases defenders@.len() - i,
    {
        v.push(ActionEffect::DeclareDefender { attacker_id: *attacker, defender_id: defenders[i] });
        i += 1;
    }
    assert forall|k: int| 0 <= k < v@.len() implies effects_view(v@)[k] == (effects_view(start) + declared(
        *attacker,
        defenders@,
    ))[k] by {
        if k >= start.len() {
            assert(v@[start.len() + (k - start.len())] == v@[k]);
        }
    }
    assert(effects_view(v@) =~= effects_view(start) + declared(*attacker, defenders@));
}

/// The effects of an attack by `attacker_id` on `target_id`, in zone
/// `target_zone`, once the opponent `opponent_id` has answered with the
/// defenders `defenders`, the first of them in zone `first_zone`; where
/// there are several, `damage` is how the damage was shared out among them.
pub fn attack_effects(
    attacker_id: &CardId,
    target_id: &CardId,
    target_zone: &Zone,
    opponent_id: &PlayerId,
    defenders: &Vec<CardId>,
    first_zone: &Zone,
    damage: &Vec<(CardId, u16)>,
) -> (r: Vec<ActionEffect>)
    ensures
        effects_view(r@) == attack(
            *attacker_id,
            *target_id,
            target_zone@,
            *opponent_id,
            defenders@,
            first_zone@,
            damage@,
        ),
{
    let mut v: Vec<ActionEffect> = Vec::new();
    if defenders.len() == 0 {
        v.push(
            ActionEffect::Attack {
                attacker_id: *attacker_id,
                defender_id: *target_id,
                defending_ids: Vec::new(),
                damage_assignment: None,
            },
        );
        assert(effects_view(v@) =~= attack(
            *attacker_id,
            *target_id,
            target_zone@,
            *opponent_id,
            defenders@,
            first_zone@,
            damage@,
        ));
        return v;
    }
    if defenders.len() == 1 {
        let d = defenders[0];
        v.push(
            ActionEffect::Attack { attacker_id: *attacker_id, defender_id: d, defending_ids: Vec::new(), damage_assignment: None },
        );
        v.push(
            ActionEffect::MoveCard {
                player_id: *opponent_id,
                card_id: d,
                from: first_zone.duplicate(),
                to: target_zone.duplicate(),
                tap: true,
                through_path: None,
            },
        );
    } else {
        v.push(
            ActionEffect::Attack {
                attacker_id: *attacker_id,
                defender_id: *target_id,
                defending_ids: copy_ids(defenders),
                damage_assignment: Some(copy_shares(damage)),
            },
        );
    }
    declare_all(attacker_id, defenders, &mut v);
    assert(effects_view(v@) =~= attack(
        *attacker_id,
        *target_id,
        target_zone@,
        *opponent_id,
        defenders@,
        first_zone@,
        damage@,
    ));
    v
}

/// The steps of the move of `card_id` by `player_id` along `path`, the
/// last step first: each step goes from one zone of the path to the next,
/// taps the unit, and carries the whole path.
pub open spec fn steps_back(player_id: PlayerId, card_id: CardId, path: Seq<ZoneView>) -> Seq<ActionEffectView> {
    let n: int = if path.len() > 0 {
        path.len() - 1
    } else {
        0
    };
    Seq::new(
        n as nat,
        |i: int|
            ActionEffectView::MoveCard {
                player_id,
                card_id,
                from: path[n - 1 - i],
                to: path[n - i],
                tap: true,
                through_path: Some(path),
            },
    )
}

/// How the damage of a move's unit, of power `power`, falls on the units
/// `interceptors`: all of it on a single one, else as shared out, `shared`.
pub open spec fn interception_damage(interceptors: Seq<CardId>, power: u16, shared: Seq<(CardId, u16)>) -> Seq<(CardId, u16)> {
    if interceptors.len() == 1 {
        seq![(interceptors[0], power)]
    } else {
        shared
    }
}

/// The effects of the move of `card_id`, of power `power`, by `player_id`
/// along `path`, intercepted by the units `interceptors`, with the damage
/// shared out as `shared` where there are several: the fight with the
/// interceptors, if any, then the steps, the last step first.
pub open spec fn moving(
    player_id: PlayerId,
    card_id: CardId,
    path: Seq<ZoneView>,
    interceptors: Seq<CardId>,
    power: u16,
    shared: Seq<(CardId, u16)>,
) -> Seq<ActionEffectView> {
    if interceptors.len() == 0 {
        steps_back(player_id, card_id, path)
    } else {
        seq![
            ActionEffectView::Attack {
                attacker_id: card_id,
                defender_id: interceptors[0],
                defending_ids: interceptors,
                damage_assignment: Some(interception_damage(interceptors, power, shared)),
            },
        ] + steps_back(player_id, card_id, path)
    }
}

/// A copy of the zones `zones`.
pub(crate) fn copy_zones(zones: &Vec<Zone>) -> (r: Vec<Zone>)
    ensures
        r@.map_values(|z: Zone| z@) == zones@.map_values(|z: Zone| z@),
{
    let mut v: Vec<Zone> = Vec::new();
    let mut i: usize = 0;
    while i < zones.len()
        invariant
            i <= zones@.len(),
            v@.len() == i,
            forall|k: int| 0 <= k < i ==> (#[trigger] v@[k])@ == zones@[k]@,
        decreases zones@.len() - i,
    {
        v.push(zones[i].duplicate());
        i += 1;
    }
    assert(v@.map_values(|z: Zone| z@) =~= zones@.map_values(|z: Zone| z@));
    v
}

/// The units of `picked` that may intercept, those among `legal`, in the
/// order they were picked.
pub fn chosen_interceptors(picked: &Vec<CardId>, legal: &Vec<CardId>) -> (r: Vec<CardId>)
    ensures
        r@ == picked@.filter(|id: CardId| legal@.contains(id)),
{
    let ghost f = |id: CardId| legal@.contains(id);
    let mut v: Vec<CardId> = Vec::new();
    let mut i: usize = 0;
    while i < picked.len()
        invariant
            i <= picked@.len(),
            f == (|id: CardId| legal@.contains(id)),
            v@ == picked@.take(i as int).filter(f),
        decreases picked@.len() - i,
    {
        proof {
            assert(picked@.take(i + 1) =~= picked@.take(i as int).push(picked@[i as int]));
            picked@.take(i as int).lemma_filter_push(picked@[i as int], f);
        }
        let mut found = false;
        let mut j: usize = 0;
        while j < legal.len()
            invariant
                i < picked@.len(),
                j <= legal@.len(),
                found ==> legal@.contains(picked@[i as int]),
                !found ==> forall|k: int| 0 <= k < j ==> legal@[k] != picked@[i as int],
            decreases legal@.len() - j,
        {
            if crate::ids::same_id(&legal[j], &picked[i]) {
                found = true;
                proof {
                    assert(legal@[j as int] == picked@[i as int]);
                }
            }
            j += 1;
        }
        if found {
            v.push(picked[i]);
        }
        i += 1;
    }
    assert(picked@.take(picked@.len() as int) =~= picked@);
    v
}

/// The effects of the move of `card_id`, of power `power`, by `player_id`
/// along `path`, once the opponent has answered with the interceptors
/// `interceptors`; where there are several, `shared` is how the damage was
/// shared out among them.
pub fn move_effects(
    player_id: &PlayerId,
    card_id: &CardId,
    path: &Vec<Zone>,
    interceptors: &Vec<CardId>,
    power: u16,
    shared: &Vec<(CardId, u16)>,
) -> (r: Vec<ActionEffect>)
    ensures
        effects_view(r@) == moving(
            *player_id,
            *card_id,
            path@.map_values(|z: Zone| z@),
            interceptors@,
            power,
            shared@,
        ),
{
    let ghost zs = path@.map_values(|z: Zone| z@);
    let mut v: Vec<ActionEffect> = Vec::new();
    if interceptors.len() > 0 {
        let damage = if interceptors.len() == 1 {
            let mut d: Vec<(CardId, u16)> = Vec::new();
            d.push((interceptors[0], power));
            assert(d@ =~= seq![(interceptors@[0], power)]);
            d
        } else {
            copy_shares(shared)
        };
        v.push(
            ActionEffect::Attack {
                attacker_id: *card_id,
                defender_id: interceptors[0],
                defending_ids: copy_ids(interceptors),
                damage_assignment: Some(damage),
            },
        );
    }
    let ghost head = v@;
    let n: usize = if path.len() > 0 {
        path.len() - 1
    } else {
        0
    };
    let ghost steps = steps_back(*player_id, *card_id, zs);
    let mut i: usize = 0;
    while i < n
        invariant
            i <= n,
            n == (if path@.len() > 0 {
                path@.len() - 1
            } else {
                0
            }),
            zs == path@.map_values(|z: Zone| z@),
            steps == steps_back(*player_id, *card_id, zs),
            v@.len() == head.len() + i,
            forall|k: int| 0 <= k < head.len() ==> v@[k] == head[k],
            forall|k: int| 0 <= k < i ==> (#[trigger] v@[head.len() + k])@ == steps[k],
        decreases n - i,
    {
        v.push(
            ActionEffect::MoveCard {
                player_id: *player_id,
                card_id: *card_id,
                from: path[n - 1 - i].duplicate(),
                to: path[n - i].duplicate(),
                tap: true,
                through_path: Some(copy_zones(path)),
            },
        );
        i += 1;
    }
    let ghost want = moving(*player_id, *card_id, zs, interceptors@, power, shared@);
    let ghost prefix = if interceptors@.len() == 0 {
        Seq::<ActionEffectView>::empty()
    } else {
        seq![
            ActionEffectView::Attack {
                attacker_id: *card_id,
                defender_id: interceptors@[0],
                defending_ids: interceptors@,
                damage_assignment: Some(interception_damage(interceptors@, power, shared@)),
            },
        ]
    };
    assert(want =~= prefix + steps);
    assert(effects_view(head) =~= prefix);
    assert forall|k: int| 0 <= k < v@.len() implies effects_view(v@)[k] == want[k] by {
        if k >= head.len() {
            assert(v@[head.len() + (k - head.len())] == v@[k]);
            assert(want[k] == steps[k - head.len()]);
        } else {
            assert(v@[k] == head[k]);
            assert(want[k] == prefix[k]);
        }
    }
    assert(effects_view(v@) =~= want);
    v
}

/// Whether unit `carrier` can pick up card `c`: a minion in play, standing
/// where the unit stands, other than the unit, and carried by nobody.
pub open spec fn can_be_picked_up(carrier: CardModel, c: CardModel) -> bool {
    &&& (c.card_type == CardType::Minion || c.is_minion)
    &&& c.in_play
    &&& occupies(c.zone@, carrier.zone@)
    &&& c.id != carrier.id
    &&& c.bearer is None
}

/// Whether card `c` is a minion carried by the unit `carrier_id`.
pub open spec fn is_carried_by(carrier_id: CardId, c: CardModel) -> bool {
    c.is_minion && c.bearer == Some(carrier_id)
}

/// The minions among `cards` that unit `carrier` may pick up, in the order
/// of `cards`.
pub fn minions_to_pick_up(carrier: &CardModel, cards: &Vec<CardModel>) -> (r: Vec<CardId>)
    ensures
        r@ == cards@.filter(|c: CardModel| can_be_picked_up(*carrier, c)).map_values(|c: CardModel| c.id),
{
    let ghost f = |c: CardModel| can_be_picked_up(*carrier, c);
    let mut v: Vec<CardId> = Vec::new();
    let mut i: usize = 0;
    while i < cards.len()
        invariant
            i <= cards@.len(),
            f == (|c: CardModel| can_be_picked_up(*carrier, c)),
            v@ == cards@.take(i as int).filter(f).map_values(|c: CardModel| c.id),
        decreases cards@.len() - i,
    {
        proof {
            assert(cards@.take(i + 1) =~= cards@.take(i as int).push(cards@[i as int]));
            cards@.take(i as int).lemma_filter_push(cards@[i as int], f);
        }
        let c = &cards[i];
        let minion = c.card_type == CardType::Minion || c.is_minion;
        if minion && c.in_play && card_occupies_zone(&c.zone, &carrier.zone) && !crate::ids::same_id(&c.id, &carrier.id)
            && c.bearer.is_none() {
            v.push(c.id);
            assert(v@ =~= cards@.take(i + 1).filter(f).map_values(|c: CardModel| c.id));
        } else {
            assert(cards@.take(i + 1).filter(f) == cards@.take(i as int).filter(f));
        }
        i += 1;
    }
    assert(cards@.take(cards@.len() as int) =~= cards@);
    v
}

/// The minions among `cards` that unit `carrier_id` carries, in the order
/// of `cards`.
pub fn carried_minions(carrier_id: &CardId, cards: &Vec<CardModel>) -> (r: Vec<CardId>)
    ensures
        r@ == cards@.filter(|c: CardModel| is_carried_by(*carrier_id, c)).map_values(|c: CardModel| c.id),
{
    let ghost f = |c: CardModel| is_carried_by(*carrier_id, c);
    let mut v: Vec<CardId> = Vec::new();
    let mut i: usize = 0;
    while i < cards.len()
        invariant
            i <= cards@.len(),
            f == (|c: CardModel| is_carried_by(*carrier_id, c)),
            v@ == cards@.take(i as int).filter(f).map_values(|c: CardModel| c.id),
        decreases cards@.len() - i,
    {
        proof {
            assert(cards@.take(i + 1) =~= cards@.take(i as int).push(cards@[i as int]));
            cards@.take(i as int).lemma_filter_push(cards@[i as int], f);
        }
        let c = &cards[i];
        let carried = match c.bearer {
            Some(b) => crate::ids::same_id(&b, carrier_id),
            None => false,
        };
        if c.is_minion && carried {
            v.push(c.id);
            assert(v@ =~= cards@.take(i + 1).filter(f).map_values(|c: CardModel| c.id));
        } else {
            assert(cards@.take(i + 1).filter(f) == cards@.take(i as int).filter(f));
        }
        i += 1;
    }
    assert(cards@.take(cards@.len() as int) =~= cards@);
    v
}

/// The zone a step of a move leaves, if the effect is a step.
pub open spec fn step_from(e: ActionEffectView) -> Option<ZoneView> {
    match e {
        ActionEffectView::MoveCard { from, .. } => Some(from),
        _ => None,
    }
}

/// The zone a step of a move reaches, if the effect is a step.
pub open spec fn step_to(e: ActionEffectView) -> Option<ZoneView> {
    match e {
        ActionEffectView::MoveCard { to, .. } => Some(to),
        _ => None,
    }
}

/// A move along a path of at least two zones is one step per pair of
/// neighbouring zones of the path, listed from the last step back to the
/// first: the first listed step reaches the end of the path, the last
/// listed leaves its start, and each listed step leaves the zone that the
/// next listed one reaches. Each step is made by the moving unit for its
/// player, taps it and carries the whole path. Interceptors, if any, are
/// fought before any step, the first of them struck, all of the unit's
/// power falling on a single one.
pub proof fn moves_step_along_the_path(
    player_id: PlayerId,
    card_id: CardId,
    path: Seq<ZoneView>,
    interceptors: Seq<CardId>,
    power: u16,
    shared: Seq<(CardId, u16)>,
)
    requires
        path.len() >= 2,
    ensures
        ({
            let r = moving(player_id, card_id, path, interceptors, power, shared);
            let off: int = if interceptors.len() == 0 {
                0
            } else {
                1
            };
            &&& r.len() == off + path.len() - 1
            &&& step_to(r[off]) == Some(path.last())
            &&& step_from(r[r.len() - 1]) == Some(path[0])
            &&& forall|k: int| off <= k < r.len() - 1 ==> step_from(#[trigger] r[k]) == step_to(r[k + 1])
            &&& forall|k: int|
                off <= k < r.len() ==> ((#[trigger] r[k]) matches ActionEffectView::MoveCard {
                    player_id: p,
                    card_id: c,
                    tap,
                    through_path,
                    ..
                } && p == player_id && c == card_id && tap && through_path == Some(path))
            &&& interceptors.len() > 0 ==> (r[0] matches ActionEffectView::Attack {
                attacker_id,
                defender_id,
                defending_ids,
                damage_assignment,
            } && attacker_id == card_id && defender_id == interceptors[0] && defending_ids == interceptors && (
            interceptors.len() == 1 ==> damage_assignment == Some(seq![(interceptors[0], power)])))
        }),
{
    let r = moving(player_id, card_id, path, interceptors, power, shared);
    let steps = steps_back(player_id, card_id, path);
    let off: int = if interceptors.len() == 0 {
        0
    } else {
        1
    };
    let n = path.len() - 1;
    assert(steps.len() == n);
    assert forall|k: int| 0 <= k < n implies #[trigger] r[off + k] == steps[k] by {}
    assert(r[off] == steps[0]);
    assert(r[r.len() - 1] == steps[n - 1]);
    assert forall|k: int| off <= k < r.len() - 1 implies step_from(#[trigger] r[k]) == step_to(r[k + 1]) by {
        assert(r[k] == steps[k - off]);
        assert(r[k + 1] == steps[k + 1 - off]);
    }
    assert forall|k: int| off <= k < r.len() implies ((#[trigger] r[k]) matches ActionEffectView::MoveCard {
        player_id: p,
        card_id: c,
        tap,
        through_path,
        ..
    } && p == player_id && c == card_id && tap && through_path == Some(path)) by {
        assert(r[k] == steps[k - off]);
    }
}

} // verus!
