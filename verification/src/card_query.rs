//! Matching a card against a card query: the many filters a query can hold,
//! each checked against what the card shows of itself.
//!
//! What only the game state can work out is handed in as plain values: on
//! the card's side its zone, controller, elements, abilities, statuses and
//! the like; on the query's side the zones its spatial filters resolve to,
//! the zones in range of a card, the cards an attacker may attack, and the
//! bearer of a card.

use crate::card::{Ability, CardStatus, CardType, Rarity, Region};
use crate::ids::{same_id, CardId, PlayerId};
use crate::query::{
    holds_equal, numeric_filter_matches, string_filter_matches, vec_filter_matches, NumericFilter, StringFilter, ValueFilter,
    VecFilter,
};
use crate::thresholds::Element;
use crate::zone::{contains_zone, zones_view, Location, LocationView, Zone, ZoneView};
use crate::actions::copy_zones;
use crate::combat::{find_model, model_index};
use vstd::prelude::*;
use vstd::std_specs::cmp::PartialEqSpec;

verus! {

/// A card as a query sees it.
#[derive(Debug, Clone)]
pub struct CardModel {
    pub id: CardId,
    pub name: String,
    pub zone: Zone,
    pub in_play: bool,
    pub region: Region,
    pub controller_id: PlayerId,
    pub owner_id: PlayerId,
    pub card_type: CardType,
    /// Whether the game counts the card as a minion (an animated card
    /// counts).
    pub is_minion: bool,
    pub is_avatar: bool,
    pub tapped: bool,
    pub rarity: Rarity,
    pub oversized: bool,
    /// The card carrying this one.
    pub bearer: Option<CardId>,
    /// The printed mana value, when the card's costs can be read: `None`
    /// when they cannot, `Some(None)` when they print no mana value.
    pub printed_mana: Option<Option<u8>>,
    pub elements: Vec<Element>,
    pub abilities: Vec<Ability>,
    pub statuses: Vec<CardStatus>,
    /// The water affinity the card provides, when it is a site.
    pub site_water: Option<u8>,
    /// The site types of a site, numbered as the catalogue numbers them.
    pub site_types: Option<Vec<u16>>,
    /// The artifact types of an artifact.
    pub artifact_types: Option<Vec<u16>>,
    /// The minion types of a unit.
    pub minion_types: Option<Vec<u16>>,
    /// The card's power, when it has one.
    pub power: Option<u16>,
    /// The players that may target the card.
    pub targetable_by: Vec<PlayerId>,
}

/// A card query with what the game state resolved for it.
#[derive(Debug, Clone)]
pub struct CardQueryModel {
    pub card_id: Option<Vec<ValueFilter<CardId>>>,
    pub include_not_in_play: Option<bool>,
    pub in_zones: Option<Vec<Zone>>,
    pub regions: Option<Vec<Region>>,
    /// For each spatial filter, the zones it resolved to.
    pub spatial_zones: Vec<Vec<Zone>>,
    pub controlled_by: Option<Vec<ValueFilter<PlayerId>>>,
    pub owned_by: Option<Vec<ValueFilter<PlayerId>>>,
    pub card_types: Option<Vec<CardType>>,
    pub tapped: Option<bool>,
    pub rarity: Option<Rarity>,
    pub oversized: Option<bool>,
    pub carried_by: Option<Option<CardId>>,
    /// For a query for the bearer of a card: the bearer that card has
    /// (`None` also when the card is gone).
    pub bearer_of: Option<Option<CardId>>,
    pub card_name: Option<Vec<StringFilter>>,
    pub mana_cost: Option<NumericFilter<u8>>,
    pub elements: Option<Vec<Element>>,
    pub with_affinity_in: Option<Vec<Element>>,
    pub with_affinity: Option<Vec<Element>>,
    pub abilities: Option<Vec<VecFilter<Ability>>>,
    pub statuses: Option<Vec<VecFilter<CardStatus>>>,
    pub site_is_water: Option<bool>,
    pub site_types: Option<Vec<u16>>,
    pub artifact_types: Option<Vec<u16>>,
    pub minion_types: Option<Vec<u16>>,
    pub power: Option<NumericFilter<u16>>,
    /// For a query for the cards within range of a card: the zones in its
    /// range.
    pub range_zones: Option<Vec<Zone>>,
    pub can_be_targeted_by_player: Option<PlayerId>,
    /// For a query for the cards an attacker may attack: its valid targets.
    pub attack_targets: Option<Vec<CardId>>,
}

/// Whether identifier `id` meets filter `f`.
pub open spec fn id_filter_holds(f: ValueFilter<CardId>, id: CardId) -> bool {
    match f {
        ValueFilter::OneOf(items) => items@.contains(id),
        ValueFilter::NoneOf(items) => !items@.contains(id),
        ValueFilter::Equals(item) => item == id,
        ValueFilter::NotEquals(item) => item != id,
    }
}

/// Whether identifier `id` meets every filter of `fs`.
pub open spec fn id_filters_hold(fs: Seq<ValueFilter<CardId>>, id: CardId) -> bool {
    forall|i: int| 0 <= i < fs.len() ==> id_filter_holds(#[trigger] fs[i], id)
}

/// Whether the values `vals` meet filter `f`; `WithAny` holds when some
/// value of the filter is missing from `vals`.
pub open spec fn list_filter_holds<T>(f: VecFilter<T>, vals: Seq<T>) -> bool {
    match f {
        VecFilter::WithAll(items) => forall|i: int| 0 <= i < items.len() ==> vals.contains(#[trigger] items@[i]),
        VecFilter::WithoutAny(items) => forall|i: int| 0 <= i < items.len() ==> !vals.contains(#[trigger] items@[i]),
        VecFilter::WithAny(items) => exists|i: int| 0 <= i < items.len() && !vals.contains(#[trigger] items@[i]),
        VecFilter::With(item) => vals.contains(item),
        VecFilter::Without(item) => !vals.contains(item),
    }
}

/// Whether the values `vals` meet every filter of `fs`.
pub open spec fn list_filters_hold<T>(fs: Seq<VecFilter<T>>, vals: Seq<T>) -> bool {
    forall|i: int| 0 <= i < fs.len() ==> list_filter_holds(#[trigger] fs[i], vals)
}

/// Whether the lists `a` and `b` share an element.
pub open spec fn share<T>(a: Seq<T>, b: Seq<T>) -> bool {
    exists|i: int| 0 <= i < a.len() && b.contains(#[trigger] a[i])
}

/// Whether a card in zone `card_zone` stands in zone `zone`: a square holds
/// the cards on it and on the intersections at its corners.
pub open spec fn occupies(card_zone: ZoneView, zone: ZoneView) -> bool {
    match (zone, card_zone) {
        (
            ZoneView::Location(LocationView::Square(sq, r)),
            ZoneView::Location(LocationView::Square(csq, cr)),
        ) => sq == csq && r == cr,
        (
            ZoneView::Location(LocationView::Square(sq, r)),
            ZoneView::Location(LocationView::Intersection(csqs, cr)),
        ) => csqs.contains(sq) && r == cr,
        _ => card_zone == zone,
    }
}

/// Whether a card in zone `card_zone` stands in one of `zones`.
pub open spec fn occupies_any(card_zone: ZoneView, zones: Seq<Zone>) -> bool {
    exists|i: int| 0 <= i < zones.len() && occupies(card_zone, #[trigger] zones[i]@)
}

/// Whether `q` holds of `c`, or `q` is `None`.
pub open spec fn unless_none<T>(q: Option<T>, p: spec_fn(T) -> bool) -> bool {
    match q {
        Some(x) => p(x),
        None => true,
    }
}

/// Whether the card `c` meets the filters of zone and visibility of `q`.
pub open spec fn zone_filters_hold(q: CardQueryModel, c: CardModel) -> bool {
    &&& unless_none(q.card_id, |fs: Vec<ValueFilter<CardId>>| id_filters_hold(fs@, c.id))
    &&& (q.include_not_in_play == Some(true) || c.in_play)
    &&& unless_none(q.in_zones, |zs: Vec<Zone>| occupies_any(c.zone@, zs@))
    &&& unless_none(q.regions, |rs: Vec<Region>| rs@.contains(c.region))
    &&& forall|i: int| 0 <= i < q.spatial_zones.len() ==> occupies_any(c.zone@, #[trigger] q.spatial_zones@[i]@)
}

/// Whether the card `c` meets the filters of `q` on its plain properties.
pub open spec fn property_filters_hold(q: CardQueryModel, c: CardModel) -> bool {
    &&& unless_none(q.controlled_by, |fs: Vec<ValueFilter<PlayerId>>| id_filters_hold(fs@, c.controller_id))
    &&& unless_none(q.owned_by, |fs: Vec<ValueFilter<PlayerId>>| id_filters_hold(fs@, c.owner_id))
    &&& unless_none(q.card_types, |ts: Vec<CardType>|
        ts@.contains(c.card_type) || (ts@.contains(CardType::Minion) && c.is_minion) || (ts@.contains(CardType::Avatar) && c.is_avatar))
    &&& unless_none(q.tapped, |t: bool| c.tapped == t)
    &&& unless_none(q.rarity, |r: Rarity| c.rarity == r)
    &&& unless_none(q.oversized, |o: bool| c.oversized == o)
    &&& unless_none(q.carried_by, |b: Option<CardId>| c.bearer == b)
    &&& unless_none(q.bearer_of, |b: Option<CardId>| b == Some(c.id))
    &&& unless_none(q.card_name, |fs: Vec<StringFilter>|
        forall|i: int| 0 <= i < fs.len() ==> string_filter_matches(#[trigger] fs@[i], c.name@))
}

/// Whether the card `c` meets the filters of `q` on what the game works
/// out for it.
pub open spec fn computed_filters_hold(q: CardQueryModel, c: CardModel) -> bool {
    &&& unless_none(q.mana_cost, |f: NumericFilter<u8>| match c.printed_mana {
        Some(Some(m)) => numeric_filter_matches(f, m),
        Some(None) => false,
        None => true,
    })
    &&& unless_none(q.elements, |es: Vec<Element>| share(es@, c.elements@))
    &&& unless_none(q.with_affinity_in, |es: Vec<Element>| share(es@, c.elements@))
    &&& unless_none(q.with_affinity, |es: Vec<Element>| share(es@, c.elements@))
    &&& unless_none(q.abilities, |fs: Vec<VecFilter<Ability>>| list_filters_hold(fs@, c.abilities@))
    &&& unless_none(q.statuses, |fs: Vec<VecFilter<CardStatus>>| list_filters_hold(fs@, c.statuses@))
    &&& unless_none(q.site_is_water, |w: bool| match c.site_water {
        Some(water) => (water != 0) == w,
        None => false,
    })
    &&& unless_none(q.site_types, |ts: Vec<u16>| match c.site_types {
        Some(cts) => share(ts@, cts@),
        None => false,
    })
    &&& unless_none(q.artifact_types, |ts: Vec<u16>| match c.artifact_types {
        Some(cts) => share(ts@, cts@),
        None => false,
    })
    &&& unless_none(q.minion_types, |ts: Vec<u16>| match c.minion_types {
        Some(cts) => share(ts@, cts@),
        None => false,
    })
    &&& unless_none(q.power, |f: NumericFilter<u16>| match c.power {
        Some(p) => numeric_filter_matches(f, p),
        None => false,
    })
    &&& unless_none(q.range_zones, |zs: Vec<Zone>| zones_view(zs@).contains(c.zone@))
    &&& unless_none(q.can_be_targeted_by_player, |p: PlayerId| c.targetable_by@.contains(p))
    &&& unless_none(q.attack_targets, |ts: Vec<CardId>| ts@.contains(c.id))
}

/// Whether the card `c` meets every filter of the query `q`.
pub open spec fn query_matches(q: CardQueryModel, c: CardModel) -> bool {
    zone_filters_hold(q, c) && property_filters_hold(q, c) && computed_filters_hold(q, c)
}

/// Whether `items` holds `x`, for a type whose `==` is equality.
#[verifier::loop_isolation(false)]
fn holds_value<T: PartialEq + Copy>(items: &Vec<T>, x: T) -> (r: bool)
    requires
        T::obeys_eq_spec(),
        forall|a: T, b: T| (#[trigger] a.eq_spec(&b)) <==> (a == b),
    ensures
        r == items@.contains(x),
{
    let mut i: usize = 0;
    while i < items.len()
        invariant
            i <= items@.len(),
            forall|j: int| 0 <= j < i ==> items@[j] != x,
        decreases items@.len() - i,
    {
        if items[i] == x {
            assert(items@[i as int] == x);
            return true;
        }
        i += 1;
    }
    false
}

/// For a type whose `==` is equality, holding an equal value is holding
/// the value.
proof fn lemma_equal_is_contained<T: PartialEq>(items: Seq<T>, x: T)
    requires
        forall|a: T, b: T| (#[trigger] a.eq_spec(&b)) <==> (a == b),
    ensures
        holds_equal(items, x) == items.contains(x),
{
    if items.contains(x) {
        let i = choose|i: int| 0 <= i < items.len() && items[i] == x;
        assert(items[i].eq_spec(&x));
    }
}

/// For a type whose `==` is equality, a list filter of the query module
/// holds exactly as `list_filter_holds` says.
proof fn lemma_list_filter<T: PartialEq>(f: VecFilter<T>, vals: Seq<T>)
    requires
        forall|a: T, b: T| (#[trigger] a.eq_spec(&b)) <==> (a == b),
    ensures
        vec_filter_matches(f, vals) == list_filter_holds(f, vals),
{
    assert forall|x: T| #[trigger] holds_equal(vals, x) == vals.contains(x) by {
        lemma_equal_is_contained(vals, x);
    }
}

/// Whether the values `vals` meet filter `f`.
fn list_filter_ok<T: PartialEq + Copy>(f: &VecFilter<T>, vals: &Vec<T>) -> (r: bool)
    requires
        T::obeys_eq_spec(),
        forall|a: T, b: T| (#[trigger] a.eq_spec(&b)) <==> (a == b),
    ensures
        r == list_filter_holds(*f, vals@),
{
    let r = f.matches(vals.as_slice());
    proof {
        lemma_list_filter(*f, vals@);
    }
    r
}

/// Whether `items` holds the identifier `id`.
fn has_id(items: &Vec<CardId>, id: &CardId) -> (r: bool)
    ensures
        r == items@.contains(*id),
{
    let mut i: usize = 0;
    while i < items.len()
        invariant
            i <= items@.len(),
            forall|j: int| 0 <= j < i ==> items@[j] != *id,
        decreases items@.len() - i,
    {
        if same_id(&items[i], id) {
            return true;
        }
        i += 1;
    }
    false
}

impl ValueFilter<CardId> {
    /// Whether identifier `id` meets this filter, identifiers being
    /// compared by value.
    pub fn matches_id(&self, id: &CardId) -> (r: bool)
        ensures
            r == id_filter_holds(*self, *id),
    {
        match self {
            ValueFilter::OneOf(items) => has_id(items, id),
            ValueFilter::NoneOf(items) => !has_id(items, id),
            ValueFilter::Equals(item) => same_id(item, id),
            ValueFilter::NotEquals(item) => !same_id(item, id),
        }
    }
}

/// Whether identifier `id` meets every filter of `fs`.
pub(crate) fn id_filters_ok(fs: &Vec<ValueFilter<CardId>>, id: &CardId) -> (r: bool)
    ensures
        r == id_filters_hold(fs@, *id),
{
    let mut i: usize = 0;
    while i < fs.len()
        invariant
            i <= fs@.len(),
            forall|j: int| 0 <= j < i ==> id_filter_holds(#[trigger] fs@[j], *id),
        decreases fs@.len() - i,
    {
        if !fs[i].matches_id(id) {
            return false;
        }
        i += 1;
    }
    true
}

/// Whether `a` and `b` share a value, for a type whose `==` is equality.
#[verifier::loop_isolation(false)]
fn share_values<T: PartialEq + Copy>(a: &Vec<T>, b: &Vec<T>) -> (r: bool)
    requires
        T::obeys_eq_spec(),
        forall|x: T, y: T| (#[trigger] x.eq_spec(&y)) <==> (x == y),
    ensures
        r == share(a@, b@),
{
    let mut i: usize = 0;
    while i < a.len()
        invariant
            i <= a@.len(),
            forall|j: int| 0 <= j < i ==> !b@.contains(#[trigger] a@[j]),
        decreases a@.len() - i,
    {
        if holds_value(b, a[i]) {
            return true;
        }
        i += 1;
    }
    false
}

/// Whether a card in zone `card_zone` stands in zone `zone`.
pub fn card_occupies_zone(card_zone: &Zone, zone: &Zone) -> (r: bool)
    ensures
        r == occupies(card_zone@, zone@),
{
    match (zone, card_zone) {
        (Zone::Location(Location::Square(sq, region)), Zone::Location(Location::Square(csq, cregion))) => {
            *sq == *csq && *region == *cregion
        },
        (
            Zone::Location(Location::Square(sq, region)),
            Zone::Location(Location::Intersection(csqs, cregion)),
        ) => holds_value(csqs, *sq) && *region == *cregion,
        _ => card_zone.same_as(zone),
    }
}

/// Whether a card in zone `card_zone` stands in one of `zones`.
fn occupies_any_zone(card_zone: &Zone, zones: &Vec<Zone>) -> (r: bool)
    ensures
        r == occupies_any(card_zone@, zones@),
{
    let mut i: usize = 0;
    while i < zones.len()
        invariant
            i <= zones@.len(),
            forall|j: int| 0 <= j < i ==> !occupies(card_zone@, #[trigger] zones@[j]@),
        decreases zones@.len() - i,
    {
        if card_occupies_zone(card_zone, &zones[i]) {
            return true;
        }
        i += 1;
    }
    false
}

/// Whether `name` meets every filter of `fs`.
fn name_filters_ok(fs: &Vec<StringFilter>, name: &String) -> (r: bool)
    ensures
        r == forall|i: int| 0 <= i < fs@.len() ==> string_filter_matches(#[trigger] fs@[i], name@),
{
    let mut i: usize = 0;
    while i < fs.len()
        invariant
            i <= fs@.len(),
            forall|j: int| 0 <= j < i ==> string_filter_matches(#[trigger] fs@[j], name@),
        decreases fs@.len() - i,
    {
        if !fs[i].matches(name.as_str()) {
            return false;
        }
        i += 1;
    }
    true
}

/// Whether the abilities `vals` meet every filter of `fs`.
fn ability_filters_ok(fs: &Vec<VecFilter<Ability>>, vals: &Vec<Ability>) -> (r: bool)
    ensures
        r == list_filters_hold(fs@, vals@),
{
    let mut i: usize = 0;
    while i < fs.len()
        invariant
            i <= fs@.len(),
            forall|j: int| 0 <= j < i ==> list_filter_holds(#[trigger] fs@[j], vals@),
        decreases fs@.len() - i,
    {
        if !list_filter_ok(&fs[i], vals) {
            return false;
        }
        i += 1;
    }
    true
}

/// Whether the statuses `vals` meet every filter of `fs`.
fn status_filters_ok(fs: &Vec<VecFilter<CardStatus>>, vals: &Vec<CardStatus>) -> (r: bool)
    ensures
        r == list_filters_hold(fs@, vals@),
{
    let mut i: usize = 0;
    while i < fs.len()
        invariant
            i <= fs@.len(),
            forall|j: int| 0 <= j < i ==> list_filter_holds(#[trigger] fs@[j], vals@),
        decreases fs@.len() - i,
    {
        if !list_filter_ok(&fs[i], vals) {
            return false;
        }
        i += 1;
    }
    true
}

/// Whether the card `c` meets the filters of zone and visibility of `q`.
fn zone_filters_ok(q: &CardQueryModel, c: &CardModel) -> (r: bool)
    ensures
        r == zone_filters_hold(*q, *c),
{
    if let Some(fs) = &q.card_id {
        if !id_filters_ok(fs, &c.id) {
            return false;
        }
    }
    let with_hidden = match q.include_not_in_play {
        Some(b) => b,
        None => false,
    };
    if !with_hidden && !c.in_play {
        return false;
    }
    if let Some(zs) = &q.in_zones {
        if !occupies_any_zone(&c.zone, zs) {
            return false;
        }
    }
    if let Some(rs) = &q.regions {
        if !holds_value(rs, c.region) {
            return false;
        }
    }
    let mut i: usize = 0;
    while i < q.spatial_zones.len()
        invariant
            i <= q.spatial_zones@.len(),
            forall|j: int| 0 <= j < i ==> occupies_any(c.zone@, #[trigger] q.spatial_zones@[j]@),
        decreases q.spatial_zones@.len() - i,
    {
        if !occupies_any_zone(&c.zone, &q.spatial_zones[i]) {
            return false;
        }
        i += 1;
    }
    true
}

/// Whether the card `c` meets the filters of `q` on its plain properties.
fn property_filters_ok(q: &CardQueryModel, c: &CardModel) -> (r: bool)
    ensures
        r == property_filters_hold(*q, *c),
{
    if let Some(fs) = &q.controlled_by {
        if !id_filters_ok(fs, &c.controller_id) {
            return false;
        }
    }
    if let Some(fs) = &q.owned_by {
        if !id_filters_ok(fs, &c.owner_id) {
            return false;
        }
    }
    if let Some(ts) = &q.card_types {
        if !holds_value(ts, c.card_type) && !(holds_value(ts, CardType::Minion) && c.is_minion)
            && !(holds_value(ts, CardType::Avatar) && c.is_avatar) {
            return false;
        }
    }
    if let Some(t) = q.tapped {
        if c.tapped != t {
            return false;
        }
    }
    if let Some(rarity) = q.rarity {
        if c.rarity != rarity {
            return false;
        }
    }
    if let Some(o) = q.oversized {
        if c.oversized != o {
            return false;
        }
    }
    if let Some(carrier) = &q.carried_by {
        let same = match (c.bearer, *carrier) {
            (Some(a), Some(b)) => same_id(&a, &b),
            (None, None) => true,
            _ => false,
        };
        if !same {
            return false;
        }
    }
    if let Some(bearer) = &q.bearer_of {
        let holds = match bearer {
            Some(b) => same_id(b, &c.id),
            None => false,
        };
        if !holds {
            return false;
        }
    }
    if let Some(fs) = &q.card_name {
        if !name_filters_ok(fs, &c.name) {
            return false;
        }
    }
    true
}

/// Whether the card `c` meets the filters of `q` on what the game works
/// out for it.
fn computed_filters_ok(q: &CardQueryModel, c: &CardModel) -> (r: bool)
    ensures
        r == computed_filters_hold(*q, *c),
{
    if let Some(f) = &q.mana_cost {
        match c.printed_mana {
            Some(Some(m)) => {
                if !f.matches(m) {
                    return false;
                }
            },
            Some(None) => {
                return false;
            },
            None => {},
        }
    }
    if let Some(es) = &q.elements {
        if !share_values(es, &c.elements) {
            return false;
        }
    }
    if let Some(es) = &q.with_affinity_in {
        if !share_values(es, &c.elements) {
            return false;
        }
    }
    if let Some(es) = &q.with_affinity {
        if !share_values(es, &c.elements) {
            return false;
        }
    }
    if let Some(fs) = &q.abilities {
        if !ability_filters_ok(fs, &c.abilities) {
            return false;
        }
    }
    if let Some(fs) = &q.statuses {
        if !status_filters_ok(fs, &c.statuses) {
            return false;
        }
    }
    if let Some(w) = q.site_is_water {
        match c.site_water {
            Some(water) => {
                if (water != 0) != w {
                    return false;
                }
            },
            None => {
                return false;
            },
        }
    }
    if let Some(ts) = &q.site_types {
        match &c.site_types {
            Some(cts) => {
                if !share_values(ts, cts) {
                    return false;
                }
            },
            None => {
                return false;
            },
        }
    }
    if let Some(ts) = &q.artifact_types {
        match &c.artifact_types {
            Some(cts) => {
                if !share_values(ts, cts) {
                    return false;
                }
            },
            None => {
                return false;
            },
        }
    }
    if let Some(ts) = &q.minion_types {
        match &c.minion_types {
            Some(cts) => {
                if !share_values(ts, cts) {
                    return false;
                }
            },
            None => {
                return false;
            },
        }
    }
    if let Some(f) = &q.power {
        match c.power {
            Some(p) => {
                if !f.matches(p) {
                    return false;
                }
            },
            None => {
                return false;
            },
        }
    }
    if let Some(zs) = &q.range_zones {
        if !contains_zone(zs, &c.zone) {
            return false;
        }
    }
    if let Some(p) = &q.can_be_targeted_by_player {
        if !has_id(&c.targetable_by, p) {
            return false;
        }
    }
    if let Some(ts) = &q.attack_targets {
        if !has_id(ts, &c.id) {
            return false;
        }
    }
    true
}

/// Whether the card `c` meets every filter of the query `q`: zone and
/// visibility first, then the card's plain properties, then what the game
/// works out for it.
pub fn card_matches(q: &CardQueryModel, c: &CardModel) -> (r: bool)
    ensures
        r == query_matches(*q, *c),
{
    zone_filters_ok(q, c) && property_filters_ok(q, c) && computed_filters_ok(q, c)
}

impl Default for CardQueryModel {
    /// A query with no filter, which matches the cards in play.
    fn default() -> (r: Self)
        ensures
            r.card_id is None && r.include_not_in_play is None && r.in_zones is None
                && r.regions is None && r.spatial_zones@.len() == 0 && r.controlled_by is None
                && r.owned_by is None && r.card_types is None && r.tapped is None && r.rarity is None
                && r.oversized is None && r.carried_by is None && r.bearer_of is None
                && r.card_name is None && r.mana_cost is None && r.elements is None
                && r.with_affinity_in is None && r.with_affinity is None && r.abilities is None
                && r.statuses is None && r.site_is_water is None && r.site_types is None
                && r.artifact_types is None && r.minion_types is None && r.power is None
                && r.range_zones is None && r.can_be_targeted_by_player is None
                && r.attack_targets is None,
    {
        CardQueryModel {
            card_id: None,
            include_not_in_play: None,
            in_zones: None,
            regions: None,
            spatial_zones: Vec::new(),
            controlled_by: None,
            owned_by: None,
            card_types: None,
            tapped: None,
            rarity: None,
            oversized: None,
            carried_by: None,
            bearer_of: None,
            card_name: None,
            mana_cost: None,
            elements: None,
            with_affinity_in: None,
            with_affinity: None,
            abilities: None,
            statuses: None,
            site_is_water: None,
            site_types: None,
            artifact_types: None,
            minion_types: None,
            power: None,
            range_zones: None,
            can_be_targeted_by_player: None,
            attack_targets: None,
        }
    }
}

/// A query without filters matches exactly the cards in play.
pub proof fn unfiltered_query_matches_cards_in_play(q: CardQueryModel, c: CardModel)
    requires
        q.card_id is None && q.include_not_in_play is None && q.in_zones is None
            && q.regions is None && q.spatial_zones@.len() == 0 && q.controlled_by is None
            && q.owned_by is None && q.card_types is None && q.tapped is None && q.rarity is None
            && q.oversized is None && q.carried_by is None && q.bearer_of is None
            && q.card_name is None && q.mana_cost is None && q.elements is None
            && q.with_affinity_in is None && q.with_affinity is None && q.abilities is None
            && q.statuses is None && q.site_is_water is None && q.site_types is None
            && q.artifact_types is None && q.minion_types is None && q.power is None
            && q.range_zones is None && q.can_be_targeted_by_player is None
            && q.attack_targets is None,
    ensures
        query_matches(q, c) == c.in_play,
{
}

/// A card standing on an intersection stands in each square at its
/// corners, in its own region, and in no square of another region.
pub proof fn intersections_stand_in_their_squares(squares: Seq<u8>, region: Region, sq: u8, r: Region)
    ensures
        occupies(
            ZoneView::Location(LocationView::Intersection(squares, region)),
            ZoneView::Location(LocationView::Square(sq, r)),
        ) == (squares.contains(sq) && r == region),
{
}

/// A spatial filter of a card query: the zones a card must stand in.
#[derive(Debug, Clone)]
pub enum SpatialFilterModel {
    /// The zone of a card.
    ZoneOfCard(CardId),
    /// The zones that a card's aura affects, or else the card's zone.
    AffectedZonesOfCard(CardId),
    /// Zones around a card, `zones` being what the board gives for its
    /// location; only while the card is in play.
    AroundCardInPlay { card_id: CardId, zones: Vec<Zone> },
    /// Zones that the board gives for a location.
    Locations(Vec<Zone>),
}

/// The zones of aura `id` among `auras`, if it is one.
pub open spec fn aura_zones_of(auras: Seq<(CardId, Vec<Zone>)>, id: CardId) -> Option<Seq<ZoneView>>
    decreases auras.len(),
{
    if auras.len() == 0 {
        None
    } else if auras[0].0 == id {
        Some(zones_view(auras[0].1@))
    } else {
        aura_zones_of(auras.drop_first(), id)
    }
}

/// The zones that filter `f` lets a card stand in, the cards of the game
/// being `cards` and the zones of each aura being `auras`; a filter on a
/// card that is not in the game lets none.
pub open spec fn filter_zones(f: SpatialFilterModel, cards: Seq<CardModel>, auras: Seq<(CardId, Vec<Zone>)>) -> Seq<ZoneView> {
    match f {
        SpatialFilterModel::ZoneOfCard(id) => match model_index(cards, id) {
            Some(i) => seq![cards[i].zone@],
            None => Seq::empty(),
        },
        SpatialFilterModel::AffectedZonesOfCard(id) => match model_index(cards, id) {
            Some(i) => match aura_zones_of(auras, id) {
                Some(zs) => zs,
                None => seq![cards[i].zone@],
            },
            None => Seq::empty(),
        },
        SpatialFilterModel::AroundCardInPlay { card_id, zones } => match model_index(cards, card_id) {
            Some(i) => if cards[i].in_play {
                zones_view(zones@)
            } else {
                Seq::empty()
            },
            None => Seq::empty(),
        },
        SpatialFilterModel::Locations(zones) => zones_view(zones@),
    }
}

/// The zones of aura `id` among `auras`, if it is one.
fn find_aura_zones(auras: &Vec<(CardId, Vec<Zone>)>, id: &CardId) -> (r: Option<Vec<Zone>>)
    ensures
        match r {
            Some(zs) => aura_zones_of(auras@, *id) == Some(zones_view(zs@)),
            None => aura_zones_of(auras@, *id) is None,
        },
{
    let mut i: usize = 0;
    assert(auras@.skip(0) =~= auras@);
    while i < auras.len()
        invariant
            i <= auras@.len(),
            aura_zones_of(auras@, *id) == aura_zones_of(auras@.skip(i as int), *id),
        decreases auras@.len() - i,
    {
        assert(auras@.skip(i as int).drop_first() =~= auras@.skip(i + 1));
        assert(auras@.skip(i as int)[0] == auras@[i as int]);
        if same_id(&auras[i].0, id) {
            let zs = copy_zones(&auras[i].1);
            assert(zones_view(zs@) =~= zones_view(auras@[i as int].1@));
            return Some(zs);
        }
        i += 1;
    }
    assert(auras@.skip(i as int) =~= Seq::<(CardId, Vec<Zone>)>::empty());
    None
}

/// The zones that each of the spatial filters `filters` lets a card stand
/// in, as a query resolves them against the game: the cards of the game
/// being `cards` and the zones of each aura being `auras`.
pub fn spatial_zones(
    filters: &Vec<SpatialFilterModel>,
    cards: &Vec<CardModel>,
    auras: &Vec<(CardId, Vec<Zone>)>,
) -> (r: Vec<Vec<Zone>>)
    ensures
        r@.len() == filters@.len(),
        forall|k: int| 0 <= k < r@.len() ==> zones_view((#[trigger] r@[k])@) == filter_zones(filters@[k], cards@, auras@),
{
    let mut out: Vec<Vec<Zone>> = Vec::new();
    let mut k: usize = 0;
    while k < filters.len()
        invariant
            k <= filters@.len(),
            out@.len() == k,
            forall|j: int| 0 <= j < k ==> zones_view((#[trigger] out@[j])@) == filter_zones(filters@[j], cards@, auras@),
        decreases filters@.len() - k,
    {
        let zs: Vec<Zone> = match &filters[k] {
            SpatialFilterModel::ZoneOfCard(id) => {
                let mut v: Vec<Zone> = Vec::new();
                match find_model(cards, id) {
                    Some(i) => {
                        v.push(cards[i].zone.duplicate());
                    },
                    None => {},
                }
                assert(zones_view(v@) =~= filter_zones(filters@[k as int], cards@, auras@));
                v
            },
            SpatialFilterModel::AffectedZonesOfCard(id) => match find_model(cards, id) {
                Some(i) => match find_aura_zones(auras, id) {
                    Some(zs) => zs,
                    None => {
                        let mut v: Vec<Zone> = Vec::new();
                        v.push(cards[i].zone.duplicate());
                        assert(zones_view(v@) =~= filter_zones(filters@[k as int], cards@, auras@));
                        v
                    },
                },
                None => {
                    let v: Vec<Zone> = Vec::new();
                    assert(zones_view(v@) =~= filter_zones(filters@[k as int], cards@, auras@));
                    v
                },
            },
            SpatialFilterModel::AroundCardInPlay { card_id, zones } => {
                let in_play = match find_model(cards, card_id) {
                    Some(i) => cards[i].in_play,
                    None => false,
                };
                if in_play {
                    copy_zones(zones)
                } else {
                    let v: Vec<Zone> = Vec::new();
                    assert(zones_view(v@) =~= filter_zones(filters@[k as int], cards@, auras@));
                    v
                }
            },
            SpatialFilterModel::Locations(zones) => copy_zones(zones),
        };
        out.push(zs);
        k += 1;
    }
    out
}

/// A card that a query matches meets each of the query's filters: it is
/// in play unless the query takes cards out of play, it stands in one of
/// the query's zones and regions, and it has the tapping, rarity, size,
/// bearer, power, targets and attack targets that the query asks for.
pub proof fn matched_cards_meet_each_filter(q: CardQueryModel, c: CardModel)
    requires
        query_matches(q, c),
    ensures
        q.include_not_in_play != Some(true) ==> c.in_play,
        q.tapped matches Some(t) ==> c.tapped == t,
        q.rarity matches Some(r) ==> c.rarity == r,
        q.oversized matches Some(o) ==> c.oversized == o,
        q.carried_by matches Some(b) ==> c.bearer == b,
        q.bearer_of matches Some(b) ==> b == Some(c.id),
        q.regions matches Some(rs) ==> rs@.contains(c.region),
        q.in_zones matches Some(zs) ==> exists|i: int| 0 <= i < zs@.len() && occupies(c.zone@, #[trigger] zs@[i]@),
        q.card_types matches Some(ts) ==> ts@.contains(c.card_type) || (ts@.contains(CardType::Minion) && c.is_minion)
            || (ts@.contains(CardType::Avatar) && c.is_avatar),
        q.power is Some ==> c.power is Some,
        q.mana_cost is Some ==> c.printed_mana != Some(None::<u8>),
        q.can_be_targeted_by_player matches Some(p) ==> c.targetable_by@.contains(p),
        q.attack_targets matches Some(ts) ==> ts@.contains(c.id),
        q.range_zones matches Some(zs) ==> zones_view(zs@).contains(c.zone@),
        q.site_types is Some ==> c.site_types is Some,
        q.site_is_water is Some ==> c.site_water is Some,
{
}

} // verus!
