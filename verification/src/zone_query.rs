//! How a zone query is answered: with its fixed zone, by a random pick, or
//! by asking the player to pick among the right zones.

use crate::board::dedup;
use crate::game::dedup_zones;
use crate::ids::{same_id, PlayerId};
use crate::zone::{zones_view, Zone, ZoneView};
use rand::seq::IndexedRandom;
use vstd::prelude::*;

verus! {

/// A zone query, as far as choosing how to answer it goes.
#[derive(Debug, Clone)]
pub struct ZoneQueryModel {
    /// A fixed zone, which answers the query at once.
    pub zone: Option<Zone>,
    /// The zones to pick from.
    pub options: Option<Vec<Zone>>,
    /// Whether the zone is picked at random.
    pub random: bool,
    /// Whether only the zones of sites in play may be picked.
    pub sites_only: bool,
    /// Whose sites, when only sites may be picked.
    pub controlled_by: Option<PlayerId>,
    /// Whether ongoing effects may change the query.
    pub allow_modifiers: bool,
}

/// A site in play: its zone and who controls it.
#[derive(Debug, Clone)]
pub struct PlacedSite {
    pub zone: Zone,
    pub controller_id: PlayerId,
}

/// How a zone query is answered.
#[derive(Debug, Clone)]
pub enum ZoneChoice {
    /// With this zone.
    Fixed(Zone),
    /// By a random pick among the query's options as the game works them
    /// out.
    Random,
    /// By asking the player to pick one of these locations.
    Pick(Vec<Zone>),
    /// By asking the player to pick any location of the realm.
    PickInRealm,
}

/// The mathematical value of a `ZoneChoice`.
pub enum ZoneChoiceView {
    Fixed(ZoneView),
    Random,
    Pick(Seq<ZoneView>),
    PickInRealm,
}

impl View for ZoneChoice {
    type V = ZoneChoiceView;

    open spec fn view(&self) -> ZoneChoiceView {
        match self {
            ZoneChoice::Fixed(z) => ZoneChoiceView::Fixed(z@),
            ZoneChoice::Random => ZoneChoiceView::Random,
            ZoneChoice::Pick(zs) => ZoneChoiceView::Pick(zones_view(zs@)),
            ZoneChoice::PickInRealm => ZoneChoiceView::PickInRealm,
        }
    }
}

/// The zones of `zs` that are locations of the realm, in order.
pub open spec fn locations_among(zs: Seq<ZoneView>) -> Seq<ZoneView>
    decreases zs.len(),
{
    if zs.len() == 0 {
        Seq::empty()
    } else if zs.last() is Location {
        locations_among(zs.drop_last()).push(zs.last())
    } else {
        locations_among(zs.drop_last())
    }
}

/// The zones of the sites of `sites` controlled by `controlled_by` (by
/// anyone when it is `None`) that are locations of the realm, in order.
pub open spec fn site_locations(sites: Seq<PlacedSite>, controlled_by: Option<PlayerId>) -> Seq<ZoneView>
    decreases sites.len(),
{
    if sites.len() == 0 {
        Seq::empty()
    } else {
        let s = sites.last();
        let keep = s.zone@ is Location && match controlled_by {
            Some(p) => s.controller_id == p,
            None => true,
        };
        if keep {
            site_locations(sites.drop_last(), controlled_by).push(s.zone@)
        } else {
            site_locations(sites.drop_last(), controlled_by)
        }
    }
}

/// Whether ongoing effects are asked first whether they change query `q`:
/// they are when it allows it and has no fixed zone.
pub open spec fn consults_modifiers(q: ZoneQueryModel) -> bool {
    q.allow_modifiers && q.zone is None
}

/// How query `q` is answered, the sites in play being `sites`: with its
/// fixed zone; else at random; else by a pick among the locations of its
/// options; else, for a query on sites, among the locations of the sites
/// in play (of its controller, when it names one), equal neighbours merged;
/// else among all the locations of the realm.
pub open spec fn choice_of(q: ZoneQueryModel, sites: Seq<PlacedSite>) -> ZoneChoiceView {
    match q.zone {
        Some(z) => ZoneChoiceView::Fixed(z@),
        None => if q.random {
            ZoneChoiceView::Random
        } else {
            match q.options {
                Some(options) => ZoneChoiceView::Pick(locations_among(zones_view(options@))),
                None => if q.sites_only {
                    ZoneChoiceView::Pick(dedup(site_locations(sites, q.controlled_by)))
                } else {
                    ZoneChoiceView::PickInRealm
                },
            }
        },
    }
}

/// Whether ongoing effects are asked first whether they change `q`.
pub fn consults_zone_modifiers(q: &ZoneQueryModel) -> (r: bool)
    ensures
        r == consults_modifiers(*q),
{
    q.allow_modifiers && q.zone.is_none()
}

/// The locations among `zs`.
fn locations_of(zs: &Vec<Zone>) -> (r: Vec<Zone>)
    ensures
        zones_view(r@) == locations_among(zones_view(zs@)),
{
    let mut r: Vec<Zone> = Vec::new();
    let mut i: usize = 0;
    while i < zs.len()
        invariant
            i <= zs@.len(),
            zones_view(r@) == locations_among(zones_view(zs@.take(i as int))),
        decreases zs@.len() - i,
    {
        assert(zones_view(zs@.take(i + 1)).drop_last() =~= zones_view(zs@.take(i as int)));
        if let Zone::Location(_) = &zs[i] {
            let ghost before = r@;
            r.push(zs[i].duplicate());
            assert(zones_view(r@) =~= zones_view(before).push(zs@[i as int]@));
        }
        i += 1;
    }
    assert(zs@.take(zs@.len() as int) =~= zs@);
    r
}

/// The locations of the sites of `sites` controlled by `controlled_by`.
fn locations_of_sites(sites: &Vec<PlacedSite>, controlled_by: &Option<PlayerId>) -> (r: Vec<Zone>)
    ensures
        zones_view(r@) == site_locations(sites@, *controlled_by),
{
    let mut r: Vec<Zone> = Vec::new();
    let mut i: usize = 0;
    while i < sites.len()
        invariant
            i <= sites@.len(),
            zones_view(r@) == site_locations(sites@.take(i as int), *controlled_by),
        decreases sites@.len() - i,
    {
        assert(sites@.take(i + 1).drop_last() =~= sites@.take(i as int));
        let s = &sites[i];
        let by_controller = match controlled_by {
            Some(p) => same_id(&s.controller_id, p),
            None => true,
        };
        if let Zone::Location(_) = &s.zone {
            if by_controller {
                let ghost before = r@;
                r.push(s.zone.duplicate());
                assert(zones_view(r@) =~= zones_view(before).push(s.zone@));
            }
        }
        i += 1;
    }
    assert(sites@.take(sites@.len() as int) =~= sites@);
    r
}

/// How query `q` is answered once no ongoing effect changed it, the sites
/// in play being `sites` in the order the game holds them.
pub fn zone_choice(q: &ZoneQueryModel, sites: &Vec<PlacedSite>) -> (r: ZoneChoice)
    ensures
        r@ == choice_of(*q, sites@),
{
    if let Some(z) = &q.zone {
        ZoneChoice::Fixed(z.duplicate())
    } else if q.random {
        ZoneChoice::Random
    } else if let Some(options) = &q.options {
        ZoneChoice::Pick(locations_of(options))
    } else if q.sites_only {
        ZoneChoice::Pick(dedup_zones(locations_of_sites(sites, &q.controlled_by)))
    } else {
        ZoneChoice::PickInRealm
    }
}

/// One of `options`, picked at random.
///
/// Calls `rand::seq::IndexedRandom::choose` on the options with the
/// thread's random number generator (`rand::rng()`) and clones the zone it
/// picks. The crate's source returns nothing for no options and otherwise
/// one of them, at an index drawn from the options' range; which one is
/// left unsaid, as it is random.
#[verifier::external_body]
fn choose_zone(options: &Vec<Zone>) -> (r: Option<Zone>)
    ensures
        r is None <==> options@.len() == 0,
        r matches Some(z) ==> exists|i: int| 0 <= i < options@.len() && z@ == (#[trigger] options@[i])@,
{
    options.as_slice().choose(&mut rand::rng()).cloned()
}

/// The answer to a query answered at random: one of its options, `options`,
/// which are never none.
pub fn random_zone(options: &Vec<Zone>) -> (r: Zone)
    requires
        options@.len() > 0,
    ensures
        exists|i: int| 0 <= i < options@.len() && r@ == (#[trigger] options@[i])@,
{
    choose_zone(options).unwrap()
}

} // verus!
