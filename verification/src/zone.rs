//! Zones and locations.
//!
//! The realm is a grid of five columns and four rows; its squares are
//! numbered 1 to 20 row by row. An intersection is the point where squares
//! meet, and is named by the squares around it.

use crate::card::Region;
use vstd::prelude::*;

verus! {

/// A place in the realm.
#[derive(Debug, Clone, PartialEq, Eq, Hash)]
pub enum Location {
    Square(u8, Region),
    Intersection(Vec<u8>, Region),
}

/// The mathematical value of a `Location`.
pub enum LocationView {
    Square(u8, Region),
    Intersection(Seq<u8>, Region),
}

impl View for Location {
    type V = LocationView;

    open spec fn view(&self) -> LocationView {
        match self {
            Location::Square(s, r) => LocationView::Square(*s, *r),
            Location::Intersection(v, r) => LocationView::Intersection(v@, *r),
        }
    }
}

/// Where a card can be.
#[derive(Debug, Clone, PartialEq, Eq, Hash)]
pub enum Zone {
    NoZone,
    Hand,
    Spellbook,
    Atlasbook,
    Cemetery,
    Banish,
    Location(Location),
}

/// The mathematical value of a `Zone`.
pub enum ZoneView {
    NoZone,
    Hand,
    Spellbook,
    Atlasbook,
    Cemetery,
    Banish,
    Location(LocationView),
}

impl View for Zone {
    type V = ZoneView;

    open spec fn view(&self) -> ZoneView {
        match self {
            Zone::NoZone => ZoneView::NoZone,
            Zone::Hand => ZoneView::Hand,
            Zone::Spellbook => ZoneView::Spellbook,
            Zone::Atlasbook => ZoneView::Atlasbook,
            Zone::Cemetery => ZoneView::Cemetery,
            Zone::Banish => ZoneView::Banish,
            Zone::Location(l) => ZoneView::Location(l@),
        }
    }
}

/// The views of a sequence of zones.
pub open spec fn zones_view(zones: Seq<Zone>) -> Seq<ZoneView> {
    zones.map_values(|z: Zone| z@)
}

/// The zone of the square `s` in region `r`.
pub open spec fn square_zone(s: u8, r: Region) -> ZoneView {
    ZoneView::Location(LocationView::Square(s, r))
}

/// The zone of the intersection of the squares `s` in region `r`.
pub open spec fn intersection_zone(s: Seq<u8>, r: Region) -> ZoneView {
    ZoneView::Location(LocationView::Intersection(s, r))
}

/// The square number of a zone that is a square.
pub open spec fn square_of(z: ZoneView) -> Option<u8> {
    match z {
        ZoneView::Location(LocationView::Square(s, _)) => Some(s),
        _ => None,
    }
}

/// The squares around each intersection of the realm, row by row.
pub open spec fn intersection_squares() -> Seq<Seq<u8>> {
    Seq::new(12, |i: int| {
        let s = (5 * (i / 4) + (i % 4) + 1) as u8;
        seq![s, (s + 1) as u8, (s + 5) as u8, (s + 6) as u8]
    })
}

/// Compares two byte vectors element by element.
pub fn same_squares(a: &Vec<u8>, b: &Vec<u8>) -> (r: bool)
    ensures
        r == (a@ == b@),
{
    if a.len() != b.len() {
        return false;
    }
    let mut i: usize = 0;
    while i < a.len()
        invariant
            a.len() == b.len(),
            i <= a.len(),
            forall|j: int| 0 <= j < i ==> a@[j] == b@[j],
        decreases a.len() - i,
    {
        if a[i] != b[i] {
            return false;
        }
        i += 1;
    }
    assert(a@ =~= b@);
    true
}

/// A copy of a byte vector.
pub fn copy_squares(a: &Vec<u8>) -> (r: Vec<u8>)
    ensures
        r@ == a@,
{
    let mut r: Vec<u8> = Vec::new();
    let mut i: usize = 0;
    while i < a.len()
        invariant
            i <= a.len(),
            r@ =~= a@.take(i as int),
        decreases a.len() - i,
    {
        r.push(a[i]);
        i += 1;
    }
    assert(a@.take(a.len() as int) =~= a@);
    r
}

impl Location {
    /// A copy of this location.
    pub fn duplicate(&self) -> (r: Location)
        ensures
            r@ == self@,
    {
        match self {
            Location::Square(s, region) => Location::Square(*s, *region),
            Location::Intersection(v, region) => Location::Intersection(copy_squares(v), *region),
        }
    }

    /// Whether two locations are the same place.
    pub fn same_as(&self, other: &Location) -> (r: bool)
        ensures
            r == (self@ == other@),
    {
        match (self, other) {
            (Location::Square(a, ra), Location::Square(b, rb)) => *a == *b && *ra == *rb,
            (Location::Intersection(a, ra), Location::Intersection(b, rb)) => {
                *ra == *rb && same_squares(a, b)
            },
            _ => false,
        }
    }
}

impl Zone {
    /// A copy of this zone.
    pub fn duplicate(&self) -> (r: Zone)
        ensures
            r@ == self@,
    {
        match self {
            Zone::NoZone => Zone::NoZone,
            Zone::Hand => Zone::Hand,
            Zone::Spellbook => Zone::Spellbook,
            Zone::Atlasbook => Zone::Atlasbook,
            Zone::Cemetery => Zone::Cemetery,
            Zone::Banish => Zone::Banish,
            Zone::Location(l) => Zone::Location(l.duplicate()),
        }
    }

    /// Whether two zones are the same.
    pub fn same_as(&self, other: &Zone) -> (r: bool)
        ensures
            r == (self@ == other@),
    {
        match (self, other) {
            (Zone::NoZone, Zone::NoZone) => true,
            (Zone::Hand, Zone::Hand) => true,
            (Zone::Spellbook, Zone::Spellbook) => true,
            (Zone::Atlasbook, Zone::Atlasbook) => true,
            (Zone::Cemetery, Zone::Cemetery) => true,
            (Zone::Banish, Zone::Banish) => true,
            (Zone::Location(a), Zone::Location(b)) => a.same_as(b),
            _ => false,
        }
    }

    /// The square number of this zone, if it is a square.
    pub fn get_square(&self) -> (r: Option<u8>)
        ensures
            r == square_of(self@),
    {
        match self {
            Zone::Location(Location::Square(s, _)) => Some(*s),
            _ => None,
        }
    }

    /// Every intersection of the surface, row by row.
    pub fn all_intersections() -> (r: Vec<Zone>)
        ensures
            zones_view(r@) == intersection_squares().map_values(
                |s: Seq<u8>| intersection_zone(s, Region::Surface),
            ),
    {
        let mut r: Vec<Zone> = Vec::new();
        let mut row: u8 = 0;
        while row < 3
            invariant
                row <= 3,
                zones_view(r@) == intersection_squares().take(4 * row as int).map_values(
                    |s: Seq<u8>| intersection_zone(s, Region::Surface),
                ),
            decreases 3 - row,
        {
            let mut col: u8 = 0;
            while col < 4
                invariant
                    row < 3,
                    col <= 4,
                    zones_view(r@) == intersection_squares().take(4 * row + col).map_values(
                        |s: Seq<u8>| intersection_zone(s, Region::Surface),
                    ),
                decreases 4 - col,
            {
                let s: u8 = 5 * row + col + 1;
                let mut squares: Vec<u8> = Vec::new();
                squares.push(s);
                squares.push(s + 1);
                squares.push(s + 5);
                squares.push(s + 6);
                let ghost old_r = r@;
                r.push(Zone::Location(Location::Intersection(squares, Region::Surface)));
                proof {
                    let k = 4 * row + col;
                    assert(squares@ =~= intersection_squares()[k]);
                    assert(intersection_squares().take(k + 1) =~= intersection_squares().take(
                        k,
                    ).push(intersection_squares()[k]));
                    assert(zones_view(r@) =~= zones_view(old_r).push(r@.last()@));
                }
                col += 1;
            }
            row += 1;
        }
        assert(intersection_squares().take(12) =~= intersection_squares());
        r
    }
}

/// Whether `zones` holds a zone equal to `z`.
pub fn contains_zone(zones: &Vec<Zone>, z: &Zone) -> (r: bool)
    ensures
        r == zones_view(zones@).contains(z@),
{
    let mut i: usize = 0;
    while i < zones.len()
        invariant
            i <= zones.len(),
            forall|j: int| 0 <= j < i ==> zones@[j]@ != z@,
        decreases zones.len() - i,
    {
        if zones[i].same_as(z) {
            assert(zones_view(zones@)[i as int] == z@);
            return true;
        }
        i += 1;
    }
    proof {
        if zones_view(zones@).contains(z@) {
            let j = choose|j: int| 0 <= j < zones_view(zones@).len() && zones_view(zones@)[j] == z@;
            assert(zones@[j]@ == z@);
        }
    }
    false
}

} // verus!
