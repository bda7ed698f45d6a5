//! Directions on the board.

use crate::board::{
    adjacent_candidates, adjacent_intersections, adjacent_zones, around_squares, dedup,
    diagonal_candidates, nearby_squares, nearby_zones, overlaps, shares_square,
    keep_on_board, knight_col, knight_offsets, knight_row, knight_targets, knight_zones, shifted_down, shifted_up, sorted_squares, squares_in, u8_le, well_formed_zone,
};
use crate::card::Region;
use crate::zone::{
    contains_zone, copy_squares, intersection_squares, intersection_zone, same_squares, square_zone,
    zones_view, Location, Zone, ZoneView,
};
pub use crate::ids::{CardId, PlayerId};
pub use crate::thresholds::{Element, Resources, Thresholds, ThresholdsDiff};
use crate::ids::same_id;
use crate::text::{decimal, push_decimal};
use vstd::prelude::*;
use vstd::relations::{sorted_by, total_ordering};
use vstd::seq_lib::{lemma_sorted_unique, to_multiset_build, to_multiset_insert, to_multiset_len};

verus! {

/// One of the eight compass directions on the board.
#[derive(Debug, Clone, Copy, PartialEq, Eq, Structural)]
pub enum Direction {
    Up,
    Down,
    Left,
    Right,
    TopLeft,
    TopRight,
    BottomLeft,
    BottomRight,
}

/// The direction seen from the other side of the board.
pub open spec fn opposite(d: Direction) -> Direction {
    match d {
        Direction::Up => Direction::Down,
        Direction::Down => Direction::Up,
        Direction::Left => Direction::Right,
        Direction::Right => Direction::Left,
        Direction::TopLeft => Direction::BottomRight,
        Direction::TopRight => Direction::BottomLeft,
        Direction::BottomLeft => Direction::TopRight,
        Direction::BottomRight => Direction::TopLeft,
    }
}

/// The directions in clockwise order, starting from `Up`.
pub open spec fn clockwise() -> Seq<Direction> {
    seq![
        Direction::Up,
        Direction::TopRight,
        Direction::Right,
        Direction::BottomRight,
        Direction::Down,
        Direction::BottomLeft,
        Direction::Left,
        Direction::TopLeft,
    ]
}

/// The position of a direction in the clockwise order.
pub open spec fn clockwise_index(d: Direction) -> int {
    match d {
        Direction::Up => 0,
        Direction::TopRight => 1,
        Direction::Right => 2,
        Direction::BottomRight => 3,
        Direction::Down => 4,
        Direction::BottomLeft => 5,
        Direction::Left => 6,
        Direction::TopLeft => 7,
    }
}

/// `d` turned `times` eighths of a turn clockwise.
pub open spec fn rotated(d: Direction, times: int) -> Direction {
    clockwise()[(clockwise_index(d) + times) % 8]
}

/// The name of a direction shown to players.
pub open spec fn direction_name(d: Direction) -> Seq<char> {
    match d {
        Direction::Up => "Up"@,
        Direction::Down => "Down"@,
        Direction::Left => "Left"@,
        Direction::Right => "Right"@,
        Direction::TopLeft => "Top Left"@,
        Direction::TopRight => "Top Right"@,
        Direction::BottomLeft => "Bottom Left"@,
        Direction::BottomRight => "Bottom Right"@,
    }
}

/// The error of a rotation whose direction is not in the clockwise order.
#[derive(Debug, Clone, Copy, PartialEq, Eq, Structural)]
pub enum DirectionError {
    InvalidDirection,
}

/// A choice offered to a player, with the name shown for it.
pub trait PlayerAction {
    fn get_name(&self) -> String;
}

impl PlayerAction for Direction {
    fn get_name(&self) -> (r: String)
        ensures
            r@ == direction_name(*self),
    {
        match self {
            Direction::Up => String::from_str("Up"),
            Direction::Down => String::from_str("Down"),
            Direction::Left => String::from_str("Left"),
            Direction::Right => String::from_str("Right"),
            Direction::TopLeft => String::from_str("Top Left"),
            Direction::TopRight => String::from_str("Top Right"),
            Direction::BottomLeft => String::from_str("Bottom Left"),
            Direction::BottomRight => String::from_str("Bottom Right"),
        }
    }
}

/// The four orthogonal directions.
pub fn cardinal_directions() -> (r: [Direction; 4])
    ensures
        r@ == seq![Direction::Up, Direction::Down, Direction::Left, Direction::Right],
{
    let r = [Direction::Up, Direction::Down, Direction::Left, Direction::Right];
    assert(r@ =~= seq![Direction::Up, Direction::Down, Direction::Left, Direction::Right]);
    r
}

impl Direction {
    /// Turns this direction `times` eighths of a turn clockwise. Every
    /// direction is in the clockwise order, so this always succeeds.
    pub fn rotate(&self, times: u8) -> (r: Result<Direction, DirectionError>)
        ensures
            r == Ok::<Direction, DirectionError>(rotated(*self, times as int)),
    {
        let directions: [Direction; 8] = [
            Direction::Up,
            Direction::TopRight,
            Direction::Right,
            Direction::BottomRight,
            Direction::Down,
            Direction::BottomLeft,
            Direction::Left,
            Direction::TopLeft,
        ];
        assert(directions@ =~= clockwise());
        let mut idx: usize = 0;
        while idx < 8
            invariant
                idx <= 8,
                directions@ == clockwise(),
                forall|j: int| 0 <= j < idx ==> directions@[j] != *self,
            decreases 8 - idx,
        {
            if directions[idx] == *self {
                assert(clockwise_index(*self) == idx);
                let new_idx = (idx + times as usize) % 8;
                return Ok(directions[new_idx]);
            }
            idx += 1;
        }
        assert(directions@[clockwise_index(*self)] == *self);
        Err(DirectionError::InvalidDirection)
    }

    /// Translates a direction picked on a flipped board into the board's own
    /// orientation.
    pub fn normalise(&self, board_flipped: bool) -> (r: Direction)
        ensures
            r == normalised(*self, board_flipped),
    {
        if board_flipped {
            match self {
                Direction::Up => Direction::Down,
                Direction::Down => Direction::Up,
                Direction::Left => Direction::Right,
                Direction::Right => Direction::Left,
                Direction::TopLeft => Direction::BottomRight,
                Direction::TopRight => Direction::BottomLeft,
                Direction::BottomLeft => Direction::TopRight,
                Direction::BottomRight => Direction::TopLeft,
            }
        } else {
            *self
        }
    }
}

} // verus!

verus! {

/// The squares of `cands` that lie on the board, in order.
fn on_board_squares(cands: &Vec<u8>) -> (r: Vec<u8>)
    ensures
        r@ == keep_on_board(cands@),
{
    let mut r: Vec<u8> = Vec::new();
    let mut i: usize = 0;
    while i < cands.len()
        invariant
            i <= cands.len(),
            r@ == keep_on_board(cands@.take(i as int)),
        decreases cands.len() - i,
    {
        assert(cands@.take(i + 1).drop_last() =~= cands@.take(i as int));
        let s = cands[i];
        if 1 <= s && s <= 20 {
            r.push(s);
        }
        i += 1;
    }
    assert(cands@.take(cands.len() as int) =~= cands@);
    r
}

/// The square zones of `squares` in `region`.
fn square_zones(squares: &Vec<u8>, region: Region) -> (r: Vec<Zone>)
    ensures
        zones_view(r@) == squares_in(squares@, region),
{
    let mut r: Vec<Zone> = Vec::new();
    let mut i: usize = 0;
    while i < squares.len()
        invariant
            i <= squares.len(),
            zones_view(r@) == squares_in(squares@.take(i as int), region),
        decreases squares.len() - i,
    {
        let ghost old_r = r@;
        r.push(Zone::Location(Location::Square(squares[i], region)));
        assert(zones_view(r@) =~= zones_view(old_r).push(r@.last()@));
        assert(squares@.take(i + 1) =~= squares@.take(i as int).push(squares@[i as int]));
        assert(squares_in(squares@.take(i + 1), region) =~= squares_in(
            squares@.take(i as int),
            region,
        ).push(square_zone(squares@[i as int], region)));
        i += 1;
    }
    assert(squares@.take(squares.len() as int) =~= squares@);
    r
}

/// Appends `more` to `zones`.
fn append_zones(zones: &mut Vec<Zone>, more: Vec<Zone>)
    ensures
        zones_view(final(zones)@) == zones_view(old(zones)@) + zones_view(more@),
{
    let ghost added = more@;
    let mut more = more;
    zones.append(&mut more);
    assert(zones_view(zones@) =~= zones_view(old(zones)@) + zones_view(added));
}

/// `zones` with every run of equal neighbours reduced to its first zone.
pub(crate) fn dedup_zones(zones: Vec<Zone>) -> (r: Vec<Zone>)
    ensures
        zones_view(r@) == dedup(zones_view(zones@)),
{
    let ghost s = zones_view(zones@);
    let mut r: Vec<Zone> = Vec::new();
    let mut i: usize = 0;
    while i < zones.len()
        invariant
            i <= zones.len(),
            s == zones_view(zones@),
            zones_view(r@) == dedup(s.take(i as int)),
        decreases zones.len() - i,
    {
        let ghost t = s.take(i + 1);
        assert(t.drop_last() =~= s.take(i as int));
        if i > 0 && zones[i].same_as(&zones[i - 1]) {
            assert(t[t.len() - 2] == t.last());
        } else {
            let ghost old_r = r@;
            r.push(zones[i].duplicate());
            assert(zones_view(r@) =~= zones_view(old_r).push(s[i as int]));
        }
        i += 1;
    }
    assert(s.take(zones.len() as int) =~= s);
    r
}

proof fn lemma_u8_le_total()
    ensures
        total_ordering(u8_le()),
{
}

/// `v` in ascending order.
fn sort_squares(v: &Vec<u8>) -> (r: Vec<u8>)
    ensures
        r@ == sorted_squares(v@),
{
    let mut out: Vec<u8> = Vec::new();
    let mut i: usize = 0;
    proof {
        assert(v@.take(0) =~= out@);
    }
    while i < v.len()
        invariant
            i <= v.len(),
            sorted_by(out@, u8_le()),
            out@.to_multiset() == v@.take(i as int).to_multiset(),
        decreases v.len() - i,
    {
        let x = v[i];
        let mut p: usize = 0;
        while p < out.len() && out[p] <= x
            invariant
                p <= out.len(),
                forall|j: int| 0 <= j < p ==> out@[j] <= x,
            decreases out.len() - p,
        {
            p += 1;
        }
        let ghost before = out@;
        out.insert(p, x);
        proof {
            assert forall|a: int, b: int| 0 <= a < b < out@.len() implies #[trigger] u8_le()(
                out@[a],
                out@[b],
            ) by {
                assert(u8_le()(before[0], before[0]) || true);
                if b < p {
                    assert(u8_le()(before[a], before[b]));
                } else if b == p {
                } else if a < p {
                    assert(out@[b] == before[b - 1]);
                    if p < before.len() {
                        assert(u8_le()(before[p as int], before[b - 1]) || p as int == b - 1);
                    }
                } else if a == p {
                    assert(out@[b] == before[b - 1]);
                    assert(!(before[p as int] <= x));
                    if p as int != b - 1 {
                        assert(u8_le()(before[p as int], before[b - 1]));
                    }
                } else {
                    assert(u8_le()(before[a - 1], before[b - 1]));
                }
            }
            to_multiset_insert(before, p as int, x);
            assert(v@.take(i + 1) =~= v@.take(i as int).push(x));
            to_multiset_build(v@.take(i as int), x);
        }
        i += 1;
    }
    proof {
        assert(v@.take(v.len() as int) =~= v@);
        v@.lemma_sort_by_ensures(u8_le());
        lemma_u8_le_total();
        lemma_sorted_unique(out@, v@.sort_by(u8_le()), u8_le());
    }
    out
}

/// `v` with every square moved up by `k`, capped at 255.
fn shift_up(v: &Vec<u8>, k: u8) -> (r: Vec<u8>)
    ensures
        r@ == shifted_up(v@, k),
{
    let mut r: Vec<u8> = Vec::new();
    let mut i: usize = 0;
    while i < v.len()
        invariant
            i <= v.len(),
            r@ =~= shifted_up(v@.take(i as int), k),
        decreases v.len() - i,
    {
        r.push(v[i].saturating_add(k));
        i += 1;
    }
    assert(v@.take(v.len() as int) =~= v@);
    r
}

/// `v` with every square moved down by `k`, floored at 0.
fn shift_down(v: &Vec<u8>, k: u8) -> (r: Vec<u8>)
    ensures
        r@ == shifted_down(v@, k),
{
    let mut r: Vec<u8> = Vec::new();
    let mut i: usize = 0;
    while i < v.len()
        invariant
            i <= v.len(),
            r@ =~= shifted_down(v@.take(i as int), k),
        decreases v.len() - i,
    {
        r.push(v[i].saturating_sub(k));
        i += 1;
    }
    assert(v@.take(v.len() as int) =~= v@);
    r
}

/// The squares examined as adjacent to `square`.
fn adjacent_candidate_squares(square: u8) -> (r: Vec<u8>)
    ensures
        r@ == adjacent_candidates(square),
{
    let r = if square % 5 == 0 {
        vec![square.saturating_add(5), square.saturating_sub(5), square.saturating_sub(1), square]
    } else if square % 5 == 1 {
        vec![square.saturating_add(5), square.saturating_sub(5), square.saturating_add(1), square]
    } else {
        vec![
            square.saturating_add(5),
            square.saturating_sub(5),
            square.saturating_add(1),
            square.saturating_sub(1),
            square,
        ]
    };
    assert(r@ =~= adjacent_candidates(square));
    r
}

/// The diagonal neighbours examined for `square`.
fn diagonal_candidate_squares(square: u8) -> (r: Vec<u8>)
    ensures
        r@ == diagonal_candidates(square),
{
    let r = if square % 5 == 0 {
        vec![square.saturating_add(4), square.saturating_sub(6)]
    } else if square % 5 == 1 {
        vec![square.saturating_sub(4), square.saturating_add(6)]
    } else {
        vec![
            square.saturating_sub(4),
            square.saturating_add(6),
            square.saturating_add(4),
            square.saturating_sub(6),
        ]
    };
    assert(r@ =~= diagonal_candidates(square));
    r
}

/// The zones adjacent to `zone`: for a square, the squares of the board
/// orthogonally next to it and the square itself; for an intersection, the
/// neighbouring intersections; for any other zone, none.
pub fn get_adjacent_zones(zone: &Zone) -> (r: Vec<Zone>)
    requires
        well_formed_zone(zone@),
    ensures
        zones_view(r@) == adjacent_zones(zone@),
{
    match zone {
        Zone::Location(Location::Square(square, region)) => {
            let cands = adjacent_candidate_squares(*square);
            let squares = on_board_squares(&cands);
            square_zones(&squares, *region)
        },
        Zone::Location(Location::Intersection(locs, region)) => {
            let s = sort_squares(locs);
            let ghost gs = s@;
            let mut r: Vec<Zone> = Vec::new();
            r.push(Zone::Location(Location::Intersection(shift_up(&s, 5), *region)));
            r.push(Zone::Location(Location::Intersection(shift_up(&s, 1), *region)));
            proof {
                assert(s@.len() == locs@.len()) by {
                    locs@.lemma_sort_by_ensures(u8_le());
                    to_multiset_len(s@);
                    to_multiset_len(locs@);
                }
            }
            if s[0] > 1 {
                r.push(Zone::Location(Location::Intersection(shift_down(&s, 1), *region)));
            }
            if s[0] > 5 {
                r.push(Zone::Location(Location::Intersection(shift_down(&s, 5), *region)));
            }
            assert(zones_view(r@) =~= adjacent_intersections(locs@, *region));
            r
        },
        _ => Vec::new(),
    }
}


/// Whether `v` holds `x`.
fn has_square(v: &Vec<u8>, x: u8) -> (r: bool)
    ensures
        r == v@.contains(x),
{
    let mut i: usize = 0;
    while i < v.len()
        invariant
            i <= v.len(),
            forall|j: int| 0 <= j < i ==> v@[j] != x,
        decreases v.len() - i,
    {
        if v[i] == x {
            assert(v@[i as int] == x);
            return true;
        }
        i += 1;
    }
    false
}

/// Whether some square of `a` is also in `b`.
fn shares_a_square(a: &Vec<u8>, b: &Vec<u8>) -> (r: bool)
    ensures
        r == shares_square(a@, b@),
{
    let mut i: usize = 0;
    while i < a.len()
        invariant
            i <= a.len(),
            forall|j: int| 0 <= j < i ==> !b@.contains(#[trigger] a@[j]),
        decreases a.len() - i,
    {
        if has_square(b, a[i]) {
            return true;
        }
        i += 1;
    }
    false
}

/// The zones nearby `zone`: for a square, the squares of the board at most
/// one step away, diagonals included; for an intersection, the squares
/// around each of its squares and the intersections that share a square
/// with it; for any other zone, none. Runs of equal zones are merged.
pub fn get_nearby_zones(zone: &Zone) -> (r: Vec<Zone>)
    requires
        well_formed_zone(zone@),
    ensures
        zones_view(r@) == nearby_zones(zone@),
{
    match zone {
        Zone::Location(Location::Square(square, region)) => {
            let adj = on_board_squares(&adjacent_candidate_squares(*square));
            let diag = on_board_squares(&diagonal_candidate_squares(*square));
            let mut all = square_zones(&adj, *region);
            append_zones(&mut all, square_zones(&diag, *region));
            assert(zones_view(all@) =~= squares_in(nearby_squares(*square), *region));
            dedup_zones(all)
        },
        Zone::Location(Location::Intersection(sqs, region)) => {
            let ghost r = *region;
            let mut nearby: Vec<Zone> = Vec::new();
            let mut i: usize = 0;
            while i < sqs.len()
                invariant
                    i <= sqs.len(),
                    zones_view(nearby@) == around_squares(sqs@.take(i as int), r),
                    r == *region,
                decreases sqs.len() - i,
            {
                let sq = sqs[i];
                let realm_zone = Zone::Location(Location::Square(sq, *region));
                append_zones(&mut nearby, get_adjacent_zones(&realm_zone));
                append_zones(&mut nearby, square_zones(&diagonal_candidate_squares(sq), *region));
                assert(sqs@.take(i + 1).drop_last() =~= sqs@.take(i as int));
                i += 1;
            }
            assert(sqs@.take(sqs.len() as int) =~= sqs@);
            let ghost around = zones_view(nearby@);
            let all = Zone::all_intersections();
            assert(zones_view(all@).len() == all@.len());
            let mut j: usize = 0;
            while j < all.len()
                invariant
                    j <= all.len(),
                    all.len() == 12,
                    zones_view(all@) == intersection_squares().map_values(
                        |s: Seq<u8>| intersection_zone(s, Region::Surface),
                    ),
                    zones_view(nearby@) == around + intersection_squares().take(j as int).filter(
                        overlaps(sqs@),
                    ).map_values(|s: Seq<u8>| intersection_zone(s, r)),
                    r == *region,
                decreases all.len() - j,
            {
                let ghost isq = intersection_squares()[j as int];
                assert(zones_view(all@)[j as int] == intersection_zone(isq, Region::Surface));
                assert(intersection_squares().take(j + 1) =~= intersection_squares().take(
                    j as int,
                ).push(isq));
                proof {
                    intersection_squares().take(j as int).lemma_filter_push(isq, overlaps(sqs@));
                }
                let ghost before = nearby@;
                match &all[j] {
                    Zone::Location(Location::Intersection(isqs, _)) => {
                        assert(isqs@ == isq);
                        if !same_squares(isqs, sqs) && shares_a_square(isqs, sqs) {
                            nearby.push(
                                Zone::Location(Location::Intersection(copy_squares(isqs), *region)),
                            );
                            assert(zones_view(nearby@) =~= zones_view(before).push(
                                intersection_zone(isq, r),
                            ));
                        }
                    },
                    _ => {
                        assert(false);
                    },
                }
                j += 1;
            }
            assert(intersection_squares().take(12) =~= intersection_squares());
            dedup_zones(nearby)
        },
        _ => Vec::new(),
    }
}

/// Whether `square2` is among the zones adjacent to `square1`.
pub fn are_adjacent(square1: &Zone, square2: &Zone) -> (r: bool)
    requires
        well_formed_zone(square1@),
    ensures
        r == adjacent_zones(square1@).contains(square2@),
{
    contains_zone(&get_adjacent_zones(square1), square2)
}

/// Whether `square2` is among the zones nearby `square1`.
pub fn are_nearby(square1: &Zone, square2: &Zone) -> (r: bool)
    requires
        well_formed_zone(square1@),
    ensures
        r == nearby_zones(square1@).contains(square2@),
{
    contains_zone(&get_nearby_zones(square1), square2)
}


/// The zones a chess knight's move (two squares one way and one the other)
/// away from `zone`. The realm is a 5×4 grid with squares numbered 1–20
/// (row-major, 5 per row); the moves that leave the grid are dropped, and
/// the result lies on the surface. A zone that is not a square has none.
pub fn get_knight_move_zones(zone: &Zone) -> (r: Vec<Zone>)
    ensures
        zones_view(r@) == knight_zones(zone@),
{
    let sq = match zone.get_square() {
        Some(s) => s,
        None => {
            return Vec::new();
        },
    };
    let (col, row): (i16, i16) = if sq == 0 {
        (0, 1)
    } else {
        (((sq - 1) % 5) as i16 + 1, ((sq - 1) / 5) as i16 + 1)
    };
    assert(col == knight_col(sq) && row == knight_row(sq));
    let offsets: Vec<(i16, i16)> = vec![
        (1, 2),
        (-1, 2),
        (1, -2),
        (-1, -2),
        (2, 1),
        (-2, 1),
        (2, -1),
        (-2, -1),
    ];
    assert(forall|k: int|
        0 <= k < 8 ==> (#[trigger] offsets@[k]).0 == knight_offsets()[k].0 && offsets@[k].1
            == knight_offsets()[k].1);
    let mut squares: Vec<u8> = Vec::new();
    let mut k: usize = 0;
    while k < 8
        invariant
            k <= 8,
            offsets@.len() == 8,
            forall|k: int|
                0 <= k < 8 ==> (#[trigger] offsets@[k]).0 == knight_offsets()[k].0
                    && offsets@[k].1 == knight_offsets()[k].1,
            col == knight_col(sq),
            row == knight_row(sq),
            0 <= col <= 5,
            1 <= row <= 52,
            squares@ == knight_targets(col as int, row as int, knight_offsets().take(k as int)),
        decreases 8 - k,
    {
        let (dc, dr) = offsets[k];
        let c = col + dc;
        let r = row + dr;
        assert(knight_offsets().take(k + 1).drop_last() =~= knight_offsets().take(k as int));
        if c >= 1 && c <= 5 && r >= 1 && r <= 4 {
            squares.push(((r - 1) * 5 + c) as u8);
        }
        k += 1;
    }
    assert(knight_offsets().take(8) =~= knight_offsets());
    square_zones(&squares, Region::Surface)
}


/// A direction picked on a board that may be flipped, in the board's own
/// orientation.
pub open spec fn normalised(d: Direction, board_flipped: bool) -> Direction {
    if board_flipped {
        opposite(d)
    } else {
        d
    }
}

/// Normalising twice for the same board gives back the direction picked.
pub proof fn normalise_is_an_involution(d: Direction, board_flipped: bool)
    ensures
        normalised(normalised(d, board_flipped), board_flipped) == d,
{
}

/// Rotating by `a` then by `b` eighths is rotating by `a + b` eighths.
pub proof fn rotations_compose(d: Direction, a: nat, b: nat)
    ensures
        rotated(rotated(d, a as int), b as int) == rotated(d, (a + b) as int),
{
    let i = (clockwise_index(d) + a) % 8;
    assert(clockwise_index(clockwise()[i]) == i);
    assert((i + b) % 8 == (clockwise_index(d) + a + b) % 8) by (nonlinear_arith)
        requires
            i == (clockwise_index(d) + a) % 8,
    ;
}

/// A full turn gives back the same direction.
pub proof fn full_turn_is_identity(d: Direction)
    ensures
        rotated(d, 8) == d,
{
}

/// A half turn gives the direction seen from the other side of the board.
pub proof fn half_turn_is_opposite(d: Direction)
    ensures
        rotated(d, 4) == opposite(d),
{
}

impl Location {
    /// Whether `other` is adjacent to this location.
    pub fn is_adjacent(&self, other: &Location) -> (r: bool)
        requires
            well_formed_zone(ZoneView::Location(self@)),
        ensures
            r == adjacent_zones(ZoneView::Location(self@)).contains(ZoneView::Location(other@)),
    {
        are_adjacent(&Zone::Location(self.duplicate()), &Zone::Location(other.duplicate()))
    }

    /// Whether `other` is nearby this location.
    pub fn is_nearby(&self, other: &Location) -> (r: bool)
        requires
            well_formed_zone(ZoneView::Location(self@)),
        ensures
            r == nearby_zones(ZoneView::Location(self@)).contains(ZoneView::Location(other@)),
    {
        are_nearby(&Zone::Location(self.duplicate()), &Zone::Location(other.duplicate()))
    }
}


/// A sound the clients play.
#[derive(Debug, Clone, Copy, PartialEq, Eq, Structural)]
pub enum SoundEffect {
    DrawCard,
    PlayCard,
    Shuffle,
}

/// An answer to a yes-or-no question.
#[derive(Debug, Clone, Copy, PartialEq, Eq, Structural)]
pub enum BaseOption {
    Yes,
    No,
}

impl BaseOption {
    /// The answer as shown to players.
    pub fn label(&self) -> (r: String)
        ensures
            r@ == (match *self {
                BaseOption::Yes => "Yes"@,
                BaseOption::No => "No"@,
            }),
    {
        match self {
            BaseOption::Yes => String::from_str("Yes"),
            BaseOption::No => String::from_str("No"),
        }
    }
}

/// The action that backs out of a choice.
#[derive(Debug, Clone, Copy)]
pub struct CancelAction;

impl CancelAction {
    /// The name shown for this action.
    pub fn get_name(&self) -> (r: String)
        ensures
            r@ == "Cancel"@,
    {
        String::from_str("Cancel")
    }

    /// Cancelling is a basic action, not a use of a special ability.
    pub fn is_special_ability(&self) -> (r: bool)
        ensures
            !r,
    {
        false
    }
}

/// The actions every player has at the start of a turn.
#[derive(Debug, Clone, Copy, PartialEq, Eq, Structural)]
pub enum BaseAction {
    DrawSite,
    DrawSpell,
    Cancel,
}

/// The name shown for a base action.
pub open spec fn base_action_name(a: BaseAction) -> Seq<char> {
    match a {
        BaseAction::Cancel => "Cancel"@,
        BaseAction::DrawSite => "Draw Site"@,
        BaseAction::DrawSpell => "Draw Spell"@,
    }
}

impl BaseAction {
    /// The name shown for this action.
    pub fn get_name(&self) -> (r: &'static str)
        ensures
            r@ == base_action_name(*self),
    {
        match self {
            BaseAction::Cancel => "Cancel",
            BaseAction::DrawSite => "Draw Site",
            BaseAction::DrawSpell => "Draw Spell",
        }
    }
}

/// The actions of an avatar.
#[derive(Debug, Clone, Copy, PartialEq, Eq, Structural)]
pub enum AvatarAction {
    PlaySite,
    DrawSite,
}

impl AvatarAction {
    /// The name shown for this action.
    pub fn get_name(&self) -> (r: String)
        ensures
            r@ == (match *self {
                AvatarAction::PlaySite => "Play Site"@,
                AvatarAction::DrawSite => "Draw Site"@,
            }),
    {
        match self {
            AvatarAction::PlaySite => String::from_str("Play Site"),
            AvatarAction::DrawSite => String::from_str("Draw Site"),
        }
    }
}

/// The actions of a unit in the realm.
#[derive(Debug, Clone)]
pub enum UnitAction {
    Move,
    Attack,
    RangedAttack,
    Burrow,
    Submerge,
    Surface,
    PickUpArtifact { artifact_id: CardId, artifact_name: String },
    DropArtifact { artifact_id: CardId, artifact_name: String },
    PickUpMinion,
    DropMinion,
}

/// The name shown for a unit action.
pub open spec fn unit_action_name(a: UnitAction) -> Seq<char> {
    match a {
        UnitAction::Move => "Move"@,
        UnitAction::Attack => "Attack"@,
        UnitAction::RangedAttack => "Ranged Attack"@,
        UnitAction::Burrow => "Burrow"@,
        UnitAction::Submerge => "Submerge"@,
        UnitAction::Surface => "Surface"@,
        UnitAction::PickUpArtifact { artifact_name, .. } => "Pick Up "@ + artifact_name@,
        UnitAction::DropArtifact { artifact_name, .. } => "Drop "@ + artifact_name@,
        UnitAction::PickUpMinion => "Pick Up Minion"@,
        UnitAction::DropMinion => "Drop Minion"@,
    }
}

impl UnitAction {
    /// The name shown for this action.
    pub fn get_name(&self) -> (r: String)
        ensures
            r@ == unit_action_name(*self),
    {
        match self {
            UnitAction::Move => String::from_str("Move"),
            UnitAction::Attack => String::from_str("Attack"),
            UnitAction::RangedAttack => String::from_str("Ranged Attack"),
            UnitAction::Burrow => String::from_str("Burrow"),
            UnitAction::Submerge => String::from_str("Submerge"),
            UnitAction::Surface => String::from_str("Surface"),
            UnitAction::PickUpArtifact { artifact_name, .. } => {
                let mut r = String::from_str("Pick Up ");
                r.append(artifact_name.as_str());
                r
            },
            UnitAction::DropArtifact { artifact_name, .. } => {
                let mut r = String::from_str("Drop ");
                r.append(artifact_name.as_str());
                r
            },
            UnitAction::PickUpMinion => String::from_str("Pick Up Minion"),
            UnitAction::DropMinion => String::from_str("Drop Minion"),
        }
    }
}

/// The damage assigned to card `id` by the (card, damage) pairs
/// `assignment`: that of its first pair, or none.
pub open spec fn assigned_to(assignment: Seq<(CardId, u16)>, id: CardId) -> u16
    decreases assignment.len(),
{
    if assignment.len() == 0 {
        0
    } else if assignment[0].0 == id {
        assignment[0].1
    } else {
        assigned_to(assignment.drop_first(), id)
    }
}

/// The total damage of an assignment.
pub open spec fn assigned_total(assignment: Seq<(CardId, u16)>) -> nat
    decreases assignment.len(),
{
    if assignment.len() == 0 {
        0
    } else {
        assigned_total(assignment.drop_last()) + assignment.last().1 as nat
    }
}

/// Whether every card of an assignment is one of `defenders`.
pub open spec fn only_defenders(assignment: Seq<(CardId, u16)>, defenders: Seq<CardId>) -> bool {
    forall|i: int| 0 <= i < assignment.len() ==> defenders.contains(#[trigger] assignment[i].0)
}

/// The message for an assignment whose total is not the damage available.
pub open spec fn wrong_total_message(assigned: nat, amount: u16) -> Seq<char> {
    "assigned combat damage "@ + decimal(assigned) + " does not match available damage "@
        + decimal(amount as nat)
}

/// Checks the damage a player assigned among the defenders of an attack:
/// it must add up to exactly `amount` and go only to defenders. Gives each
/// defender, in order, its assigned damage (none if it got no pair).
/// `assignment` holds one pair per card, as the map the player sends does.
pub fn resolve_damage_assignment(
    amount: u16,
    defenders: &[CardId],
    assignment: &Vec<(CardId, u16)>,
) -> (r: Result<Vec<(CardId, u16)>, String>)
    requires
        assigned_total(assignment@) <= u16::MAX,
    ensures
        match r {
            Ok(v) => {
                &&& assigned_total(assignment@) == amount
                &&& only_defenders(assignment@, defenders@)
                &&& v@.len() == defenders@.len()
                &&& forall|i: int|
                    0 <= i < v@.len() ==> #[trigger] v@[i] == (defenders@[i], assigned_to(
                        assignment@,
                        defenders@[i],
                    ))
            },
            Err(msg) => if assigned_total(assignment@) != amount {
                msg@ == wrong_total_message(assigned_total(assignment@), amount)
            } else {
                !only_defenders(assignment@, defenders@) && msg@
                    == "combat damage assignment contains non-defender card"@
            },
        },
{
    let mut total: u16 = 0;
    let mut i: usize = 0;
    while i < assignment.len()
        invariant
            i <= assignment.len(),
            assigned_total(assignment@) <= u16::MAX,
            total == assigned_total(assignment@.take(i as int)),
        decreases assignment.len() - i,
    {
        assert(assignment@.take(i + 1).drop_last() =~= assignment@.take(i as int));
        proof {
            lemma_assigned_total_prefix(assignment@, i + 1);
        }
        total = total + assignment[i].1;
        i += 1;
    }
    assert(assignment@.take(assignment.len() as int) =~= assignment@);
    if total != amount {
        let mut msg = String::from_str("assigned combat damage ");
        push_decimal(&mut msg, total as u64);
        msg.append(" does not match available damage ");
        push_decimal(&mut msg, amount as u64);
        return Err(msg);
    }
    let mut j: usize = 0;
    while j < assignment.len()
        invariant
            j <= assignment.len(),
            assigned_total(assignment@) == amount,
            forall|k: int| 0 <= k < j ==> defenders@.contains(#[trigger] assignment@[k].0),
        decreases assignment.len() - j,
    {
        let mut found = false;
        let mut d: usize = 0;
        while d < defenders.len()
            invariant
                d <= defenders.len(),
                j < assignment.len(),
                found ==> defenders@.contains(assignment@[j as int].0),
                !found ==> forall|e: int| 0 <= e < d ==> defenders@[e] != assignment@[j as int].0,
            decreases defenders.len() - d,
        {
            if same_id(&defenders[d], &assignment[j].0) {
                assert(defenders@[d as int] == assignment@[j as int].0);
                found = true;
            }
            d += 1;
        }
        if !found {
            assert(!defenders@.contains(assignment@[j as int].0));
            return Err(String::from_str("combat damage assignment contains non-defender card"));
        }
        j += 1;
    }
    let mut out: Vec<(CardId, u16)> = Vec::new();
    let mut k: usize = 0;
    while k < defenders.len()
        invariant
            k <= defenders.len(),
            out@.len() == k,
            forall|e: int|
                0 <= e < k ==> #[trigger] out@[e] == (defenders@[e], assigned_to(
                    assignment@,
                    defenders@[e],
                )),
        decreases defenders.len() - k,
    {
        let dmg = find_assigned(assignment, &defenders[k]);
        out.push((defenders[k], dmg));
        k += 1;
    }
    Ok(out)
}

/// Whether no card has two pairs in an assignment, as in the map of cards
/// to damage that the player sends.
pub open spec fn one_pair_per_card(a: Seq<(CardId, u16)>) -> bool {
    forall|i: int, j: int| 0 <= i < j < a.len() ==> (#[trigger] a[i]).0 != (#[trigger] a[j]).0
}

/// The damage the defenders `defenders` receive in all from `a`.
pub open spec fn defenders_total(a: Seq<(CardId, u16)>, defenders: Seq<CardId>) -> nat
    decreases defenders.len(),
{
    if defenders.len() == 0 {
        0
    } else {
        defenders_total(a, defenders.drop_last()) + assigned_to(a, defenders.last()) as nat
    }
}

proof fn lemma_assigned_total_first(a: Seq<(CardId, u16)>)
    requires
        a.len() > 0,
    ensures
        assigned_total(a) == a[0].1 + assigned_total(a.drop_first()),
    decreases a.len(),
{
    if a.len() > 1 {
        lemma_assigned_total_first(a.drop_last());
        assert(a.drop_last().drop_first() =~= a.drop_first().drop_last());
    } else {
        assert(a.drop_first() =~= Seq::<(CardId, u16)>::empty());
        assert(a.drop_last() =~= Seq::<(CardId, u16)>::empty());
    }
}

proof fn lemma_assigned_to_absent(a: Seq<(CardId, u16)>, c: CardId)
    requires
        forall|i: int| 0 <= i < a.len() ==> (#[trigger] a[i]).0 != c,
    ensures
        assigned_to(a, c) == 0,
    decreases a.len(),
{
    if a.len() > 0 {
        assert forall|i: int| 0 <= i < a.drop_first().len() implies (#[trigger] a.drop_first()[i]).0 != c by {
            assert(a.drop_first()[i] == a[i + 1]);
        }
        lemma_assigned_to_absent(a.drop_first(), c);
    }
}

proof fn lemma_defenders_total_empty(a: Seq<(CardId, u16)>, d: Seq<CardId>)
    requires
        a.len() == 0,
    ensures
        defenders_total(a, d) == 0,
    decreases d.len(),
{
    if d.len() > 0 {
        lemma_defenders_total_empty(a, d.drop_last());
    }
}

proof fn lemma_defenders_total_first(a: Seq<(CardId, u16)>, d: Seq<CardId>)
    requires
        a.len() > 0,
        assigned_to(a.drop_first(), a[0].0) == 0,
        d.no_duplicates(),
    ensures
        defenders_total(a, d) == defenders_total(a.drop_first(), d) + if d.contains(a[0].0) {
            a[0].1 as nat
        } else {
            0
        },
    decreases d.len(),
{
    if d.len() > 0 {
        let p = d.drop_last();
        assert(p.no_duplicates());
        lemma_defenders_total_first(a, p);
        let c = a[0].0;
        if d.last() == c {
            assert(!p.contains(c)) by {
                if p.contains(c) {
                    let k = choose|k: int| 0 <= k < p.len() && p[k] == c;
                    assert(d[k] == d[d.len() - 1]);
                }
            }
            assert(d.contains(c)) by {
                assert(d[d.len() - 1] == c);
            }
        } else {
            assert(d.contains(c) <==> p.contains(c)) by {
                if d.contains(c) {
                    let k = choose|k: int| 0 <= k < d.len() && d[k] == c;
                    assert(p[k] == c);
                }
                if p.contains(c) {
                    let k = choose|k: int| 0 <= k < p.len() && p[k] == c;
                    assert(d[k] == c);
                }
            }
        }
    }
}

/// A damage assignment that passes the checks, with one pair per card as
/// in the map the player sends, hands the defenders exactly the damage
/// available: what each defender gets adds up to the amount.
pub proof fn damage_assignment_adds_up(amount: u16, defenders: Seq<CardId>, a: Seq<(CardId, u16)>)
    requires
        one_pair_per_card(a),
        defenders.no_duplicates(),
        only_defenders(a, defenders),
        assigned_total(a) == amount,
    ensures
        defenders_total(a, defenders) == amount,
{
    lemma_adds_up(defenders, a);
}

proof fn lemma_adds_up(defenders: Seq<CardId>, a: Seq<(CardId, u16)>)
    requires
        one_pair_per_card(a),
        defenders.no_duplicates(),
        only_defenders(a, defenders),
    ensures
        defenders_total(a, defenders) == assigned_total(a),
    decreases a.len(),
{
    if a.len() == 0 {
        lemma_defenders_total_empty(a, defenders);
    } else {
        let rest = a.drop_first();
        assert(one_pair_per_card(rest)) by {
            assert forall|i: int, j: int| 0 <= i < j < rest.len() implies (#[trigger] rest[i]).0 != (
            #[trigger] rest[j]).0 by {
                assert(rest[i] == a[i + 1] && rest[j] == a[j + 1]);
            }
        }
        assert(only_defenders(rest, defenders)) by {
            assert forall|i: int| 0 <= i < rest.len() implies defenders.contains(#[trigger] rest[i].0) by {
                assert(rest[i] == a[i + 1]);
            }
        }
        assert forall|i: int| 0 <= i < rest.len() implies (#[trigger] rest[i]).0 != a[0].0 by {
            assert(rest[i] == a[i + 1]);
        }
        lemma_assigned_to_absent(rest, a[0].0);
        lemma_defenders_total_first(a, defenders);
        lemma_adds_up(defenders, rest);
        lemma_assigned_total_first(a);
        assert(defenders.contains(a[0].0));
    }
}

proof fn lemma_assigned_total_prefix(a: Seq<(CardId, u16)>, k: int)
    requires
        0 <= k <= a.len(),
    ensures
        assigned_total(a.take(k)) <= assigned_total(a),
    decreases a.len() - k,
{
    if k < a.len() {
        lemma_assigned_total_prefix(a, k + 1);
        assert(a.take(k + 1).drop_last() =~= a.take(k));
    } else {
        assert(a.take(k) =~= a);
    }
}

/// The damage `assignment` gives card `id`.
fn find_assigned(assignment: &Vec<(CardId, u16)>, id: &CardId) -> (r: u16)
    ensures
        r == assigned_to(assignment@, *id),
{
    let mut i: usize = 0;
    assert(assignment@.skip(0) =~= assignment@);
    while i < assignment.len()
        invariant
            i <= assignment.len(),
            assigned_to(assignment@, *id) == assigned_to(assignment@.skip(i as int), *id),
        decreases assignment.len() - i,
    {
        assert(assignment@.skip(i as int).drop_first() =~= assignment@.skip(i + 1));
        if same_id(&assignment[i].0, id) {
            return assignment[i].1;
        }
        i += 1;
    }
    0
}

} // verus!
