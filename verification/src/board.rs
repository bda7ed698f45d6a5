//! The geometry of the realm: which squares and intersections are adjacent
//! to, nearby, or a knight's move away from one another.

use crate::card::Region;
use crate::zone::{intersection_squares, intersection_zone, square_of, square_zone, LocationView, ZoneView};
use vstd::prelude::*;

verus! {

/// `a + b`, capped at 255.
pub open spec fn sat_add(a: u8, b: u8) -> u8 {
    if a + b > 255 {
        255
    } else {
        (a + b) as u8
    }
}

/// `a - b`, floored at 0.
pub open spec fn sat_sub(a: u8, b: u8) -> u8 {
    if a < b {
        0
    } else {
        (a - b) as u8
    }
}

/// Whether `s` names one of the twenty squares of the realm.
pub open spec fn on_board(s: u8) -> bool {
    1 <= s <= 20
}

/// The row (0 to 3) of a square of the realm.
pub open spec fn row(s: u8) -> int {
    (s - 1) / 5
}

/// The column (0 to 4) of a square of the realm.
pub open spec fn col(s: u8) -> int {
    (s - 1) % 5
}

/// `|x|`.
pub open spec fn abs(x: int) -> int {
    if x < 0 {
        -x
    } else {
        x
    }
}

/// Squares one step apart orthogonally on the grid, or the same square.
pub open spec fn grid_adjacent(a: u8, b: u8) -> bool {
    abs(row(a) - row(b)) + abs(col(a) - col(b)) <= 1
}

/// Squares at most one step apart, diagonals included.
pub open spec fn grid_nearby(a: u8, b: u8) -> bool {
    abs(row(a) - row(b)) <= 1 && abs(col(a) - col(b)) <= 1
}

/// The squares examined as adjacent to square `sq`, before those off the
/// board are dropped. A square at the edge of a row is not joined to the
/// next row.
pub open spec fn adjacent_candidates(sq: u8) -> Seq<u8> {
    if sq % 5 == 0 {
        seq![sat_add(sq, 5), sat_sub(sq, 5), sat_sub(sq, 1), sq]
    } else if sq % 5 == 1 {
        seq![sat_add(sq, 5), sat_sub(sq, 5), sat_add(sq, 1), sq]
    } else {
        seq![sat_add(sq, 5), sat_sub(sq, 5), sat_add(sq, 1), sat_sub(sq, 1), sq]
    }
}

/// The diagonal neighbours examined for square `sq`.
pub open spec fn diagonal_candidates(sq: u8) -> Seq<u8> {
    if sq % 5 == 0 {
        seq![sat_add(sq, 4), sat_sub(sq, 6)]
    } else if sq % 5 == 1 {
        seq![sat_sub(sq, 4), sat_add(sq, 6)]
    } else {
        seq![sat_sub(sq, 4), sat_add(sq, 6), sat_add(sq, 4), sat_sub(sq, 6)]
    }
}

/// The elements of `s` that are squares of the board, in order.
pub open spec fn keep_on_board(s: Seq<u8>) -> Seq<u8>
    decreases s.len(),
{
    if s.len() == 0 {
        Seq::empty()
    } else if on_board(s.last()) {
        keep_on_board(s.drop_last()).push(s.last())
    } else {
        keep_on_board(s.drop_last())
    }
}

/// `s` with every run of equal neighbours reduced to its first element.
pub open spec fn dedup<A>(s: Seq<A>) -> Seq<A>
    decreases s.len(),
{
    if s.len() == 0 {
        s
    } else if s.len() >= 2 && s[s.len() - 2] == s.last() {
        dedup(s.drop_last())
    } else {
        dedup(s.drop_last()).push(s.last())
    }
}

/// The square zones of the squares `s`, in region `r`.
pub open spec fn squares_in(s: Seq<u8>, r: Region) -> Seq<ZoneView> {
    s.map_values(|x: u8| square_zone(x, r))
}

/// The squares adjacent to square `sq` (itself included).
pub open spec fn adjacent_squares(sq: u8) -> Seq<u8> {
    keep_on_board(adjacent_candidates(sq))
}

/// The squares nearby square `sq` (itself included), before equal
/// neighbours are merged.
pub open spec fn nearby_squares(sq: u8) -> Seq<u8> {
    keep_on_board(adjacent_candidates(sq)) + keep_on_board(diagonal_candidates(sq))
}

/// Ascending order on square numbers.
pub open spec fn u8_le() -> spec_fn(u8, u8) -> bool {
    |a: u8, b: u8| a <= b
}

/// The squares `s` in ascending order.
pub open spec fn sorted_squares(s: Seq<u8>) -> Seq<u8> {
    s.sort_by(u8_le())
}

/// Every square of `s` moved up by `k`, capped at 255.
pub open spec fn shifted_up(s: Seq<u8>, k: u8) -> Seq<u8> {
    s.map_values(|x: u8| sat_add(x, k))
}

/// Every square of `s` moved down by `k`, floored at 0.
pub open spec fn shifted_down(s: Seq<u8>, k: u8) -> Seq<u8> {
    s.map_values(|x: u8| sat_sub(x, k))
}

/// The intersections adjacent to the intersection of the squares `locs`:
/// the one below and the one to the right, then the one to the left when
/// the smallest square is not 1, then the one above when it is past the
/// first row.
pub open spec fn adjacent_intersections(locs: Seq<u8>, r: Region) -> Seq<ZoneView> {
    let s = sorted_squares(locs);
    seq![intersection_zone(shifted_up(s, 5), r), intersection_zone(shifted_up(s, 1), r)] + (if s[0]
        > 1 {
        seq![intersection_zone(shifted_down(s, 1), r)]
    } else {
        Seq::empty()
    }) + (if s[0] > 5 {
        seq![intersection_zone(shifted_down(s, 5), r)]
    } else {
        Seq::empty()
    })
}

/// A zone on which the geometry functions are defined: an intersection
/// names at least one square.
pub open spec fn well_formed_zone(z: ZoneView) -> bool {
    match z {
        ZoneView::Location(LocationView::Intersection(s, _)) => s.len() > 0,
        _ => true,
    }
}

/// The zones adjacent to zone `z`, in the order in which they are listed.
pub open spec fn adjacent_zones(z: ZoneView) -> Seq<ZoneView> {
    match z {
        ZoneView::Location(LocationView::Square(sq, r)) => squares_in(adjacent_squares(sq), r),
        ZoneView::Location(LocationView::Intersection(locs, r)) => adjacent_intersections(locs, r),
        _ => Seq::empty(),
    }
}

/// The squares around the squares `sqs`: for each, its adjacent squares
/// and then its diagonal neighbours as examined (those off the board kept).
pub open spec fn around_squares(sqs: Seq<u8>, r: Region) -> Seq<ZoneView>
    decreases sqs.len(),
{
    if sqs.len() == 0 {
        Seq::empty()
    } else {
        around_squares(sqs.drop_last(), r) + squares_in(adjacent_squares(sqs.last()), r)
            + squares_in(diagonal_candidates(sqs.last()), r)
    }
}

/// Whether two intersections share a square.
pub open spec fn shares_square(a: Seq<u8>, b: Seq<u8>) -> bool {
    exists|i: int| 0 <= i < a.len() && b.contains(#[trigger] a[i])
}

/// Whether an intersection other than `sqs` shares a square with it.
pub open spec fn overlaps(sqs: Seq<u8>) -> spec_fn(Seq<u8>) -> bool {
    |isqs: Seq<u8>| isqs != sqs && shares_square(isqs, sqs)
}

/// The intersections of the realm other than `sqs` that share a square
/// with it, in region `r`.
pub open spec fn overlapping_intersections(sqs: Seq<u8>, r: Region) -> Seq<ZoneView> {
    intersection_squares().filter(overlaps(sqs)).map_values(|s: Seq<u8>| intersection_zone(s, r))
}

/// The zones nearby zone `z`, in the order in which they are listed.
pub open spec fn nearby_zones(z: ZoneView) -> Seq<ZoneView> {
    match z {
        ZoneView::Location(LocationView::Square(sq, r)) => dedup(squares_in(nearby_squares(sq), r)),
        ZoneView::Location(LocationView::Intersection(sqs, r)) => dedup(
            around_squares(sqs, r) + overlapping_intersections(sqs, r),
        ),
        _ => Seq::empty(),
    }
}

/// The column (1 to 5) that the knight's move computation gives square
/// `sq`; square 0 gets column 0 and row 1, as Rust's truncating `/` and `%`
/// give for `-1`.
pub open spec fn knight_col(sq: u8) -> int {
    if sq == 0 {
        0
    } else {
        (sq - 1) % 5 + 1
    }
}

/// The row (1 to 4 on the board) that the knight's move computation gives
/// square `sq`.
pub open spec fn knight_row(sq: u8) -> int {
    if sq == 0 {
        1
    } else {
        (sq - 1) / 5 + 1
    }
}

/// The eight (column, row) offsets of a knight's move, in the order tried.
pub open spec fn knight_offsets() -> Seq<(int, int)> {
    seq![(1, 2), (-1, 2), (1, -2), (-1, -2), (2, 1), (-2, 1), (2, -1), (-2, -1)]
}

/// The squares reached from column `c` and row `r` by the offsets `offs`
/// that stay on the board.
pub open spec fn knight_targets(c: int, r: int, offs: Seq<(int, int)>) -> Seq<u8>
    decreases offs.len(),
{
    if offs.len() == 0 {
        Seq::empty()
    } else {
        let (dc, dr) = offs.last();
        let nc = c + dc;
        let nr = r + dr;
        let prev = knight_targets(c, r, offs.drop_last());
        if 1 <= nc <= 5 && 1 <= nr <= 4 {
            prev.push(((nr - 1) * 5 + nc) as u8)
        } else {
            prev
        }
    }
}

/// The squares a knight's move away from square `sq`.
pub open spec fn knight_squares(sq: u8) -> Seq<u8> {
    knight_targets(knight_col(sq), knight_row(sq), knight_offsets())
}

/// The zones a knight's move away from zone `z`; the moves land on the
/// surface whatever the region of `z`.
pub open spec fn knight_zones(z: ZoneView) -> Seq<ZoneView> {
    match square_of(z) {
        Some(sq) => squares_in(knight_squares(sq), Region::Surface),
        None => Seq::empty(),
    }
}


proof fn lemma_keep_on_board_contains(s: Seq<u8>, t: u8)
    ensures
        keep_on_board(s).contains(t) <==> s.contains(t) && on_board(t),
    decreases s.len(),
{
    if s.len() > 0 {
        lemma_keep_on_board_contains(s.drop_last(), t);
        if s.contains(t) && t != s.last() {
            let i = choose|i: int| 0 <= i < s.len() && s[i] == t;
            assert(s.drop_last()[i] == t);
        }
        if s.drop_last().contains(t) {
            let i = choose|i: int| 0 <= i < s.drop_last().len() && s.drop_last()[i] == t;
            assert(s[i] == t);
        }
        if on_board(s.last()) {
            let k = keep_on_board(s.drop_last());
            if k.push(s.last()).contains(t) && t != s.last() {
                let i = choose|i: int| 0 <= i < k.push(s.last()).len() && k.push(s.last())[i] == t;
                assert(k[i] == t);
            }
            if k.contains(t) {
                let i = choose|i: int| 0 <= i < k.len() && k[i] == t;
                assert(k.push(s.last())[i] == t);
            }
            assert(k.push(s.last())[k.len() as int] == s.last());
        }
        assert(s[s.len() - 1] == s.last());
    }
}

proof fn lemma_dedup_contains<A>(s: Seq<A>, x: A)
    ensures
        dedup(s).contains(x) <==> s.contains(x),
    decreases s.len(),
{
    if s.len() > 0 {
        let p = s.drop_last();
        lemma_dedup_contains(p, x);
        if s.contains(x) && x != s.last() {
            let i = choose|i: int| 0 <= i < s.len() && s[i] == x;
            assert(p[i] == x);
        }
        if p.contains(x) {
            let i = choose|i: int| 0 <= i < p.len() && p[i] == x;
            assert(s[i] == x);
        }
        if s.len() >= 2 && s[s.len() - 2] == s.last() {
            if x == s.last() {
                assert(p[p.len() - 1] == x);
            }
        } else {
            let d = dedup(p);
            if d.push(s.last()).contains(x) && x != s.last() {
                let i = choose|i: int| 0 <= i < d.push(s.last()).len() && d.push(s.last())[i] == x;
                assert(d[i] == x);
            }
            if d.contains(x) {
                let i = choose|i: int| 0 <= i < d.len() && d[i] == x;
                assert(d.push(s.last())[i] == x);
            }
            assert(d.push(s.last())[d.len() as int] == s.last());
        }
        assert(s[s.len() - 1] == s.last());
    }
}

proof fn lemma_squares_in_contains(s: Seq<u8>, r: Region, z: ZoneView)
    ensures
        squares_in(s, r).contains(z) <==> (exists|t: u8|
            z == square_zone(t, r) && #[trigger] s.contains(t)),
{
    if squares_in(s, r).contains(z) {
        let i = choose|i: int| 0 <= i < squares_in(s, r).len() && squares_in(s, r)[i] == z;
        assert(s.contains(s[i]));
    }
    if exists|t: u8| z == square_zone(t, r) && #[trigger] s.contains(t) {
        let t = choose|t: u8| z == square_zone(t, r) && #[trigger] s.contains(t);
        let i = choose|i: int| 0 <= i < s.len() && s[i] == t;
        assert(squares_in(s, r)[i] == z);
    }
}

proof fn lemma_adjacent_candidates_grid(a: u8, t: u8)
    requires
        on_board(a),
        on_board(t),
    ensures
        adjacent_candidates(a).contains(t) <==> grid_adjacent(a, t),
{
    let c = adjacent_candidates(a);
    if grid_adjacent(a, t) {
        if t == a {
            assert(c[c.len() - 1] == t);
        } else if t == a + 5 {
            assert(c[0] == t);
        } else if t + 5 == a {
            assert(c[1] == t);
        } else if t == a + 1 {
            assert(c[2] == t);
        } else {
            assert(t + 1 == a);
            if a % 5 == 0 {
                assert(c[2] == t);
            } else {
                assert(c[3] == t);
            }
        }
    }
    if c.contains(t) {
        let i = choose|i: int| 0 <= i < c.len() && c[i] == t;
    }
}

proof fn lemma_diagonal_candidates_grid(a: u8, t: u8)
    requires
        on_board(a),
        on_board(t),
    ensures
        diagonal_candidates(a).contains(t) <==> (abs(row(a) - row(t)) == 1 && abs(col(a) - col(t))
            == 1),
{
    let c = diagonal_candidates(a);
    if abs(row(a) - row(t)) == 1 && abs(col(a) - col(t)) == 1 {
        if a % 5 == 0 {
            if t == a + 4 {
                assert(c[0] == t);
            } else {
                assert(t + 6 == a);
                assert(c[1] == t);
            }
        } else if a % 5 == 1 {
            if t + 4 == a {
                assert(c[0] == t);
            } else {
                assert(t == a + 6);
                assert(c[1] == t);
            }
        } else {
            if t + 4 == a {
                assert(c[0] == t);
            } else if t == a + 6 {
                assert(c[1] == t);
            } else if t == a + 4 {
                assert(c[2] == t);
            } else {
                assert(t + 6 == a);
                assert(c[3] == t);
            }
        }
    }
    if c.contains(t) {
        let i = choose|i: int| 0 <= i < c.len() && c[i] == t;
    }
}

/// Adjacency on the grid: for a square of the board, the zones listed as
/// adjacent are exactly the squares of its region orthogonally next to it,
/// and itself.
pub proof fn adjacency_on_the_grid(a: u8, r: Region, z: ZoneView)
    requires
        on_board(a),
    ensures
        adjacent_zones(square_zone(a, r)).contains(z) <==> (exists|b: u8|
            z == square_zone(b, r) && on_board(b) && #[trigger] grid_adjacent(a, b)),
{
    lemma_squares_in_contains(adjacent_squares(a), r, z);
    if adjacent_zones(square_zone(a, r)).contains(z) {
        let b = choose|b: u8| z == square_zone(b, r) && #[trigger] adjacent_squares(a).contains(b);
        lemma_keep_on_board_contains(adjacent_candidates(a), b);
        lemma_adjacent_candidates_grid(a, b);
    }
    if exists|b: u8| z == square_zone(b, r) && on_board(b) && #[trigger] grid_adjacent(a, b) {
        let b = choose|b: u8| z == square_zone(b, r) && on_board(b) && #[trigger] grid_adjacent(a, b);
        lemma_keep_on_board_contains(adjacent_candidates(a), b);
        lemma_adjacent_candidates_grid(a, b);
        assert(adjacent_squares(a).contains(b));
    }
}

/// Adjacency between squares of the board is symmetric.
pub proof fn adjacency_is_symmetric(a: u8, b: u8, r: Region)
    requires
        on_board(a),
        on_board(b),
    ensures
        adjacent_zones(square_zone(a, r)).contains(square_zone(b, r)) == adjacent_zones(
            square_zone(b, r),
        ).contains(square_zone(a, r)),
{
    adjacency_on_the_grid(a, r, square_zone(b, r));
    adjacency_on_the_grid(b, r, square_zone(a, r));
    assert(grid_adjacent(a, b) == grid_adjacent(b, a));
}

/// Nearness on the grid: for a square of the board, the zones listed as
/// nearby are exactly the squares of its region at most one step away,
/// diagonals included.
pub proof fn nearby_on_the_grid(a: u8, r: Region, z: ZoneView)
    requires
        on_board(a),
    ensures
        nearby_zones(square_zone(a, r)).contains(z) <==> (exists|b: u8|
            z == square_zone(b, r) && on_board(b) && #[trigger] grid_nearby(a, b)),
{
    let n = nearby_squares(a);
    assert(nearby_zones(square_zone(a, r)) == dedup(squares_in(n, r)));
    lemma_dedup_contains(squares_in(n, r), z);
    lemma_squares_in_contains(n, r, z);
    let ka = keep_on_board(adjacent_candidates(a));
    let kd = keep_on_board(diagonal_candidates(a));
    if nearby_zones(square_zone(a, r)).contains(z) {
        let b = choose|b: u8| z == square_zone(b, r) && #[trigger] n.contains(b);
        let i = choose|i: int| 0 <= i < n.len() && n[i] == b;
        lemma_keep_on_board_contains(adjacent_candidates(a), b);
        lemma_keep_on_board_contains(diagonal_candidates(a), b);
        if i < ka.len() {
            assert(ka[i] == b);
            lemma_adjacent_candidates_grid(a, b);
        } else {
            assert(kd[i - ka.len()] == b);
            lemma_diagonal_candidates_grid(a, b);
        }
        assert(on_board(b) && grid_nearby(a, b));
    }
    if exists|b: u8| z == square_zone(b, r) && on_board(b) && #[trigger] grid_nearby(a, b) {
        let b = choose|b: u8| z == square_zone(b, r) && on_board(b) && #[trigger] grid_nearby(a, b);
        lemma_keep_on_board_contains(adjacent_candidates(a), b);
        lemma_keep_on_board_contains(diagonal_candidates(a), b);
        lemma_adjacent_candidates_grid(a, b);
        lemma_diagonal_candidates_grid(a, b);
        if grid_adjacent(a, b) {
            assert(ka.contains(b));
            let i = choose|i: int| 0 <= i < ka.len() && ka[i] == b;
            assert(n[i] == b);
        } else {
            assert(abs(row(a) - row(b)) == 1 && abs(col(a) - col(b)) == 1);
            assert(kd.contains(b));
            let i = choose|i: int| 0 <= i < kd.len() && kd[i] == b;
            assert(n[ka.len() + i] == b);
        }
        assert(n.contains(b));
        assert(squares_in(n, r).contains(z));
    }
}

/// Nearness between squares of the board is symmetric.
pub proof fn nearness_is_symmetric(a: u8, b: u8, r: Region)
    requires
        on_board(a),
        on_board(b),
    ensures
        nearby_zones(square_zone(a, r)).contains(square_zone(b, r)) == nearby_zones(
            square_zone(b, r),
        ).contains(square_zone(a, r)),
{
    nearby_on_the_grid(a, r, square_zone(b, r));
    nearby_on_the_grid(b, r, square_zone(a, r));
    assert(grid_nearby(a, b) == grid_nearby(b, a));
}

/// A zone adjacent to a square of the board is also nearby it.
pub proof fn adjacent_zones_are_nearby(a: u8, r: Region, z: ZoneView)
    requires
        on_board(a),
        adjacent_zones(square_zone(a, r)).contains(z),
    ensures
        nearby_zones(square_zone(a, r)).contains(z),
{
    adjacency_on_the_grid(a, r, z);
    nearby_on_the_grid(a, r, z);
    let b = choose|b: u8| z == square_zone(b, r) && on_board(b) && #[trigger] grid_adjacent(a, b);
    assert(grid_nearby(a, b));
}


/// Squares a knight's move apart: two steps along one axis and one along
/// the other.
pub open spec fn knight_step(a: u8, b: u8) -> bool {
    (abs(row(a) - row(b)) == 1 && abs(col(a) - col(b)) == 2) || (abs(row(a) - row(b)) == 2 && abs(
        col(a) - col(b),
    ) == 1)
}

/// The square that offset `o` reaches from column `c` and row `r`, when it
/// stays on the board.
pub open spec fn knight_lands(c: int, r: int, o: (int, int), t: u8) -> bool {
    1 <= c + o.0 <= 5 && 1 <= r + o.1 <= 4 && t == ((r + o.1 - 1) * 5 + c + o.0) as u8
}

proof fn lemma_knight_targets_contains(c: int, r: int, offs: Seq<(int, int)>, t: u8)
    ensures
        knight_targets(c, r, offs).contains(t) <==> (exists|i: int|
            0 <= i < offs.len() && #[trigger] knight_lands(c, r, offs[i], t)),
    decreases offs.len(),
{
    if offs.len() > 0 {
        let p = offs.drop_last();
        lemma_knight_targets_contains(c, r, p, t);
        let prev = knight_targets(c, r, p);
        let o = offs.last();
        if knight_targets(c, r, offs).contains(t) {
            if prev.contains(t) {
                let i = choose|i: int| 0 <= i < p.len() && #[trigger] knight_lands(c, r, p[i], t);
                assert(offs[i] == p[i]);
            } else {
                let k = knight_targets(c, r, offs);
                let j = choose|j: int| 0 <= j < k.len() && k[j] == t;
                assert(knight_lands(c, r, offs[offs.len() - 1], t));
            }
        }
        if exists|i: int| 0 <= i < offs.len() && #[trigger] knight_lands(c, r, offs[i], t) {
            let i = choose|i: int| 0 <= i < offs.len() && #[trigger] knight_lands(c, r, offs[i], t);
            if i < p.len() {
                assert(p[i] == offs[i]);
                assert(prev.contains(t));
                let j = choose|j: int| 0 <= j < prev.len() && prev[j] == t;
                if 1 <= c + o.0 <= 5 && 1 <= r + o.1 <= 4 {
                    assert(prev.push(((r + o.1 - 1) * 5 + c + o.0) as u8)[j] == t);
                }
            } else {
                assert(prev.push(t)[prev.len() as int] == t);
            }
        }
    }
}

/// Knight's moves on the grid: from a square of the board, the zones listed
/// are exactly the surface squares two steps along one axis and one along
/// the other.
pub proof fn knight_moves_on_the_grid(a: u8, r: Region, z: ZoneView)
    requires
        on_board(a),
    ensures
        knight_zones(square_zone(a, r)).contains(z) <==> (exists|b: u8|
            z == square_zone(b, Region::Surface) && on_board(b) && #[trigger] knight_step(a, b)),
{
    let offs = knight_offsets();
    let c = knight_col(a);
    let rw = knight_row(a);
    assert(c == col(a) + 1 && rw == row(a) + 1);
    lemma_squares_in_contains(knight_squares(a), Region::Surface, z);
    if knight_zones(square_zone(a, r)).contains(z) {
        let b = choose|b: u8|
            z == square_zone(b, Region::Surface) && #[trigger] knight_squares(a).contains(b);
        lemma_knight_targets_contains(c, rw, offs, b);
        let i = choose|i: int| 0 <= i < offs.len() && #[trigger] knight_lands(c, rw, offs[i], b);
        assert(on_board(b));
        assert(row(b) == rw + offs[i].1 - 1 && col(b) == c + offs[i].0 - 1);
        assert(knight_step(a, b));
    }
    if exists|b: u8| z == square_zone(b, Region::Surface) && on_board(b) && #[trigger] knight_step(a, b) {
        let b = choose|b: u8|
            z == square_zone(b, Region::Surface) && on_board(b) && #[trigger] knight_step(a, b);
        lemma_knight_targets_contains(c, rw, offs, b);
        let dc = col(b) - col(a);
        let dr = row(b) - row(a);
        assert(b == ((rw + dr - 1) * 5 + c + dc) as u8);
        let i: int = if dc == 1 && dr == 2 {
            0
        } else if dc == -1 && dr == 2 {
            1
        } else if dc == 1 && dr == -2 {
            2
        } else if dc == -1 && dr == -2 {
            3
        } else if dc == 2 && dr == 1 {
            4
        } else if dc == -2 && dr == 1 {
            5
        } else if dc == 2 && dr == -1 {
            6
        } else {
            7
        };
        assert(offs[i] == (dc, dr));
        assert(knight_lands(c, rw, offs[i], b));
        assert(knight_squares(a).contains(b));
    }
}

/// Knight's moves between squares of the board are symmetric.
pub proof fn knight_moves_are_symmetric(a: u8, b: u8, r: Region)
    requires
        on_board(a),
        on_board(b),
    ensures
        knight_zones(square_zone(a, r)).contains(square_zone(b, Region::Surface)) == knight_zones(
            square_zone(b, r),
        ).contains(square_zone(a, Region::Surface)),
{
    knight_moves_on_the_grid(a, r, square_zone(b, Region::Surface));
    knight_moves_on_the_grid(b, r, square_zone(a, Region::Surface));
    assert(knight_step(a, b) == knight_step(b, a));
}

/// Squares of the board that `s` holds more than once: none.
pub open spec fn board_squares_distinct(s: Seq<u8>) -> bool {
    forall|i: int, j: int|
        0 <= i < j < s.len() && on_board(#[trigger] s[i]) && on_board(#[trigger] s[j]) ==> s[i] != s[j]
}

/// Keeping the squares of the board keeps them apart when they were.
proof fn lemma_keep_on_board_no_duplicates(s: Seq<u8>)
    requires
        board_squares_distinct(s),
    ensures
        keep_on_board(s).no_duplicates(),
    decreases s.len(),
{
    if s.len() > 0 {
        let p = s.drop_last();
        assert(board_squares_distinct(p)) by {
            assert forall|i: int, j: int|
                0 <= i < j < p.len() && on_board(#[trigger] p[i]) && on_board(#[trigger] p[j]) implies p[i] != p[j] by {
                assert(s[i] == p[i] && s[j] == p[j]);
            }
        }
        lemma_keep_on_board_no_duplicates(p);
        if on_board(s.last()) {
            let k = keep_on_board(p);
            lemma_keep_on_board_contains(p, s.last());
            assert(!p.contains(s.last())) by {
                if p.contains(s.last()) {
                    let i = choose|i: int| 0 <= i < p.len() && p[i] == s.last();
                    assert(s[i] == p[i] && s[s.len() - 1] == s.last());
                }
            }
            assert forall|i: int, j: int| 0 <= i < j < k.push(s.last()).len() implies k.push(s.last())[i]
                != k.push(s.last())[j] by {
                if j == k.len() {
                    assert(k.contains(k[i]));
                }
            }
        }
    }
}

/// Squares of a region are told apart by their zones.
proof fn lemma_squares_in_no_duplicates(s: Seq<u8>, r: Region)
    requires
        s.no_duplicates(),
    ensures
        squares_in(s, r).no_duplicates(),
{
    assert forall|i: int, j: int| 0 <= i < j < squares_in(s, r).len() implies squares_in(s, r)[i]
        != squares_in(s, r)[j] by {
        assert(squares_in(s, r)[i] == square_zone(s[i], r));
        assert(squares_in(s, r)[j] == square_zone(s[j], r));
    }
}

/// A list without repeats is its own merging of equal neighbours.
proof fn lemma_dedup_no_duplicates<A>(s: Seq<A>)
    requires
        s.no_duplicates(),
    ensures
        dedup(s) == s,
    decreases s.len(),
{
    if s.len() > 0 {
        let p = s.drop_last();
        assert(p.no_duplicates());
        lemma_dedup_no_duplicates(p);
        if s.len() >= 2 {
            assert(s[s.len() - 2] != s[s.len() - 1]);
        }
        assert(p.push(s.last()) =~= s);
    }
}

/// The squares a knight's move away are told apart by their offsets.
proof fn lemma_knight_targets_distinct(c: int, r: int, offs: Seq<(int, int)>)
    requires
        offs.no_duplicates(),
    ensures
        knight_targets(c, r, offs).no_duplicates(),
        knight_targets(c, r, offs).len() <= offs.len(),
    decreases offs.len(),
{
    if offs.len() > 0 {
        let p = offs.drop_last();
        assert(p.no_duplicates());
        lemma_knight_targets_distinct(c, r, p);
        let prev = knight_targets(c, r, p);
        let (dc, dr) = offs.last();
        let nc = c + dc;
        let nr = r + dr;
        if 1 <= nc <= 5 && 1 <= nr <= 4 {
            let t = ((nr - 1) * 5 + nc) as u8;
            assert(!prev.contains(t)) by {
                if prev.contains(t) {
                    lemma_knight_targets_contains(c, r, p, t);
                    let i = choose|i: int| 0 <= i < p.len() && #[trigger] knight_lands(c, r, p[i], t);
                    assert(p[i] == offs[i]);
                    assert(offs[i] == offs[offs.len() - 1]);
                }
            }
            assert forall|i: int, j: int| 0 <= i < j < prev.push(t).len() implies prev.push(t)[i]
                != prev.push(t)[j] by {
                if j == prev.len() {
                    assert(prev.contains(prev[i]));
                }
            }
        }
    }
}

/// Each square of the board is listed once among the zones adjacent to a
/// square, among those nearby it, and among those a knight's move away,
/// which are at most eight.
pub proof fn zone_lists_hold_no_repeats(a: u8, r: Region)
    requires
        on_board(a),
    ensures
        adjacent_zones(square_zone(a, r)).no_duplicates(),
        nearby_zones(square_zone(a, r)).no_duplicates(),
        knight_zones(square_zone(a, r)).no_duplicates(),
        knight_zones(square_zone(a, r)).len() <= 8,
{
    let ac = adjacent_candidates(a);
    let dc = diagonal_candidates(a);
    assert(board_squares_distinct(ac));
    lemma_keep_on_board_no_duplicates(ac);
    lemma_squares_in_no_duplicates(adjacent_squares(a), r);
    let n = ac + dc;
    assert(board_squares_distinct(dc));
    assert(board_squares_distinct(n)) by {
        assert forall|i: int, j: int|
            0 <= i < j < n.len() && on_board(#[trigger] n[i]) && on_board(#[trigger] n[j]) implies n[i] != n[j] by {
            if j < ac.len() {
                assert(n[i] == ac[i] && n[j] == ac[j]);
            } else if i >= ac.len() {
                assert(n[i] == dc[i - ac.len()] && n[j] == dc[j - ac.len()]);
            } else {
                assert(n[i] == ac[i] && n[j] == dc[j - ac.len()]);
            }
        }
    }
    let ka = keep_on_board(ac);
    let kd = keep_on_board(dc);
    lemma_keep_on_board_no_duplicates(dc);
    assert((ka + kd).no_duplicates()) by {
        assert forall|i: int, j: int| 0 <= i < j < (ka + kd).len() implies (ka + kd)[i] != (ka + kd)[j] by {
            if i < ka.len() && j >= ka.len() {
                let x = ka[i];
                let y = kd[j - ka.len()];
                assert(ka.contains(x) && kd.contains(y));
                lemma_keep_on_board_contains(ac, x);
                lemma_keep_on_board_contains(dc, y);
                let p = choose|p: int| 0 <= p < ac.len() && ac[p] == x;
                let q = choose|q: int| 0 <= q < dc.len() && dc[q] == y;
                assert(n[p] == x && n[ac.len() + q] == y);
            } else if j < ka.len() {
                assert((ka + kd)[i] == ka[i] && (ka + kd)[j] == ka[j]);
            } else {
                assert((ka + kd)[i] == kd[i - ka.len()] && (ka + kd)[j] == kd[j - ka.len()]);
            }
        }
    }
    lemma_squares_in_no_duplicates(nearby_squares(a), r);
    lemma_dedup_no_duplicates(squares_in(nearby_squares(a), r));
    assert(knight_offsets().no_duplicates());
    lemma_knight_targets_distinct(knight_col(a), knight_row(a), knight_offsets());
    lemma_squares_in_no_duplicates(knight_squares(a), Region::Surface);
}

} // verus!
