//! Bodies of water and spans of land: the groups of sites of the realm that
//! touch one another orthogonally, the sites that provide water apart from
//! those that do not.

use crate::board::{grid_adjacent, on_board};
use vstd::prelude::*;

verus! {

/// A site standing in the realm, as the grouping of terrain reads it: the
/// square it stands on and the water affinity it provides.
#[derive(Debug, Clone, Copy, PartialEq, Eq, Structural)]
pub struct RealmSite {
    pub square: u8,
    pub water: u8,
}

/// Two squares of the board that are orthogonally next to each other (or
/// the same square): the adjacency of `get_adjacent_zones` on squares.
pub open spec fn touching(a: u8, b: u8) -> bool {
    on_board(a) && on_board(b) && grid_adjacent(a, b)
}

/// Each square of `g` after the first touches a square that comes before
/// it: the squares of `g` hang together.
pub open spec fn chained(g: Seq<u8>) -> bool {
    forall|k: int|
        #![trigger g[k]]
        0 < k < g.len() ==> exists|j: int| 0 <= j < k && touching(g[j], g[k])
}

/// No square of `squares` touching a square of `g` is left out of `g`.
pub open spec fn closed_in(g: Seq<u8>, squares: Seq<u8>) -> bool {
    forall|a: u8, b: u8|
        #![trigger g.contains(a), squares.contains(b)]
        g.contains(a) && squares.contains(b) && touching(a, b) ==> g.contains(b)
}

/// `g` is one of the groups into which `squares` falls: a non-empty
/// repetition-free list of squares of `squares` that hangs together and
/// takes in every square of `squares` touching it.
pub open spec fn is_group_of(g: Seq<u8>, squares: Seq<u8>) -> bool {
    &&& g.len() > 0
    &&& g.no_duplicates()
    &&& forall|x: u8| #[trigger] g.contains(x) ==> squares.contains(x)
    &&& chained(g)
    &&& closed_in(g, squares)
}

/// The views of a list of groups.
pub open spec fn groups_view(groups: Seq<Vec<u8>>) -> Seq<Seq<u8>> {
    groups.map_values(|g: Vec<u8>| g@)
}

/// `groups` splits the squares of `squares` into the groups that touch
/// one another: each is a group of `squares`, no two share a square, and
/// every square of `squares` is in one of them.
pub open spec fn grouped(groups: Seq<Seq<u8>>, squares: Seq<u8>) -> bool {
    &&& forall|i: int| 0 <= i < groups.len() ==> is_group_of(#[trigger] groups[i], squares)
    &&& forall|i: int, j: int, x: u8|
        0 <= i < groups.len() && 0 <= j < groups.len() && i != j && #[trigger] groups[i].contains(x)
            ==> !(#[trigger] groups[j].contains(x))
    &&& forall|x: u8| #[trigger] squares.contains(x) ==> exists|i: int|
        0 <= i < groups.len() && #[trigger] groups[i].contains(x)
}

/// Whether squares `a` and `b` touch.
fn squares_touch(a: u8, b: u8) -> (r: bool)
    ensures
        r == touching(a, b),
{
    if a < 1 || a > 20 || b < 1 || b > 20 {
        return false;
    }
    let ra = (a - 1) / 5;
    let ca = (a - 1) % 5;
    let rb = (b - 1) / 5;
    let cb = (b - 1) % 5;
    let dr = if ra > rb { ra - rb } else { rb - ra };
    let dc = if ca > cb { ca - cb } else { cb - ca };
    dr + dc <= 1
}

/// Whether `x` is one of `squares`.
fn has_square(squares: &Vec<u8>, x: u8) -> (r: bool)
    ensures
        r == squares@.contains(x),
{
    let mut i: usize = 0;
    while i < squares.len()
        invariant
            i <= squares.len(),
            forall|j: int| 0 <= j < i ==> squares@[j] != x,
        decreases squares.len() - i,
    {
        if squares[i] == x {
            return true;
        }
        i += 1;
    }
    false
}

/// A repetition-free list drawn from `squares` is no longer than it.
proof fn lemma_distinct_within(g: Seq<u8>, squares: Seq<u8>)
    requires
        g.no_duplicates(),
        forall|x: u8| #[trigger] g.contains(x) ==> squares.contains(x),
    ensures
        g.len() <= squares.len(),
{
    g.unique_seq_to_set();
    squares.lemma_cardinality_of_set();
    assert(g.to_set().subset_of(squares.to_set()));
    vstd::set_lib::lemma_len_subset(g.to_set(), squares.to_set());
}

/// The group of `squares` that holds `start`.
fn grow_group(squares: &Vec<u8>, start: u8) -> (g: Vec<u8>)
    requires
        squares@.contains(start),
    ensures
        is_group_of(g@, squares@),
        g@[0] == start,
{
    let mut g: Vec<u8> = Vec::new();
    g.push(start);
    let mut k: usize = 0;
    proof {
        lemma_distinct_within(g@, squares@);
    }
    while k < g.len()
        invariant
            g@.len() > 0,
            g@[0] == start,
            k <= g@.len() <= squares@.len(),
            g@.no_duplicates(),
            forall|x: u8| #[trigger] g@.contains(x) ==> squares@.contains(x),
            chained(g@),
            forall|j: int, b: u8|
                #![trigger g@[j], squares@.contains(b)]
                0 <= j < k && squares@.contains(b) && touching(g@[j], b) ==> g@.contains(b),
        decreases squares@.len() - g@.len(), g@.len() - k,
    {
        let a = g[k];
        let ghost before = g@;
        let mut m: usize = 0;
        while m < squares.len()
            invariant
                k < g@.len() <= squares@.len(),
                a == g@[k as int],
                g@.len() >= before.len(),
                g@.subrange(0, before.len() as int) == before,
                g@[0] == start,
                m <= squares@.len(),
                g@.no_duplicates(),
                forall|x: u8| #[trigger] g@.contains(x) ==> squares@.contains(x),
                chained(g@),
                forall|j: int, b: u8|
                    #![trigger g@[j], squares@.contains(b)]
                    0 <= j < k && squares@.contains(b) && touching(g@[j], b) ==> g@.contains(b),
                forall|p: int| 0 <= p < m && touching(a, #[trigger] squares@[p]) ==> g@.contains(squares@[p]),
            decreases squares@.len() - m,
        {
            let b = squares[m];
            if squares_touch(a, b) && !has_square(&g, b) {
                let ghost old_g = g@;
                g.push(b);
                proof {
                    assert forall|x: u8| #[trigger] g@.contains(x) implies squares@.contains(x) by {
                        if x != b {
                            assert(old_g.contains(x));
                        }
                    }
                    assert forall|q: int| 0 < q < g@.len() implies exists|j: int|
                        0 <= j < q && touching(g@[j], #[trigger] g@[q]) by {
                        if q == old_g.len() {
                            assert(touching(g@[k as int], g@[q]));
                        } else {
                            assert(g@[q] == old_g[q]);
                            let j = choose|j: int| 0 <= j < q && touching(old_g[j], old_g[q]);
                            assert(g@[j] == old_g[j]);
                        }
                    }
                    assert forall|x: u8| old_g.contains(x) implies #[trigger] g@.contains(x) by {
                        let i = choose|i: int| 0 <= i < old_g.len() && old_g[i] == x;
                        assert(g@[i] == x);
                    }
                    assert(g@.contains(b)) by {
                        assert(g@[old_g.len() as int] == b);
                    }
                    lemma_distinct_within(g@, squares@);
                }
            }
            m += 1;
        }
        k += 1;
    }
    g
}

/// Along a group that hangs together, a group closed under touching that
/// holds one of its squares holds its first square too.
proof fn lemma_reaches_first(g: Seq<u8>, h: Seq<u8>, squares: Seq<u8>, k: int)
    requires
        0 <= k < g.len(),
        chained(g),
        forall|x: u8| #[trigger] g.contains(x) ==> squares.contains(x),
        closed_in(h, squares),
        h.contains(g[k]),
    ensures
        h.contains(g[0]),
    decreases k,
{
    if k > 0 {
        let j = choose|j: int| 0 <= j < k && touching(g[j], g[k]);
        assert(g.contains(g[j]));
        assert(squares.contains(g[j]));
        assert(touching(g[k], g[j]));
        lemma_reaches_first(g, h, squares, j);
    }
}

/// The index of a group of `groups` that holds `x`, if one does.
fn group_holding(groups: &Vec<Vec<u8>>, x: u8) -> (r: Option<usize>)
    ensures
        match r {
            Some(i) => i < groups@.len() && groups@[i as int]@.contains(x),
            None => forall|i: int| 0 <= i < groups@.len() ==> !(#[trigger] groups@[i])@.contains(x),
        },
{
    let mut i: usize = 0;
    while i < groups.len()
        invariant
            i <= groups@.len(),
            forall|j: int| 0 <= j < i ==> !(#[trigger] groups@[j])@.contains(x),
        decreases groups@.len() - i,
    {
        if has_square(&groups[i], x) {
            return Some(i);
        }
        i += 1;
    }
    None
}

/// Whether one of the groups `groups` holds `x`.
pub open spec fn in_some_group(groups: Seq<Seq<u8>>, x: u8) -> bool {
    exists|i: int| 0 <= i < groups.len() && #[trigger] groups[i].contains(x)
}

/// Splits `squares` into the groups of squares that touch one another.
pub fn connected_groups(squares: &Vec<u8>) -> (groups: Vec<Vec<u8>>)
    ensures
        grouped(groups_view(groups@), squares@),
{
    let mut groups: Vec<Vec<u8>> = Vec::new();
    let mut i: usize = 0;
    while i < squares.len()
        invariant
            i <= squares@.len(),
            forall|gi: int|
                0 <= gi < groups_view(groups@).len() ==> is_group_of(
                    #[trigger] groups_view(groups@)[gi],
                    squares@,
                ),
            forall|gi: int, gj: int, x: u8|
                0 <= gi < groups_view(groups@).len() && 0 <= gj < groups_view(groups@).len() && gi
                    != gj && #[trigger] groups_view(groups@)[gi].contains(x) ==> !(
                #[trigger] groups_view(groups@)[gj].contains(x)),
            forall|p: int| 0 <= p < i ==> in_some_group(groups_view(groups@), #[trigger] squares@[p]),
        decreases squares@.len() - i,
    {
        let s = squares[i];
        let ghost old_gv = groups_view(groups@);
        match group_holding(&groups, s) {
            Some(gi) => {
                assert(old_gv[gi as int].contains(s));
            },
            None => {
                let g = grow_group(squares, s);
                proof {
                    assert forall|gi: int, x: u8|
                        0 <= gi < old_gv.len() && #[trigger] old_gv[gi].contains(x) implies !(
                        #[trigger] g@.contains(x)) by {
                        if g@.contains(x) {
                            let k = choose|k: int| 0 <= k < g@.len() && g@[k] == x;
                            lemma_reaches_first(g@, old_gv[gi], squares@, k);
                            assert(old_gv[gi] == groups@[gi]@);
                        }
                    }
                }
                groups.push(g);
                proof {
                    let gv = groups_view(groups@);
                    assert(gv == old_gv.push(g@));
                    assert(gv[old_gv.len() as int][0] == s);
                    assert(gv[old_gv.len() as int].contains(s));
                    assert forall|p: int| 0 <= p < i implies in_some_group(gv, #[trigger] squares@[p]) by {
                        assert(in_some_group(old_gv, squares@[p]));
                        let gj = choose|gj: int| 0 <= gj < old_gv.len() && #[trigger] old_gv[gj].contains(squares@[p]);
                        assert(gv[gj] == old_gv[gj]);
                    }
                }
            },
        }
        proof {
            let gv = groups_view(groups@);
            assert(in_some_group(gv, squares@[i as int]));
        }
        i += 1;
    }
    groups
}

/// The squares of the sites of `sites` that provide water (`water` true)
/// or none (`water` false), in order.
pub open spec fn terrain_squares(sites: Seq<RealmSite>, water: bool) -> Seq<u8>
    decreases sites.len(),
{
    if sites.len() == 0 {
        Seq::empty()
    } else if (sites.last().water > 0) == water {
        terrain_squares(sites.drop_last(), water).push(sites.last().square)
    } else {
        terrain_squares(sites.drop_last(), water)
    }
}

/// The squares of the sites of `sites` that provide water (`water` true)
/// or none (`water` false).
fn squares_of_terrain(sites: &Vec<RealmSite>, water: bool) -> (r: Vec<u8>)
    ensures
        r@ == terrain_squares(sites@, water),
{
    let mut r: Vec<u8> = Vec::new();
    let mut i: usize = 0;
    while i < sites.len()
        invariant
            i <= sites@.len(),
            r@ == terrain_squares(sites@.take(i as int), water),
        decreases sites@.len() - i,
    {
        assert(sites@.take(i + 1).drop_last() == sites@.take(i as int));
        if (sites[i].water > 0) == water {
            r.push(sites[i].square);
        }
        i += 1;
    }
    assert(sites@.take(sites@.len() as int) == sites@);
    r
}

/// The bodies of water of the realm: the groups of water sites that touch
/// one another.
pub fn get_bodies_of_water(sites: &Vec<RealmSite>) -> (r: Vec<Vec<u8>>)
    ensures
        grouped(groups_view(r@), terrain_squares(sites@, true)),
{
    let squares = squares_of_terrain(sites, true);
    connected_groups(&squares)
}

/// The spans of land of the realm: the groups of sites without water that
/// touch one another.
pub fn get_spans_of_land(sites: &Vec<RealmSite>) -> (r: Vec<Vec<u8>>)
    ensures
        grouped(groups_view(r@), terrain_squares(sites@, false)),
{
    let squares = squares_of_terrain(sites, false);
    connected_groups(&squares)
}

/// The body of water that takes in `square`, if a water site stands there.
pub fn get_body_of_water_at(sites: &Vec<RealmSite>, square: u8) -> (r: Option<Vec<u8>>)
    ensures
        match r {
            Some(g) => is_group_of(g@, terrain_squares(sites@, true)) && g@.contains(square),
            None => !terrain_squares(sites@, true).contains(square),
        },
{
    let bodies = get_bodies_of_water(sites);
    match group_holding(&bodies, square) {
        Some(i) => {
            let ghost gv = groups_view(bodies@);
            assert(gv[i as int] == bodies@[i as int]@);
            Some(bodies[i].clone())
        },
        None => {
            proof {
                let gv = groups_view(bodies@);
                if terrain_squares(sites@, true).contains(square) {
                    let gi = choose|gi: int| 0 <= gi < gv.len() && #[trigger] gv[gi].contains(square);
                    assert(gv[gi] == bodies@[gi]@);
                }
            }
            None
        },
    }
}

/// Along a group that hangs together, a group closed under touching that
/// holds its first square holds all of it.
proof fn lemma_reaches_all(g: Seq<u8>, h: Seq<u8>, squares: Seq<u8>, k: int)
    requires
        0 <= k < g.len(),
        chained(g),
        forall|x: u8| #[trigger] g.contains(x) ==> squares.contains(x),
        closed_in(h, squares),
        h.contains(g[0]),
    ensures
        h.contains(g[k]),
    decreases k,
{
    if k > 0 {
        let j = choose|j: int| 0 <= j < k && touching(g[j], g[k]);
        lemma_reaches_all(g, h, squares, j);
        assert(g.contains(g[k]));
    }
}

/// The grouping is fixed by the squares alone: two ways of splitting the
/// same squares into groups that touch have the same groups, up to the
/// order of the squares in each.
pub proof fn groupings_agree(a: Seq<Seq<u8>>, b: Seq<Seq<u8>>, squares: Seq<u8>, i: int)
    requires
        grouped(a, squares),
        grouped(b, squares),
        0 <= i < a.len(),
    ensures
        exists|j: int| 0 <= j < b.len() && (#[trigger] b[j]).to_set() == a[i].to_set(),
{
    let g = a[i];
    assert(is_group_of(g, squares));
    let x = g[0];
    assert(g.contains(x));
    let j = choose|j: int| 0 <= j < b.len() && #[trigger] b[j].contains(x);
    let h = b[j];
    assert(is_group_of(h, squares));
    assert forall|y: u8| g.contains(y) implies h.contains(y) by {
        let k = choose|k: int| 0 <= k < g.len() && g[k] == y;
        lemma_reaches_all(g, h, squares, k);
    }
    let m = choose|m: int| 0 <= m < h.len() && h[m] == x;
    lemma_reaches_first(h, g, squares, m);
    assert forall|y: u8| h.contains(y) implies g.contains(y) by {
        let k = choose|k: int| 0 <= k < h.len() && h[k] == y;
        lemma_reaches_all(h, g, squares, k);
    }
    assert(h.to_set() =~= g.to_set());
}

/// Every site of the realm lies in a body of water or in a span of land:
/// in the first where it provides water, in the second where it does not.
pub proof fn every_site_lies_in_water_or_land(
    sites: Seq<RealmSite>,
    waters: Seq<Seq<u8>>,
    lands: Seq<Seq<u8>>,
    k: int,
)
    requires
        grouped(waters, terrain_squares(sites, true)),
        grouped(lands, terrain_squares(sites, false)),
        0 <= k < sites.len(),
    ensures
        sites[k].water > 0 ==> in_some_group(waters, sites[k].square),
        sites[k].water == 0 ==> in_some_group(lands, sites[k].square),
{
    lemma_terrain_squares_has(sites, sites[k].water > 0, k);
}

/// A site's square is among the squares of its kind of terrain.
proof fn lemma_terrain_squares_has(sites: Seq<RealmSite>, water: bool, k: int)
    requires
        0 <= k < sites.len(),
        (sites[k].water > 0) == water,
    ensures
        terrain_squares(sites, water).contains(sites[k].square),
    decreases sites.len(),
{
    let t = terrain_squares(sites, water);
    if k == sites.len() - 1 {
        assert(t[t.len() - 1] == sites[k].square);
    } else {
        lemma_terrain_squares_has(sites.drop_last(), water, k);
        let r = terrain_squares(sites.drop_last(), water);
        let p = choose|p: int| 0 <= p < r.len() && r[p] == sites[k].square;
        assert(t[p] == r[p]);
    }
}

} // verus!
