//! Convex hull by Andrew's monotone chain.
//!
//! The points are sorted by `(x, y)`; a lower chain is built left to
//! right and an upper chain right to left, each dropping its last vertex
//! while the turn it makes with the next point is not strictly to the
//! left, so collinear boundary points are dropped and only corners stay.
//! The hull is returned as a clockwise, closed ring that keeps every
//! input point on or to the right of each of its edges. Fewer than three
//! points are returned as they are, closed onto their first point.

use vstd::prelude::*;

use crate::chain_facts::{
    Pt2, chain_inv, lemma_chain_step, lemma_corner_before_close, lemma_corner_before_turn, lex_le,
    lex_sorted, orient,
};
use crate::geometry::{Closure, Linestring, MultiPoint, Point, PointOrder, Polygon, Ring};

verus! {

/// `a` sorts no later than `b` by `(x, y)`.
pub open spec fn point_le(a: Point, b: Point) -> bool {
    a.x < b.x || (a.x == b.x && a.y <= b.y)
}

/// `s` is sorted by `(x, y)`.
pub open spec fn sorted_by_coordinates(s: Seq<Point>) -> bool {
    forall|i: int, j: int| 0 <= i < j < s.len() ==> #[trigger] point_le(s[i], s[j])
}

/// A point's coordinates.
pub open spec fn pt2(p: Point) -> Pt2 {
    (p.x as int, p.y as int)
}

/// The coordinates of a sequence of points.
pub open spec fn coords(s: Seq<Point>) -> Seq<Pt2> {
    s.map_values(|p: Point| pt2(p))
}

/// The point reflected through the origin.
pub open spec fn neg2(a: Pt2) -> Pt2 {
    (-a.0, -a.1)
}

/// `s` reversed and reflected through the origin: the order in which the
/// upper chain meets the points, as a lower chain.
pub open spec fn mirrored(s: Seq<Pt2>) -> Seq<Pt2> {
    Seq::new(s.len(), |k: int| neg2(s[s.len() - 1 - k]))
}

/// The upper chain of `h`, from position `from` on, reflected through the
/// origin.
pub open spec fn upper_view(h: Seq<Point>, from: int) -> Seq<Pt2> {
    Seq::new((h.len() - from) as nat, |k: int| neg2(pt2(h[from + k])))
}

/// The turn `a -> b -> c`: positive when it bends left (counter-clockwise),
/// negative when it bends right, zero when the three are collinear.
pub open spec fn turn(a: Point, b: Point, c: Point) -> int {
    orient(pt2(a), pt2(b), pt2(c))
}

proof fn lemma_orient_neg(a: Pt2, b: Pt2, c: Pt2)
    ensures
        orient(neg2(a), neg2(b), neg2(c)) == orient(a, b, c),
{
    assert(orient(neg2(a), neg2(b), neg2(c)) == orient(a, b, c)) by (nonlinear_arith);
}

proof fn lemma_orient_swap(a: Pt2, b: Pt2, c: Pt2)
    ensures
        orient(b, a, c) == -orient(a, b, c),
{
    assert(orient(b, a, c) == -orient(a, b, c)) by (nonlinear_arith);
}

proof fn lemma_orient_reverse(a: Pt2, b: Pt2, c: Pt2)
    ensures
        orient(c, b, a) == -orient(a, b, c),
{
    assert(orient(c, b, a) == -orient(a, b, c)) by (nonlinear_arith);
}

proof fn lemma_mirrored_sorted(s: Seq<Pt2>)
    requires
        lex_sorted(s),
    ensures
        lex_sorted(mirrored(s)),
{
    let m = mirrored(s);
    assert forall|i: int, j: int| 0 <= i < j < m.len() implies #[trigger] lex_le(m[i], m[j]) by {
        assert(lex_le(s[s.len() - 1 - j], s[s.len() - 1 - i]));
    }
}

/// `s` with its first point repeated at the end (unchanged when empty).
pub open spec fn closed_copy(s: Seq<Point>) -> Seq<Point> {
    if s.len() == 0 {
        s
    } else {
        s.push(s[0])
    }
}

/// The `i`-th vertex met when walking round the loop `s`, for
/// `0 <= i < 2 * s.len()`: after the last vertex the walk starts again
/// at the first.
pub open spec fn around(s: Seq<Point>, i: int) -> Point {
    if i < s.len() {
        s[i]
    } else {
        s[i - s.len()]
    }
}

/// Every three points of `s` are collinear (coincident points included):
/// the points lie on one line, or are all one point.
pub open spec fn points_collinear(s: Seq<Point>) -> bool {
    forall|i: int, j: int, k: int|
        0 <= i < s.len() && 0 <= j < s.len() && 0 <= k < s.len() ==> #[trigger] turn(s[i], s[j], s[k]) == 0
}

/// Vectors parallel to one non-zero vector are parallel to each other.
proof fn lemma_parallel_to_common(ux: int, uy: int, vx: int, vy: int, wx: int, wy: int)
    requires
        ux != 0 || uy != 0,
        ux * vy - uy * vx == 0,
        ux * wy - uy * wx == 0,
    ensures
        vx * wy - vy * wx == 0,
{
    assert(ux * (vx * wy - vy * wx) == vx * (ux * wy - uy * wx) - wx * (ux * vy - uy * vx)) by (nonlinear_arith);
    assert(uy * (vx * wy - vy * wx) == vy * (ux * wy - uy * wx) - wy * (ux * vy - uy * vx)) by (nonlinear_arith);
    assert(vx * wy - vy * wx == 0) by (nonlinear_arith)
        requires
            ux != 0 || uy != 0,
            ux * (vx * wy - vy * wx) == 0,
            uy * (vx * wy - vy * wx) == 0,
    ;
}

/// Points on the line through two distinct points are collinear.
proof fn lemma_on_one_line(h0: Point, h1: Point, s: Seq<Point>)
    requires
        h0 != h1,
        forall|q: Point| s.contains(q) ==> #[trigger] turn(h0, h1, q) == 0,
    ensures
        points_collinear(s),
{
    let ux = h1.x - h0.x;
    let uy = h1.y - h0.y;
    assert(ux != 0 || uy != 0);
    assert forall|i: int, j: int, k: int| 0 <= i < s.len() && 0 <= j < s.len() && 0 <= k < s.len()
        implies #[trigger] turn(s[i], s[j], s[k]) == 0 by {
        let a = s[i];
        let b = s[j];
        let c = s[k];
        assert(s.contains(a) && s.contains(b) && s.contains(c));
        assert(turn(h0, h1, a) == 0 && turn(h0, h1, b) == 0 && turn(h0, h1, c) == 0);
        assert(ux * (a.y - h0.y) - uy * (a.x - h0.x) == 0) by (nonlinear_arith)
            requires
                turn(h0, h1, a) == 0,
                ux == h1.x - h0.x,
                uy == h1.y - h0.y,
        ;
        assert(ux * (b.y - a.y) - uy * (b.x - a.x) == 0) by (nonlinear_arith)
            requires
                turn(h0, h1, a) == 0,
                turn(h0, h1, b) == 0,
                ux == h1.x - h0.x,
                uy == h1.y - h0.y,
        ;
        assert(ux * (c.y - a.y) - uy * (c.x - a.x) == 0) by (nonlinear_arith)
            requires
                turn(h0, h1, a) == 0,
                turn(h0, h1, c) == 0,
                ux == h1.x - h0.x,
                uy == h1.y - h0.y,
        ;
        lemma_parallel_to_common(ux, uy, b.x - a.x, b.y - a.y, c.x - a.x, c.y - a.y);
        assert(turn(a, b, c) == (b.x - a.x) * (c.y - a.y) - (b.y - a.y) * (c.x - a.x)) by (nonlinear_arith);
    }
}

/// Copies of one point are collinear.
proof fn lemma_one_point_collinear(h0: Point, s: Seq<Point>)
    requires
        forall|q: Point| s.contains(q) ==> q == h0,
    ensures
        points_collinear(s),
{
    assert forall|i: int, j: int, k: int| 0 <= i < s.len() && 0 <= j < s.len() && 0 <= k < s.len()
        implies #[trigger] turn(s[i], s[j], s[k]) == 0 by {
        assert(s.contains(s[i]) && s.contains(s[j]) && s.contains(s[k]));
    }
}

/// Fewer than three points are collinear.
proof fn lemma_few_points_collinear(s: Seq<Point>)
    requires
        s.len() < 3,
    ensures
        points_collinear(s),
{
    assert forall|i: int, j: int, k: int| 0 <= i < s.len() && 0 <= j < s.len() && 0 <= k < s.len()
        implies #[trigger] turn(s[i], s[j], s[k]) == 0 by {
        let a = pt2(s[i]);
        let b = pt2(s[j]);
        let c = pt2(s[k]);
        assert(a == b || b == c || a == c);
        assert(orient(a, b, c) == (b.0 - a.0) * (c.1 - b.1) - (b.1 - a.1) * (c.0 - b.0));
        if a == b {
            assert((b.0 - a.0) * (c.1 - b.1) - (b.1 - a.1) * (c.0 - b.0) == 0) by (nonlinear_arith)
                requires
                    a.0 == b.0,
                    a.1 == b.1,
            ;
        } else if b == c {
            assert((b.0 - a.0) * (c.1 - b.1) - (b.1 - a.1) * (c.0 - b.0) == 0) by (nonlinear_arith)
                requires
                    c.0 == b.0,
                    c.1 == b.1,
            ;
        } else {
            assert((b.0 - a.0) * (a.1 - b.1) - (b.1 - a.1) * (a.0 - b.0) == 0) by (nonlinear_arith);
        }
    }
}

/// Sorts points by `(x, y)`.
///
/// Calls `slice::sort_unstable_by_key` of `std` with the key `(x, y)`:
/// its documentation promises a reordering of the same points into
/// ascending key order. Points with equal keys are equal, so the order
/// among them does not matter.
#[verifier::external_body]
fn sort_points(v: &mut Vec<Point>)
    ensures
        final(v)@.to_multiset() == old(v)@.to_multiset(),
        final(v)@.len() == old(v)@.len(),
        sorted_by_coordinates(final(v)@),
{
    v.sort_unstable_by_key(|p| (p.x, p.y));
}

/// The exact turn `a -> b -> c`.
fn cross_2d(a: &Point, b: &Point, c: &Point) -> (t: i128)
    ensures
        t == turn(*a, *b, *c),
{
    let ux = b.x as i128 - a.x as i128;
    let uy = b.y as i128 - a.y as i128;
    let vx = c.x as i128 - b.x as i128;
    let vy = c.y as i128 - b.y as i128;
    proof {
        assert(-0x1_0000_0000_0000_0000 <= ux * vy <= 0x1_0000_0000_0000_0000) by (nonlinear_arith)
            requires
                -0x1_0000_0000 <= ux <= 0x1_0000_0000,
                -0x1_0000_0000 <= vy <= 0x1_0000_0000,
        ;
        assert(-0x1_0000_0000_0000_0000 <= uy * vx <= 0x1_0000_0000_0000_0000) by (nonlinear_arith)
            requires
                -0x1_0000_0000 <= uy <= 0x1_0000_0000,
                -0x1_0000_0000 <= vx <= 0x1_0000_0000,
        ;
    }
    proof {
        assert(ux * vy - uy * vx == turn(*a, *b, *c)) by (nonlinear_arith)
            requires
                ux == b.x - a.x,
                uy == b.y - a.y,
                vx == c.x - b.x,
                vy == c.y - b.y,
        ;
    }
    ux * vy - uy * vx
}

/// A point of a sorted copy is a point of the input.
proof fn lemma_same_points(input: Seq<Point>, sorted: Seq<Point>, q: Point)
    requires
        sorted.to_multiset() == input.to_multiset(),
    ensures
        input.contains(q) == sorted.contains(q),
{
    vstd::seq_lib::to_multiset_contains(input, q);
    vstd::seq_lib::to_multiset_contains(sorted, q);
}

/// The loop closed by the lower chain `L` and the upper chain (seen
/// through `u`) keeps every point on or to the left of each edge.
proof fn lemma_loop_encloses(
    p: Seq<Pt2>,
    l: Seq<Pt2>,
    idx_l: Seq<int>,
    h: Seq<Point>,
    lower: int,
    u: Seq<Pt2>,
    idx_u: Seq<int>,
    k: int,
    j: int,
)
    requires
        chain_inv(p, p.len() as int, l, idx_l),
        chain_inv(mirrored(p), p.len() as int, u, idx_u),
        l.len() == lower,
        h.len() >= lower,
        coords(h).take(lower) == l,
        u == upper_view(h, lower - 1),
        0 <= k < h.len() - 1,
        0 <= j < p.len(),
    ensures
        orient(pt2(h[k]), pt2(h[k + 1]), p[j]) >= 0,
{
    let n = p.len() as int;
    if k < lower - 1 {
        assert(coords(h).take(lower)[k] == pt2(h[k]));
        assert(coords(h).take(lower)[k + 1] == pt2(h[k + 1]));
        assert(orient(l[k], l[k + 1], p[j]) >= 0);
    } else {
        let m = k - (lower - 1);
        assert(u[m] == neg2(pt2(h[k])));
        assert(u[m + 1] == neg2(pt2(h[k + 1])));
        let jj = n - 1 - j;
        assert(mirrored(p)[jj] == neg2(p[j]));
        assert(orient(u[m], u[m + 1], mirrored(p)[jj]) >= 0);
        lemma_orient_neg(pt2(h[k]), pt2(h[k + 1]), p[j]);
    }
}

/// Every vertex of the loop is one of the points.
proof fn lemma_vertex_index(
    p: Seq<Pt2>,
    l: Seq<Pt2>,
    idx_l: Seq<int>,
    h: Seq<Point>,
    lower: int,
    u: Seq<Pt2>,
    idx_u: Seq<int>,
    k: int,
) -> (j: int)
    requires
        chain_inv(p, p.len() as int, l, idx_l),
        chain_inv(mirrored(p), p.len() as int, u, idx_u),
        l.len() == lower,
        h.len() >= lower,
        coords(h).take(lower) == l,
        u == upper_view(h, lower - 1),
        0 <= k < h.len(),
    ensures
        0 <= j < p.len(),
        pt2(h[k]) == p[j],
{
    let n = p.len() as int;
    if k < lower {
        assert(coords(h).take(lower)[k] == pt2(h[k]));
        idx_l[k]
    } else {
        let m = k - (lower - 1);
        assert(u[m] == neg2(pt2(h[k])));
        let i = idx_u[m];
        assert(mirrored(p)[i] == neg2(p[n - 1 - i]));
        n - 1 - i
    }
}

/// The turn at each vertex of the loop is strictly left when the loop has
/// at least three distinct vertices: the chains turn strictly left at
/// their inner vertices, and where they meet, at the first and the last
/// point, the turn cannot be straight.
proof fn lemma_loop_turns(
    p: Seq<Pt2>,
    l: Seq<Pt2>,
    idx_l: Seq<int>,
    h: Seq<Point>,
    lower: int,
    u: Seq<Pt2>,
    idx_u: Seq<int>,
)
    requires
        lex_sorted(p),
        chain_inv(p, p.len() as int, l, idx_l),
        chain_inv(mirrored(p), p.len() as int, u, idx_u),
        l.len() == lower,
        lower >= 2,
        h.len() >= 4,
        h.len() >= lower + 1,
        coords(h).take(lower) == l,
        u == upper_view(h, lower - 1),
        pt2(h[h.len() - 1]) == p[0],
    ensures
        forall|k: int| 0 <= k < h.len() - 2 ==> #[trigger] orient(pt2(h[k]), pt2(h[k + 1]), pt2(h[k + 2])) > 0,
        orient(pt2(h[h.len() - 2]), pt2(h[0]), pt2(h[1])) > 0,
{
    let n = p.len() as int;
    let len = h.len() as int;
    let f = coords(h);
    let qq = mirrored(p);
    assert(u.len() == len - lower + 1);
    assert forall|k: int| 0 <= k < len implies #[trigger] f[k] == pt2(h[k]) by {}
    // The chains' inner turns.
    assert forall|k: int| 0 <= k < lower - 2 implies #[trigger] orient(pt2(h[k]), pt2(h[k + 1]), pt2(h[k + 2])) > 0 by {
        assert(coords(h).take(lower)[k] == pt2(h[k]));
        assert(coords(h).take(lower)[k + 1] == pt2(h[k + 1]));
        assert(coords(h).take(lower)[k + 2] == pt2(h[k + 2]));
        assert(orient(l[k], l[k + 1], l[k + 2]) > 0);
    }
    assert forall|k: int| lower - 1 <= k < len - 2 implies #[trigger] orient(pt2(h[k]), pt2(h[k + 1]), pt2(h[k + 2])) > 0 by {
        let m = k - (lower - 1);
        assert(u[m] == neg2(pt2(h[k])));
        assert(u[m + 1] == neg2(pt2(h[k + 1])));
        assert(u[m + 2] == neg2(pt2(h[k + 2])));
        assert(orient(u[m], u[m + 1], u[m + 2]) > 0);
        lemma_orient_neg(pt2(h[k]), pt2(h[k + 1]), pt2(h[k + 2]));
    }
    // The first and the last point differ: otherwise every point is the
    // same, and no chain could turn.
    assert(pt2(h[0]) == p[0]) by {
        assert(coords(h).take(lower)[0] == pt2(h[0]));
    }
    assert(pt2(h[lower - 1]) == p[n - 1]) by {
        assert(coords(h).take(lower)[lower - 1] == pt2(h[lower - 1]));
    }
    if p[0] == p[n - 1] {
        assert forall|k: int| 0 <= k < len implies #[trigger] pt2(h[k]) == p[0] by {
            let j = lemma_vertex_index(p, l, idx_l, h, lower, u, idx_u, k);
            if 0 < j {
                assert(lex_le(p[0], p[j]));
            }
            if j < n - 1 {
                assert(lex_le(p[j], p[n - 1]));
            }
        }
        let x = p[0];
        assert(orient(x, x, x) == 0) by (nonlinear_arith);
        if lower >= 3 {
            assert(orient(pt2(h[0]), pt2(h[0int + 1]), pt2(h[0int + 2])) > 0);
        } else {
            assert(orient(pt2(h[1]), pt2(h[1int + 1]), pt2(h[1int + 2])) > 0);
        }
    }
    assert(p[0] != p[n - 1]);
    // Every point lies on or left of every edge.
    assert forall|k: int, j: int| 0 <= k < len - 1 && 0 <= j < n implies #[trigger] orient(pt2(h[k]), pt2(h[k + 1]), p[j]) >= 0 by {
        lemma_loop_encloses(p, l, idx_l, h, lower, u, idx_u, k, j);
    }
    // Consecutive vertices differ around each meeting point.
    let big = pt2(h[lower - 1]);
    let small = p[0];
    let ja = lemma_vertex_index(p, l, idx_l, h, lower, u, idx_u, lower - 2);
    let jb = lemma_vertex_index(p, l, idx_l, h, lower, u, idx_u, lower);
    let a = pt2(h[lower - 2]);
    let b = pt2(h[lower]);
    if ja < n - 1 {
        assert(lex_le(p[ja], p[n - 1]));
    }
    if jb < n - 1 {
        assert(lex_le(p[jb], p[n - 1]));
    }
    assert(orient(a, big, b) >= 0) by {
        assert(orient(pt2(h[lower - 2]), pt2(h[(lower - 2) + 1]), p[jb]) >= 0);
    }
    assert(a != big) by {
        if lower >= 3 {
            assert(orient(pt2(h[lower - 3]), pt2(h[(lower - 3) + 1]), pt2(h[(lower - 3) + 2])) > 0);
            assert(orient(pt2(h[lower - 3]), big, big) == 0) by (nonlinear_arith);
        }
    }
    assert(b != big) by {
        if len >= lower + 2 {
            assert(orient(pt2(h[lower - 1]), pt2(h[(lower - 1) + 1]), pt2(h[(lower - 1) + 2])) > 0);
            assert(orient(big, big, pt2(h[lower + 1])) == 0) by (nonlinear_arith);
        } else {
            assert(b == small);
        }
    }
    // The turn at the last point.
    if len >= lower + 2 {
        let c = pt2(h[lower + 1]);
        let jc = lemma_vertex_index(p, l, idx_l, h, lower, u, idx_u, lower + 1);
        assert(orient(a, big, c) >= 0) by {
            assert(orient(pt2(h[lower - 2]), pt2(h[(lower - 2) + 1]), p[jc]) >= 0);
        }
        assert(orient(big, b, c) > 0) by {
            assert(orient(pt2(h[lower - 1]), pt2(h[(lower - 1) + 1]), pt2(h[(lower - 1) + 2])) > 0);
        }
        lemma_corner_before_turn(a, big, b, c);
    } else {
        let pa = pt2(h[lower - 3]);
        let jpa = lemma_vertex_index(p, l, idx_l, h, lower, u, idx_u, lower - 3);
        assert(orient(pa, a, big) > 0) by {
            assert(orient(pt2(h[lower - 3]), pt2(h[(lower - 3) + 1]), pt2(h[(lower - 3) + 2])) > 0);
        }
        assert(orient(big, b, pa) >= 0) by {
            assert(orient(pt2(h[lower - 1]), pt2(h[(lower - 1) + 1]), p[jpa]) >= 0);
        }
        lemma_corner_before_close(pa, a, big, b);
    }
    assert(orient(pt2(h[lower - 2]), pt2(h[(lower - 2) + 1]), pt2(h[(lower - 2) + 2])) > 0);
    // The turn at the first point, seen through the reflection.
    let up = pt2(h[len - 2]);
    let l1 = pt2(h[1]);
    let jup = lemma_vertex_index(p, l, idx_l, h, lower, u, idx_u, len - 2);
    let jl1 = lemma_vertex_index(p, l, idx_l, h, lower, u, idx_u, 1);
    if 0 < jup {
        assert(lex_le(p[0], p[jup]));
    }
    if 0 < jl1 {
        assert(lex_le(p[0], p[jl1]));
    }
    assert(orient(up, small, l1) >= 0) by {
        assert(orient(pt2(h[len - 2]), pt2(h[(len - 2) + 1]), p[jl1]) >= 0);
    }
    assert(up != small) by {
        if len - 2 >= lower {
            assert(orient(pt2(h[len - 3]), pt2(h[(len - 3) + 1]), pt2(h[(len - 3) + 2])) > 0);
            assert(orient(pt2(h[len - 3]), small, small) == 0) by (nonlinear_arith);
        } else {
            assert(up == big);
        }
    }
    assert(l1 != small) by {
        if lower >= 3 {
            assert(orient(pt2(h[0]), pt2(h[0int + 1]), pt2(h[0int + 2])) > 0);
            assert(orient(small, small, pt2(h[2])) == 0) by (nonlinear_arith);
        } else {
            assert(l1 == big);
        }
    }
    lemma_orient_neg(up, small, l1);
    if lower >= 3 {
        let c = pt2(h[2]);
        let jc = lemma_vertex_index(p, l, idx_l, h, lower, u, idx_u, 2);
        assert(orient(up, small, c) >= 0) by {
            assert(orient(pt2(h[len - 2]), pt2(h[(len - 2) + 1]), p[jc]) >= 0);
        }
        assert(orient(small, l1, c) > 0) by {
            assert(orient(pt2(h[0]), pt2(h[0int + 1]), pt2(h[0int + 2])) > 0);
        }
        lemma_orient_neg(up, small, c);
        lemma_orient_neg(small, l1, c);
        lemma_corner_before_turn(neg2(up), neg2(small), neg2(l1), neg2(c));
    } else {
        let pa = pt2(h[len - 3]);
        let jpa = lemma_vertex_index(p, l, idx_l, h, lower, u, idx_u, len - 3);
        assert(orient(pa, up, small) > 0) by {
            assert(orient(pt2(h[len - 3]), pt2(h[(len - 3) + 1]), pt2(h[(len - 3) + 2])) > 0);
        }
        assert(orient(small, l1, pa) >= 0) by {
            assert(orient(pt2(h[0]), pt2(h[0int + 1]), p[jpa]) >= 0);
        }
        lemma_orient_neg(pa, up, small);
        lemma_orient_neg(small, l1, pa);
        lemma_corner_before_close(neg2(pa), neg2(up), neg2(small), neg2(l1));
    }
}

/// Along the lower chain the loop's vertices ascend in `(x, y)` order;
/// along the upper chain, from its first vertex on, they descend.
proof fn lemma_vertex_order(
    p: Seq<Pt2>,
    l: Seq<Pt2>,
    idx_l: Seq<int>,
    h: Seq<Point>,
    lower: int,
    u: Seq<Pt2>,
    idx_u: Seq<int>,
    k1: int,
    k2: int,
)
    requires
        lex_sorted(p),
        chain_inv(p, p.len() as int, l, idx_l),
        chain_inv(mirrored(p), p.len() as int, u, idx_u),
        l.len() == lower,
        h.len() >= lower,
        coords(h).take(lower) == l,
        u == upper_view(h, lower - 1),
        0 <= k1 < k2 < h.len(),
    ensures
        k2 < lower ==> lex_le(pt2(h[k1]), pt2(h[k2])),
        k1 >= lower - 1 ==> lex_le(pt2(h[k2]), pt2(h[k1])),
{
    let n = p.len() as int;
    if k2 < lower {
        assert(coords(h).take(lower)[k1] == pt2(h[k1]));
        assert(coords(h).take(lower)[k2] == pt2(h[k2]));
        assert(idx_l[k1] < idx_l[k2]);
    }
    if k1 >= lower - 1 {
        let m1 = k1 - (lower - 1);
        let m2 = k2 - (lower - 1);
        assert(u[m1] == neg2(pt2(h[k1])));
        assert(u[m2] == neg2(pt2(h[k2])));
        let i1 = idx_u[m1];
        let i2 = idx_u[m2];
        assert(i1 < i2);
        assert(mirrored(p)[i1] == neg2(p[n - 1 - i1]));
        assert(mirrored(p)[i2] == neg2(p[n - 1 - i2]));
        assert(pt2(h[k1]) == p[n - 1 - i1]);
        assert(pt2(h[k2]) == p[n - 1 - i2]);
        assert(lex_le(p[n - 1 - i2], p[n - 1 - i1]));
    }
}

/// A strict turn joins three different points.
proof fn lemma_turn_distinct(a: Pt2, b: Pt2, c: Pt2)
    requires
        orient(a, b, c) > 0,
    ensures
        a != b,
        b != c,
{
    if a == b {
        assert(orient(a, b, c) == 0) by (nonlinear_arith)
            requires
                a == b,
        ;
    }
    if b == c {
        assert(orient(a, b, c) == 0) by (nonlinear_arith)
            requires
                b == c,
        ;
    }
}

/// No vertex can be met twice: at a corner `v` of the lower chain the
/// loop leaves towards `n1`, after `v` in `(x, y)` order, and at a corner
/// of the upper chain it leaves towards `n2`, before `v`. Keeping every
/// point on or to the left of both edges forces the two edges onto one
/// line in opposite directions, and then the lower corner's previous
/// vertex `prev` falls strictly right of the upper edge.
proof fn lemma_no_double_corner(v: Pt2, n1: Pt2, n2: Pt2, prev: Pt2)
    requires
        lex_le(v, n1),
        v != n1,
        lex_le(n2, v),
        n2 != v,
        orient(prev, v, n1) > 0,
        orient(v, n1, n2) >= 0,
        orient(v, n2, n1) >= 0,
    ensures
        orient(v, n2, prev) < 0,
{
    let a1 = n1.0 - v.0;
    let a2 = n1.1 - v.1;
    let b1 = n2.0 - v.0;
    let b2 = n2.1 - v.1;
    let e1 = prev.0 - v.0;
    let e2 = prev.1 - v.1;
    assert(orient(v, n1, n2) == a1 * b2 - a2 * b1) by (nonlinear_arith)
        requires
            a1 == n1.0 - v.0,
            a2 == n1.1 - v.1,
            b1 == n2.0 - v.0,
            b2 == n2.1 - v.1,
    ;
    assert(orient(v, n2, n1) == b1 * a2 - b2 * a1) by (nonlinear_arith)
        requires
            a1 == n1.0 - v.0,
            a2 == n1.1 - v.1,
            b1 == n2.0 - v.0,
            b2 == n2.1 - v.1,
    ;
    assert(orient(v, n2, prev) == b1 * e2 - b2 * e1) by (nonlinear_arith)
        requires
            e1 == prev.0 - v.0,
            e2 == prev.1 - v.1,
            b1 == n2.0 - v.0,
            b2 == n2.1 - v.1,
    ;
    if orient(v, n2, prev) >= 0 {
        assert(orient(prev, v, n1) == a1 * e2 - a2 * e1) by (nonlinear_arith)
            requires
                a1 == n1.0 - v.0,
                a2 == n1.1 - v.1,
                e1 == prev.0 - v.0,
                e2 == prev.1 - v.1,
        ;
        assert(a1 > 0 || (a1 == 0 && a2 > 0));
        assert(b1 < 0 || (b1 == 0 && b2 < 0));
        assert(a1 * b2 - a2 * b1 == 0);
        if a1 > 0 {
            if b1 == 0 {
                assert(a1 * b2 < 0) by (nonlinear_arith)
                    requires
                        a1 > 0,
                        b2 < 0,
                ;
                assert(a2 * b1 == 0) by (nonlinear_arith)
                    requires
                        b1 == 0,
                ;
            }
            assert(b1 < 0);
            assert(a1 * (b1 * e2 - b2 * e1) == b1 * (a1 * e2 - a2 * e1)) by (nonlinear_arith)
                requires
                    a1 * b2 == a2 * b1,
            ;
            assert(a1 * (b1 * e2 - b2 * e1) >= 0) by (nonlinear_arith)
                requires
                    a1 > 0,
                    b1 * e2 - b2 * e1 >= 0,
            ;
            assert(b1 * (a1 * e2 - a2 * e1) < 0) by (nonlinear_arith)
                requires
                    b1 < 0,
                    a1 * e2 - a2 * e1 > 0,
            ;
        } else {
            assert(a2 * b1 == 0) by (nonlinear_arith)
                requires
                    a1 == 0,
                    a1 * b2 - a2 * b1 == 0,
            ;
            assert(b1 == 0) by (nonlinear_arith)
                requires
                    a2 > 0,
                    a2 * b1 == 0,
            ;
            assert(b2 < 0);
            assert(a1 * e2 - a2 * e1 == -(a2 * e1)) by (nonlinear_arith)
                requires
                    a1 == 0,
            ;
            assert(b1 * e2 - b2 * e1 == -(b2 * e1)) by (nonlinear_arith)
                requires
                    b1 == 0,
            ;
            assert(e1 < 0) by (nonlinear_arith)
                requires
                    a2 > 0,
                    -(a2 * e1) > 0,
            ;
            assert(-(b2 * e1) < 0) by (nonlinear_arith)
                requires
                    b2 < 0,
                    e1 < 0,
            ;
        }
    }
}

/// Two corners of the loop (its vertices before the closing repeat)
/// are different points.
proof fn lemma_corners_differ(
    p: Seq<Pt2>,
    l: Seq<Pt2>,
    idx_l: Seq<int>,
    h: Seq<Point>,
    lower: int,
    u: Seq<Pt2>,
    idx_u: Seq<int>,
    a: int,
    b: int,
)
    requires
        lex_sorted(p),
        chain_inv(p, p.len() as int, l, idx_l),
        chain_inv(mirrored(p), p.len() as int, u, idx_u),
        l.len() == lower,
        lower >= 2,
        h.len() >= 4,
        h.len() >= lower + 1,
        coords(h).take(lower) == l,
        u == upper_view(h, lower - 1),
        pt2(h[h.len() - 1]) == p[0],
        forall|k: int| 0 <= k < h.len() - 2 ==> #[trigger] orient(pt2(h[k]), pt2(h[k + 1]), pt2(h[k + 2])) > 0,
        forall|k: int| 0 <= k < h.len() - 1 ==> #[trigger] pt2(h[k]) != pt2(h[k + 1]),
        0 <= a < b < h.len() - 1,
    ensures
        pt2(h[a]) != pt2(h[b]),
{
    let len = h.len() as int;
    assert(pt2(h[a]) != pt2(h[a + 1]));
    assert(pt2(h[b]) != pt2(h[b + 1]));
    if b < lower {
        lemma_vertex_order(p, l, idx_l, h, lower, u, idx_u, a, a + 1);
        if a + 1 < b {
            lemma_vertex_order(p, l, idx_l, h, lower, u, idx_u, a + 1, b);
        }
    } else if a >= lower - 1 {
        assert(pt2(h[b - 1]) != pt2(h[(b - 1) + 1]));
        lemma_vertex_order(p, l, idx_l, h, lower, u, idx_u, b - 1, b);
        if a < b - 1 {
            lemma_vertex_order(p, l, idx_l, h, lower, u, idx_u, a, b - 1);
        }
    } else if a == 0 {
        assert(pt2(h[0]) == p[0]) by {
            assert(coords(h).take(lower)[0] == pt2(h[0]));
        }
        lemma_vertex_order(p, l, idx_l, h, lower, u, idx_u, b, b + 1);
        if b + 1 < len - 1 {
            lemma_vertex_order(p, l, idx_l, h, lower, u, idx_u, b + 1, len - 1);
        }
    } else if pt2(h[a]) == pt2(h[b]) {
        let v = pt2(h[a]);
        let n1 = pt2(h[a + 1]);
        let n2 = pt2(h[b + 1]);
        let prev = pt2(h[a - 1]);
        lemma_vertex_order(p, l, idx_l, h, lower, u, idx_u, a, a + 1);
        lemma_vertex_order(p, l, idx_l, h, lower, u, idx_u, b, b + 1);
        assert(orient(pt2(h[a - 1]), pt2(h[(a - 1) + 1]), pt2(h[(a - 1) + 2])) > 0);
        let j1 = lemma_vertex_index(p, l, idx_l, h, lower, u, idx_u, a + 1);
        let j2 = lemma_vertex_index(p, l, idx_l, h, lower, u, idx_u, b + 1);
        let j0 = lemma_vertex_index(p, l, idx_l, h, lower, u, idx_u, a - 1);
        lemma_loop_encloses(p, l, idx_l, h, lower, u, idx_u, a, j2);
        lemma_loop_encloses(p, l, idx_l, h, lower, u, idx_u, b, j1);
        lemma_loop_encloses(p, l, idx_l, h, lower, u, idx_u, b, j0);
        lemma_no_double_corner(v, n1, n2, prev);
    }
}

/// The loop's corners are pairwise different points.
proof fn lemma_loop_corners_distinct(
    p: Seq<Pt2>,
    l: Seq<Pt2>,
    idx_l: Seq<int>,
    h: Seq<Point>,
    lower: int,
    u: Seq<Pt2>,
    idx_u: Seq<int>,
)
    requires
        lex_sorted(p),
        chain_inv(p, p.len() as int, l, idx_l),
        chain_inv(mirrored(p), p.len() as int, u, idx_u),
        l.len() == lower,
        lower >= 2,
        h.len() >= 4,
        h.len() >= lower + 1,
        coords(h).take(lower) == l,
        u == upper_view(h, lower - 1),
        pt2(h[h.len() - 1]) == p[0],
    ensures
        forall|a: int, b: int| 0 <= a < b < h.len() - 1 ==> pt2(h[a]) != pt2(h[b]),
{
    let len = h.len() as int;
    lemma_loop_turns(p, l, idx_l, h, lower, u, idx_u);
    assert forall|k: int| 0 <= k < len - 1 implies #[trigger] pt2(h[k]) != pt2(h[k + 1]) by {
        if k < len - 2 {
            lemma_turn_distinct(pt2(h[k]), pt2(h[k + 1]), pt2(h[k + 2]));
        } else {
            assert(orient(pt2(h[k - 1]), pt2(h[(k - 1) + 1]), pt2(h[(k - 1) + 2])) > 0);
            lemma_turn_distinct(pt2(h[k - 1]), pt2(h[(k - 1) + 1]), pt2(h[(k - 1) + 2]));
        }
    }
    assert forall|a: int, b: int| 0 <= a < b < len - 1 implies pt2(h[a]) != pt2(h[b]) by {
        lemma_corners_differ(p, l, idx_l, h, lower, u, idx_u, a, b);
    }
}

/// Andrew's monotone chain over at least three points: the hull's
/// vertices counter-clockwise, without the closing repeat. Every vertex
/// is one of the input points, and every input point lies on or to the
/// left of each edge of the closed loop.
fn monotone_chain(pts: Vec<Point>) -> (h: Vec<Point>)
    requires
        pts@.len() >= 3,
    ensures
        h@.len() >= 2,
        forall|i: int| 0 <= i < h@.len() ==> pts@.contains(#[trigger] h@[i]),
        forall|k: int, q: Point| 0 <= k < h@.len() && pts@.contains(q) ==> #[trigger] turn(h@[k], closed_copy(h@)[k + 1], q) >= 0,
        h@.len() >= 3 ==> forall|k: int| 0 <= k < h@.len() ==> #[trigger] turn(h@[k], around(h@, k + 1), around(h@, k + 2)) > 0,
        h@.len() >= 3 ==> forall|a: int, b: int| 0 <= a < b < h@.len() ==> #[trigger] h@[a] != #[trigger] h@[b],
        !points_collinear(pts@) ==> h@.len() >= 3,
{
    let ghost input = pts@;
    let mut pts = pts;
    sort_points(&mut pts);
    let ghost pp = coords(pts@);
    proof {
        assert forall|i: int| 0 <= i < pts@.len() implies input.contains(#[trigger] pts@[i]) by {
            vstd::seq_lib::to_multiset_contains(pts@, pts@[i]);
            assert(pts@.contains(pts@[i]));
            vstd::seq_lib::to_multiset_contains(input, pts@[i]);
        }
        assert forall|i: int, j: int| 0 <= i < j < pp.len() implies #[trigger] lex_le(pp[i], pp[j]) by {
            assert(point_le(pts@[i], pts@[j]));
        }
    }
    let n = pts.len();
    let mut h: Vec<Point> = Vec::new();
    let ghost mut idx_l: Seq<int> = Seq::empty();
    let mut i: usize = 0;
    while i < n
        invariant
            n == pts@.len(),
            n >= 3,
            i <= n,
            pp == coords(pts@),
            lex_sorted(pp),
            i == 0 ==> h@.len() == 0,
            i >= 1 ==> chain_inv(pp, i as int, coords(h@), idx_l),
            i >= 2 ==> h@.len() >= 2,
            forall|k: int| 0 <= k < h@.len() ==> #[trigger] input.contains(h@[k]),
            forall|k: int| 0 <= k < pts@.len() ==> #[trigger] input.contains(pts@[k]),
        decreases n - i,
    {
        let p = pts[i];
        let ghost hold = coords(h@);
        while h.len() >= 2 && cross_2d(&h[h.len() - 2], &h[h.len() - 1], &p) <= 0
            invariant
                i == 0 ==> h@.len() == 0,
                i >= 1 ==> h@.len() >= 1,
                h@.len() <= hold.len(),
                coords(h@) == hold.take(h@.len() as int),
                p == pts@[i as int],
                pp == coords(pts@),
                i < pts@.len(),
                forall|s: int| h@.len() <= s < hold.len() ==> #[trigger] orient(hold[s - 1], hold[s], pp[i as int]) <= 0,
                forall|k: int| 0 <= k < h@.len() ==> #[trigger] input.contains(h@[k]),
            decreases h@.len(),
        {
            let ghost len = h@.len() as int;
            proof {
                assert(hold.take(len)[len - 2] == hold[len - 2]);
                assert(coords(h@)[len - 2] == pt2(h@[len - 2]));
                assert(coords(h@)[len - 1] == pt2(h@[len - 1]));
                assert(pp[i as int] == pt2(p));
            }
            h.pop();
            proof {
                assert(coords(h@) =~= hold.take(h@.len() as int));
            }
        }
        let ghost t = h@.len() as int - 1;
        proof {
            assert(pp[i as int] == pt2(p));
            if i >= 1 {
                if t >= 1 {
                    assert(coords(h@)[t - 1] == pt2(h@[t - 1]));
                    assert(coords(h@)[t] == pt2(h@[t]));
                    assert(hold.take(t + 1)[t - 1] == hold[t - 1]);
                }
                lemma_chain_step(pp, i as int, hold, idx_l, t);
            }
            assert(input.contains(pts@[i as int]));
        }
        h.push(p);
        proof {
            if i >= 1 {
                assert(coords(h@) =~= hold.take(t + 1).push(pp[i as int]));
                idx_l = idx_l.take(t + 1).push(i as int);
            } else {
                idx_l = seq![0int];
                assert(coords(h@) =~= seq![pp[0]]);
            }
            assert forall|k: int| 0 <= k < h@.len() implies #[trigger] input.contains(h@[k]) by {
                if k == h@.len() - 1 {
                    assert(h@[k] == pts@[i as int]);
                }
            }
        }
        i = i + 1;
    }
    // The upper chain never pops below the lower chain's last vertex.
    let lower = h.len();
    let ghost l = coords(h@);
    let ghost qq = mirrored(pp);
    let ghost mut idx_u: Seq<int> = seq![0int];
    proof {
        lemma_mirrored_sorted(pp);
        assert(l[lower - 1] == pp[n - 1]);
        assert(upper_view(h@, lower - 1) =~= seq![qq[0]]);
        assert(coords(h@).take(lower as int) =~= l);
    }
    let mut j: usize = n - 1;
    while j > 0
        invariant
            n == pts@.len(),
            n >= 3,
            j <= n - 1,
            lower >= 2,
            h@.len() >= lower,
            j < n - 1 ==> h@.len() > lower,
            pp == coords(pts@),
            qq == mirrored(pp),
            lex_sorted(qq),
            lex_sorted(pp),
            l.len() == lower,
            chain_inv(pp, n as int, l, idx_l),
            coords(h@).take(lower as int) == l,
            chain_inv(qq, n - j, upper_view(h@, lower - 1), idx_u),
            forall|k: int| 0 <= k < h@.len() ==> #[trigger] input.contains(h@[k]),
            forall|k: int| 0 <= k < pts@.len() ==> #[trigger] input.contains(pts@[k]),
        decreases j,
    {
        j = j - 1;
        let p = pts[j];
        let ghost iu = n - 1 - j;
        let ghost hold = upper_view(h@, lower - 1);
        proof {
            assert(qq[iu] == neg2(pt2(p)));
        }
        while h.len() > lower && cross_2d(&h[h.len() - 2], &h[h.len() - 1], &p) <= 0
            invariant
                lower >= 2,
                h@.len() >= lower,
                coords(h@).take(lower as int) == l,
                upper_view(h@, lower - 1) == hold.take(h@.len() - lower + 1),
                h@.len() - lower + 1 <= hold.len(),
                qq[iu] == neg2(pt2(p)),
                forall|s: int| h@.len() - lower + 1 <= s < hold.len() ==> #[trigger] orient(hold[s - 1], hold[s], qq[iu]) <= 0,
                forall|k: int| 0 <= k < h@.len() ==> #[trigger] input.contains(h@[k]),
            decreases h@.len(),
        {
            let ghost len = h@.len() as int;
            let ghost su = len - lower;
            proof {
                assert(upper_view(h@, lower - 1)[su - 1] == neg2(pt2(h@[len - 2])));
                assert(upper_view(h@, lower - 1)[su] == neg2(pt2(h@[len - 1])));
                assert(hold.take(su + 1)[su - 1] == hold[su - 1]);
                assert(hold.take(su + 1)[su] == hold[su]);
                lemma_orient_neg(pt2(h@[len - 2]), pt2(h@[len - 1]), pt2(p));
            }
            let ghost before = h@;
            h.pop();
            proof {
                assert(coords(h@).take(lower as int) =~= coords(before).take(lower as int));
                assert(upper_view(h@, lower - 1) =~= hold.take(h@.len() - lower + 1));
            }
        }
        let ghost t = h@.len() - lower;
        proof {
            if t >= 1 {
                let len = h@.len() as int;
                assert(upper_view(h@, lower - 1)[t - 1] == neg2(pt2(h@[len - 2])));
                assert(upper_view(h@, lower - 1)[t] == neg2(pt2(h@[len - 1])));
                assert(hold.take(t + 1)[t - 1] == hold[t - 1]);
                assert(hold.take(t + 1)[t] == hold[t]);
                lemma_orient_neg(pt2(h@[len - 2]), pt2(h@[len - 1]), pt2(p));
            }
            lemma_chain_step(qq, iu, hold, idx_u, t);
            assert(input.contains(pts@[j as int]));
        }
        let ghost before_push = h@;
        h.push(p);
        proof {
            assert(upper_view(h@, lower - 1) =~= hold.take(t + 1).push(qq[iu]));
            idx_u = idx_u.take(t + 1).push(iu);
            assert(coords(h@).take(lower as int) =~= coords(before_push).take(lower as int));
            assert forall|k: int| 0 <= k < h@.len() implies #[trigger] input.contains(h@[k]) by {
                if k == h@.len() - 1 {
                    assert(h@[k] == pts@[j as int]);
                }
            }
        }
    }
    let ghost full = h@;
    proof {
        let u = upper_view(full, lower - 1);
        assert(u[u.len() - 1] == qq[n - 1]);
        assert(qq[n - 1] == neg2(pp[0]));
        assert(pt2(full[full.len() - 1]) == pp[0]);
        assert(coords(full).take(lower as int)[0] == pt2(full[0]));
        assert(l[0] == pp[0]);
        assert(full[full.len() - 1] == full[0]);
    }
    h.pop();
    proof {
        assert(closed_copy(h@) =~= full);
        assert forall|k: int, q: Point| 0 <= k < h@.len() && input.contains(q) implies #[trigger] turn(h@[k], closed_copy(h@)[k + 1], q) >= 0 by {
            lemma_same_points(input, pts@, q);
            let jq = choose|jq: int| 0 <= jq < pts@.len() && pts@[jq] == q;
            assert(pp[jq] == pt2(q));
            lemma_loop_encloses(pp, l, idx_l, full, lower as int, upper_view(full, lower - 1), idx_u, k, jq);
            assert(h@[k] == full[k]);
        }
        if h@.len() == 2 {
            let h0 = h@[0];
            let h1 = h@[1];
            assert forall|q: Point| input.contains(q) implies #[trigger] turn(h0, h1, q) == 0 by {
                assert(closed_copy(h@)[1] == h1);
                assert(closed_copy(h@)[2] == h0);
                assert(turn(h@[0int], closed_copy(h@)[0int + 1], q) >= 0);
                assert(turn(h@[1int], closed_copy(h@)[1int + 1], q) >= 0);
                lemma_orient_swap(pt2(h0), pt2(h1), pt2(q));
            }
            if h0 != h1 {
                lemma_on_one_line(h0, h1, input);
            } else {
                assert(full[0] == h0 && full[1] == h1 && full[2] == h0);
                assert(coords(full).take(lower as int)[lower - 1] == pt2(full[lower - 1]));
                assert(pt2(full[lower - 1]) == pp[n - 1]);
                assert(pt2(h0) == pp[0]);
                assert(pp[0] == pp[n - 1]);
                assert forall|q: Point| input.contains(q) implies q == h0 by {
                    lemma_same_points(input, pts@, q);
                    let jq = choose|jq: int| 0 <= jq < pts@.len() && pts@[jq] == q;
                    assert(pp[jq] == pt2(q));
                    if 0 < jq {
                        assert(lex_le(pp[0], pp[jq]));
                    }
                    if jq < n - 1 {
                        assert(lex_le(pp[jq], pp[n - 1]));
                    }
                    assert(q.x == h0.x && q.y == h0.y);
                }
                lemma_one_point_collinear(h0, input);
            }
        }
        if h@.len() >= 3 {
            let m = h@.len() as int;
            lemma_loop_turns(pp, l, idx_l, full, lower as int, upper_view(full, lower - 1), idx_u);
            lemma_loop_corners_distinct(pp, l, idx_l, full, lower as int, upper_view(full, lower - 1), idx_u);
            assert forall|a: int, b: int| 0 <= a < b < m implies #[trigger] h@[a] != #[trigger] h@[b] by {
                assert(full[a] == h@[a] && full[b] == h@[b]);
                assert(pt2(full[a]) != pt2(full[b]));
            }
            assert forall|k: int| 0 <= k < m implies #[trigger] turn(h@[k], around(h@, k + 1), around(h@, k + 2)) > 0 by {
                if k < m - 1 {
                    assert(full[k] == h@[k]);
                    assert(full[k + 1] == around(h@, k + 1));
                    assert(full[k + 2] == around(h@, k + 2));
                    assert(orient(pt2(full[k]), pt2(full[k + 1]), pt2(full[k + 2])) > 0);
                } else {
                    assert(full[m - 1] == h@[k]);
                    assert(full[0] == around(h@, k + 1));
                    assert(full[1] == around(h@, k + 2));
                    assert(orient(pt2(full[full.len() - 2]), pt2(full[0]), pt2(full[1])) > 0);
                }
            }
        }
    }
    h
}

/// A geometry whose points feed the hull.
pub trait CollectPoints {
    /// The points this geometry contributes, in order.
    spec fn spec_points(&self) -> Seq<Point>;

    /// Append this geometry's points to `out`.
    fn collect_points(&self, out: &mut Vec<Point>)
        ensures
            final(out)@ == old(out)@ + self.spec_points(),
    ;
}

/// Append every point of `src` to `out`.
fn extend_points(src: &Vec<Point>, out: &mut Vec<Point>)
    ensures
        final(out)@ == old(out)@ + src@,
{
    let ghost start = out@;
    let mut i: usize = 0;
    while i < src.len()
        invariant
            i <= src@.len(),
            out@ == start + src@.subrange(0, i as int),
        decreases src@.len() - i,
    {
        out.push(src[i]);
        proof {
            assert(start + src@.subrange(0, i + 1) =~= (start + src@.subrange(0, i as int)).push(src@[i as int]));
        }
        i = i + 1;
    }
    proof {
        assert(src@.subrange(0, src@.len() as int) =~= src@);
    }
}

impl CollectPoints for MultiPoint {
    open spec fn spec_points(&self) -> Seq<Point> {
        self.points@
    }

    fn collect_points(&self, out: &mut Vec<Point>) {
        extend_points(&self.points, out);
    }
}

impl CollectPoints for Linestring {
    open spec fn spec_points(&self) -> Seq<Point> {
        self.points@
    }

    fn collect_points(&self, out: &mut Vec<Point>) {
        extend_points(&self.points, out);
    }
}

impl CollectPoints for Ring {
    open spec fn spec_points(&self) -> Seq<Point> {
        self.points@
    }

    fn collect_points(&self, out: &mut Vec<Point>) {
        extend_points(&self.points, out);
    }
}

impl CollectPoints for Polygon {
    /// The exterior ring's points; holes lie inside it and do not
    /// change the hull.
    open spec fn spec_points(&self) -> Seq<Point> {
        self.exterior.points@
    }

    fn collect_points(&self, out: &mut Vec<Point>) {
        extend_points(&self.exterior.points, out);
    }
}

/// A strategy computing the convex hull of a geometry as a clockwise,
/// closed ring.
pub trait ConvexHullStrategy<G: CollectPoints> {
    /// The hull of `g`: a clockwise, closed ring whose vertices are points
    /// of `g` and which keeps every point of `g` on or to the right of
    /// each of its edges, that is, inside or on the ring. Fewer than three
    /// points come back as given, closed onto the first. A ring with three
    /// or more corners turns strictly right at every corner and meets each
    /// corner once; points not all on one line always give such a ring.
    fn convex_hull(&self, g: &G) -> (r: Ring)
        ensures
            r.order == PointOrder::Clockwise,
            r.closure == Closure::Closed,
            g.spec_points().len() < 3 ==> r.points@ == closed_copy(g.spec_points()),
            g.spec_points().len() >= 3 ==> r.points@.len() >= 3 && r.points@[0] == r.points@.last(),
            forall|i: int| 0 <= i < r.points@.len() ==> g.spec_points().contains(#[trigger] r.points@[i]),
            g.spec_points().len() >= 3 ==> forall|k: int, q: Point|
                0 <= k < r.points@.len() - 1 && g.spec_points().contains(q) ==> #[trigger] turn(r.points@[k], r.points@[k + 1], q) <= 0,
            g.spec_points().len() >= 3 && r.points@.len() >= 4 ==> forall|k: int|
                0 <= k < r.points@.len() - 2 ==> #[trigger] turn(r.points@[k], r.points@[k + 1], r.points@[k + 2]) < 0,
            g.spec_points().len() >= 3 && r.points@.len() >= 4 ==> turn(r.points@[r.points@.len() - 2], r.points@[0], r.points@[1]) < 0,
            g.spec_points().len() >= 3 && r.points@.len() >= 4 ==> forall|a: int, b: int|
                0 <= a < b < r.points@.len() - 1 ==> #[trigger] r.points@[a] != #[trigger] r.points@[b],
            !points_collinear(g.spec_points()) ==> r.points@.len() >= 4,
    ;
}

/// Andrew's monotone chain on the integer Cartesian plane. Collinear
/// boundary points are dropped, so the hull carries only its corners.
#[derive(Debug, Default, Clone, Copy)]
pub struct MonotoneChain;

impl<G: CollectPoints> ConvexHullStrategy<G> for MonotoneChain {
    fn convex_hull(&self, g: &G) -> (r: Ring) {
        let mut pts: Vec<Point> = Vec::new();
        g.collect_points(&mut pts);
        proof {
            assert(pts@ =~= g.spec_points());
        }
        if pts.len() < 3 {
            proof {
                lemma_few_points_collinear(g.spec_points());
            }
            let mut ring = pts;
            if ring.len() > 0 {
                let first = ring[0];
                ring.push(first);
            }
            proof {
                assert forall|i: int| 0 <= i < ring@.len() implies g.spec_points().contains(#[trigger] ring@[i]) by {
                    if i < g.spec_points().len() {
                        assert(ring@[i] == g.spec_points()[i]);
                    } else {
                        assert(ring@[i] == g.spec_points()[0]);
                    }
                }
            }
            return Ring { points: ring, order: PointOrder::Clockwise, closure: Closure::Closed };
        }
        let ghost input = pts@;
        let ccw = monotone_chain(pts);
        let mut hull: Vec<Point> = Vec::new();
        let mut k: usize = ccw.len();
        while k > 0
            invariant
                k <= ccw@.len(),
                hull@.len() == ccw@.len() - k,
                forall|i: int| 0 <= i < hull@.len() ==> hull@[i] == ccw@[ccw@.len() - 1 - i],
            decreases k,
        {
            k = k - 1;
            hull.push(ccw[k]);
        }
        let first = hull[0];
        hull.push(first);
        proof {
            let m = ccw@.len() as int;
            assert forall|k: int, q: Point| 0 <= k < hull@.len() - 1 && g.spec_points().contains(q) implies #[trigger] turn(hull@[k], hull@[k + 1], q) <= 0 by {
                assert(input.contains(q));
                if k < m - 1 {
                    let e = m - 2 - k;
                    assert(hull@[k] == ccw@[e + 1]);
                    assert(hull@[k + 1] == ccw@[e]);
                    assert(closed_copy(ccw@)[e + 1] == ccw@[e + 1]);
                    assert(turn(ccw@[e], closed_copy(ccw@)[e + 1], q) >= 0);
                    lemma_orient_swap(pt2(ccw@[e]), pt2(ccw@[e + 1]), pt2(q));
                } else {
                    assert(hull@[k] == ccw@[0]);
                    assert(hull@[k + 1] == ccw@[m - 1]);
                    assert(closed_copy(ccw@)[m] == ccw@[0]);
                    assert(turn(ccw@[m - 1], closed_copy(ccw@)[(m - 1) + 1], q) >= 0);
                    lemma_orient_swap(pt2(ccw@[m - 1]), pt2(ccw@[0]), pt2(q));
                }
            }
        }
        proof {
            let m = ccw@.len() as int;
            if m >= 3 {
                assert forall|k: int| 0 <= k < hull@.len() - 2 implies #[trigger] turn(hull@[k], hull@[k + 1], hull@[k + 2]) < 0 by {
                    let v = m - 2 - k;
                    if v >= 1 {
                        assert(turn(ccw@[v - 1], around(ccw@, (v - 1) + 1), around(ccw@, (v - 1) + 2)) > 0);
                        assert(hull@[k] == ccw@[v + 1]);
                        assert(hull@[k + 1] == ccw@[v]);
                        assert(hull@[k + 2] == ccw@[v - 1]);
                        lemma_orient_reverse(pt2(ccw@[v - 1]), pt2(ccw@[v]), pt2(ccw@[v + 1]));
                    } else {
                        assert(turn(ccw@[m - 1], around(ccw@, (m - 1) + 1), around(ccw@, (m - 1) + 2)) > 0);
                        assert(hull@[k] == ccw@[1]);
                        assert(hull@[k + 1] == ccw@[0]);
                        assert(hull@[k + 2] == ccw@[m - 1]);
                        lemma_orient_reverse(pt2(ccw@[m - 1]), pt2(ccw@[0]), pt2(ccw@[1]));
                    }
                }
                assert(turn(ccw@[m - 2], around(ccw@, (m - 2) + 1), around(ccw@, (m - 2) + 2)) > 0);
                assert(hull@[hull@.len() - 2] == ccw@[0]);
                assert(hull@[0] == ccw@[m - 1]);
                assert(hull@[1] == ccw@[m - 2]);
                lemma_orient_reverse(pt2(ccw@[m - 2]), pt2(ccw@[m - 1]), pt2(ccw@[0]));
                assert forall|a: int, b: int| 0 <= a < b < hull@.len() - 1 implies #[trigger] hull@[a] != #[trigger] hull@[b] by {
                    assert(hull@[a] == ccw@[m - 1 - a]);
                    assert(hull@[b] == ccw@[m - 1 - b]);
                }
            }
            assert forall|i: int| 0 <= i < hull@.len() implies input.contains(#[trigger] hull@[i]) by {
                if i < ccw@.len() {
                    assert(hull@[i] == ccw@[ccw@.len() - 1 - i]);
                } else {
                    assert(hull@[i] == ccw@[ccw@.len() - 1]);
                }
            }
        }
        Ring { points: hull, order: PointOrder::Clockwise, closure: Closure::Closed }
    }
}

} // verus!
