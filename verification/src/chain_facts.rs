//! Facts about monotone chains of points, for the convex hull.
//!
//! Points are pairs of integers ordered lexicographically. A chain built
//! by the monotone-chain step (drop the last vertex while the next point
//! does not turn strictly left, then append the point) keeps every point
//! it has seen on or to the left of each of its edges, and turns strictly
//! left at each inner vertex: [`lemma_chain_step`].

use vstd::prelude::*;

verus! {

/// The cross product of the vectors `(a1, a2)` and `(b1, b2)`.
pub open spec fn cross(a1: int, a2: int, b1: int, b2: int) -> int {
    a1 * b2 - a2 * b1
}

/// The vector `(a1, a2)` points into the open half-plane `x > 0`, or
/// straight up.
pub open spec fn lex_pos(a1: int, a2: int) -> bool {
    a1 > 0 || (a1 == 0 && a2 > 0)
}

/// `lex_pos`, or the zero vector.
pub open spec fn lex_nonneg(a1: int, a2: int) -> bool {
    a1 > 0 || (a1 == 0 && a2 >= 0)
}

/// Angular order is transitive among non-zero vectors of the half-plane
/// `x > 0 or (x == 0 and y > 0)`.
proof fn lemma_angular_transitive(a1: int, a2: int, b1: int, b2: int, c1: int, c2: int)
    requires
        lex_pos(a1, a2),
        lex_pos(b1, b2),
        lex_pos(c1, c2),
        cross(a1, a2, b1, b2) > 0,
        cross(b1, b2, c1, c2) >= 0,
    ensures
        cross(a1, a2, c1, c2) > 0,
{
    assert(a1 * c2 - a2 * c1 > 0) by (nonlinear_arith)
        requires
            a1 > 0 || (a1 == 0 && a2 > 0),
            b1 > 0 || (b1 == 0 && b2 > 0),
            c1 > 0 || (c1 == 0 && c2 > 0),
            a1 * b2 - a2 * b1 > 0,
            b1 * c2 - b2 * c1 >= 0,
    ;
}

/// With `u` the last chain edge, `w` the new edge and `d` the way back
/// from the new edge's start to an earlier point: an earlier point left
/// of the last edge stays left of a new edge that turns left.
proof fn lemma_behind_new_edge(u1: int, u2: int, w1: int, w2: int, d1: int, d2: int)
    requires
        lex_nonneg(u1, u2),
        lex_nonneg(w1, w2),
        lex_nonneg(-d1, -d2),
        cross(u1, u2, w1, w2) > 0,
        cross(u1, u2, d1, d2) >= 0,
    ensures
        cross(w1, w2, d1, d2) >= 0,
{
    assert(w1 * d2 - w2 * d1 >= 0) by (nonlinear_arith)
        requires
            u1 > 0 || (u1 == 0 && u2 >= 0),
            w1 > 0 || (w1 == 0 && w2 >= 0),
            -d1 > 0 || (-d1 == 0 && -d2 >= 0),
            u1 * w2 - u2 * w1 > 0,
            u1 * d2 - u2 * d1 >= 0,
    ;
}

/// Relative to the new edge's start, with `w` the new edge: a dropped
/// vertex `b` that turned right towards the new point, after a vertex `a`
/// on or left of the new edge, is on or left of it too.
proof fn lemma_dropped_step(a1: int, a2: int, b1: int, b2: int, w1: int, w2: int)
    requires
        lex_nonneg(a1, a2),
        lex_nonneg(b1 - a1, b2 - a2),
        lex_nonneg(w1 - b1, w2 - b2),
        cross(w1, w2, a1, a2) >= 0,
        cross(b1 - a1, b2 - a2, w1 - a1, w2 - a2) <= 0,
    ensures
        cross(w1, w2, b1, b2) >= 0,
{
    assert(w1 * b2 - w2 * b1 >= 0) by (nonlinear_arith)
        requires
            a1 > 0 || (a1 == 0 && a2 >= 0),
            b1 - a1 > 0 || (b1 - a1 == 0 && b2 - a2 >= 0),
            w1 - b1 > 0 || (w1 - b1 == 0 && w2 - b2 >= 0),
            w1 * a2 - w2 * a1 >= 0,
            (b1 - a1) * (w2 - a2) - (b2 - a2) * (w1 - a1) <= 0,
    ;
}

/// Relative to the new edge's start, with `w` the new edge: a point `r`
/// between two dropped vertices `a` and `b` (in sorted order) and left of
/// the edge `a -> b` is on or left of the new edge, as `a` and `b` are.
proof fn lemma_between(a1: int, a2: int, b1: int, b2: int, r1: int, r2: int, w1: int, w2: int)
    requires
        lex_nonneg(a1, a2),
        lex_nonneg(r1 - a1, r2 - a2),
        lex_nonneg(b1 - r1, b2 - r2),
        lex_nonneg(w1 - b1, w2 - b2),
        cross(w1, w2, a1, a2) >= 0,
        cross(w1, w2, b1, b2) >= 0,
        cross(b1 - a1, b2 - a2, r1 - a1, r2 - a2) >= 0,
    ensures
        cross(w1, w2, r1, r2) >= 0,
{
    assert(w1 * r2 - w2 * r1 >= 0) by (nonlinear_arith)
        requires
            a1 > 0 || (a1 == 0 && a2 >= 0),
            r1 - a1 > 0 || (r1 - a1 == 0 && r2 - a2 >= 0),
            b1 - r1 > 0 || (b1 - r1 == 0 && b2 - r2 >= 0),
            w1 - b1 > 0 || (w1 - b1 == 0 && w2 - b2 >= 0),
            w1 * a2 - w2 * a1 >= 0,
            w1 * b2 - w2 * b1 >= 0,
            (b1 - a1) * (r2 - a2) - (b2 - a2) * (r1 - a1) >= 0,
    ;
}

/// A point of the integer plane, as a pair of coordinates.
pub type Pt2 = (int, int);

/// `a` sorts no later than `b`: by x, then by y.
pub open spec fn lex_le(a: Pt2, b: Pt2) -> bool {
    a.0 < b.0 || (a.0 == b.0 && a.1 <= b.1)
}

/// The turn `a -> b -> c`: positive when it bends left.
pub open spec fn orient(a: Pt2, b: Pt2, c: Pt2) -> int {
    (b.0 - a.0) * (c.1 - b.1) - (b.1 - a.1) * (c.0 - b.0)
}

/// `s` is sorted lexicographically.
pub open spec fn lex_sorted(s: Seq<Pt2>) -> bool {
    forall|i: int, j: int| 0 <= i < j < s.len() ==> #[trigger] lex_le(s[i], s[j])
}

/// The chain `h`, whose vertices are the points of `p` at the increasing
/// positions `idx`, has been built from the first `i` points of `p`: it
/// starts at the first point and ends at the last one seen, every point
/// seen lies on or to the left of each edge, and every inner vertex turns
/// strictly left.
pub open spec fn chain_inv(p: Seq<Pt2>, i: int, h: Seq<Pt2>, idx: Seq<int>) -> bool {
    &&& 1 <= i <= p.len()
    &&& h.len() >= 1
    &&& h.len() == idx.len()
    &&& idx[0] == 0
    &&& idx[idx.len() - 1] == i - 1
    &&& forall|k: int| 0 <= k < h.len() ==> 0 <= #[trigger] idx[k] < i && h[k] == p[idx[k]]
    &&& forall|k1: int, k2: int| 0 <= k1 < k2 < h.len() ==> #[trigger] idx[k1] < #[trigger] idx[k2]
    &&& forall|k: int, j: int| 0 <= k < h.len() - 1 && 0 <= j < i ==> #[trigger] orient(h[k], h[k + 1], p[j]) >= 0
    &&& forall|k: int| 0 <= k < h.len() - 2 ==> #[trigger] orient(h[k], h[k + 1], h[k + 2]) > 0
}

proof fn lemma_orient_is_cross(a: Pt2, b: Pt2, c: Pt2)
    ensures
        orient(a, b, c) == cross(b.0 - a.0, b.1 - a.1, c.0 - a.0, c.1 - a.1),
        orient(a, b, a) == 0,
        orient(a, b, b) == 0,
{
    assert(orient(a, b, c) == cross(b.0 - a.0, b.1 - a.1, c.0 - a.0, c.1 - a.1)) by (nonlinear_arith);
    assert(orient(a, b, a) == 0) by (nonlinear_arith);
}

/// The chain's vertices are sorted.
proof fn lemma_chain_sorted(p: Seq<Pt2>, i: int, h: Seq<Pt2>, idx: Seq<int>, k1: int, k2: int)
    requires
        lex_sorted(p),
        chain_inv(p, i, h, idx),
        0 <= k1 <= k2 < h.len(),
    ensures
        lex_le(h[k1], h[k2]),
{
    if k1 < k2 {
        assert(idx[k1] < idx[k2]);
        assert(lex_le(p[idx[k1]], p[idx[k2]]));
    }
}

/// A point appended after a chain whose last turn it makes strictly left
/// lies strictly left of every earlier edge too.
proof fn lemma_left_of_earlier(h: Seq<Pt2>, q: Pt2, t: int, k: int)
    requires
        1 <= t < h.len(),
        0 <= k < t,
        forall|a: int, b: int| 0 <= a <= b <= t ==> #[trigger] lex_le(h[a], h[b]),
        lex_le(h[t], q),
        orient(h[t - 1], h[t], q) > 0,
        forall|m: int| 0 <= m < t - 1 ==> #[trigger] orient(h[m], h[m + 1], h[m + 2]) > 0,
    ensures
        orient(h[k], h[k + 1], q) > 0,
    decreases t - k,
{
    if k < t - 1 {
        lemma_left_of_earlier(h, q, t, k + 1);
        let u = (h[k + 1].0 - h[k].0, h[k + 1].1 - h[k].1);
        let w = (h[k + 2].0 - h[k + 1].0, h[k + 2].1 - h[k + 1].1);
        let z = (q.0 - h[k + 1].0, q.1 - h[k + 1].1);
        lemma_orient_is_cross(h[k], h[k + 1], h[k + 2]);
        lemma_orient_is_cross(h[k + 1], h[k + 2], q);
        lemma_orient_is_cross(h[k], h[k + 1], q);
        assert(orient(h[k], h[k + 1], h[k + 2]) > 0);
        assert(lex_le(h[k], h[k + 1]));
        assert(lex_le(h[k + 1], h[k + 2]));
        assert(lex_le(h[k + 2], h[t]));
        // u and w are not zero: the turn between them is strict.
        assert(cross(u.0, u.1, w.0, w.1) > 0) by (nonlinear_arith)
            requires
                orient(h[k], h[k + 1], h[k + 2]) > 0,
                u == (h[k + 1].0 - h[k].0, h[k + 1].1 - h[k].1),
                w == (h[k + 2].0 - h[k + 1].0, h[k + 2].1 - h[k + 1].1),
        ;
        assert(u != (0int, 0int));
        assert(w != (0int, 0int));
        assert(cross(w.0, w.1, z.0, z.1) == orient(h[k + 1], h[k + 2], q)) by (nonlinear_arith)
            requires
                w == (h[k + 2].0 - h[k + 1].0, h[k + 2].1 - h[k + 1].1),
                z == (q.0 - h[k + 1].0, q.1 - h[k + 1].1),
        ;
        assert(cross(u.0, u.1, z.0, z.1) == orient(h[k], h[k + 1], q)) by (nonlinear_arith)
            requires
                u == (h[k + 1].0 - h[k].0, h[k + 1].1 - h[k].1),
                z == (q.0 - h[k + 1].0, q.1 - h[k + 1].1),
        ;
        lemma_angular_transitive(u.0, u.1, w.0, w.1, z.0, z.1);
    }
}

/// Each vertex dropped while appending `q` lies on or to the left of the
/// new edge from the surviving last vertex `h[t]` to `q`.
proof fn lemma_dropped_above(h: Seq<Pt2>, q: Pt2, t: int, s: int)
    requires
        0 <= t <= s < h.len(),
        forall|a: int, b: int| 0 <= a <= b < h.len() ==> #[trigger] lex_le(h[a], h[b]),
        forall|a: int| 0 <= a < h.len() ==> #[trigger] lex_le(h[a], q),
        forall|m: int| t < m < h.len() ==> #[trigger] orient(h[m - 1], h[m], q) <= 0,
    ensures
        orient(h[t], q, h[s]) >= 0,
    decreases s - t,
{
    let c = h[t];
    if s == t {
        assert(orient(c, q, c) == 0) by (nonlinear_arith);
    } else {
        lemma_dropped_above(h, q, t, s - 1);
        let a = (h[s - 1].0 - c.0, h[s - 1].1 - c.1);
        let b = (h[s].0 - c.0, h[s].1 - c.1);
        let w = (q.0 - c.0, q.1 - c.1);
        assert(lex_le(c, h[s - 1]));
        assert(lex_le(h[s - 1], h[s]));
        assert(lex_le(h[s], q));
        assert(orient(h[s - 1], h[s], q) <= 0);
        assert(cross(w.0, w.1, a.0, a.1) == orient(c, q, h[s - 1])) by (nonlinear_arith)
            requires
                a == (h[s - 1].0 - c.0, h[s - 1].1 - c.1),
                w == (q.0 - c.0, q.1 - c.1),
        ;
        assert(cross(b.0 - a.0, b.1 - a.1, w.0 - a.0, w.1 - a.1) == orient(h[s - 1], h[s], q)) by (nonlinear_arith)
            requires
                a == (h[s - 1].0 - c.0, h[s - 1].1 - c.1),
                b == (h[s].0 - c.0, h[s].1 - c.1),
                w == (q.0 - c.0, q.1 - c.1),
        ;
        assert(cross(w.0, w.1, b.0, b.1) == orient(c, q, h[s])) by (nonlinear_arith)
            requires
                b == (h[s].0 - c.0, h[s].1 - c.1),
                w == (q.0 - c.0, q.1 - c.1),
        ;
        lemma_dropped_step(a.0, a.1, b.0, b.1, w.0, w.1);
    }
}

/// A point between `h[t]` and the chain's end lies between two
/// consecutive vertices.
proof fn lemma_find_segment(h: Seq<Pt2>, x: Pt2, t: int, s: int) -> (k: int)
    requires
        0 <= t < s < h.len(),
        lex_le(h[t], x),
        lex_le(x, h[s]),
    ensures
        t < k <= s,
        lex_le(h[k - 1], x),
        lex_le(x, h[k]),
    decreases s - t,
{
    if lex_le(h[s - 1], x) {
        s
    } else {
        lemma_find_segment(h, x, t, s - 1)
    }
}

/// One monotone-chain step: drop the vertices after `h[t]` (each turned
/// right or went straight towards the new point), then append the next
/// point. The chain invariant carries over to one more point.
pub proof fn lemma_chain_step(p: Seq<Pt2>, i: int, h: Seq<Pt2>, idx: Seq<int>, t: int)
    requires
        lex_sorted(p),
        chain_inv(p, i, h, idx),
        i < p.len(),
        0 <= t < h.len(),
        forall|s: int| t < s < h.len() ==> #[trigger] orient(h[s - 1], h[s], p[i]) <= 0,
        t == 0 || orient(h[t - 1], h[t], p[i]) > 0,
    ensures
        chain_inv(p, i + 1, h.take(t + 1).push(p[i]), idx.take(t + 1).push(i)),
{
    let q = p[i];
    let c = h[t];
    let nh = h.take(t + 1).push(q);
    let nidx = idx.take(t + 1).push(i);
    assert forall|a: int, b: int| 0 <= a <= b < h.len() implies #[trigger] lex_le(h[a], h[b]) by {
        lemma_chain_sorted(p, i, h, idx, a, b);
    }
    assert forall|a: int| 0 <= a < h.len() implies #[trigger] lex_le(h[a], q) by {
        assert(idx[a] < i);
        assert(lex_le(p[idx[a]], p[i]));
    }
    // The surviving edges keep the new point on their left.
    assert forall|k: int, j: int| 0 <= k < nh.len() - 1 && 0 <= j < i + 1 implies #[trigger] orient(nh[k], nh[k + 1], p[j]) >= 0 by {
        if k < t {
            assert(nh[k] == h[k] && nh[k + 1] == h[k + 1]);
            if j < i {
            } else {
                assert forall|a: int, b: int| 0 <= a <= b <= t implies #[trigger] lex_le(h[a], h[b]) by {
                    lemma_chain_sorted(p, i, h, idx, a, b);
                }
                lemma_left_of_earlier(h, q, t, k);
            }
        } else {
            assert(k == t);
            assert(nh[k] == c && nh[k + 1] == q);
            lemma_new_edge(p, i, h, idx, t, j);
        }
    }
    assert forall|k: int| 0 <= k < nh.len() - 2 implies #[trigger] orient(nh[k], nh[k + 1], nh[k + 2]) > 0 by {
        if k < t - 1 {
            assert(nh[k] == h[k] && nh[k + 1] == h[k + 1] && nh[k + 2] == h[k + 2]);
        } else {
            assert(nh[k] == h[t - 1] && nh[k + 1] == c && nh[k + 2] == q);
        }
    }
    assert forall|k: int| 0 <= k < nh.len() implies 0 <= #[trigger] nidx[k] < i + 1 && nh[k] == p[nidx[k]] by {
        if k <= t {
            assert(nidx[k] == idx[k]);
        }
    }
    assert forall|k1: int, k2: int| 0 <= k1 < k2 < nh.len() implies #[trigger] nidx[k1] < #[trigger] nidx[k2] by {
        if k2 <= t {
            assert(nidx[k1] == idx[k1] && nidx[k2] == idx[k2]);
        } else {
            assert(nidx[k1] == idx[k1]);
        }
    }
}

/// The new edge from `h[t]` to the appended point keeps every point seen
/// so far on its left.
proof fn lemma_new_edge(p: Seq<Pt2>, i: int, h: Seq<Pt2>, idx: Seq<int>, t: int, j: int)
    requires
        lex_sorted(p),
        chain_inv(p, i, h, idx),
        i < p.len(),
        0 <= t < h.len(),
        0 <= j <= i,
        forall|s: int| t < s < h.len() ==> #[trigger] orient(h[s - 1], h[s], p[i]) <= 0,
        t == 0 || orient(h[t - 1], h[t], p[i]) > 0,
        forall|a: int, b: int| 0 <= a <= b < h.len() ==> #[trigger] lex_le(h[a], h[b]),
        forall|a: int| 0 <= a < h.len() ==> #[trigger] lex_le(h[a], p[i]),
    ensures
        orient(h[t], p[i], p[j]) >= 0,
{
    let q = p[i];
    let c = h[t];
    let r = p[j];
    let w = (q.0 - c.0, q.1 - c.1);
    let d = (r.0 - c.0, r.1 - c.1);
    assert(cross(w.0, w.1, d.0, d.1) == orient(c, q, r)) by (nonlinear_arith)
        requires
            w == (q.0 - c.0, q.1 - c.1),
            d == (r.0 - c.0, r.1 - c.1),
    ;
    if j == i {
        assert(orient(c, q, q) == 0) by (nonlinear_arith);
    } else if lex_le(r, c) {
        if t == 0 {
            assert(idx[0] == 0);
            if j > 0 {
                assert(lex_le(p[0], p[j]));
            }
            assert(r == c);
            assert(orient(c, q, c) == 0) by (nonlinear_arith);
        } else {
            let pp = h[t - 1];
            let u = (c.0 - pp.0, c.1 - pp.1);
            assert(orient(h[t - 1], h[(t - 1) + 1], p[j]) >= 0);
            assert(orient(pp, c, r) >= 0);
            assert(cross(u.0, u.1, w.0, w.1) == orient(pp, c, q)) by (nonlinear_arith)
                requires
                    u == (c.0 - pp.0, c.1 - pp.1),
                    w == (q.0 - c.0, q.1 - c.1),
            ;
            assert(cross(u.0, u.1, d.0, d.1) == orient(pp, c, r)) by (nonlinear_arith)
                requires
                    u == (c.0 - pp.0, c.1 - pp.1),
                    d == (r.0 - c.0, r.1 - c.1),
            ;
            assert(lex_le(pp, c));
            assert(lex_le(c, q));
            lemma_behind_new_edge(u.0, u.1, w.0, w.1, d.0, d.1);
        }
    } else {
        let m = h.len() - 1;
        assert(idx[m] == i - 1);
        if j < i - 1 {
            assert(lex_le(p[j], p[i - 1]));
        }
        assert(lex_le(r, h[m]));
        assert(lex_le(c, r));
        if t == m {
            assert(lex_le(r, c));
        }
        let k = lemma_find_segment(h, r, t, m);
        lemma_dropped_above(h, q, t, k - 1);
        lemma_dropped_above(h, q, t, k);
        let a = (h[k - 1].0 - c.0, h[k - 1].1 - c.1);
        let b = (h[k].0 - c.0, h[k].1 - c.1);
        assert(orient(h[k - 1], h[(k - 1) + 1], p[j]) >= 0);
        assert(orient(h[k - 1], h[k], r) >= 0);
        assert(cross(w.0, w.1, a.0, a.1) == orient(c, q, h[k - 1])) by (nonlinear_arith)
            requires
                a == (h[k - 1].0 - c.0, h[k - 1].1 - c.1),
                w == (q.0 - c.0, q.1 - c.1),
        ;
        assert(cross(w.0, w.1, b.0, b.1) == orient(c, q, h[k])) by (nonlinear_arith)
            requires
                b == (h[k].0 - c.0, h[k].1 - c.1),
                w == (q.0 - c.0, q.1 - c.1),
        ;
        assert(cross(b.0 - a.0, b.1 - a.1, d.0 - a.0, d.1 - a.1) == orient(h[k - 1], h[k], r)) by (nonlinear_arith)
            requires
                a == (h[k - 1].0 - c.0, h[k - 1].1 - c.1),
                b == (h[k].0 - c.0, h[k].1 - c.1),
                d == (r.0 - c.0, r.1 - c.1),
        ;
        assert(lex_le(c, h[k - 1]));
        assert(lex_le(h[k], q));
        lemma_between(a.0, a.1, b.0, b.1, d.0, d.1, w.0, w.1);
    }
}

/// Where a chain ending at `j` meets a chain leaving it towards `c`
/// through `b`, both arriving from points sorted before `j`: if `c` is
/// left of the edge into `j` and the turn at `b` is strictly left, the
/// turn at `j` is not straight.
pub proof fn lemma_corner_before_turn(a: Pt2, j: Pt2, b: Pt2, c: Pt2)
    requires
        lex_le(a, j),
        a != j,
        lex_le(b, j),
        b != j,
        orient(a, j, c) >= 0,
        orient(j, b, c) > 0,
    ensures
        orient(a, j, b) != 0,
{
    let u = (j.0 - a.0, j.1 - a.1);
    let v = (b.0 - j.0, b.1 - j.1);
    let w = (c.0 - j.0, c.1 - j.1);
    assert(orient(a, j, b) == cross(u.0, u.1, v.0, v.1)) by (nonlinear_arith)
        requires
            u == (j.0 - a.0, j.1 - a.1),
            v == (b.0 - j.0, b.1 - j.1),
    ;
    assert(orient(a, j, c) == cross(u.0, u.1, w.0, w.1)) by (nonlinear_arith)
        requires
            u == (j.0 - a.0, j.1 - a.1),
            w == (c.0 - j.0, c.1 - j.1),
    ;
    assert(orient(j, b, c) == cross(v.0, v.1, w.0, w.1)) by (nonlinear_arith)
        requires
            v == (b.0 - j.0, b.1 - j.1),
            w == (c.0 - j.0, c.1 - j.1),
    ;
    if cross(u.0, u.1, v.0, v.1) == 0 {
        assert(cross(v.0, v.1, w.0, w.1) <= 0) by (nonlinear_arith)
            requires
                u.0 > 0 || (u.0 == 0 && u.1 > 0),
                -v.0 > 0 || (-v.0 == 0 && -v.1 > 0),
                u.0 * v.1 - u.1 * v.0 == 0,
                u.0 * w.1 - u.1 * w.0 >= 0,
        ;
    }
}

/// Where a chain ending at `j` through `a` (after `pa`, turning strictly
/// left at `a`) is closed by the single edge from `j` back to `b`, both
/// `a` and `b` sorted before `j`: if `pa` is left of that closing edge,
/// the turn at `j` is not straight.
pub proof fn lemma_corner_before_close(pa: Pt2, a: Pt2, j: Pt2, b: Pt2)
    requires
        lex_le(a, j),
        a != j,
        lex_le(b, j),
        b != j,
        orient(pa, a, j) > 0,
        orient(j, b, pa) >= 0,
    ensures
        orient(a, j, b) != 0,
{
    let aa = (a.0 - j.0, a.1 - j.1);
    let bb = (pa.0 - j.0, pa.1 - j.1);
    let zz = (b.0 - j.0, b.1 - j.1);
    assert(orient(a, j, b) == -cross(aa.0, aa.1, zz.0, zz.1)) by (nonlinear_arith)
        requires
            aa == (a.0 - j.0, a.1 - j.1),
            zz == (b.0 - j.0, b.1 - j.1),
    ;
    assert(orient(pa, a, j) == cross(bb.0, bb.1, aa.0, aa.1)) by (nonlinear_arith)
        requires
            aa == (a.0 - j.0, a.1 - j.1),
            bb == (pa.0 - j.0, pa.1 - j.1),
    ;
    assert(orient(j, b, pa) == cross(zz.0, zz.1, bb.0, bb.1)) by (nonlinear_arith)
        requires
            bb == (pa.0 - j.0, pa.1 - j.1),
            zz == (b.0 - j.0, b.1 - j.1),
    ;
    if cross(aa.0, aa.1, zz.0, zz.1) == 0 {
        assert(cross(zz.0, zz.1, bb.0, bb.1) < 0) by (nonlinear_arith)
            requires
                -aa.0 > 0 || (-aa.0 == 0 && -aa.1 > 0),
                -zz.0 > 0 || (-zz.0 == 0 && -zz.1 > 0),
                aa.0 * zz.1 - aa.1 * zz.0 == 0,
                bb.0 * aa.1 - bb.1 * aa.0 > 0,
        ;
    }
}

} // verus!
