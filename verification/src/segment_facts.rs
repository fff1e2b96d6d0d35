//! What the orientation test of [`segments_meet`] means geometrically.
//!
//! A point of the closed segment `a b` is `a + λ (b - a)` with
//! `0 <= λ <= 1`. Two segments with integer endpoints that share a point
//! share one with rational coordinates (the crossing point of two lines
//! with integer coefficients, or an endpoint of an overlap), so a shared
//! point is written with a common denominator `d > 0` as
//! `p1 + (s / d)(p2 - p1) == p3 + (t / d)(p4 - p3)`, `0 <= s, t <= d`.
//! [`lemma_segments_meet_iff_share_point`] shows that the orientation
//! test holds exactly when such a point exists.

use vstd::prelude::*;

use crate::geometry::Point;
use crate::intersects::{between, cross, on_segment, opposite, segments_meet};

verus! {

/// `d * q == d * a + t * (b - a)` on both axes, with `d > 0` and
/// `0 <= t <= d`: the point `q` is `a + (t / d)(b - a)`.
pub open spec fn at_param(q: Point, a: Point, b: Point, d: int, t: int) -> bool {
    &&& 0 < d
    &&& 0 <= t <= d
    &&& d * q.x == d * a.x + t * (b.x - a.x)
    &&& d * q.y == d * a.y + t * (b.y - a.y)
}

/// The point `p1 + (s / d)(p2 - p1)` of the segment `p1 p2` is the point
/// `p3 + (t / d)(p4 - p3)` of the segment `p3 p4`.
pub open spec fn meet_at(p1: Point, p2: Point, p3: Point, p4: Point, d: int, s: int, t: int) -> bool {
    &&& 0 < d
    &&& 0 <= s <= d
    &&& 0 <= t <= d
    &&& d * p1.x + s * (p2.x - p1.x) == d * p3.x + t * (p4.x - p3.x)
    &&& d * p1.y + s * (p2.y - p1.y) == d * p3.y + t * (p4.y - p3.y)
}

/// The closed segments `p1 p2` and `p3 p4` have a point in common.
pub open spec fn segments_share_point(p1: Point, p2: Point, p3: Point, p4: Point) -> bool {
    exists|d: int, s: int, t: int| #[trigger] meet_at(p1, p2, p3, p4, d, s, t)
}

/// On one axis: `d (q - a) == t (b - a)` with `0 <= t <= d` puts `q`
/// between `a` and `b`.
proof fn lemma_between_from_param(q: int, a: int, b: int, d: int, t: int)
    requires
        0 < d,
        0 <= t <= d,
        d * (q - a) == t * (b - a),
    ensures
        between(q, a, b),
{
    if b >= a {
        assert(q >= a) by (nonlinear_arith)
            requires
                0 < d,
                0 <= t,
                b >= a,
                d * (q - a) == t * (b - a),
        ;
        assert(q <= b) by (nonlinear_arith)
            requires
                0 < d,
                t <= d,
                b >= a,
                d * (q - a) == t * (b - a),
        ;
    } else {
        assert(q <= a) by (nonlinear_arith)
            requires
                0 < d,
                0 <= t,
                b < a,
                d * (q - a) == t * (b - a),
        ;
        assert(q >= b) by (nonlinear_arith)
            requires
                0 < d,
                t <= d,
                b < a,
                d * (q - a) == t * (b - a),
        ;
    }
}

/// A point given by a parameter of the segment lies on it.
pub proof fn lemma_param_on_segment(q: Point, a: Point, b: Point, d: int, t: int)
    requires
        at_param(q, a, b, d, t),
    ensures
        on_segment(q, a, b),
{
    let ux = b.x - a.x;
    let uy = b.y - a.y;
    let wx = q.x - a.x;
    let wy = q.y - a.y;
    assert(d * wx == t * ux) by (nonlinear_arith)
        requires
            d * q.x == d * a.x + t * (b.x - a.x),
            wx == q.x - a.x,
            ux == b.x - a.x,
    ;
    assert(d * wy == t * uy) by (nonlinear_arith)
        requires
            d * q.y == d * a.y + t * (b.y - a.y),
            wy == q.y - a.y,
            uy == b.y - a.y,
    ;
    assert(ux * wy - uy * wx == 0) by (nonlinear_arith)
        requires
            0 < d,
            d * wx == t * ux,
            d * wy == t * uy,
    ;
    lemma_between_from_param(q.x as int, a.x as int, b.x as int, d, t);
    lemma_between_from_param(q.y as int, a.y as int, b.y as int, d, t);
}

/// A point on the line through `a` and `b`, with `a.x != b.x`, whose
/// x-coordinate lies between theirs, is given by a parameter of the
/// segment.
proof fn lemma_collinear_x_param(q: Point, a: Point, b: Point) -> (dt: (int, int))
    requires
        cross(a, b, q) == 0,
        a.x != b.x,
        between(q.x as int, a.x as int, b.x as int),
    ensures
        at_param(q, a, b, dt.0, dt.1),
{
    let ux = b.x - a.x;
    let uy = b.y - a.y;
    let wx = q.x - a.x;
    let wy = q.y - a.y;
    assert(ux * wy == wx * uy) by (nonlinear_arith)
        requires
            cross(a, b, q) == 0,
            ux == b.x - a.x,
            uy == b.y - a.y,
            wx == q.x - a.x,
            wy == q.y - a.y,
    ;
    if ux > 0 {
        let d = ux;
        let t = wx;
        assert(d * q.x == d * a.x + t * (b.x - a.x)) by (nonlinear_arith)
            requires
                d == ux,
                t == wx,
                ux == b.x - a.x,
                wx == q.x - a.x,
        ;
        assert(d * q.y == d * a.y + t * (b.y - a.y)) by (nonlinear_arith)
            requires
                d == ux,
                t == wx,
                ux * wy == wx * uy,
                uy == b.y - a.y,
                wy == q.y - a.y,
        ;
        (d, t)
    } else {
        let d = -ux;
        let t = -wx;
        assert(d * q.x == d * a.x + t * (b.x - a.x)) by (nonlinear_arith)
            requires
                d == -ux,
                t == -wx,
                ux == b.x - a.x,
                wx == q.x - a.x,
        ;
        assert(d * q.y == d * a.y + t * (b.y - a.y)) by (nonlinear_arith)
            requires
                d == -ux,
                t == -wx,
                ux * wy == wx * uy,
                uy == b.y - a.y,
                wy == q.y - a.y,
        ;
        (d, t)
    }
}

/// Exchanging the axes of a point.
pub open spec fn flip(p: Point) -> Point {
    Point { x: p.y, y: p.x }
}

/// Exchanging the axes negates the orientation and keeps points on
/// segments.
proof fn lemma_flip_on_segment(q: Point, a: Point, b: Point)
    ensures
        cross(flip(a), flip(b), flip(q)) == -cross(a, b, q),
        on_segment(flip(q), flip(a), flip(b)) == on_segment(q, a, b),
{
    assert(cross(flip(a), flip(b), flip(q)) == -cross(a, b, q)) by (nonlinear_arith);
}

/// Exchanging the axes keeps parameters of segments.
proof fn lemma_flip_param(q: Point, a: Point, b: Point, d: int, t: int)
    ensures
        at_param(flip(q), flip(a), flip(b), d, t) == at_param(q, a, b, d, t),
{
}

/// A point on a segment is given by a parameter of it.
pub proof fn lemma_on_segment_param(q: Point, a: Point, b: Point) -> (dt: (int, int))
    requires
        on_segment(q, a, b),
    ensures
        at_param(q, a, b, dt.0, dt.1),
{
    if a.x != b.x {
        lemma_collinear_x_param(q, a, b)
    } else if a.y != b.y {
        lemma_flip_on_segment(q, a, b);
        let dt = lemma_collinear_x_param(flip(q), flip(a), flip(b));
        lemma_flip_param(q, a, b, dt.0, dt.1);
        dt
    } else {
        (1, 0)
    }
}

/// The orientation identities behind a proper crossing: with
/// `C = (p2 - p1) x (p4 - p3)`, `cross(p3, p4, p1) - cross(p3, p4, p2) == C`,
/// `cross(p1, p2, p4) - cross(p1, p2, p3) == C`, and the point
/// `p1 + (cross(p3, p4, p1) / C)(p2 - p1)` is `p3 - (cross(p1, p2, p3) / C)(p4 - p3)`.
proof fn lemma_crossing_identities(p1: Point, p2: Point, p3: Point, p4: Point)
    ensures
        cross(p3, p4, p1) - cross(p3, p4, p2) == (p2.x - p1.x) * (p4.y - p3.y) - (p2.y - p1.y) * (
        p4.x - p3.x),
        cross(p1, p2, p4) - cross(p1, p2, p3) == (p2.x - p1.x) * (p4.y - p3.y) - (p2.y - p1.y) * (
        p4.x - p3.x),
        ((p2.x - p1.x) * (p4.y - p3.y) - (p2.y - p1.y) * (p4.x - p3.x)) * p1.x + cross(p3, p4, p1)
            * (p2.x - p1.x) == ((p2.x - p1.x) * (p4.y - p3.y) - (p2.y - p1.y) * (p4.x - p3.x))
            * p3.x - cross(p1, p2, p3) * (p4.x - p3.x),
        ((p2.x - p1.x) * (p4.y - p3.y) - (p2.y - p1.y) * (p4.x - p3.x)) * p1.y + cross(p3, p4, p1)
            * (p2.y - p1.y) == ((p2.x - p1.x) * (p4.y - p3.y) - (p2.y - p1.y) * (p4.x - p3.x))
            * p3.y - cross(p1, p2, p3) * (p4.y - p3.y),
{
    let ux = p2.x - p1.x;
    let uy = p2.y - p1.y;
    let vx = p4.x - p3.x;
    let vy = p4.y - p3.y;
    let wx = p3.x - p1.x;
    let wy = p3.y - p1.y;
    let c = ux * vy - uy * vx;
    let d1 = cross(p3, p4, p1);
    let d2 = cross(p3, p4, p2);
    let d3 = cross(p1, p2, p3);
    let d4 = cross(p1, p2, p4);
    assert(d1 == vy * wx - vx * wy) by (nonlinear_arith)
        requires
            d1 == cross(p3, p4, p1),
            vx == p4.x - p3.x,
            vy == p4.y - p3.y,
            wx == p3.x - p1.x,
            wy == p3.y - p1.y,
    ;
    assert(d2 == vy * (wx - ux) - vx * (wy - uy)) by (nonlinear_arith)
        requires
            d2 == cross(p3, p4, p2),
            vx == p4.x - p3.x,
            vy == p4.y - p3.y,
            wx == p3.x - p1.x,
            wy == p3.y - p1.y,
            ux == p2.x - p1.x,
            uy == p2.y - p1.y,
    ;
    assert(d3 == ux * wy - uy * wx) by (nonlinear_arith)
        requires
            d3 == cross(p1, p2, p3),
            ux == p2.x - p1.x,
            uy == p2.y - p1.y,
            wx == p3.x - p1.x,
            wy == p3.y - p1.y,
    ;
    assert(d4 == ux * (wy + vy) - uy * (wx + vx)) by (nonlinear_arith)
        requires
            d4 == cross(p1, p2, p4),
            ux == p2.x - p1.x,
            uy == p2.y - p1.y,
            wx == p3.x - p1.x,
            wy == p3.y - p1.y,
            vx == p4.x - p3.x,
            vy == p4.y - p3.y,
    ;
    assert(d1 - d2 == c) by (nonlinear_arith)
        requires
            d1 == vy * wx - vx * wy,
            d2 == vy * (wx - ux) - vx * (wy - uy),
            c == ux * vy - uy * vx,
    ;
    assert(d4 - d3 == c) by (nonlinear_arith)
        requires
            d3 == ux * wy - uy * wx,
            d4 == ux * (wy + vy) - uy * (wx + vx),
            c == ux * vy - uy * vx,
    ;
    assert(d1 * ux + d3 * vx == c * wx) by (nonlinear_arith)
        requires
            d1 == vy * wx - vx * wy,
            d3 == ux * wy - uy * wx,
            c == ux * vy - uy * vx,
    ;
    assert(d1 * uy + d3 * vy == c * wy) by (nonlinear_arith)
        requires
            d1 == vy * wx - vx * wy,
            d3 == ux * wy - uy * wx,
            c == ux * vy - uy * vx,
    ;
    assert(c * p1.x + d1 * ux == c * p3.x - d3 * vx) by (nonlinear_arith)
        requires
            d1 * ux + d3 * vx == c * wx,
            wx == p3.x - p1.x,
    ;
    assert(c * p1.y + d1 * uy == c * p3.y - d3 * vy) by (nonlinear_arith)
        requires
            d1 * uy + d3 * vy == c * wy,
            wy == p3.y - p1.y,
    ;
}

/// Segments that pass the orientation test share a point.
proof fn lemma_meet_gives_point(p1: Point, p2: Point, p3: Point, p4: Point)
    requires
        segments_meet(p1, p2, p3, p4),
    ensures
        segments_share_point(p1, p2, p3, p4),
{
    if on_segment(p1, p3, p4) {
        let (d, t) = lemma_on_segment_param(p1, p3, p4);
        assert(meet_at(p1, p2, p3, p4, d, 0, t));
    } else if on_segment(p2, p3, p4) {
        let (d, t) = lemma_on_segment_param(p2, p3, p4);
        assert(d * p1.x + d * (p2.x - p1.x) == d * p2.x) by (nonlinear_arith);
        assert(d * p1.y + d * (p2.y - p1.y) == d * p2.y) by (nonlinear_arith);
        assert(meet_at(p1, p2, p3, p4, d, d, t));
    } else if on_segment(p3, p1, p2) {
        let (d, s) = lemma_on_segment_param(p3, p1, p2);
        assert(meet_at(p1, p2, p3, p4, d, s, 0));
    } else if on_segment(p4, p1, p2) {
        let (d, s) = lemma_on_segment_param(p4, p1, p2);
        assert(d * p3.x + d * (p4.x - p3.x) == d * p4.x) by (nonlinear_arith);
        assert(d * p3.y + d * (p4.y - p3.y) == d * p4.y) by (nonlinear_arith);
        assert(meet_at(p1, p2, p3, p4, d, s, d));
    } else {
        lemma_crossing_identities(p1, p2, p3, p4);
        let c = (p2.x - p1.x) * (p4.y - p3.y) - (p2.y - p1.y) * (p4.x - p3.x);
        let d1 = cross(p3, p4, p1);
        let d3 = cross(p1, p2, p3);
        assert(opposite(d1, cross(p3, p4, p2)) && opposite(d3, cross(p1, p2, p4)));
        if c > 0 {
            assert(meet_at(p1, p2, p3, p4, c, d1, -d3)) by (nonlinear_arith)
                requires
                    0 < d1 < c,
                    0 < -d3 < c,
                    c * p1.x + d1 * (p2.x - p1.x) == c * p3.x - d3 * (p4.x - p3.x),
                    c * p1.y + d1 * (p2.y - p1.y) == c * p3.y - d3 * (p4.y - p3.y),
            ;
        } else {
            assert(meet_at(p1, p2, p3, p4, -c, -d1, d3)) by (nonlinear_arith)
                requires
                    0 < -d1 < -c,
                    0 < d3 < -c,
                    c * p1.x + d1 * (p2.x - p1.x) == c * p3.x - d3 * (p4.x - p3.x),
                    c * p1.y + d1 * (p2.y - p1.y) == c * p3.y - d3 * (p4.y - p3.y),
            ;
        }
    }
}

/// Multiplying by a positive number keeps the order.
proof fn lemma_scale_le(d: int, x: int, y: int)
    requires
        0 < d,
    ensures
        (d * x <= d * y) == (x <= y),
{
    if x <= y {
        assert(d * x <= d * y) by (nonlinear_arith)
            requires
                0 < d,
                x <= y,
        ;
    } else {
        assert(d * x > d * y) by (nonlinear_arith)
            requires
                0 < d,
                x > y,
        ;
    }
}

/// Two intervals of a line with a common point: an end of one lies in
/// the other. The common point is `z / d`.
proof fn lemma_overlap_1d(z: int, d: int, a1: int, a2: int, b1: int, b2: int)
    requires
        0 < d,
        between(z, d * a1, d * a2),
        between(z, d * b1, d * b2),
    ensures
        between(b1, a1, a2) || between(b2, a1, a2) || between(a1, b1, b2) || between(a2, b1, b2),
{
    lemma_scale_le(d, a1, a2);
    lemma_scale_le(d, a2, a1);
    lemma_scale_le(d, b1, b2);
    lemma_scale_le(d, b2, b1);
    lemma_scale_le(d, a1, b1);
    lemma_scale_le(d, b1, a1);
    lemma_scale_le(d, a1, b2);
    lemma_scale_le(d, b2, a1);
    lemma_scale_le(d, a2, b1);
    lemma_scale_le(d, b1, a2);
    lemma_scale_le(d, a2, b2);
    lemma_scale_le(d, b2, a2);
}

/// `z == d * a + s * (b - a)` with `0 <= s <= d` lies between `d * a`
/// and `d * b`.
proof fn lemma_scaled_between(z: int, d: int, s: int, a: int, b: int)
    requires
        0 <= s <= d,
        z == d * a + s * (b - a),
    ensures
        between(z, d * a, d * b),
{
    if b >= a {
        assert(d * a <= z <= d * b) by (nonlinear_arith)
            requires
                0 <= s <= d,
                b >= a,
                z == d * a + s * (b - a),
        ;
    } else {
        assert(d * b <= z <= d * a) by (nonlinear_arith)
            requires
                0 <= s <= d,
                b < a,
                z == d * a + s * (b - a),
        ;
    }
}

/// Collinear segments, neither vertical, with a common point: an
/// endpoint of one lies on the other.
proof fn lemma_collinear_overlap_x(p1: Point, p2: Point, p3: Point, p4: Point, d: int, s: int, t: int)
    requires
        meet_at(p1, p2, p3, p4, d, s, t),
        cross(p3, p4, p1) == 0,
        cross(p3, p4, p2) == 0,
        cross(p1, p2, p3) == 0,
        cross(p1, p2, p4) == 0,
        p1.x != p2.x,
        p3.x != p4.x,
    ensures
        on_segment(p1, p3, p4) || on_segment(p2, p3, p4) || on_segment(p3, p1, p2) || on_segment(
            p4,
            p1,
            p2,
        ),
{
    let z = d * p1.x + s * (p2.x - p1.x);
    lemma_scaled_between(z, d, s, p1.x as int, p2.x as int);
    lemma_scaled_between(z, d, t, p3.x as int, p4.x as int);
    lemma_overlap_1d(z, d, p1.x as int, p2.x as int, p3.x as int, p4.x as int);
    if between(p3.x as int, p1.x as int, p2.x as int) {
        let (e, u) = lemma_collinear_x_param(p3, p1, p2);
        lemma_param_on_segment(p3, p1, p2, e, u);
    } else if between(p4.x as int, p1.x as int, p2.x as int) {
        let (e, u) = lemma_collinear_x_param(p4, p1, p2);
        lemma_param_on_segment(p4, p1, p2, e, u);
    } else if between(p1.x as int, p3.x as int, p4.x as int) {
        let (e, u) = lemma_collinear_x_param(p1, p3, p4);
        lemma_param_on_segment(p1, p3, p4, e, u);
    } else {
        let (e, u) = lemma_collinear_x_param(p2, p3, p4);
        lemma_param_on_segment(p2, p3, p4, e, u);
    }
}

/// Scaling both coordinates of a vector scales its cross products.
proof fn lemma_scaled_cross(d: int, ax: int, ay: int, ex: int, ey: int, px: int, py: int)
    requires
        d * ex == px,
        d * ey == py,
    ensures
        d * (ax * ey - ay * ex) == ax * py - ay * px,
{
    assert(d * (ax * ey - ay * ex) == ax * (d * ey) - ay * (d * ex)) by (nonlinear_arith);
}

/// The orientations at a common point `p1 + (s / d)(p2 - p1) ==
/// p3 + (t / d)(p4 - p3)`, scaled by `d`, with `C = (p2 - p1) x (p4 - p3)`.
proof fn lemma_orientations_at_point(p1: Point, p2: Point, p3: Point, p4: Point, d: int, s: int, t: int)
    requires
        meet_at(p1, p2, p3, p4, d, s, t),
    ensures
        d * cross(p3, p4, p1) == s * ((p2.x - p1.x) * (p4.y - p3.y) - (p2.y - p1.y) * (p4.x - p3.x)),
        d * cross(p3, p4, p2) == (s - d) * ((p2.x - p1.x) * (p4.y - p3.y) - (p2.y - p1.y) * (p4.x
            - p3.x)),
        d * cross(p1, p2, p3) == -t * ((p2.x - p1.x) * (p4.y - p3.y) - (p2.y - p1.y) * (p4.x
            - p3.x)),
        d * cross(p1, p2, p4) == (d - t) * ((p2.x - p1.x) * (p4.y - p3.y) - (p2.y - p1.y) * (p4.x
            - p3.x)),
{
    lemma_crossing_identities(p1, p2, p3, p4);
    let ux = p2.x - p1.x;
    let uy = p2.y - p1.y;
    let vx = p4.x - p3.x;
    let vy = p4.y - p3.y;
    let c = ux * vy - uy * vx;
    let d1 = cross(p3, p4, p1);
    let d3 = cross(p1, p2, p3);
    assert(d * (p1.x - p3.x) == t * vx - s * ux) by (nonlinear_arith)
        requires
            d * p1.x + s * (p2.x - p1.x) == d * p3.x + t * (p4.x - p3.x),
            ux == p2.x - p1.x,
            vx == p4.x - p3.x,
    ;
    assert(d * (p1.y - p3.y) == t * vy - s * uy) by (nonlinear_arith)
        requires
            d * p1.y + s * (p2.y - p1.y) == d * p3.y + t * (p4.y - p3.y),
            uy == p2.y - p1.y,
            vy == p4.y - p3.y,
    ;
    assert(d1 == vx * (p1.y - p3.y) - vy * (p1.x - p3.x)) by (nonlinear_arith)
        requires
            d1 == cross(p3, p4, p1),
            vx == p4.x - p3.x,
            vy == p4.y - p3.y,
    ;
    let ex = p1.x - p3.x;
    let ey = p1.y - p3.y;
    assert(d3 == -(ux * ey - uy * ex)) by (nonlinear_arith)
        requires
            d3 == cross(p1, p2, p3),
            ux == p2.x - p1.x,
            uy == p2.y - p1.y,
            ex == p1.x - p3.x,
            ey == p1.y - p3.y,
    ;
    lemma_scaled_cross(d, vx, vy, ex, ey, t * vx - s * ux, t * vy - s * uy);
    lemma_scaled_cross(d, ux, uy, ex, ey, t * vx - s * ux, t * vy - s * uy);
    assert(vx * (t * vy - s * uy) - vy * (t * vx - s * ux) == s * c) by (nonlinear_arith)
        requires
            c == ux * vy - uy * vx,
    ;
    assert(ux * (t * vy - s * uy) - uy * (t * vx - s * ux) == t * c) by (nonlinear_arith)
        requires
            c == ux * vy - uy * vx,
    ;
    assert(d * d3 == -(d * (ux * ey - uy * ex))) by (nonlinear_arith)
        requires
            d3 == -(ux * ey - uy * ex),
    ;
    assert(d * d1 == s * c);
    assert(d * d3 == -t * c) by (nonlinear_arith)
        requires
            d * d3 == -(d * (ux * ey - uy * ex)),
            d * (ux * ey - uy * ex) == t * c,
    ;
    assert(d * cross(p3, p4, p2) == (s - d) * c) by (nonlinear_arith)
        requires
            d * d1 == s * c,
            d1 - cross(p3, p4, p2) == c,
    ;
    assert(d * cross(p1, p2, p4) == (d - t) * c) by (nonlinear_arith)
        requires
            d * d3 == -t * c,
            cross(p1, p2, p4) - d3 == c,
    ;
}

/// Exchanging the axes keeps a common point.
proof fn lemma_flip_meet_at(p1: Point, p2: Point, p3: Point, p4: Point, d: int, s: int, t: int)
    ensures
        meet_at(flip(p1), flip(p2), flip(p3), flip(p4), d, s, t) == meet_at(p1, p2, p3, p4, d, s, t),
{
}

/// `d * x == s * c` with `d > 0` gives `x` the sign of `s * c`.
proof fn lemma_sign_of_scaled(d: int, x: int, s: int, c: int)
    requires
        0 < d,
        d * x == s * c,
    ensures
        (s > 0 && c > 0) ==> x > 0,
        (s > 0 && c < 0) ==> x < 0,
        (s < 0 && c > 0) ==> x < 0,
        (s < 0 && c < 0) ==> x > 0,
        (s == 0 || c == 0) ==> x == 0,
{
    assert((s > 0 && c > 0) ==> x > 0) by (nonlinear_arith)
        requires
            0 < d,
            d * x == s * c,
    ;
    assert((s > 0 && c < 0) ==> x < 0) by (nonlinear_arith)
        requires
            0 < d,
            d * x == s * c,
    ;
    assert((s < 0 && c > 0) ==> x < 0) by (nonlinear_arith)
        requires
            0 < d,
            d * x == s * c,
    ;
    assert((s < 0 && c < 0) ==> x > 0) by (nonlinear_arith)
        requires
            0 < d,
            d * x == s * c,
    ;
    assert((s == 0 || c == 0) ==> x == 0) by (nonlinear_arith)
        requires
            0 < d,
            d * x == s * c,
    ;
}

/// Segments with a common point pass the orientation test.
proof fn lemma_point_gives_meet(p1: Point, p2: Point, p3: Point, p4: Point, d: int, s: int, t: int)
    requires
        meet_at(p1, p2, p3, p4, d, s, t),
    ensures
        segments_meet(p1, p2, p3, p4),
{
    let ux = p2.x - p1.x;
    let uy = p2.y - p1.y;
    let vx = p4.x - p3.x;
    let vy = p4.y - p3.y;
    let c = ux * vy - uy * vx;
    if s == 0 {
        lemma_param_on_segment(p1, p3, p4, d, t);
    } else if s == d {
        assert(d * p1.x + d * (p2.x - p1.x) == d * p2.x) by (nonlinear_arith);
        assert(d * p1.y + d * (p2.y - p1.y) == d * p2.y) by (nonlinear_arith);
        lemma_param_on_segment(p2, p3, p4, d, t);
    } else if t == 0 {
        lemma_param_on_segment(p3, p1, p2, d, s);
    } else if t == d {
        assert(d * p3.x + d * (p4.x - p3.x) == d * p4.x) by (nonlinear_arith);
        assert(d * p3.y + d * (p4.y - p3.y) == d * p4.y) by (nonlinear_arith);
        lemma_param_on_segment(p4, p1, p2, d, s);
    } else if ux == 0 && uy == 0 {
        assert(s * ux == 0 && s * uy == 0);
        lemma_param_on_segment(p1, p3, p4, d, t);
    } else if vx == 0 && vy == 0 {
        assert(t * vx == 0 && t * vy == 0);
        lemma_param_on_segment(p3, p1, p2, d, s);
    } else {
        lemma_orientations_at_point(p1, p2, p3, p4, d, s, t);
        lemma_sign_of_scaled(d, cross(p3, p4, p1), s, c);
        lemma_sign_of_scaled(d, cross(p3, p4, p2), s - d, c);
        lemma_sign_of_scaled(d, cross(p1, p2, p3), -t, c);
        lemma_sign_of_scaled(d, cross(p1, p2, p4), d - t, c);
        if c == 0 {
            if ux != 0 {
                assert(vx != 0) by (nonlinear_arith)
                    requires
                        c == ux * vy - uy * vx,
                        c == 0,
                        ux != 0,
                        !(vx == 0 && vy == 0),
                ;
                lemma_collinear_overlap_x(p1, p2, p3, p4, d, s, t);
            } else {
                assert(vy != 0) by (nonlinear_arith)
                    requires
                        c == ux * vy - uy * vx,
                        c == 0,
                        ux == 0,
                        uy != 0,
                        !(vx == 0 && vy == 0),
                ;
                lemma_flip_meet_at(p1, p2, p3, p4, d, s, t);
                lemma_flip_on_segment(p1, p3, p4);
                lemma_flip_on_segment(p2, p3, p4);
                lemma_flip_on_segment(p3, p1, p2);
                lemma_flip_on_segment(p4, p1, p2);
                lemma_collinear_overlap_x(flip(p1), flip(p2), flip(p3), flip(p4), d, s, t);
            }
        }
    }
}

/// The orientation test of two closed segments holds exactly when the
/// segments have a point in common.
pub proof fn lemma_segments_meet_iff_share_point(p1: Point, p2: Point, p3: Point, p4: Point)
    ensures
        segments_meet(p1, p2, p3, p4) <==> segments_share_point(p1, p2, p3, p4),
{
    if segments_meet(p1, p2, p3, p4) {
        lemma_meet_gives_point(p1, p2, p3, p4);
    }
    if segments_share_point(p1, p2, p3, p4) {
        let (d, s, t) = choose|d: int, s: int, t: int| #[trigger] meet_at(p1, p2, p3, p4, d, s, t);
        lemma_point_gives_meet(p1, p2, p3, p4, d, s, t);
    }
}

} // verus!
