//! The `intersects` set relation on Cartesian integer geometries.
//!
//! Two geometries intersect when they share a point. Every per-pair test
//! reduces to exact orientation tests (the sign of a cross product,
//! computed in `i128`) and to point-in-polygon tests by the even-odd
//! crossing rule. Each ordered pair of geometry kinds has its own
//! strategy struct; [`CartesianIntersects`] routes every pair to it, and
//! the tag-keyed [`IntersectsPairStrategy`] names it for each pair of
//! kinds.

use vstd::prelude::*;

use crate::segment_facts::{lemma_segments_meet_iff_share_point, segments_share_point};
use crate::geometry::{
    Linestring, LinestringTag, Point, PointTag, Polygon, PolygonTag, Ring, Segment, SegmentTag,
};

verus! {

/// Twice the signed area of the triangle `a, b, c`: positive when `c` is
/// to the left of the directed line `a -> b`, zero when collinear.
pub open spec fn cross(a: Point, b: Point, c: Point) -> int {
    (b.x - a.x) * (c.y - a.y) - (b.y - a.y) * (c.x - a.x)
}

/// The sign of an integer: 1, -1 or 0.
pub open spec fn sign(v: int) -> int {
    if v > 0 {
        1
    } else if v < 0 {
        -1
    } else {
        0
    }
}

/// `v` lies between `a` and `b`, inclusive, in either order.
pub open spec fn between(v: int, a: int, b: int) -> bool {
    (a <= v <= b) || (b <= v <= a)
}

/// `p` lies on the closed segment `a, b`: collinear with it and inside
/// its bounding box.
pub open spec fn on_segment(p: Point, a: Point, b: Point) -> bool {
    cross(a, b, p) == 0 && between(p.x as int, a.x as int, b.x as int) && between(
        p.y as int,
        a.y as int,
        b.y as int,
    )
}

/// Two values of strictly opposite signs.
pub open spec fn opposite(d1: int, d2: int) -> bool {
    (d1 > 0 && d2 < 0) || (d1 < 0 && d2 > 0)
}

/// The closed segments `p1 p2` and `p3 p4` share a point: they cross
/// properly (each straddles the other's line), or an endpoint of one
/// lies on the other.
pub open spec fn segments_meet(p1: Point, p2: Point, p3: Point, p4: Point) -> bool {
    ||| (opposite(cross(p3, p4, p1), cross(p3, p4, p2)) && opposite(cross(p1, p2, p3), cross(p1, p2, p4)))
    ||| on_segment(p1, p3, p4)
    ||| on_segment(p2, p3, p4)
    ||| on_segment(p3, p1, p2)
    ||| on_segment(p4, p1, p2)
}

/// The bounding boxes of the two segments are apart on some axis.
pub open spec fn segment_boxes_apart(p1: Point, p2: Point, p3: Point, p4: Point) -> bool {
    ||| (p1.x < p3.x && p1.x < p4.x && p2.x < p3.x && p2.x < p4.x)
    ||| (p3.x < p1.x && p3.x < p2.x && p4.x < p1.x && p4.x < p2.x)
    ||| (p1.y < p3.y && p1.y < p4.y && p2.y < p3.y && p2.y < p4.y)
    ||| (p3.y < p1.y && p3.y < p2.y && p4.y < p1.y && p4.y < p2.y)
}

/// Some edge of the polyline `ps` meets the segment `s1 s2`.
pub open spec fn polyline_meets_segment(ps: Seq<Point>, s1: Point, s2: Point) -> bool {
    exists|i: int| 0 <= i < ps.len() - 1 && #[trigger] segments_meet(ps[i], ps[i + 1], s1, s2)
}

/// Some edge of the polyline `a` meets some edge of the polyline `b`.
pub open spec fn polylines_meet(a: Seq<Point>, b: Seq<Point>) -> bool {
    exists|i: int, j: int|
        0 <= i < a.len() - 1 && 0 <= j < b.len() - 1 && #[trigger] segments_meet(a[i], a[i + 1], b[j], b[j + 1])
}

/// The edges of a ring with at least two vertices: each vertex to the
/// next, and the last back to the first.
pub open spec fn ring_edges(ps: Seq<Point>) -> Seq<(Point, Point)> {
    if ps.len() < 2 {
        Seq::empty()
    } else {
        Seq::new(ps.len(), |i: int| (ps[i], if i + 1 < ps.len() { ps[i + 1] } else { ps[0] }))
    }
}

/// The edges a polyline is tested against when crossing a ring: each
/// vertex to the next, plus the closing edge unless the ring already
/// repeats its first vertex; a single vertex is a degenerate edge.
pub open spec fn crossing_edges(ps: Seq<Point>) -> Seq<(Point, Point)> {
    if ps.len() == 0 {
        Seq::empty()
    } else if ps.len() == 1 {
        seq![(ps[0], ps[0])]
    } else {
        let open = Seq::new((ps.len() - 1) as nat, |i: int| (ps[i], ps[i + 1]));
        if ps.last() == ps[0] {
            open
        } else {
            open.push((ps.last(), ps[0]))
        }
    }
}

/// The rightward ray from `p` crosses the edge `a b` (half-open in y).
pub open spec fn ray_crosses(a: Point, b: Point, p: Point) -> bool {
    ||| (a.y <= p.y && p.y < b.y && cross(a, b, p) > 0)
    ||| (b.y <= p.y && p.y < a.y && cross(a, b, p) < 0)
}

/// How many of the edges the rightward ray from `p` crosses.
pub open spec fn crossing_count(edges: Seq<(Point, Point)>, p: Point) -> nat
    decreases edges.len(),
{
    if edges.len() == 0 {
        0
    } else {
        crossing_count(edges.drop_last(), p) + (if ray_crosses(edges.last().0, edges.last().1, p) {
            1nat
        } else {
            0nat
        })
    }
}

/// `p` lies on some edge of the ring.
pub open spec fn on_ring(p: Point, ring: Seq<Point>) -> bool {
    exists|i: int| 0 <= i < ring_edges(ring).len() && #[trigger] on_segment(p, ring_edges(ring)[i].0, ring_edges(ring)[i].1)
}

/// `p` is enclosed by the ring under the even-odd rule.
pub open spec fn inside_ring(p: Point, ring: Seq<Point>) -> bool {
    crossing_count(ring_edges(ring), p) % 2 == 1
}

/// `p` lies on the boundary of some hole.
pub open spec fn on_some_hole(p: Point, holes: Seq<Ring>) -> bool {
    exists|h: int| 0 <= h < holes.len() && #[trigger] on_ring(p, holes[h].points@)
}

/// `p` lies inside some hole.
pub open spec fn inside_some_hole(p: Point, holes: Seq<Ring>) -> bool {
    exists|h: int| 0 <= h < holes.len() && #[trigger] inside_ring(p, holes[h].points@)
}

/// `p` lies in the polygon's interior or on its boundary.
pub open spec fn point_covered_by(p: Point, pg: Polygon) -> bool {
    ||| on_ring(p, pg.exterior.points@)
    ||| on_some_hole(p, pg.interiors@)
    ||| (inside_ring(p, pg.exterior.points@) && !inside_some_hole(p, pg.interiors@))
}

/// Some edge of the polyline meets some crossing edge of the ring, with
/// the bounding-box prefilter applied.
pub open spec fn polyline_crosses_ring(ps: Seq<Point>, ring: Seq<Point>) -> bool {
    exists|i: int, j: int|
        0 <= i < ps.len() - 1 && 0 <= j < crossing_edges(ring).len() && #[trigger] segments_meet(
            ps[i],
            ps[i + 1],
            crossing_edges(ring)[j].0,
            crossing_edges(ring)[j].1,
        ) && !segment_boxes_apart(ps[i], ps[i + 1], crossing_edges(ring)[j].0, crossing_edges(ring)[j].1)
}

/// The polyline crosses some hole's boundary.
pub open spec fn polyline_crosses_some_hole(ps: Seq<Point>, holes: Seq<Ring>) -> bool {
    exists|h: int| 0 <= h < holes.len() && #[trigger] polyline_crosses_ring(ps, holes[h].points@)
}

/// Some edge of ring `a` meets some edge of ring `b`.
pub open spec fn rings_cross(a: Seq<Point>, b: Seq<Point>) -> bool {
    exists|i: int, j: int|
        0 <= i < ring_edges(a).len() && 0 <= j < ring_edges(b).len() && #[trigger] segments_meet(
            ring_edges(a)[i].0,
            ring_edges(a)[i].1,
            ring_edges(b)[j].0,
            ring_edges(b)[j].1,
        )
}

/// Some hole of the first list crosses ring `b`.
pub open spec fn some_hole_crosses(holes: Seq<Ring>, b: Seq<Point>) -> bool {
    exists|h: int| 0 <= h < holes.len() && #[trigger] rings_cross(holes[h].points@, b)
}

/// A linestring intersects a polygon: its first point is covered by the
/// polygon, or it crosses the exterior or a hole.
pub open spec fn linestring_meets_polygon(ps: Seq<Point>, pg: Polygon) -> bool {
    ps.len() > 0 && (point_covered_by(ps[0], pg) || polyline_crosses_ring(ps, pg.exterior.points@)
        || polyline_crosses_some_hole(ps, pg.interiors@))
}

/// Two polygons intersect: a first exterior vertex of either is covered
/// by the other, or their boundaries cross.
pub open spec fn polygons_meet(a: Polygon, b: Polygon) -> bool {
    ||| (a.exterior.points@.len() > 0 && point_covered_by(a.exterior.points@[0], b))
    ||| (b.exterior.points@.len() > 0 && point_covered_by(b.exterior.points@[0], a))
    ||| rings_cross(a.exterior.points@, b.exterior.points@)
    ||| some_hole_crosses(a.interiors@, b.exterior.points@)
    ||| (exists|h: int| 0 <= h < b.interiors@.len() && #[trigger] rings_cross(a.exterior.points@, b.interiors@[h].points@))
}

/// The exact cross product of `a, b, c`.
fn cross_product(a: &Point, b: &Point, c: &Point) -> (r: i128)
    ensures
        r == cross(*a, *b, *c),
{
    let ux = b.x as i128 - a.x as i128;
    let uy = b.y as i128 - a.y as i128;
    let vx = c.x as i128 - a.x as i128;
    let vy = c.y as i128 - a.y as i128;
    proof {
        assert(-0x1_0000_0000_0000_0000 <= ux * vy <= 0x1_0000_0000_0000_0000) by (nonlinear_arith)
            requires
                -0x1_0000_0000 <= ux <= 0x1_0000_0000,
                -0x1_0000_0000 <= vy <= 0x1_0000_0000,
        ;
        assert(-0x1_0000_0000_0000_0000 <= uy * vx <= 0x1_0000_0000_0000_0000) by (nonlinear_arith)
            requires
                -0x1_0000_0000 <= uy <= 0x1_0000_0000,
                -0x1_0000_0000 <= vx <= 0x1_0000_0000,
        ;
    }
    ux * vy - uy * vx
}

/// Which side of the directed line `a -> b` the point `c` lies on: 1
/// (left), -1 (right) or 0 (on the line).
pub fn side_sign(a: &Point, b: &Point, c: &Point) -> (r: i32)
    ensures
        r == sign(cross(*a, *b, *c)),
{
    let v = cross_product(a, b, c);
    if v > 0 {
        1
    } else if v < 0 {
        -1
    } else {
        0
    }
}

/// Whether two points coincide.
pub fn points_equal(a: &Point, b: &Point) -> (r: bool)
    ensures
        r == (*a == *b),
{
    a.x == b.x && a.y == b.y
}

/// Whether `p` lies on the closed segment `s1 s2`.
pub fn point_on_segment(p: &Point, s1: &Point, s2: &Point) -> (r: bool)
    ensures
        r == on_segment(*p, *s1, *s2),
{
    let c = cross_product(s1, s2, p);
    if c != 0 {
        return false;
    }
    let (xlo, xhi) = if s1.x <= s2.x { (s1.x, s2.x) } else { (s2.x, s1.x) };
    let (ylo, yhi) = if s1.y <= s2.y { (s1.y, s2.y) } else { (s2.y, s1.y) };
    xlo <= p.x && p.x <= xhi && ylo <= p.y && p.y <= yhi
}

/// Whether the closed segments `p1 p2` and `p3 p4` share a point.
pub fn segments_intersect(p1: &Point, p2: &Point, p3: &Point, p4: &Point) -> (r: bool)
    ensures
        r == segments_meet(*p1, *p2, *p3, *p4),
        r == segments_share_point(*p1, *p2, *p3, *p4),
{
    proof {
        lemma_segments_meet_iff_share_point(*p1, *p2, *p3, *p4);
    }
    let d1 = side_sign(p3, p4, p1);
    let d2 = side_sign(p3, p4, p2);
    let d3 = side_sign(p1, p2, p3);
    let d4 = side_sign(p1, p2, p4);
    if ((d1 > 0 && d2 < 0) || (d1 < 0 && d2 > 0)) && ((d3 > 0 && d4 < 0) || (d3 < 0 && d4 > 0)) {
        return true;
    }
    if d1 == 0 && point_on_segment(p1, p3, p4) {
        return true;
    }
    if d2 == 0 && point_on_segment(p2, p3, p4) {
        return true;
    }
    if d3 == 0 && point_on_segment(p3, p1, p2) {
        return true;
    }
    if d4 == 0 && point_on_segment(p4, p1, p2) {
        return true;
    }
    false
}

/// Whether the bounding boxes of the two segments are apart on an axis.
fn segment_bounds_disjoint(p1: &Point, p2: &Point, p3: &Point, p4: &Point) -> (r: bool)
    ensures
        r == segment_boxes_apart(*p1, *p2, *p3, *p4),
{
    (p1.x < p3.x && p1.x < p4.x && p2.x < p3.x && p2.x < p4.x) || (p3.x < p1.x && p3.x < p2.x
        && p4.x < p1.x && p4.x < p2.x) || (p1.y < p3.y && p1.y < p4.y && p2.y < p3.y && p2.y
        < p4.y) || (p3.y < p1.y && p3.y < p2.y && p4.y < p1.y && p4.y < p2.y)
}

/// Whether some edge of the polyline meets the segment `s1 s2`.
pub fn polyline_intersects_segment(ps: &Vec<Point>, s1: &Point, s2: &Point) -> (r: bool)
    ensures
        r == polyline_meets_segment(ps@, *s1, *s2),
{
    if ps.len() < 2 {
        return false;
    }
    let mut i: usize = 0;
    while i < ps.len() - 1
        invariant
            ps@.len() >= 2,
            i + 1 <= ps@.len(),
            forall|k: int| 0 <= k < i ==> !#[trigger] segments_meet(ps@[k], ps@[k + 1], *s1, *s2),
        decreases ps@.len() - i,
    {
        if segments_intersect(&ps[i], &ps[i + 1], s1, s2) {
            return true;
        }
        i = i + 1;
    }
    false
}

/// Whether some edge of polyline `a` meets some edge of polyline `b`.
pub fn polylines_intersect(a: &Vec<Point>, b: &Vec<Point>) -> (r: bool)
    ensures
        r == polylines_meet(a@, b@),
{
    if a.len() < 2 {
        return false;
    }
    let mut i: usize = 0;
    while i < a.len() - 1
        invariant
            a@.len() >= 2,
            i + 1 <= a@.len(),
            forall|k: int, m: int| 0 <= k < i && 0 <= m < b@.len() - 1 ==> !#[trigger] segments_meet(a@[k], a@[k + 1], b@[m], b@[m + 1]),
        decreases a@.len() - i,
    {
        if polyline_intersects_segment(b, &a[i], &a[i + 1]) {
            proof {
                let m = choose|m: int| 0 <= m < b@.len() - 1 && #[trigger] segments_meet(b@[m], b@[m + 1], a@[i as int], a@[i + 1]);
                lemma_segments_meet_symmetric(b@[m], b@[m + 1], a@[i as int], a@[i + 1]);
            }
            return true;
        }
        proof {
            assert forall|m: int| 0 <= m < b@.len() - 1 implies !#[trigger] segments_meet(a@[i as int], a@[i + 1], b@[m], b@[m + 1]) by {
                lemma_segments_meet_symmetric(b@[m], b@[m + 1], a@[i as int], a@[i + 1]);
            }
        }
        i = i + 1;
    }
    false
}

/// Meeting is symmetric in the two segments.
pub proof fn lemma_segments_meet_symmetric(p1: Point, p2: Point, p3: Point, p4: Point)
    ensures
        segments_meet(p1, p2, p3, p4) == segments_meet(p3, p4, p1, p2),
{
}

/// Meeting ignores the direction of either segment.
pub proof fn lemma_segments_meet_reversed(p1: Point, p2: Point, p3: Point, p4: Point)
    ensures
        segments_meet(p1, p2, p3, p4) == segments_meet(p2, p1, p3, p4),
{
    assert(cross(p2, p1, p3) == -cross(p1, p2, p3)) by (nonlinear_arith);
    assert(cross(p2, p1, p4) == -cross(p1, p2, p4)) by (nonlinear_arith);
    assert(cross(p3, p4, p1) == cross(p3, p4, p1));
    assert(cross(p2, p1, p3) == 0 <==> cross(p1, p2, p3) == 0);
    assert(cross(p2, p1, p4) == 0 <==> cross(p1, p2, p4) == 0);
}


/// The edges of a ring (see [`ring_edges`]).
fn ring_edge_list(ps: &Vec<Point>) -> (edges: Vec<(Point, Point)>)
    ensures
        edges@ == ring_edges(ps@),
{
    let mut edges: Vec<(Point, Point)> = Vec::new();
    let n = ps.len();
    if n < 2 {
        proof {
            assert(edges@ =~= ring_edges(ps@));
        }
        return edges;
    }
    let mut i: usize = 0;
    while i < n
        invariant
            n == ps@.len(),
            n >= 2,
            i <= n,
            edges@.len() == i,
            forall|k: int| 0 <= k < i ==> #[trigger] edges@[k] == ring_edges(ps@)[k],
        decreases n - i,
    {
        let next = if i + 1 < n { ps[i + 1] } else { ps[0] };
        edges.push((ps[i], next));
        i = i + 1;
    }
    proof {
        assert(edges@ =~= ring_edges(ps@));
    }
    edges
}

/// The edges a polyline is tested against (see [`crossing_edges`]).
fn crossing_edge_list(ps: &Vec<Point>) -> (edges: Vec<(Point, Point)>)
    ensures
        edges@ == crossing_edges(ps@),
{
    let mut edges: Vec<(Point, Point)> = Vec::new();
    let n = ps.len();
    if n == 0 {
        proof {
            assert(edges@ =~= crossing_edges(ps@));
        }
        return edges;
    }
    if n == 1 {
        edges.push((ps[0], ps[0]));
        proof {
            assert(edges@ =~= crossing_edges(ps@));
        }
        return edges;
    }
    let ghost open = Seq::new((n - 1) as nat, |i: int| (ps@[i], ps@[i + 1]));
    let mut i: usize = 0;
    while i < n - 1
        invariant
            n == ps@.len(),
            n >= 2,
            i <= n - 1,
            open == Seq::new((n - 1) as nat, |k: int| (ps@[k], ps@[k + 1])),
            edges@ =~= open.take(i as int),
        decreases n - 1 - i,
    {
        edges.push((ps[i], ps[i + 1]));
        i = i + 1;
    }
    proof {
        assert(open.take((n - 1) as int) =~= open);
    }
    let last = ps[n - 1];
    let first = ps[0];
    if !(last.x == first.x && last.y == first.y) {
        edges.push((last, first));
    }
    proof {
        assert(ps@.last() == last);
        assert(edges@ =~= crossing_edges(ps@));
    }
    edges
}

/// Whether the rightward ray from `p` crosses the edge `a b`.
fn ray_crosses_edge(a: &Point, b: &Point, p: &Point) -> (r: bool)
    ensures
        r == ray_crosses(*a, *b, *p),
{
    let c = cross_product(a, b, p);
    (a.y <= p.y && p.y < b.y && c > 0) || (b.y <= p.y && p.y < a.y && c < 0)
}

/// Whether the ring encloses `p` under the even-odd rule.
pub fn point_in_ring(p: &Point, ring: &Vec<Point>) -> (r: bool)
    ensures
        r == inside_ring(*p, ring@),
{
    let edges = ring_edge_list(ring);
    let mut count: usize = 0;
    let mut i: usize = 0;
    proof {
        assert(edges@.take(0) =~= Seq::<(Point, Point)>::empty());
    }
    while i < edges.len()
        invariant
            i <= edges@.len(),
            count == crossing_count(edges@.take(i as int), *p),
            count <= i,
        decreases edges@.len() - i,
    {
        proof {
            assert(edges@.take(i + 1).drop_last() =~= edges@.take(i as int));
        }
        if ray_crosses_edge(&edges[i].0, &edges[i].1, p) {
            count = count + 1;
        }
        i = i + 1;
    }
    proof {
        assert(edges@.take(edges@.len() as int) =~= edges@);
    }
    count % 2 == 1
}

/// Whether `p` lies on some edge of the ring.
pub fn point_on_ring(p: &Point, ring: &Vec<Point>) -> (r: bool)
    ensures
        r == on_ring(*p, ring@),
{
    let edges = ring_edge_list(ring);
    let mut i: usize = 0;
    while i < edges.len()
        invariant
            i <= edges@.len(),
            edges@ == ring_edges(ring@),
            forall|k: int| 0 <= k < i ==> !#[trigger] on_segment(*p, edges@[k].0, edges@[k].1),
        decreases edges@.len() - i,
    {
        if point_on_segment(p, &edges[i].0, &edges[i].1) {
            return true;
        }
        i = i + 1;
    }
    false
}

/// Whether `p` lies in the polygon's interior or on its boundary.
pub fn covered_by(p: &Point, pg: &Polygon) -> (r: bool)
    ensures
        r == point_covered_by(*p, *pg),
{
    if point_on_ring(p, &pg.exterior.points) {
        return true;
    }
    let mut h: usize = 0;
    while h < pg.interiors.len()
        invariant
            h <= pg.interiors@.len(),
            forall|k: int| 0 <= k < h ==> !#[trigger] on_ring(*p, pg.interiors@[k].points@),
        decreases pg.interiors@.len() - h,
    {
        if point_on_ring(p, &pg.interiors[h].points) {
            return true;
        }
        h = h + 1;
    }
    proof {
        assert(!on_some_hole(*p, pg.interiors@));
    }
    if !point_in_ring(p, &pg.exterior.points) {
        return false;
    }
    let mut h: usize = 0;
    while h < pg.interiors.len()
        invariant
            h <= pg.interiors@.len(),
            !on_ring(*p, pg.exterior.points@),
            !on_some_hole(*p, pg.interiors@),
            inside_ring(*p, pg.exterior.points@),
            forall|k: int| 0 <= k < h ==> !#[trigger] inside_ring(*p, pg.interiors@[k].points@),
        decreases pg.interiors@.len() - h,
    {
        if point_in_ring(p, &pg.interiors[h].points) {
            return false;
        }
        h = h + 1;
    }
    true
}

/// Whether some edge of the polyline meets a crossing edge of the ring.
fn polyline_crosses_ring_edges(ps: &Vec<Point>, ring: &Vec<Point>) -> (r: bool)
    ensures
        r == polyline_crosses_ring(ps@, ring@),
{
    if ps.len() < 2 {
        return false;
    }
    let edges = crossing_edge_list(ring);
    let mut i: usize = 0;
    while i < ps.len() - 1
        invariant
            ps@.len() >= 2,
            i <= ps@.len() - 1,
            edges@ == crossing_edges(ring@),
            forall|k: int, m: int| 0 <= k < i && 0 <= m < edges@.len() ==> !(#[trigger] segments_meet(ps@[k], ps@[k + 1], edges@[m].0, edges@[m].1) && !segment_boxes_apart(ps@[k], ps@[k + 1], edges@[m].0, edges@[m].1)),
        decreases ps@.len() - 1 - i,
    {
        let next = i + 1;
        let mut m: usize = 0;
        while m < edges.len()
            invariant
                ps@.len() >= 2,
                i < ps@.len() - 1,
                next == i + 1,
                edges@ == crossing_edges(ring@),
                m <= edges@.len(),
                forall|mm: int| 0 <= mm < m ==> !(#[trigger] segments_meet(ps@[i as int], ps@[i + 1], edges@[mm].0, edges@[mm].1) && !segment_boxes_apart(ps@[i as int], ps@[i + 1], edges@[mm].0, edges@[mm].1)),
            decreases edges@.len() - m,
        {
            if !segment_bounds_disjoint(&ps[i], &ps[next], &edges[m].0, &edges[m].1)
                && segments_intersect(&ps[i], &ps[next], &edges[m].0, &edges[m].1) {
                return true;
            }
            m = m + 1;
        }
        i = i + 1;
    }
    false
}

/// Whether some edge of ring `a` meets some edge of ring `b`.
fn ring_edges_cross(a: &Vec<Point>, b: &Vec<Point>) -> (r: bool)
    ensures
        r == rings_cross(a@, b@),
{
    let ea = ring_edge_list(a);
    let eb = ring_edge_list(b);
    let mut i: usize = 0;
    while i < ea.len()
        invariant
            i <= ea@.len(),
            ea@ == ring_edges(a@),
            eb@ == ring_edges(b@),
            forall|k: int, m: int| 0 <= k < i && 0 <= m < eb@.len() ==> !#[trigger] segments_meet(ea@[k].0, ea@[k].1, eb@[m].0, eb@[m].1),
        decreases ea@.len() - i,
    {
        let mut m: usize = 0;
        while m < eb.len()
            invariant
                i < ea@.len(),
                ea@ == ring_edges(a@),
                eb@ == ring_edges(b@),
                m <= eb@.len(),
                forall|mm: int| 0 <= mm < m ==> !#[trigger] segments_meet(ea@[i as int].0, ea@[i as int].1, eb@[mm].0, eb@[mm].1),
            decreases eb@.len() - m,
        {
            if segments_intersect(&ea[i].0, &ea[i].1, &eb[m].0, &eb[m].1) {
                return true;
            }
            m = m + 1;
        }
        i = i + 1;
    }
    false
}

/// Whether the linestring intersects the polygon.
fn linestring_polygon(ls: &Linestring, pg: &Polygon) -> (r: bool)
    ensures
        r == linestring_meets_polygon(ls.points@, *pg),
{
    if ls.points.len() == 0 {
        return false;
    }
    if covered_by(&ls.points[0], pg) {
        return true;
    }
    if polyline_crosses_ring_edges(&ls.points, &pg.exterior.points) {
        return true;
    }
    let mut h: usize = 0;
    while h < pg.interiors.len()
        invariant
            h <= pg.interiors@.len(),
            forall|k: int| 0 <= k < h ==> !#[trigger] polyline_crosses_ring(ls.points@, pg.interiors@[k].points@),
        decreases pg.interiors@.len() - h,
    {
        if polyline_crosses_ring_edges(&ls.points, &pg.interiors[h].points) {
            return true;
        }
        h = h + 1;
    }
    false
}

/// Whether the two polygons intersect.
fn polygon_polygon(a: &Polygon, b: &Polygon) -> (r: bool)
    ensures
        r == polygons_meet(*a, *b),
{
    if a.exterior.points.len() > 0 && covered_by(&a.exterior.points[0], b) {
        return true;
    }
    if b.exterior.points.len() > 0 && covered_by(&b.exterior.points[0], a) {
        return true;
    }
    if ring_edges_cross(&a.exterior.points, &b.exterior.points) {
        return true;
    }
    let mut h: usize = 0;
    while h < a.interiors.len()
        invariant
            h <= a.interiors@.len(),
            forall|k: int| 0 <= k < h ==> !#[trigger] rings_cross(a.interiors@[k].points@, b.exterior.points@),
        decreases a.interiors@.len() - h,
    {
        if ring_edges_cross(&a.interiors[h].points, &b.exterior.points) {
            return true;
        }
        h = h + 1;
    }
    let mut h: usize = 0;
    while h < b.interiors.len()
        invariant
            h <= b.interiors@.len(),
            forall|k: int| 0 <= k < h ==> !#[trigger] rings_cross(a.exterior.points@, b.interiors@[k].points@),
        decreases b.interiors@.len() - h,
    {
        if ring_edges_cross(&a.exterior.points, &b.interiors[h].points) {
            return true;
        }
        h = h + 1;
    }
    false
}


/// A strategy deciding whether two geometries share a point.
pub trait IntersectsStrategy<A, B> {
    /// Whether `a` and `b` share a point.
    spec fn spec_intersects(&self, a: A, b: B) -> bool;

    /// Whether `a` and `b` share a point.
    fn intersects(&self, a: &A, b: &B) -> (r: bool)
        ensures
            r == self.spec_intersects(*a, *b),
    ;
}

/// The Cartesian intersects strategy: routes each pair of geometry kinds
/// to its per-pair strategy.
#[derive(Debug, Default, Clone, Copy)]
pub struct CartesianIntersects;

/// Two points intersect when they coincide.
#[derive(Debug, Default, Clone, Copy)]
pub struct IxPointPoint;

impl IntersectsStrategy<Point, Point> for IxPointPoint {
    open spec fn spec_intersects(&self, a: Point, b: Point) -> bool {
        a == b
    }

    fn intersects(&self, a: &Point, b: &Point) -> (r: bool) {
        points_equal(a, b)
    }
}

impl IntersectsStrategy<Point, Point> for CartesianIntersects {
    open spec fn spec_intersects(&self, a: Point, b: Point) -> bool {
        IxPointPoint.spec_intersects(a, b)
    }

    fn intersects(&self, a: &Point, b: &Point) -> (r: bool) {
        IxPointPoint.intersects(a, b)
    }
}

/// A point intersects a segment when it lies on it.
#[derive(Debug, Default, Clone, Copy)]
pub struct IxPointSegment;

impl IntersectsStrategy<Point, Segment> for IxPointSegment {
    open spec fn spec_intersects(&self, a: Point, b: Segment) -> bool {
        on_segment(a, b.start, b.end)
    }

    fn intersects(&self, a: &Point, b: &Segment) -> (r: bool) {
        point_on_segment(a, &b.start, &b.end)
    }
}

impl IntersectsStrategy<Point, Segment> for CartesianIntersects {
    open spec fn spec_intersects(&self, a: Point, b: Segment) -> bool {
        IxPointSegment.spec_intersects(a, b)
    }

    fn intersects(&self, a: &Point, b: &Segment) -> (r: bool) {
        IxPointSegment.intersects(a, b)
    }
}

/// Two segments intersect when they share a point.
#[derive(Debug, Default, Clone, Copy)]
pub struct IxSegmentSegment;

impl IntersectsStrategy<Segment, Segment> for IxSegmentSegment {
    open spec fn spec_intersects(&self, a: Segment, b: Segment) -> bool {
        segments_meet(a.start, a.end, b.start, b.end)
    }

    fn intersects(&self, a: &Segment, b: &Segment) -> (r: bool) {
        segments_intersect(&a.start, &a.end, &b.start, &b.end)
    }
}

impl IntersectsStrategy<Segment, Segment> for CartesianIntersects {
    open spec fn spec_intersects(&self, a: Segment, b: Segment) -> bool {
        IxSegmentSegment.spec_intersects(a, b)
    }

    fn intersects(&self, a: &Segment, b: &Segment) -> (r: bool) {
        IxSegmentSegment.intersects(a, b)
    }
}

/// A linestring intersects a segment when one of its edges does.
#[derive(Debug, Default, Clone, Copy)]
pub struct IxLinestringSegment;

impl IntersectsStrategy<Linestring, Segment> for IxLinestringSegment {
    open spec fn spec_intersects(&self, a: Linestring, b: Segment) -> bool {
        polyline_meets_segment(a.points@, b.start, b.end)
    }

    fn intersects(&self, a: &Linestring, b: &Segment) -> (r: bool) {
        polyline_intersects_segment(&a.points, &b.start, &b.end)
    }
}

impl IntersectsStrategy<Linestring, Segment> for CartesianIntersects {
    open spec fn spec_intersects(&self, a: Linestring, b: Segment) -> bool {
        IxLinestringSegment.spec_intersects(a, b)
    }

    fn intersects(&self, a: &Linestring, b: &Segment) -> (r: bool) {
        IxLinestringSegment.intersects(a, b)
    }
}

/// Two linestrings intersect when an edge of one meets an edge of the other.
#[derive(Debug, Default, Clone, Copy)]
pub struct IxLinestringLinestring;

impl IntersectsStrategy<Linestring, Linestring> for IxLinestringLinestring {
    open spec fn spec_intersects(&self, a: Linestring, b: Linestring) -> bool {
        polylines_meet(a.points@, b.points@)
    }

    fn intersects(&self, a: &Linestring, b: &Linestring) -> (r: bool) {
        polylines_intersect(&a.points, &b.points)
    }
}

impl IntersectsStrategy<Linestring, Linestring> for CartesianIntersects {
    open spec fn spec_intersects(&self, a: Linestring, b: Linestring) -> bool {
        IxLinestringLinestring.spec_intersects(a, b)
    }

    fn intersects(&self, a: &Linestring, b: &Linestring) -> (r: bool) {
        IxLinestringLinestring.intersects(a, b)
    }
}

/// A point intersects a polygon when the polygon covers it (interior or boundary).
#[derive(Debug, Default, Clone, Copy)]
pub struct IxPointPolygon;

impl IntersectsStrategy<Point, Polygon> for IxPointPolygon {
    open spec fn spec_intersects(&self, a: Point, b: Polygon) -> bool {
        point_covered_by(a, b)
    }

    fn intersects(&self, a: &Point, b: &Polygon) -> (r: bool) {
        covered_by(a, b)
    }
}

impl IntersectsStrategy<Point, Polygon> for CartesianIntersects {
    open spec fn spec_intersects(&self, a: Point, b: Polygon) -> bool {
        IxPointPolygon.spec_intersects(a, b)
    }

    fn intersects(&self, a: &Point, b: &Polygon) -> (r: bool) {
        IxPointPolygon.intersects(a, b)
    }
}

/// A linestring intersects a polygon when its first point is covered or it crosses the boundary.
#[derive(Debug, Default, Clone, Copy)]
pub struct IxLinestringPolygon;

impl IntersectsStrategy<Linestring, Polygon> for IxLinestringPolygon {
    open spec fn spec_intersects(&self, a: Linestring, b: Polygon) -> bool {
        linestring_meets_polygon(a.points@, b)
    }

    fn intersects(&self, a: &Linestring, b: &Polygon) -> (r: bool) {
        linestring_polygon(a, b)
    }
}

impl IntersectsStrategy<Linestring, Polygon> for CartesianIntersects {
    open spec fn spec_intersects(&self, a: Linestring, b: Polygon) -> bool {
        IxLinestringPolygon.spec_intersects(a, b)
    }

    fn intersects(&self, a: &Linestring, b: &Polygon) -> (r: bool) {
        IxLinestringPolygon.intersects(a, b)
    }
}

/// Two polygons intersect when one holds a vertex of the other or their boundaries cross.
#[derive(Debug, Default, Clone, Copy)]
pub struct IxPolygonPolygon;

impl IntersectsStrategy<Polygon, Polygon> for IxPolygonPolygon {
    open spec fn spec_intersects(&self, a: Polygon, b: Polygon) -> bool {
        polygons_meet(a, b)
    }

    fn intersects(&self, a: &Polygon, b: &Polygon) -> (r: bool) {
        polygon_polygon(a, b)
    }
}

impl IntersectsStrategy<Polygon, Polygon> for CartesianIntersects {
    open spec fn spec_intersects(&self, a: Polygon, b: Polygon) -> bool {
        IxPolygonPolygon.spec_intersects(a, b)
    }

    fn intersects(&self, a: &Polygon, b: &Polygon) -> (r: bool) {
        IxPolygonPolygon.intersects(a, b)
    }
}

/// A segment and a point: the point-segment test with the arguments swapped.
#[derive(Debug, Default, Clone, Copy)]
pub struct IxSegmentPoint;

impl IntersectsStrategy<Segment, Point> for IxSegmentPoint {
    open spec fn spec_intersects(&self, a: Segment, b: Point) -> bool {
        on_segment(b, a.start, a.end)
    }

    fn intersects(&self, a: &Segment, b: &Point) -> (r: bool) {
        point_on_segment(b, &a.start, &a.end)
    }
}

impl IntersectsStrategy<Segment, Point> for CartesianIntersects {
    open spec fn spec_intersects(&self, a: Segment, b: Point) -> bool {
        IxSegmentPoint.spec_intersects(a, b)
    }

    fn intersects(&self, a: &Segment, b: &Point) -> (r: bool) {
        IxSegmentPoint.intersects(a, b)
    }
}

/// A segment and a linestring: the linestring-segment test swapped.
#[derive(Debug, Default, Clone, Copy)]
pub struct IxSegmentLinestring;

impl IntersectsStrategy<Segment, Linestring> for IxSegmentLinestring {
    open spec fn spec_intersects(&self, a: Segment, b: Linestring) -> bool {
        polyline_meets_segment(b.points@, a.start, a.end)
    }

    fn intersects(&self, a: &Segment, b: &Linestring) -> (r: bool) {
        polyline_intersects_segment(&b.points, &a.start, &a.end)
    }
}

impl IntersectsStrategy<Segment, Linestring> for CartesianIntersects {
    open spec fn spec_intersects(&self, a: Segment, b: Linestring) -> bool {
        IxSegmentLinestring.spec_intersects(a, b)
    }

    fn intersects(&self, a: &Segment, b: &Linestring) -> (r: bool) {
        IxSegmentLinestring.intersects(a, b)
    }
}

/// A polygon and a point: the point-polygon test swapped.
#[derive(Debug, Default, Clone, Copy)]
pub struct IxPolygonPoint;

impl IntersectsStrategy<Polygon, Point> for IxPolygonPoint {
    open spec fn spec_intersects(&self, a: Polygon, b: Point) -> bool {
        point_covered_by(b, a)
    }

    fn intersects(&self, a: &Polygon, b: &Point) -> (r: bool) {
        covered_by(b, a)
    }
}

impl IntersectsStrategy<Polygon, Point> for CartesianIntersects {
    open spec fn spec_intersects(&self, a: Polygon, b: Point) -> bool {
        IxPolygonPoint.spec_intersects(a, b)
    }

    fn intersects(&self, a: &Polygon, b: &Point) -> (r: bool) {
        IxPolygonPoint.intersects(a, b)
    }
}

/// A polygon and a linestring: the linestring-polygon test swapped.
#[derive(Debug, Default, Clone, Copy)]
pub struct IxPolygonLinestring;

impl IntersectsStrategy<Polygon, Linestring> for IxPolygonLinestring {
    open spec fn spec_intersects(&self, a: Polygon, b: Linestring) -> bool {
        linestring_meets_polygon(b.points@, a)
    }

    fn intersects(&self, a: &Polygon, b: &Linestring) -> (r: bool) {
        linestring_polygon(b, a)
    }
}

impl IntersectsStrategy<Polygon, Linestring> for CartesianIntersects {
    open spec fn spec_intersects(&self, a: Polygon, b: Linestring) -> bool {
        IxPolygonLinestring.spec_intersects(a, b)
    }

    fn intersects(&self, a: &Polygon, b: &Linestring) -> (r: bool) {
        IxPolygonLinestring.intersects(a, b)
    }
}

/// Names the intersects strategy for an ordered pair of geometry kinds.
pub trait IntersectsPairStrategy<K2> {
    /// The strategy for this pair of kinds.
    type S;
}

impl IntersectsPairStrategy<PointTag> for PointTag {
    type S = IxPointPoint;
}

impl IntersectsPairStrategy<SegmentTag> for PointTag {
    type S = IxPointSegment;
}

impl IntersectsPairStrategy<SegmentTag> for SegmentTag {
    type S = IxSegmentSegment;
}

impl IntersectsPairStrategy<SegmentTag> for LinestringTag {
    type S = IxLinestringSegment;
}

impl IntersectsPairStrategy<LinestringTag> for LinestringTag {
    type S = IxLinestringLinestring;
}

impl IntersectsPairStrategy<PolygonTag> for PointTag {
    type S = IxPointPolygon;
}

impl IntersectsPairStrategy<PolygonTag> for LinestringTag {
    type S = IxLinestringPolygon;
}

impl IntersectsPairStrategy<PolygonTag> for PolygonTag {
    type S = IxPolygonPolygon;
}

impl IntersectsPairStrategy<PointTag> for SegmentTag {
    type S = IxSegmentPoint;
}

impl IntersectsPairStrategy<LinestringTag> for SegmentTag {
    type S = IxSegmentLinestring;
}

impl IntersectsPairStrategy<PointTag> for PolygonTag {
    type S = IxPolygonPoint;
}

impl IntersectsPairStrategy<LinestringTag> for PolygonTag {
    type S = IxPolygonLinestring;
}

/// Intersection is symmetric for every pair the strategy answers in both
/// orders.
pub proof fn lemma_intersects_symmetric(p: Point, q: Point, s: Segment, t: Segment, l: Linestring, pg: Polygon)
    ensures
        CartesianIntersects.spec_intersects(p, q) == CartesianIntersects.spec_intersects(q, p),
        CartesianIntersects.spec_intersects(p, s) == CartesianIntersects.spec_intersects(s, p),
        CartesianIntersects.spec_intersects(s, t) == CartesianIntersects.spec_intersects(t, s),
        CartesianIntersects.spec_intersects(l, s) == CartesianIntersects.spec_intersects(s, l),
        CartesianIntersects.spec_intersects(p, pg) == CartesianIntersects.spec_intersects(pg, p),
        CartesianIntersects.spec_intersects(l, pg) == CartesianIntersects.spec_intersects(pg, l),
{
    lemma_segments_meet_symmetric(s.start, s.end, t.start, t.end);
}

} // verus!
