//! What the polygon-polygon intersection test answers.
//!
//! Two polygons intersect when one holds the first exterior vertex of
//! the other, or when their boundaries (exterior rings and holes) cross.
//! [`lemma_polygon_intersects_when_one_holds_the_other`] and
//! [`lemma_polygon_intersects_when_boundaries_meet`] show that each of
//! these makes the test answer yes, [`lemma_polygon_intersects_symmetric`]
//! that the order of the two polygons does not matter, and
//! [`lemma_polygons_apart_do_not_intersect`] that polygons separated by a
//! horizontal line do not intersect.

use vstd::prelude::*;

use crate::geometry::{Point, Polygon, Ring};
use crate::intersects::{
    CartesianIntersects, IntersectsStrategy, between, crossing_count, inside_ring,
    lemma_segments_meet_symmetric, on_ring, on_segment, point_covered_by, ray_crosses,
    ring_edges, rings_cross, segments_meet,
};
use crate::segment_facts::{lemma_segments_meet_iff_share_point, meet_at, segments_share_point};

verus! {

/// A polygon that holds the first exterior vertex of the other (inside
/// or on its boundary, as the point-polygon test answers) intersects it,
/// whichever polygon is the holder.
pub proof fn lemma_polygon_intersects_when_one_holds_the_other(a: Polygon, b: Polygon)
    ensures
        b.exterior.points@.len() > 0 && CartesianIntersects.spec_intersects(b.exterior.points@[0], a)
            ==> CartesianIntersects.spec_intersects(a, b),
        a.exterior.points@.len() > 0 && CartesianIntersects.spec_intersects(a.exterior.points@[0], b)
            ==> CartesianIntersects.spec_intersects(a, b),
{
}

/// Polygons whose boundaries share a point intersect: an edge of the
/// exterior of one meeting an edge of the exterior of the other, or an
/// edge of a hole of the first meeting an edge of the exterior of the
/// second, or an edge of the exterior of the first meeting an edge of a
/// hole of the second.
pub proof fn lemma_polygon_intersects_when_boundaries_meet(a: Polygon, b: Polygon, h: int, i: int, j: int)
    ensures
        0 <= i < a.exterior.points@.len() - 1 && 0 <= j < b.exterior.points@.len() - 1 && segments_share_point(
            a.exterior.points@[i],
            a.exterior.points@[i + 1],
            b.exterior.points@[j],
            b.exterior.points@[j + 1],
        ) ==> CartesianIntersects.spec_intersects(a, b),
        0 <= h < a.interiors@.len() && 0 <= i < a.interiors@[h].points@.len() - 1 && 0 <= j
            < b.exterior.points@.len() - 1 && segments_share_point(
            a.interiors@[h].points@[i],
            a.interiors@[h].points@[i + 1],
            b.exterior.points@[j],
            b.exterior.points@[j + 1],
        ) ==> CartesianIntersects.spec_intersects(a, b),
        0 <= h < b.interiors@.len() && 0 <= i < a.exterior.points@.len() - 1 && 0 <= j
            < b.interiors@[h].points@.len() - 1 && segments_share_point(
            a.exterior.points@[i],
            a.exterior.points@[i + 1],
            b.interiors@[h].points@[j],
            b.interiors@[h].points@[j + 1],
        ) ==> CartesianIntersects.spec_intersects(a, b),
{
    if 0 <= i < a.exterior.points@.len() - 1 && 0 <= j < b.exterior.points@.len() - 1 {
        let ea = a.exterior.points@;
        let eb = b.exterior.points@;
        lemma_segments_meet_iff_share_point(ea[i], ea[i + 1], eb[j], eb[j + 1]);
        assert(ring_edges(ea)[i] == (ea[i], ea[i + 1]));
        assert(ring_edges(eb)[j] == (eb[j], eb[j + 1]));
        assert(segments_share_point(ea[i], ea[i + 1], eb[j], eb[j + 1]) ==> segments_meet(ring_edges(ea)[i].0, ring_edges(ea)[i].1, ring_edges(eb)[j].0, ring_edges(eb)[j].1));
    }
    if 0 <= h < a.interiors@.len() && 0 <= i < a.interiors@[h].points@.len() - 1 && 0 <= j < b.exterior.points@.len() - 1 {
        let ea = a.interiors@[h].points@;
        let eb = b.exterior.points@;
        lemma_segments_meet_iff_share_point(ea[i], ea[i + 1], eb[j], eb[j + 1]);
        assert(ring_edges(ea)[i] == (ea[i], ea[i + 1]));
        assert(ring_edges(eb)[j] == (eb[j], eb[j + 1]));
        assert(segments_share_point(ea[i], ea[i + 1], eb[j], eb[j + 1]) ==> segments_meet(ring_edges(ea)[i].0, ring_edges(ea)[i].1, ring_edges(eb)[j].0, ring_edges(eb)[j].1));
        if segments_share_point(ea[i], ea[i + 1], eb[j], eb[j + 1]) {
            assert(rings_cross(a.interiors@[h].points@, eb));
        }
    }
    if 0 <= h < b.interiors@.len() && 0 <= i < a.exterior.points@.len() - 1 && 0 <= j < b.interiors@[h].points@.len() - 1 {
        let ea = a.exterior.points@;
        let eb = b.interiors@[h].points@;
        lemma_segments_meet_iff_share_point(ea[i], ea[i + 1], eb[j], eb[j + 1]);
        assert(ring_edges(ea)[i] == (ea[i], ea[i + 1]));
        assert(ring_edges(eb)[j] == (eb[j], eb[j + 1]));
        assert(segments_share_point(ea[i], ea[i + 1], eb[j], eb[j + 1]) ==> segments_meet(ring_edges(ea)[i].0, ring_edges(ea)[i].1, ring_edges(eb)[j].0, ring_edges(eb)[j].1));
        if segments_share_point(ea[i], ea[i + 1], eb[j], eb[j + 1]) {
            assert(rings_cross(ea, b.interiors@[h].points@));
        }
    }
}

/// Crossing between two rings does not depend on their order.
proof fn lemma_rings_cross_symmetric(a: Seq<Point>, b: Seq<Point>)
    ensures
        rings_cross(a, b) == rings_cross(b, a),
{
    if rings_cross(a, b) {
        let (i, j) = choose|i: int, j: int|
            0 <= i < ring_edges(a).len() && 0 <= j < ring_edges(b).len() && #[trigger] segments_meet(
                ring_edges(a)[i].0,
                ring_edges(a)[i].1,
                ring_edges(b)[j].0,
                ring_edges(b)[j].1,
            );
        lemma_segments_meet_symmetric(ring_edges(a)[i].0, ring_edges(a)[i].1, ring_edges(b)[j].0, ring_edges(b)[j].1);
    }
    if rings_cross(b, a) {
        let (j, i) = choose|j: int, i: int|
            0 <= j < ring_edges(b).len() && 0 <= i < ring_edges(a).len() && #[trigger] segments_meet(
                ring_edges(b)[j].0,
                ring_edges(b)[j].1,
                ring_edges(a)[i].0,
                ring_edges(a)[i].1,
            );
        lemma_segments_meet_symmetric(ring_edges(b)[j].0, ring_edges(b)[j].1, ring_edges(a)[i].0, ring_edges(a)[i].1);
    }
}

/// Polygon intersection does not depend on the order of the polygons.
pub proof fn lemma_polygon_intersects_symmetric(a: Polygon, b: Polygon)
    ensures
        CartesianIntersects.spec_intersects(a, b) == CartesianIntersects.spec_intersects(b, a),
{
    lemma_rings_cross_symmetric(a.exterior.points@, b.exterior.points@);
    assert forall|h: int| 0 <= h < a.interiors@.len() implies rings_cross(a.interiors@[h].points@, b.exterior.points@)
        == rings_cross(b.exterior.points@, a.interiors@[h].points@) by {
        lemma_rings_cross_symmetric(a.interiors@[h].points@, b.exterior.points@);
    }
    assert forall|h: int| 0 <= h < b.interiors@.len() implies rings_cross(b.interiors@[h].points@, a.exterior.points@)
        == rings_cross(a.exterior.points@, b.interiors@[h].points@) by {
        lemma_rings_cross_symmetric(b.interiors@[h].points@, a.exterior.points@);
    }
}

/// Every vertex of the ring lies strictly below the line `y == t`.
pub open spec fn ring_below(r: Seq<Point>, t: int) -> bool {
    forall|k: int| 0 <= k < r.len() ==> (#[trigger] r[k]).y < t
}

/// Every vertex of the ring lies on or above the line `y == t`.
pub open spec fn ring_at_or_above(r: Seq<Point>, t: int) -> bool {
    forall|k: int| 0 <= k < r.len() ==> (#[trigger] r[k]).y >= t
}

/// Every vertex of the polygon, holes included, lies strictly below the
/// line `y == t`.
pub open spec fn polygon_below(pg: Polygon, t: int) -> bool {
    &&& ring_below(pg.exterior.points@, t)
    &&& forall|h: int| 0 <= h < pg.interiors@.len() ==> ring_below(#[trigger] pg.interiors@[h].points@, t)
}

/// Every vertex of the polygon, holes included, lies on or above the
/// line `y == t`.
pub open spec fn polygon_at_or_above(pg: Polygon, t: int) -> bool {
    &&& ring_at_or_above(pg.exterior.points@, t)
    &&& forall|h: int| 0 <= h < pg.interiors@.len() ==> ring_at_or_above(#[trigger] pg.interiors@[h].points@, t)
}

/// The endpoints of a ring's edges are vertices of the ring.
proof fn lemma_ring_edge_ends(r: Seq<Point>, i: int)
    requires
        0 <= i < ring_edges(r).len(),
    ensures
        exists|k: int| 0 <= k < r.len() && r[k] == ring_edges(r)[i].0,
        exists|k: int| 0 <= k < r.len() && r[k] == ring_edges(r)[i].1,
{
    assert(r[i] == ring_edges(r)[i].0);
    if i + 1 < r.len() {
        assert(r[i + 1] == ring_edges(r)[i].1);
    } else {
        assert(r[0] == ring_edges(r)[i].1);
    }
}

/// Segments on either side of the line `y == t` do not meet.
proof fn lemma_segments_apart_in_y(p1: Point, p2: Point, p3: Point, p4: Point, t: int)
    requires
        p1.y < t,
        p2.y < t,
        p3.y >= t,
        p4.y >= t,
    ensures
        !segments_meet(p1, p2, p3, p4),
{
    lemma_segments_meet_iff_share_point(p1, p2, p3, p4);
    if segments_share_point(p1, p2, p3, p4) {
        let (d, s, t2) = choose|d: int, s: int, t2: int| #[trigger] meet_at(p1, p2, p3, p4, d, s, t2);
        assert(d * p1.y + s * (p2.y - p1.y) < d * t) by (nonlinear_arith)
            requires
                0 < d,
                0 <= s <= d,
                p1.y < t,
                p2.y < t,
        ;
        assert(d * p3.y + t2 * (p4.y - p3.y) >= d * t) by (nonlinear_arith)
            requires
                0 < d,
                0 <= t2 <= d,
                p3.y >= t,
                p4.y >= t,
        ;
    }
}

/// Rings on either side of the line `y == t` do not cross.
proof fn lemma_rings_apart_in_y(a: Seq<Point>, b: Seq<Point>, t: int)
    requires
        ring_below(a, t),
        ring_at_or_above(b, t),
    ensures
        !rings_cross(a, b),
{
    assert forall|i: int, j: int| 0 <= i < ring_edges(a).len() && 0 <= j < ring_edges(b).len() implies !#[trigger] segments_meet(
        ring_edges(a)[i].0,
        ring_edges(a)[i].1,
        ring_edges(b)[j].0,
        ring_edges(b)[j].1,
    ) by {
        lemma_ring_edge_ends(a, i);
        lemma_ring_edge_ends(b, j);
        let ka = choose|k: int| 0 <= k < a.len() && a[k] == ring_edges(a)[i].0;
        let kb = choose|k: int| 0 <= k < a.len() && a[k] == ring_edges(a)[i].1;
        let kc = choose|k: int| 0 <= k < b.len() && b[k] == ring_edges(b)[j].0;
        let kd = choose|k: int| 0 <= k < b.len() && b[k] == ring_edges(b)[j].1;
        assert(a[ka].y < t && a[kb].y < t && b[kc].y >= t && b[kd].y >= t);
        lemma_segments_apart_in_y(ring_edges(a)[i].0, ring_edges(a)[i].1, ring_edges(b)[j].0, ring_edges(b)[j].1, t);
    }
}

/// A ray that crosses none of the edges counts no crossing.
proof fn lemma_no_crossing(edges: Seq<(Point, Point)>, p: Point)
    requires
        forall|i: int| 0 <= i < edges.len() ==> !ray_crosses(#[trigger] edges[i].0, edges[i].1, p),
    ensures
        crossing_count(edges, p) == 0,
    decreases edges.len(),
{
    if edges.len() > 0 {
        assert(!ray_crosses(edges[edges.len() - 1].0, edges[edges.len() - 1].1, p));
        lemma_no_crossing(edges.drop_last(), p);
    }
}

/// A point off to one side of a ring in y (below every vertex, or at or
/// above every vertex) is neither on nor inside it.
proof fn lemma_point_off_ring_in_y(p: Point, r: Seq<Point>)
    requires
        (forall|k: int| 0 <= k < r.len() ==> p.y < (#[trigger] r[k]).y) || (forall|k: int|
            0 <= k < r.len() ==> p.y >= (#[trigger] r[k]).y + 1),
    ensures
        !on_ring(p, r),
        !inside_ring(p, r),
{
    let es = ring_edges(r);
    assert forall|i: int| 0 <= i < es.len() implies !ray_crosses(#[trigger] es[i].0, es[i].1, p) && !on_segment(p, es[i].0, es[i].1) by {
        lemma_ring_edge_ends(r, i);
        let k0 = choose|k: int| 0 <= k < r.len() && r[k] == es[i].0;
        let k1 = choose|k: int| 0 <= k < r.len() && r[k] == es[i].1;
        assert(r[k0] == es[i].0 && r[k1] == es[i].1);
    }
    lemma_no_crossing(es, p);
}

/// Polygons separated by a horizontal line, every vertex of one strictly
/// below it and every vertex of the other on or above it, do not
/// intersect, in either order.
pub proof fn lemma_polygons_apart_do_not_intersect(a: Polygon, b: Polygon, t: int)
    requires
        polygon_below(a, t),
        polygon_at_or_above(b, t),
    ensures
        !CartesianIntersects.spec_intersects(a, b),
        !CartesianIntersects.spec_intersects(b, a),
{
    let ea = a.exterior.points@;
    let eb = b.exterior.points@;
    lemma_rings_apart_in_y(ea, eb, t);
    assert forall|h: int| 0 <= h < a.interiors@.len() implies !rings_cross(#[trigger] a.interiors@[h].points@, eb) by {
        lemma_rings_apart_in_y(a.interiors@[h].points@, eb, t);
    }
    assert forall|h: int| 0 <= h < b.interiors@.len() implies !rings_cross(ea, #[trigger] b.interiors@[h].points@) by {
        lemma_rings_apart_in_y(ea, b.interiors@[h].points@, t);
    }
    if ea.len() > 0 {
        let p = ea[0];
        assert(p.y < t);
        lemma_point_off_ring_in_y(p, eb);
        assert forall|h: int| 0 <= h < b.interiors@.len() implies !on_ring(p, #[trigger] b.interiors@[h].points@) by {
            assert(ring_at_or_above(b.interiors@[h].points@, t));
            lemma_point_off_ring_in_y(p, b.interiors@[h].points@);
        }
        assert(!point_covered_by(p, b));
    }
    if eb.len() > 0 {
        let p = eb[0];
        assert(p.y >= t);
        lemma_point_off_ring_in_y(p, ea);
        assert forall|h: int| 0 <= h < a.interiors@.len() implies !on_ring(p, #[trigger] a.interiors@[h].points@) by {
            assert(ring_below(a.interiors@[h].points@, t));
            lemma_point_off_ring_in_y(p, a.interiors@[h].points@);
        }
        assert(!point_covered_by(p, a));
    }
    lemma_polygon_intersects_symmetric(a, b);
}

} // verus!
