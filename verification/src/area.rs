//! Cartesian shoelace area for rings, polygons, boxes and
//! multi-polygons.
//!
//! On integer coordinates twice the signed area is an integer, so the
//! strategies compute it exactly: [`AreaStrategy::doubled_area`] is the
//! trapezoidal sum of `(x_a + x_b) * (y_a - y_b)` over consecutive
//! vertices, with the implied closing edge of an open ring added. A ring
//! traversed in its declared order has positive area; the sum is negated
//! for a counter-clockwise declaration. A polygon sums its rings (holes,
//! wound against the exterior, subtract), a multi-polygon its polygons,
//! and a box is twice `(x_max - x_min) * (y_max - y_min)`.
//!
//! The sizes involved are bounded by what memory can hold: a geometry
//! has at most 2^60 vertices in all, which keeps every sum inside `i128`.

use vstd::prelude::*;

use crate::bounds::Bounds;
use crate::geometry::{CartesianFamily, Closure, MultiPolygon, Point, PointOrder, Polygon, Ring};

verus! {

/// The most vertices (counting one implied closing vertex per ring) a
/// geometry can hold: no allocation holds more.
pub const MAX_VERTICES: u64 = 0x1000_0000_0000_0000;

/// One trapezoidal term of the edge `a -> b`.
pub open spec fn edge_term(a: Point, b: Point) -> int {
    (a.x + b.x) * (a.y - b.y)
}

/// The trapezoidal sum over the consecutive vertex pairs of `pts`.
pub open spec fn chain_sum(pts: Seq<Point>) -> int
    decreases pts.len(),
{
    if pts.len() < 2 {
        0
    } else {
        chain_sum(pts.drop_last()) + edge_term(pts[pts.len() - 2], pts.last())
    }
}

/// The trapezoidal sum of a ring, closing edge included.
pub open spec fn ring_sum(r: Ring) -> int {
    chain_sum(r.points@) + (if r.closure == Closure::Open && r.points@.len() > 0 {
        edge_term(r.points@.last(), r.points@[0])
    } else {
        0
    })
}

/// Twice the signed area of a ring: positive when traversed in its
/// declared order.
pub open spec fn ring_doubled_area(r: Ring) -> int {
    if r.order == PointOrder::Clockwise {
        ring_sum(r)
    } else {
        -ring_sum(r)
    }
}

/// The summed doubled areas of some rings.
pub open spec fn rings_doubled_area(rs: Seq<Ring>) -> int
    decreases rs.len(),
{
    if rs.len() == 0 {
        0
    } else {
        rings_doubled_area(rs.drop_last()) + ring_doubled_area(rs.last())
    }
}

/// Twice the area of a polygon: its exterior plus its (oppositely
/// wound) holes.
pub open spec fn polygon_doubled_area(p: Polygon) -> int {
    ring_doubled_area(p.exterior) + rings_doubled_area(p.interiors@)
}

/// The summed doubled areas of some polygons.
pub open spec fn polygons_doubled_area(ps: Seq<Polygon>) -> int
    decreases ps.len(),
{
    if ps.len() == 0 {
        0
    } else {
        polygons_doubled_area(ps.drop_last()) + polygon_doubled_area(ps.last())
    }
}

/// Twice the area of a box, from its corners as given.
pub open spec fn box_doubled_area(b: Bounds) -> int {
    2 * ((b.hi(0) - b.lo(0)) * (b.hi(1) - b.lo(1)))
}

/// Vertices of some rings, one implied closing vertex each.
pub open spec fn rings_size(rs: Seq<Ring>) -> nat
    decreases rs.len(),
{
    if rs.len() == 0 {
        0
    } else {
        rings_size(rs.drop_last()) + rs.last().points@.len() + 1
    }
}

/// Vertices of a polygon, one implied closing vertex per ring.
pub open spec fn polygon_size(p: Polygon) -> nat {
    p.exterior.points@.len() + 1 + rings_size(p.interiors@)
}

/// Vertices of some polygons.
pub open spec fn polygons_size(ps: Seq<Polygon>) -> nat
    decreases ps.len(),
{
    if ps.len() == 0 {
        0
    } else {
        polygons_size(ps.drop_last()) + polygon_size(ps.last())
    }
}

/// The largest magnitude one edge term can have.
pub open spec fn term_bound() -> int {
    0x1_0000_0000_0000_0000
}

proof fn lemma_term_bound(a: Point, b: Point)
    ensures
        -term_bound() <= edge_term(a, b) <= term_bound(),
{
    let u = a.x + b.x;
    let v = a.y - b.y;
    assert(-term_bound() <= u * v <= term_bound()) by (nonlinear_arith)
        requires
            -0x1_0000_0000 <= u <= 0x1_0000_0000,
            -0x1_0000_0000 <= v <= 0x1_0000_0000,
    ;
}

proof fn lemma_chain_bound(pts: Seq<Point>)
    ensures
        -pts.len() * term_bound() <= chain_sum(pts) <= pts.len() * term_bound(),
    decreases pts.len(),
{
    if pts.len() >= 2 {
        lemma_chain_bound(pts.drop_last());
        lemma_term_bound(pts[pts.len() - 2], pts.last());
    }
}

proof fn lemma_ring_bound(r: Ring)
    ensures
        -(r.points@.len() + 1) * term_bound() <= ring_doubled_area(r) <= (r.points@.len() + 1) * term_bound(),
{
    lemma_chain_bound(r.points@);
    if r.points@.len() > 0 {
        lemma_term_bound(r.points@.last(), r.points@[0]);
    }
}

proof fn lemma_rings_bound(rs: Seq<Ring>)
    ensures
        -rings_size(rs) * term_bound() <= rings_doubled_area(rs) <= rings_size(rs) * term_bound(),
    decreases rs.len(),
{
    if rs.len() > 0 {
        lemma_rings_bound(rs.drop_last());
        lemma_ring_bound(rs.last());
    }
}

proof fn lemma_polygons_bound(ps: Seq<Polygon>)
    ensures
        -polygons_size(ps) * term_bound() <= polygons_doubled_area(ps) <= polygons_size(ps) * term_bound(),
    decreases ps.len(),
{
    if ps.len() > 0 {
        lemma_polygons_bound(ps.drop_last());
        lemma_ring_bound(ps.last().exterior);
        lemma_rings_bound(ps.last().interiors@);
    }
}

/// The exact value of one edge term.
fn edge_term_exec(a: &Point, b: &Point) -> (t: i128)
    ensures
        t == edge_term(*a, *b),
{
    let u = a.x as i128 + b.x as i128;
    let v = a.y as i128 - b.y as i128;
    proof {
        assert(-term_bound() <= u * v <= term_bound()) by (nonlinear_arith)
            requires
                -0x1_0000_0000 <= u <= 0x1_0000_0000,
                -0x1_0000_0000 <= v <= 0x1_0000_0000,
        ;
    }
    u * v
}

/// The trapezoidal sum of a ring, closing edge of an open ring included.
fn shoelace_accumulator(r: &Ring) -> (acc: i128)
    requires
        r.points@.len() + 1 <= MAX_VERTICES,
    ensures
        acc == ring_sum(*r),
{
    let pts = &r.points;
    if pts.len() == 0 {
        return 0;
    }
    let mut acc: i128 = 0;
    let mut i: usize = 1;
    while i < pts.len()
        invariant
            1 <= i <= pts@.len(),
            pts@.len() + 1 <= MAX_VERTICES,
            acc == chain_sum(pts@.subrange(0, i as int)),
        decreases pts@.len() - i,
    {
        let ghost prefix = pts@.subrange(0, i + 1);
        proof {
            assert(prefix.drop_last() =~= pts@.subrange(0, i as int));
            assert(prefix[prefix.len() - 2] == pts@[i - 1]);
            assert(prefix.last() == pts@[i as int]);
            lemma_chain_bound(prefix);
            assert(-(i + 1) * term_bound() <= chain_sum(prefix) <= (i + 1) * term_bound());
            assert((i + 1) * term_bound() <= MAX_VERTICES * term_bound()) by (nonlinear_arith)
                requires
                    i + 1 <= MAX_VERTICES,
            ;
        }
        let t = edge_term_exec(&pts[i - 1], &pts[i]);
        acc = acc + t;
        i = i + 1;
    }
    proof {
        assert(pts@.subrange(0, pts@.len() as int) =~= pts@);
        lemma_chain_bound(pts@);
        assert(pts@.len() * term_bound() <= MAX_VERTICES * term_bound()) by (nonlinear_arith)
            requires
                pts@.len() <= MAX_VERTICES,
        ;
    }
    if r.closure == Closure::Open && pts.len() > 0 {
        let t = edge_term_exec(&pts[pts.len() - 1], &pts[0]);
        proof {
            lemma_term_bound(pts@.last(), pts@[0]);
        }
        acc = acc + t;
    }
    acc
}

/// A strategy for the (doubled) area of one kind of geometry.
pub trait AreaStrategy<G> {
    /// Twice the signed area of `g`.
    spec fn spec_doubled_area(&self, g: G) -> int;

    /// Whether `g` is within the vertex budget of [`MAX_VERTICES`].
    spec fn spec_fits(&self, g: G) -> bool;

    /// Twice the signed area of `g`, exactly.
    fn doubled_area(&self, g: &G) -> (r: i128)
        requires
            self.spec_fits(*g),
        ensures
            r == self.spec_doubled_area(*g),
    ;
}

/// Shoelace area of a ring: positive when its vertices run in the
/// declared order, negative when they run against it.
#[derive(Debug, Default, Clone, Copy)]
pub struct ShoelaceArea;

/// Shoelace area of a polygon: the exterior plus the holes, which are
/// wound the other way and so subtract.
#[derive(Debug, Default, Clone, Copy)]
pub struct ShoelacePolygonArea;

/// Area of a box: `(x_max - x_min) * (y_max - y_min)`.
#[derive(Debug, Default, Clone, Copy)]
pub struct ShoelaceBoxArea;

/// Shoelace area of a multi-polygon: the sum over its polygons.
#[derive(Debug, Default, Clone, Copy)]
pub struct ShoelaceMultiPolygonArea;

impl AreaStrategy<Ring> for ShoelaceArea {
    open spec fn spec_doubled_area(&self, g: Ring) -> int {
        ring_doubled_area(g)
    }

    open spec fn spec_fits(&self, g: Ring) -> bool {
        g.points@.len() + 1 <= MAX_VERTICES
    }

    fn doubled_area(&self, g: &Ring) -> (r: i128) {
        let acc = shoelace_accumulator(g);
        proof {
            lemma_ring_bound(*g);
        }
        match g.order {
            PointOrder::Clockwise => acc,
            PointOrder::CounterClockwise => -acc,
        }
    }
}

impl AreaStrategy<Polygon> for ShoelacePolygonArea {
    open spec fn spec_doubled_area(&self, g: Polygon) -> int {
        polygon_doubled_area(g)
    }

    open spec fn spec_fits(&self, g: Polygon) -> bool {
        polygon_size(g) <= MAX_VERTICES
    }

    fn doubled_area(&self, g: &Polygon) -> (r: i128) {
        let holes = &g.interiors;
        proof {
            lemma_rings_bound(holes@);
            lemma_ring_bound(g.exterior);
        }
        let mut total = ShoelaceArea.doubled_area(&g.exterior);
        let mut i: usize = 0;
        proof {
            assert(holes@.subrange(0, 0) =~= Seq::<Ring>::empty());
        }
        while i < holes.len()
            invariant
                i <= holes@.len(),
                polygon_size(*g) <= MAX_VERTICES,
                *holes == g.interiors,
                total == ring_doubled_area(g.exterior) + rings_doubled_area(holes@.subrange(0, i as int)),
            decreases holes@.len() - i,
        {
            let ghost prefix = holes@.subrange(0, i + 1);
            proof {
                assert(prefix.drop_last() =~= holes@.subrange(0, i as int));
                assert(prefix.last() == holes@[i as int]);
                lemma_rings_bound(prefix);
                lemma_ring_bound(g.exterior);
                lemma_rings_size_prefix(holes@, i + 1);
                assert(rings_size(prefix) >= holes@[i as int].points@.len() + 1);
                assert((g.exterior.points@.len() + 1 + rings_size(prefix)) * term_bound() <= MAX_VERTICES * term_bound()) by (nonlinear_arith)
                    requires
                        g.exterior.points@.len() + 1 + rings_size(prefix) <= MAX_VERTICES,
                ;
            }
            let a = ShoelaceArea.doubled_area(&holes[i]);
            total = total + a;
            i = i + 1;
        }
        proof {
            assert(holes@.subrange(0, holes@.len() as int) =~= holes@);
        }
        total
    }
}

/// A prefix of some rings has no more vertices than all of them.
proof fn lemma_rings_size_prefix(rs: Seq<Ring>, n: int)
    requires
        0 <= n <= rs.len(),
    ensures
        rings_size(rs.subrange(0, n)) <= rings_size(rs),
    decreases rs.len(),
{
    if n < rs.len() {
        assert(rs.drop_last().subrange(0, n) =~= rs.subrange(0, n));
        lemma_rings_size_prefix(rs.drop_last(), n);
    } else {
        assert(rs.subrange(0, n) =~= rs);
    }
}

/// A prefix of some polygons has no more vertices than all of them.
proof fn lemma_polygons_size_prefix(ps: Seq<Polygon>, n: int)
    requires
        0 <= n <= ps.len(),
    ensures
        polygons_size(ps.subrange(0, n)) <= polygons_size(ps),
    decreases ps.len(),
{
    if n < ps.len() {
        assert(ps.drop_last().subrange(0, n) =~= ps.subrange(0, n));
        lemma_polygons_size_prefix(ps.drop_last(), n);
    } else {
        assert(ps.subrange(0, n) =~= ps);
    }
}

impl AreaStrategy<Bounds> for ShoelaceBoxArea {
    open spec fn spec_doubled_area(&self, g: Bounds) -> int {
        box_doubled_area(g)
    }

    open spec fn spec_fits(&self, g: Bounds) -> bool {
        true
    }

    fn doubled_area(&self, g: &Bounds) -> (r: i128) {
        let w = g.max[0] as i128 - g.min[0] as i128;
        let h = g.max[1] as i128 - g.min[1] as i128;
        proof {
            assert(-term_bound() <= w * h <= term_bound()) by (nonlinear_arith)
                requires
                    -0x1_0000_0000 <= w <= 0x1_0000_0000,
                    -0x1_0000_0000 <= h <= 0x1_0000_0000,
            ;
        }
        2 * (w * h)
    }
}

impl AreaStrategy<MultiPolygon> for ShoelaceMultiPolygonArea {
    open spec fn spec_doubled_area(&self, g: MultiPolygon) -> int {
        polygons_doubled_area(g.polygons@)
    }

    open spec fn spec_fits(&self, g: MultiPolygon) -> bool {
        polygons_size(g.polygons@) <= MAX_VERTICES
    }

    fn doubled_area(&self, g: &MultiPolygon) -> (r: i128) {
        let ps = &g.polygons;
        let mut total: i128 = 0;
        let mut i: usize = 0;
        proof {
            assert(ps@.subrange(0, 0) =~= Seq::<Polygon>::empty());
        }
        while i < ps.len()
            invariant
                i <= ps@.len(),
                polygons_size(ps@) <= MAX_VERTICES,
                total == polygons_doubled_area(ps@.subrange(0, i as int)),
            decreases ps@.len() - i,
        {
            let ghost prefix = ps@.subrange(0, i + 1);
            proof {
                assert(prefix.drop_last() =~= ps@.subrange(0, i as int));
                assert(prefix.last() == ps@[i as int]);
                lemma_polygons_bound(prefix);
                lemma_polygons_bound(prefix.drop_last());
                lemma_polygons_size_prefix(ps@, i + 1);
                assert(polygons_size(prefix) * term_bound() <= MAX_VERTICES * term_bound()) by (nonlinear_arith)
                    requires
                        polygons_size(prefix) <= MAX_VERTICES,
                ;
                assert(polygons_size(prefix.drop_last()) * term_bound() <= MAX_VERTICES * term_bound()) by (nonlinear_arith)
                    requires
                        polygons_size(prefix.drop_last()) <= MAX_VERTICES,
                ;
            }
            let a = ShoelacePolygonArea.doubled_area(&ps[i]);
            total = total + a;
            i = i + 1;
        }
        proof {
            assert(ps@.subrange(0, ps@.len() as int) =~= ps@);
        }
        total
    }
}

/// Which polygon area strategy a coordinate-system family uses by
/// default.
pub trait DefaultArea<Family> {
    /// The default polygon area strategy.
    type Strategy: Default;
}

impl DefaultArea<CartesianFamily> for CartesianFamily {
    type Strategy = ShoelacePolygonArea;
}

/// An open ring has the area of the closed ring that repeats its first
/// vertex at the end.
pub proof fn lemma_open_ring_area_matches_closed(open: Ring, closed: Ring)
    requires
        open.closure == Closure::Open,
        closed.closure == Closure::Closed,
        open.order == closed.order,
        open.points@.len() > 0,
        closed.points@ == open.points@.push(open.points@[0]),
    ensures
        ring_doubled_area(open) == ring_doubled_area(closed),
{
    let p = open.points@;
    assert(closed.points@.drop_last() =~= p);
}

/// Declaring a ring with the opposite orientation negates its area.
pub proof fn lemma_opposite_order_negates_area(r: Ring, s: Ring)
    requires
        r.points@ == s.points@,
        r.closure == s.closure,
        r.order != s.order,
    ensures
        ring_doubled_area(r) == -ring_doubled_area(s),
{
}

/// The area of a multi-polygon adds up the areas of its polygons, each
/// with its holes: with no polygons it is zero, and each further polygon
/// adds its own area.
pub proof fn lemma_multipolygon_area_adds_polygons(g: MultiPolygon, h: MultiPolygon)
    ensures
        g.polygons@.len() == 0 ==> ShoelaceMultiPolygonArea.spec_doubled_area(g) == 0,
        (g.polygons@.len() > 0 && h.polygons@ == g.polygons@.drop_last())
            ==> ShoelaceMultiPolygonArea.spec_doubled_area(g) == ShoelaceMultiPolygonArea.spec_doubled_area(h)
            + ShoelacePolygonArea.spec_doubled_area(g.polygons@.last()),
{
}

/// The area of a polygon is its exterior ring's area plus the areas of
/// its holes (wound opposite to the exterior, a hole subtracts): with no
/// holes it is the exterior's area, and each further hole adds its own.
pub proof fn lemma_polygon_area_adds_holes(p: Polygon, q: Polygon)
    ensures
        p.interiors@.len() == 0 ==> ShoelacePolygonArea.spec_doubled_area(p) == ShoelaceArea.spec_doubled_area(p.exterior),
        (p.interiors@.len() > 0 && q.exterior == p.exterior && q.interiors@ == p.interiors@.drop_last())
            ==> ShoelacePolygonArea.spec_doubled_area(p) == ShoelacePolygonArea.spec_doubled_area(q)
            + ShoelaceArea.spec_doubled_area(p.interiors@.last()),
{
}

} // verus!
