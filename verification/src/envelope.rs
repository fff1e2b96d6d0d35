//! Envelope strategies: the axis-aligned bounding box of a geometry.
//!
//! The envelope of a set of points is the tightest box containing them
//! all; a geometry with no points gets the box at the origin.

use vstd::prelude::*;

use crate::bounds::{Bounds, lemma_union_all_tight, spec_union_all, tight_around_boxes};
use crate::geometry::{
    BoxTag, Linestring, LinestringTag, MultiLinestring, MultiLinestringTag, MultiPoint,
    MultiPointTag, MultiPolygon, MultiPolygonTag, Point, PointTag, Polygon, PolygonTag, Ring,
    RingTag, Segment, SegmentTag,
};

verus! {

/// The degenerate box of one point.
pub open spec fn point_box(p: Point) -> Bounds {
    Bounds { min: [p.x, p.y], max: [p.x, p.y] }
}

/// The box at the origin, the envelope of an empty geometry.
pub open spec fn origin_box() -> Bounds {
    Bounds { min: [0i32, 0i32], max: [0i32, 0i32] }
}

/// The envelope of a sequence of points: the tightest box around them,
/// or the origin box when there are none.
pub open spec fn points_envelope(ps: Seq<Point>) -> Bounds {
    if ps.len() == 0 {
        origin_box()
    } else {
        spec_union_all(ps.map_values(|p: Point| point_box(p)))
    }
}

/// The points of a run of linestrings, one after another.
pub open spec fn linestring_points(ls: Seq<Linestring>) -> Seq<Point>
    decreases ls.len(),
{
    if ls.len() == 0 {
        Seq::empty()
    } else {
        linestring_points(ls.drop_last()) + ls.last().points@
    }
}

/// The exterior points of a run of polygons, one after another.
pub open spec fn exterior_points(ps: Seq<Polygon>) -> Seq<Point>
    decreases ps.len(),
{
    if ps.len() == 0 {
        Seq::empty()
    } else {
        exterior_points(ps.drop_last()) + ps.last().exterior.points@
    }
}

/// `(i, j)` names an exterior vertex of a polygon of `ps`: the `j`-th
/// exterior point of the `i`-th polygon.
pub open spec fn has_vertex(ps: Seq<Polygon>, i: int, j: int) -> bool {
    0 <= i < ps.len() && 0 <= j < ps[i].exterior.points@.len()
}

/// `p` is an exterior vertex of some polygon of `ps`.
pub open spec fn is_vertex_of(ps: Seq<Polygon>, p: Point) -> bool {
    exists|i: int, j: int| #[trigger] has_vertex(ps, i, j) && ps[i].exterior.points@[j] == p
}

/// The exterior points of a run of polygons are exactly their exterior
/// vertices.
proof fn lemma_exterior_points_are_vertices(ps: Seq<Polygon>)
    ensures
        forall|i: int, j: int| #[trigger] has_vertex(ps, i, j) ==> exists|k: int|
            0 <= k < exterior_points(ps).len() && exterior_points(ps)[k] == ps[i].exterior.points@[j],
        forall|k: int| 0 <= k < exterior_points(ps).len() ==> is_vertex_of(ps, #[trigger] exterior_points(ps)[k]),
    decreases ps.len(),
{
    if ps.len() > 0 {
        let init = ps.drop_last();
        let last = ps.last();
        let e0 = exterior_points(init);
        let e = exterior_points(ps);
        lemma_exterior_points_are_vertices(init);
        assert(e == e0 + last.exterior.points@);
        assert forall|i: int, j: int| #[trigger] has_vertex(ps, i, j) implies exists|k: int|
            0 <= k < e.len() && e[k] == ps[i].exterior.points@[j] by {
            if i < ps.len() - 1 {
                assert(has_vertex(init, i, j));
                let k = choose|k: int| 0 <= k < e0.len() && e0[k] == init[i].exterior.points@[j];
                assert(e[k] == e0[k]);
            } else {
                let k = e0.len() + j;
                assert(e[k] == last.exterior.points@[j]);
            }
        }
        assert forall|k: int| 0 <= k < e.len() implies is_vertex_of(ps, #[trigger] e[k]) by {
            if k < e0.len() {
                let (i, j) = choose|i: int, j: int| #[trigger] has_vertex(init, i, j) && e0[k] == init[i].exterior.points@[j];
                assert(e[k] == e0[k]);
                assert(init[i] == ps[i]);
                assert(has_vertex(ps, i, j));
            } else {
                let j = k - e0.len();
                assert(e[k] == last.exterior.points@[j]);
                assert(has_vertex(ps, ps.len() - 1, j));
            }
        }
    } else {
        assert(exterior_points(ps).len() == 0);
    }
}

/// The envelope of some points contains each of them, and each of its
/// sides passes through one of them.
proof fn lemma_points_envelope_tight(ps: Seq<Point>)
    requires
        ps.len() > 0,
    ensures
        forall|k: int| 0 <= k < ps.len() ==> points_envelope(ps).spec_contains(point_box(#[trigger] ps[k])),
        exists|k: int| 0 <= k < ps.len() && #[trigger] ps[k].x == points_envelope(ps).lo(0),
        exists|k: int| 0 <= k < ps.len() && #[trigger] ps[k].y == points_envelope(ps).lo(1),
        exists|k: int| 0 <= k < ps.len() && #[trigger] ps[k].x == points_envelope(ps).hi(0),
        exists|k: int| 0 <= k < ps.len() && #[trigger] ps[k].y == points_envelope(ps).hi(1),
{
    let boxes = ps.map_values(|p: Point| point_box(p));
    lemma_union_all_tight(boxes);
    let b = points_envelope(ps);
    assert forall|k: int| 0 <= k < ps.len() implies b.spec_contains(point_box(#[trigger] ps[k])) by {
        assert(boxes[k] == point_box(ps[k]));
    }
    let k0 = choose|i: int| 0 <= i < boxes.len() && #[trigger] boxes[i].lo(0) == b.lo(0);
    assert(boxes[k0] == point_box(ps[k0]));
    let k1 = choose|i: int| 0 <= i < boxes.len() && #[trigger] boxes[i].lo(1) == b.lo(1);
    assert(boxes[k1] == point_box(ps[k1]));
    let k2 = choose|i: int| 0 <= i < boxes.len() && #[trigger] boxes[i].hi(0) == b.hi(0);
    assert(boxes[k2] == point_box(ps[k2]));
    let k3 = choose|i: int| 0 <= i < boxes.len() && #[trigger] boxes[i].hi(1) == b.hi(1);
    assert(boxes[k3] == point_box(ps[k3]));
}

/// The envelope of a multi-polygon is the tightest box around the
/// exterior vertices of all its polygons: it contains every one of them,
/// and each of its sides passes through one; with no vertex at all it is
/// the origin box.
pub proof fn lemma_multipolygon_envelope_encloses(g: MultiPolygon)
    ensures
        forall|i: int, j: int| #[trigger] has_vertex(g.polygons@, i, j) ==> EnvelopeMultiPolygon.spec_envelope(g).spec_contains(
            point_box(g.polygons@[i].exterior.points@[j]),
        ),
        (exists|i: int, j: int| #[trigger] has_vertex(g.polygons@, i, j)) ==> {
            let b = EnvelopeMultiPolygon.spec_envelope(g);
            &&& exists|i: int, j: int| #[trigger] has_vertex(g.polygons@, i, j) && g.polygons@[i].exterior.points@[j].x == b.lo(0)
            &&& exists|i: int, j: int| #[trigger] has_vertex(g.polygons@, i, j) && g.polygons@[i].exterior.points@[j].y == b.lo(1)
            &&& exists|i: int, j: int| #[trigger] has_vertex(g.polygons@, i, j) && g.polygons@[i].exterior.points@[j].x == b.hi(0)
            &&& exists|i: int, j: int| #[trigger] has_vertex(g.polygons@, i, j) && g.polygons@[i].exterior.points@[j].y == b.hi(1)
        },
        (forall|i: int, j: int| !#[trigger] has_vertex(g.polygons@, i, j)) ==> EnvelopeMultiPolygon.spec_envelope(g) == origin_box(),
{
    let ps = g.polygons@;
    let e = exterior_points(ps);
    let b = EnvelopeMultiPolygon.spec_envelope(g);
    lemma_exterior_points_are_vertices(ps);
    if e.len() > 0 {
        lemma_points_envelope_tight(e);
        assert forall|i: int, j: int| #[trigger] has_vertex(ps, i, j) implies b.spec_contains(point_box(ps[i].exterior.points@[j])) by {
            let k = choose|k: int| 0 <= k < e.len() && e[k] == ps[i].exterior.points@[j];
            assert(b.spec_contains(point_box(e[k])));
        }
        let k0 = choose|k: int| 0 <= k < e.len() && #[trigger] e[k].x == b.lo(0);
        let (i0, j0) = choose|i: int, j: int| #[trigger] has_vertex(ps, i, j) && e[k0] == ps[i].exterior.points@[j];
        let k1 = choose|k: int| 0 <= k < e.len() && #[trigger] e[k].y == b.lo(1);
        let (i1, j1) = choose|i: int, j: int| #[trigger] has_vertex(ps, i, j) && e[k1] == ps[i].exterior.points@[j];
        let k2 = choose|k: int| 0 <= k < e.len() && #[trigger] e[k].x == b.hi(0);
        let (i2, j2) = choose|i: int, j: int| #[trigger] has_vertex(ps, i, j) && e[k2] == ps[i].exterior.points@[j];
        let k3 = choose|k: int| 0 <= k < e.len() && #[trigger] e[k].y == b.hi(1);
        let (i3, j3) = choose|i: int, j: int| #[trigger] has_vertex(ps, i, j) && e[k3] == ps[i].exterior.points@[j];
    } else {
        assert forall|i: int, j: int| !#[trigger] has_vertex(ps, i, j) by {
            if has_vertex(ps, i, j) {
                let k = choose|k: int| 0 <= k < e.len() && e[k] == ps[i].exterior.points@[j];
            }
        }
    }
}

/// A strategy computing the axis-aligned bounding box of a geometry.
pub trait EnvelopeStrategy<G> {
    /// The envelope of `g`.
    spec fn spec_envelope(&self, g: G) -> Bounds;

    /// Compute the envelope of `g`.
    fn envelope(&self, g: &G) -> (b: Bounds)
        ensures
            b == self.spec_envelope(*g),
    ;
}

/// Envelope of a point.
#[derive(Debug, Default, Clone, Copy)]
pub struct EnvelopePoint;

/// Envelope of a linestring.
#[derive(Debug, Default, Clone, Copy)]
pub struct EnvelopeLinestring;

/// Envelope of a ring.
#[derive(Debug, Default, Clone, Copy)]
pub struct EnvelopeRing;

/// Envelope of a polygon: its exterior ring's envelope.
#[derive(Debug, Default, Clone, Copy)]
pub struct EnvelopePolygon;

/// Envelope of a segment.
#[derive(Debug, Default, Clone, Copy)]
pub struct EnvelopeSegment;

/// Envelope of a box: the box spanned by its two corners.
#[derive(Debug, Default, Clone, Copy)]
pub struct EnvelopeBox;

/// Envelope of a multi-point.
#[derive(Debug, Default, Clone, Copy)]
pub struct EnvelopeMultiPoint;

/// Envelope of a multi-linestring: over every point of every linestring.
#[derive(Debug, Default, Clone, Copy)]
pub struct EnvelopeMultiLinestring;

/// Envelope of a multi-polygon: over every exterior point.
#[derive(Debug, Default, Clone, Copy)]
pub struct EnvelopeMultiPolygon;

/// Reset `out` to the degenerate box at `p`.
pub fn seed_from_point(out: &mut Bounds, p: &Point)
    ensures
        *final(out) == point_box(*p),
{
    *out = Bounds { min: [p.x, p.y], max: [p.x, p.y] };
}

/// Grow `out` just enough to cover `p`: a bound moves out to the point's
/// coordinate where the point lies beyond it.
pub fn grow_from_point(out: &mut Bounds, p: &Point)
    ensures
        *final(out) == old(out).spec_union(point_box(*p)),
{
    let grown = out.union(&Bounds { min: [p.x, p.y], max: [p.x, p.y] });
    *out = grown;
}

/// The envelope of a run of points: seeded at the first point and grown
/// over the rest. A non-empty run's envelope is the tightest box around
/// them.
pub fn envelope_of_points(points: &Vec<Point>) -> (b: Bounds)
    ensures
        b == points_envelope(points@),
        points@.len() > 0 ==> tight_around_boxes(b, points@.map_values(|p: Point| point_box(p))),
{
    let mut out = Bounds { min: [0, 0], max: [0, 0] };
    if points.len() == 0 {
        return out;
    }
    let ghost boxes = points@.map_values(|p: Point| point_box(p));
    seed_from_point(&mut out, &points[0]);
    let mut i: usize = 1;
    proof {
        assert(boxes.subrange(0, 1).len() == 1);
        assert(boxes.subrange(0, 1)[0] == boxes[0]);
    }
    while i < points.len()
        invariant
            1 <= i <= points@.len(),
            boxes == points@.map_values(|p: Point| point_box(p)),
            out == spec_union_all(boxes.subrange(0, i as int)),
        decreases points@.len() - i,
    {
        let ghost prev = boxes.subrange(0, i as int);
        grow_from_point(&mut out, &points[i]);
        i = i + 1;
        proof {
            let cur = boxes.subrange(0, i as int);
            assert(cur.drop_last() =~= prev);
            assert(cur.last() == boxes[i - 1]);
        }
    }
    proof {
        assert(boxes.subrange(0, boxes.len() as int) =~= boxes);
        lemma_union_all_tight(boxes);
    }
    out
}

/// Append every point of `from` to `to`.
fn append_points(to: &mut Vec<Point>, from: &Vec<Point>)
    ensures
        final(to)@ == old(to)@ + from@,
{
    let mut i: usize = 0;
    while i < from.len()
        invariant
            i <= from@.len(),
            to@ =~= old(to)@ + from@.take(i as int),
        decreases from@.len() - i,
    {
        to.push(from[i]);
        i = i + 1;
    }
    proof {
        assert(from@.take(from@.len() as int) =~= from@);
    }
}

impl EnvelopeStrategy<Point> for EnvelopePoint {
    open spec fn spec_envelope(&self, g: Point) -> Bounds {
        point_box(g)
    }

    fn envelope(&self, g: &Point) -> (b: Bounds) {
        Bounds { min: [g.x, g.y], max: [g.x, g.y] }
    }
}

impl EnvelopeStrategy<Linestring> for EnvelopeLinestring {
    open spec fn spec_envelope(&self, g: Linestring) -> Bounds {
        points_envelope(g.points@)
    }

    fn envelope(&self, g: &Linestring) -> (b: Bounds) {
        envelope_of_points(&g.points)
    }
}

impl EnvelopeStrategy<Ring> for EnvelopeRing {
    open spec fn spec_envelope(&self, g: Ring) -> Bounds {
        points_envelope(g.points@)
    }

    fn envelope(&self, g: &Ring) -> (b: Bounds) {
        envelope_of_points(&g.points)
    }
}

impl EnvelopeStrategy<Polygon> for EnvelopePolygon {
    open spec fn spec_envelope(&self, g: Polygon) -> Bounds {
        points_envelope(g.exterior.points@)
    }

    fn envelope(&self, g: &Polygon) -> (b: Bounds) {
        envelope_of_points(&g.exterior.points)
    }
}

impl EnvelopeStrategy<Segment> for EnvelopeSegment {
    open spec fn spec_envelope(&self, g: Segment) -> Bounds {
        points_envelope(seq![g.start, g.end])
    }

    fn envelope(&self, g: &Segment) -> (b: Bounds) {
        let mut ends: Vec<Point> = Vec::new();
        ends.push(g.start);
        ends.push(g.end);
        proof {
            assert(ends@ =~= seq![g.start, g.end]);
        }
        envelope_of_points(&ends)
    }
}

impl EnvelopeStrategy<Bounds> for EnvelopeBox {
    open spec fn spec_envelope(&self, g: Bounds) -> Bounds {
        points_envelope(seq![Point { x: g.min[0], y: g.min[1] }, Point { x: g.max[0], y: g.max[1] }])
    }

    fn envelope(&self, g: &Bounds) -> (b: Bounds) {
        let mut corners: Vec<Point> = Vec::new();
        corners.push(Point { x: g.min[0], y: g.min[1] });
        corners.push(Point { x: g.max[0], y: g.max[1] });
        proof {
            assert(corners@ =~= seq![Point { x: g.min[0], y: g.min[1] }, Point { x: g.max[0], y: g.max[1] }]);
        }
        envelope_of_points(&corners)
    }
}

impl EnvelopeStrategy<MultiPoint> for EnvelopeMultiPoint {
    open spec fn spec_envelope(&self, g: MultiPoint) -> Bounds {
        points_envelope(g.points@)
    }

    fn envelope(&self, g: &MultiPoint) -> (b: Bounds) {
        envelope_of_points(&g.points)
    }
}

impl EnvelopeStrategy<MultiLinestring> for EnvelopeMultiLinestring {
    open spec fn spec_envelope(&self, g: MultiLinestring) -> Bounds {
        points_envelope(linestring_points(g.linestrings@))
    }

    fn envelope(&self, g: &MultiLinestring) -> (b: Bounds) {
        let mut all: Vec<Point> = Vec::new();
        let mut i: usize = 0;
        while i < g.linestrings.len()
            invariant
                i <= g.linestrings@.len(),
                all@ == linestring_points(g.linestrings@.take(i as int)),
            decreases g.linestrings@.len() - i,
        {
            append_points(&mut all, &g.linestrings[i].points);
            proof {
                assert(g.linestrings@.take(i + 1).drop_last() =~= g.linestrings@.take(i as int));
            }
            i = i + 1;
        }
        proof {
            assert(g.linestrings@.take(g.linestrings@.len() as int) =~= g.linestrings@);
        }
        envelope_of_points(&all)
    }
}

impl EnvelopeStrategy<MultiPolygon> for EnvelopeMultiPolygon {
    open spec fn spec_envelope(&self, g: MultiPolygon) -> Bounds {
        points_envelope(exterior_points(g.polygons@))
    }

    fn envelope(&self, g: &MultiPolygon) -> (b: Bounds) {
        let mut all: Vec<Point> = Vec::new();
        let mut i: usize = 0;
        while i < g.polygons.len()
            invariant
                i <= g.polygons@.len(),
                all@ == exterior_points(g.polygons@.take(i as int)),
            decreases g.polygons@.len() - i,
        {
            append_points(&mut all, &g.polygons[i].exterior.points);
            proof {
                assert(g.polygons@.take(i + 1).drop_last() =~= g.polygons@.take(i as int));
            }
            i = i + 1;
        }
        proof {
            assert(g.polygons@.take(g.polygons@.len() as int) =~= g.polygons@);
        }
        envelope_of_points(&all)
    }
}

/// Picks the envelope strategy for a geometry kind.
pub trait EnvelopeStrategyForKind {
    /// The strategy for this kind.
    type S;
}

impl EnvelopeStrategyForKind for PointTag {
    type S = EnvelopePoint;
}

impl EnvelopeStrategyForKind for LinestringTag {
    type S = EnvelopeLinestring;
}

impl EnvelopeStrategyForKind for RingTag {
    type S = EnvelopeRing;
}

impl EnvelopeStrategyForKind for PolygonTag {
    type S = EnvelopePolygon;
}

impl EnvelopeStrategyForKind for SegmentTag {
    type S = EnvelopeSegment;
}

impl EnvelopeStrategyForKind for BoxTag {
    type S = EnvelopeBox;
}

impl EnvelopeStrategyForKind for MultiPointTag {
    type S = EnvelopeMultiPoint;
}

impl EnvelopeStrategyForKind for MultiLinestringTag {
    type S = EnvelopeMultiLinestring;
}

impl EnvelopeStrategyForKind for MultiPolygonTag {
    type S = EnvelopeMultiPolygon;
}

} // verus!
