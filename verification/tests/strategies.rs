use geometry_rtree::bounds::Bounds;
use geometry_rtree::disjoint::{CartesianDisjoint, DisjointStrategy};
use geometry_rtree::distance::{ComparablePythagoras, DistanceStrategy, Reversed};
use geometry_rtree::envelope::{
    EnvelopeBox, EnvelopeLinestring, EnvelopePoint, EnvelopePolygon, EnvelopeSegment,
    EnvelopeStrategy, envelope_of_points, grow_from_point, seed_from_point,
};
use geometry_rtree::geometry::{Closure, Linestring, Point, PointOrder, Polygon, Ring, Segment};
use geometry_rtree::intersects::{CartesianIntersects, IntersectsStrategy, IxPointPoint, segments_intersect};

fn pt(x: i32, y: i32) -> Point {
    Point::new(x, y)
}

fn linestring(points: &[(i32, i32)]) -> Linestring {
    Linestring { points: points.iter().map(|&(x, y)| pt(x, y)).collect() }
}

fn polygon(points: &[(i32, i32)]) -> Polygon {
    Polygon {
        exterior: Ring {
            points: points.iter().map(|&(x, y)| pt(x, y)).collect(),
            order: PointOrder::Clockwise,
            closure: Closure::Closed,
        },
        interiors: Vec::new(),
    }
}

fn assert_2d(b: &Bounds, xmin: i32, xmax: i32, ymin: i32, ymax: i32) {
    assert_eq!(b.min[0], xmin);
    assert_eq!(b.min[1], ymin);
    assert_eq!(b.max[0], xmax);
    assert_eq!(b.max[1], ymax);
}

fn square_10() -> Polygon {
    polygon(&[(0, 0), (10, 0), (10, 10), (0, 10), (0, 0)])
}

#[test]
fn point_envelope_collapses() {
    assert_2d(&EnvelopePoint.envelope(&pt(1, 1)), 1, 1, 1, 1);
}

#[test]
fn linestring_two_points() {
    let ls = linestring(&[(1, 1), (2, 2)]);
    assert_2d(&EnvelopeLinestring.envelope(&ls), 1, 2, 1, 2);
}

#[test]
fn polygon_axis_aligned_square() {
    let p = polygon(&[(1, 1), (1, 3), (3, 3), (3, 1), (1, 1)]);
    assert_2d(&EnvelopePolygon.envelope(&p), 1, 3, 1, 3);
}

#[test]
fn box_envelope_is_self() {
    let b = Bounds::new([1, 1], [3, 3]);
    assert_2d(&EnvelopeBox.envelope(&b), 1, 3, 1, 3);
}

#[test]
fn ring_non_convex() {
    let p = polygon(&[(4, 1), (0, 7), (7, 9), (4, 1)]);
    assert_2d(&EnvelopePolygon.envelope(&p), 0, 7, 1, 9);
}

#[test]
fn segment_envelope() {
    let s = Segment::new(pt(1, 1), pt(3, 3));
    assert_2d(&EnvelopeSegment.envelope(&s), 1, 3, 1, 3);
}

#[test]
fn segment_envelope_crossed() {
    let s = Segment::new(pt(3, 1), pt(1, 3));
    assert_2d(&EnvelopeSegment.envelope(&s), 1, 3, 1, 3);
}

#[test]
fn ls_crosses_segment() {
    let ls = linestring(&[(1, 1), (3, 3), (2, 5)]);
    let s = Segment::new(pt(2, 0), pt(2, 6));
    assert!(CartesianIntersects.intersects(&ls, &s));
}

#[test]
fn ls_touches_segment_endpoint() {
    let ls = linestring(&[(1, 1), (3, 3)]);
    let s = Segment::new(pt(1, 0), pt(1, 1));
    assert!(CartesianIntersects.intersects(&ls, &s));
}

#[test]
fn ls_disjoint_from_segment() {
    let ls = linestring(&[(1, 1), (3, 3)]);
    let s = Segment::new(pt(3, 0), pt(4, 1));
    assert!(!CartesianIntersects.intersects(&ls, &s));
}

#[test]
fn ls_crosses_ls() {
    let a = linestring(&[(0, 0), (2, 0), (3, 0)]);
    let b = linestring(&[(0, 0), (1, 1), (2, 2)]);
    assert!(CartesianIntersects.intersects(&a, &b));
}

#[test]
fn ls_overlap_collinear() {
    let a = linestring(&[(0, 0), (2, 0), (3, 0)]);
    let b = linestring(&[(1, 0), (4, 0), (5, 0)]);
    assert!(CartesianIntersects.intersects(&a, &b));
}

#[test]
fn ls_inside_polygon() {
    let ls = linestring(&[(1, 1), (2, 2)]);
    assert!(CartesianIntersects.intersects(&ls, &square_10()));
}

#[test]
fn ls_outside_polygon() {
    let ls = linestring(&[(11, 0), (12, 12)]);
    assert!(!CartesianIntersects.intersects(&ls, &square_10()));
}

#[test]
fn reversed_pair_compiles_and_agrees() {
    let ls = linestring(&[(1, 1), (2, 2)]);
    let p = square_10();
    let forward = CartesianIntersects.intersects(&ls, &p);
    let reversed = Reversed(CartesianIntersects).intersects(&p, &ls);
    assert_eq!(forward, reversed);
}

fn accepts_point_pair<S: IntersectsStrategy<Point, Point>>(s: &S, a: &Point, b: &Point) -> bool {
    s.intersects(a, b)
}

#[test]
fn readonly_point_witness_computes_equality() {
    assert!(accepts_point_pair(&IxPointPoint, &pt(1, 1), &pt(1, 1)));
    assert!(!accepts_point_pair(&IxPointPoint, &pt(1, 1), &pt(2, 2)));
}

#[test]
fn linestrings_disjoint_when_apart() {
    let a = linestring(&[(0, 0), (2, 0)]);
    let b = linestring(&[(10, 10), (11, 11)]);
    assert!(CartesianDisjoint.disjoint(&a, &b));
}

#[test]
fn linestrings_not_disjoint_when_crossing() {
    let a = linestring(&[(0, 0), (2, 0)]);
    let b = linestring(&[(1, -1), (1, 1)]);
    assert!(!CartesianDisjoint.disjoint(&a, &b));
}

#[test]
fn comparable_orders_match_real_distance() {
    let o = pt(0, 0);
    let c25 = ComparablePythagoras.distance(&o, &pt(3, 4));
    let c50 = ComparablePythagoras.distance(&o, &pt(5, 5));
    assert_eq!(c25, 25);
    assert_eq!(c50, 50);
    assert!(c25 < c50);
}

#[test]
fn comparable_of_comparable_is_itself() {
    let cmp = DistanceStrategy::<Point, Point>::comparable(&ComparablePythagoras);
    assert_eq!(cmp.distance(&pt(0, 0), &pt(3, 4)), 25);
}

#[test]
fn reversed_distance_swaps_arguments() {
    let a = pt(1, 2);
    let b = pt(-4, 7);
    assert_eq!(Reversed(ComparablePythagoras).distance(&b, &a), ComparablePythagoras.distance(&a, &b));
    assert_eq!(ComparablePythagoras.distance(&a, &b), ComparablePythagoras.distance(&b, &a));
    assert_eq!(ComparablePythagoras.distance(&a, &b), 50);
}

#[test]
fn extreme_points_stay_exact() {
    let a = pt(i32::MIN, i32::MIN);
    let b = pt(i32::MAX, i32::MAX);
    let side = (i32::MAX as i128) - (i32::MIN as i128);
    assert_eq!(ComparablePythagoras.distance(&a, &b), 2 * side * side);
}

fn accepts_strategy<A, B, S: DistanceStrategy<A, B>>() {}

fn reversed_witness<A, B, S: DistanceStrategy<A, B>>()
where
    Reversed<S>: DistanceStrategy<B, A>,
{
}

fn double_reversed_witness<A, B, S: DistanceStrategy<A, B>>()
where
    Reversed<Reversed<S>>: DistanceStrategy<A, B>,
{
}

#[test]
fn witnesses_resolve_for_pythagoras_over_cartesian_points() {
    accepts_strategy::<Point, Point, ComparablePythagoras>();
    reversed_witness::<Point, Point, ComparablePythagoras>();
    double_reversed_witness::<Point, Point, ComparablePythagoras>();
}

#[test]
fn reversed_swaps_arguments_and_forwards_comparable() {
    let a = pt(0, 0);
    let b = pt(3, 4);
    let forward = ComparablePythagoras.distance(&a, &b);
    let reversed = Reversed(ComparablePythagoras).distance(&b, &a);
    assert_eq!(forward, reversed);
    let rev = Reversed(ComparablePythagoras);
    let cmp = DistanceStrategy::<Point, Point>::comparable(&rev);
    let cmp_val = cmp.distance(&b, &a);
    assert_eq!(cmp_val, ComparablePythagoras.distance(&a, &b));
    assert_eq!(cmp_val, 25);
}

#[test]
fn seed_then_grow_builds_the_envelope_of_points() {
    let mut b = Bounds::new([9, 9], [9, 9]);
    seed_from_point(&mut b, &Point::new(3, -2));
    assert_eq!((b.min, b.max), ([3, -2], [3, -2]));
    grow_from_point(&mut b, &Point::new(-1, 4));
    assert_eq!((b.min, b.max), ([-1, -2], [3, 4]));
    grow_from_point(&mut b, &Point::new(0, 0));
    assert_eq!((b.min, b.max), ([-1, -2], [3, 4]));
    let e = envelope_of_points(&vec![Point::new(3, -2), Point::new(-1, 4), Point::new(0, 0)]);
    assert_eq!((e.min, e.max), ([-1, -2], [3, 4]));
    let empty = envelope_of_points(&Vec::new());
    assert_eq!((empty.min, empty.max), ([0, 0], [0, 0]));
}

#[test]
fn closed_segments_intersect_exactly_when_they_share_a_point() {
    // A proper crossing at (1, 1).
    assert!(segments_intersect(&pt(0, 0), &pt(2, 2), &pt(0, 2), &pt(2, 0)));
    // The crossing point (2/3, 2/3) is not an integer point.
    assert!(segments_intersect(&pt(0, 0), &pt(2, 2), &pt(0, 1), &pt(2, 0)));
    // An endpoint touching the other segment.
    assert!(segments_intersect(&pt(0, 0), &pt(2, 0), &pt(1, 0), &pt(1, 5)));
    // Collinear and overlapping, neither endpoint shared.
    assert!(segments_intersect(&pt(0, 0), &pt(4, 0), &pt(2, 0), &pt(6, 0)));
    // A degenerate segment lying on the other.
    assert!(segments_intersect(&pt(1, 1), &pt(1, 1), &pt(0, 0), &pt(3, 3)));
    // Collinear but apart.
    assert!(!segments_intersect(&pt(0, 0), &pt(1, 0), &pt(2, 0), &pt(3, 0)));
    // Parallel, one unit apart.
    assert!(!segments_intersect(&pt(0, 0), &pt(4, 0), &pt(0, 1), &pt(4, 1)));
    // The lines cross at (3, 3), outside the first segment.
    assert!(!segments_intersect(&pt(0, 0), &pt(2, 2), &pt(6, 0), &pt(0, 6)));
    // Swapping the segments gives the same answer.
    assert_eq!(
        segments_intersect(&pt(0, 0), &pt(2, 2), &pt(0, 1), &pt(2, 0)),
        segments_intersect(&pt(0, 1), &pt(2, 0), &pt(0, 0), &pt(2, 2))
    );
}
