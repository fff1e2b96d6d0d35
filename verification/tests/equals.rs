use geometry_rtree::equals::{
    rings_equal, EqPointPoint, EqPolygonPolygon, EqSegmentSegment, EqualsStrategy,
};
use geometry_rtree::geometry::{Closure, Point, PointOrder, Polygon, Ring, Segment};

fn pt(x: i32, y: i32) -> Point {
    Point::new(x, y)
}

fn ring(points: &[(i32, i32)]) -> Ring {
    Ring {
        points: points.iter().map(|&(x, y)| pt(x, y)).collect(),
        order: PointOrder::Clockwise,
        closure: Closure::Closed,
    }
}

fn polygon(points: &[(i32, i32)]) -> Polygon {
    Polygon { exterior: ring(points), interiors: Vec::new() }
}

fn accepts_point_pair<S: EqualsStrategy<Point, Point>>(s: &S, a: &Point, b: &Point) -> bool {
    s.equals(a, b)
}

#[test]
fn equals_same_point() {
    assert!(EqPointPoint.equals(&pt(1, 2), &pt(1, 2)));
    assert!(!EqPointPoint.equals(&pt(1, 2), &pt(1, 3)));
}

#[test]
fn equals_segment_either_direction() {
    let a = Segment::new(pt(0, 0), pt(1, 1));
    let b = Segment::new(pt(1, 1), pt(0, 0));
    assert!(EqSegmentSegment.equals(&a, &b));
    let c = Segment::new(pt(0, 0), pt(1, 2));
    assert!(!EqSegmentSegment.equals(&a, &c));
}

#[test]
fn equals_polygon_rotated_start() {
    let a = polygon(&[(0, 0), (4, 0), (4, 4), (0, 4), (0, 0)]);
    let b = polygon(&[(4, 0), (4, 4), (0, 4), (0, 0), (4, 0)]);
    assert!(EqPolygonPolygon.equals(&a, &b));
}

#[test]
fn equals_polygon_reversed_direction() {
    let a = polygon(&[(0, 0), (4, 0), (4, 4), (0, 4), (0, 0)]);
    let b = polygon(&[(0, 0), (0, 4), (4, 4), (4, 0), (0, 0)]);
    assert!(EqPolygonPolygon.equals(&a, &b));
}

#[test]
fn polygon_not_equals_different_shape() {
    let a = polygon(&[(0, 0), (4, 0), (4, 4), (0, 4), (0, 0)]);
    let b = polygon(&[(0, 0), (5, 0), (5, 5), (0, 5), (0, 0)]);
    assert!(!EqPolygonPolygon.equals(&a, &b));
}

#[test]
fn readonly_witness_computes_equality() {
    assert!(accepts_point_pair(&EqPointPoint, &pt(1, 1), &pt(1, 1)));
    assert!(!accepts_point_pair(&EqPointPoint, &pt(1, 1), &pt(2, 2)));
}

#[test]
fn equality_is_symmetric_on_samples() {
    let shapes = [
        polygon(&[(0, 0), (4, 0), (4, 4), (0, 4), (0, 0)]),
        polygon(&[(4, 4), (0, 4), (0, 0), (4, 0), (4, 4)]),
        polygon(&[(0, 0), (4, 0), (4, 4), (0, 4)]),
        polygon(&[(0, 0), (4, 0), (2, 2), (4, 4), (0, 4), (0, 0)]),
    ];
    for a in &shapes {
        assert!(EqPolygonPolygon.equals(a, a));
        for b in &shapes {
            assert_eq!(EqPolygonPolygon.equals(a, b), EqPolygonPolygon.equals(b, a));
        }
    }
}

#[test]
fn holes_pair_off_in_any_order() {
    let outer = ring(&[(0, 0), (0, 10), (10, 10), (10, 0), (0, 0)]);
    let h1 = ring(&[(1, 1), (2, 1), (2, 2), (1, 2), (1, 1)]);
    let h2 = ring(&[(5, 5), (6, 5), (6, 6), (5, 6), (5, 5)]);
    let h1_rotated = ring(&[(2, 2), (1, 2), (1, 1), (2, 1), (2, 2)]);
    let a = Polygon { exterior: outer.clone(), interiors: vec![h1.clone(), h2.clone()] };
    let b = Polygon { exterior: outer.clone(), interiors: vec![h2.clone(), h1_rotated] };
    assert!(EqPolygonPolygon.equals(&a, &b));
    let c = Polygon { exterior: outer.clone(), interiors: vec![h1.clone(), h1.clone()] };
    assert!(!EqPolygonPolygon.equals(&a, &c));
    let d = Polygon { exterior: outer, interiors: vec![h1] };
    assert!(!EqPolygonPolygon.equals(&a, &d));
}

#[test]
fn collinear_extra_vertex_is_not_equal() {
    let a = ring(&[(0, 0), (4, 0), (4, 4), (0, 4), (0, 0)]);
    let b = ring(&[(0, 0), (2, 0), (4, 0), (4, 4), (0, 4), (0, 0)]);
    assert!(!rings_equal(&a, &b));
    assert!(rings_equal(&ring(&[]), &ring(&[])));
}
