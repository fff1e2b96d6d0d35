use geometry_rtree::area::{
    AreaStrategy, ShoelaceArea, ShoelaceBoxArea, ShoelaceMultiPolygonArea, ShoelacePolygonArea,
};
use geometry_rtree::bounds::Bounds;
use geometry_rtree::geometry::{Closure, MultiPolygon, Point, PointOrder, Polygon, Ring};

fn ring(points: &[(i32, i32)], order: PointOrder, closure: Closure) -> Ring {
    Ring { points: points.iter().map(|&(x, y)| Point::new(x, y)).collect(), order, closure }
}

fn cw(points: &[(i32, i32)]) -> Ring {
    ring(points, PointOrder::Clockwise, Closure::Closed)
}

fn polygon(points: &[(i32, i32)]) -> Polygon {
    Polygon { exterior: cw(points), interiors: Vec::new() }
}

fn area(doubled: i128) -> f64 {
    doubled as f64 / 2.0
}

#[test]
fn ring_diamond_is_2() {
    let r = cw(&[(1, 1), (2, 2), (3, 1), (2, 0), (1, 1)]);
    let got = area(ShoelaceArea.doubled_area(&r));
    assert!((got - 2.0).abs() < 1e-12);
}

#[test]
fn ring_pentagon_is_16() {
    let r = cw(&[(0, 0), (0, 7), (4, 2), (2, 0), (0, 0)]);
    let got = area(ShoelaceArea.doubled_area(&r));
    assert!((got - 16.0).abs() < 1e-12);
}

#[test]
fn ring_wrongly_ordered_is_minus_16() {
    let r = cw(&[(0, 0), (2, 0), (4, 2), (0, 7), (0, 0)]);
    let got = area(ShoelaceArea.doubled_area(&r));
    assert!((got - -16.0).abs() < 1e-12);
}

#[test]
fn polygon_ccw_unit_square_is_minus_1() {
    let p = polygon(&[(1, 1), (2, 1), (2, 2), (1, 2), (1, 1)]);
    let got = area(ShoelacePolygonArea.doubled_area(&p));
    assert!((got - -1.0).abs() < 1e-12);
}

#[test]
fn polygon_pentagon_with_hole_is_15() {
    let outer = cw(&[(0, 0), (0, 7), (4, 2), (2, 0), (0, 0)]);
    let hole = cw(&[(1, 1), (2, 1), (2, 2), (1, 2), (1, 1)]);
    let p = Polygon { exterior: outer, interiors: vec![hole] };
    let got = area(ShoelacePolygonArea.doubled_area(&p));
    assert!((got - 15.0).abs() < 1e-12);
}

#[test]
fn box_2x2_is_4() {
    let b = Bounds::new([0, 0], [2, 2]);
    let got = area(ShoelaceBoxArea.doubled_area(&b));
    assert!((got - 4.0).abs() < 1e-12);
}

#[test]
fn multipolygon_two_unit_squares_is_2() {
    let unit_at = |x: i32, y: i32| polygon(&[(x, y), (x, y + 1), (x + 1, y + 1), (x + 1, y), (x, y)]);
    let mpg = MultiPolygon { polygons: vec![unit_at(0, 0), unit_at(5, 0)] };
    let got = area(ShoelaceMultiPolygonArea.doubled_area(&mpg));
    assert!((got - 2.0).abs() < 1e-12);
}

#[test]
fn open_ring_2x2_square_is_4() {
    let r = ring(&[(0, 0), (0, 2), (2, 2), (2, 0)], PointOrder::Clockwise, Closure::Open);
    let got = area(ShoelaceArea.doubled_area(&r));
    assert!((got - 4.0).abs() < 1e-12);
}

#[test]
fn ccw_declared_ccw_traversed_diamond_is_2() {
    let r = ring(
        &[(1, 0), (0, 1), (-1, 0), (0, -1), (1, 0)],
        PointOrder::CounterClockwise,
        Closure::Closed,
    );
    let got = area(ShoelaceArea.doubled_area(&r));
    assert!((got - 2.0).abs() < 1e-12);
}

#[test]
fn odd_doubled_area_keeps_the_half() {
    // A right triangle with legs 1 and 1: area one half, exactly.
    let r = cw(&[(0, 0), (0, 1), (1, 0), (0, 0)]);
    assert_eq!(ShoelaceArea.doubled_area(&r), 1);
}

#[test]
fn open_and_closed_forms_agree() {
    let open = ring(&[(0, 0), (0, 7), (4, 2), (2, 0)], PointOrder::Clockwise, Closure::Open);
    let closed = cw(&[(0, 0), (0, 7), (4, 2), (2, 0), (0, 0)]);
    assert_eq!(ShoelaceArea.doubled_area(&open), ShoelaceArea.doubled_area(&closed));
}

#[test]
fn opposite_declaration_negates() {
    let pts = [(0, 0), (0, 7), (4, 2), (2, 0), (0, 0)];
    let a = ShoelaceArea.doubled_area(&ring(&pts, PointOrder::Clockwise, Closure::Closed));
    let b = ShoelaceArea.doubled_area(&ring(&pts, PointOrder::CounterClockwise, Closure::Closed));
    assert_eq!(a, -b);
    assert_eq!(a, 32);
}

#[test]
fn extreme_coordinates_stay_exact() {
    let m = i32::MAX;
    let n = i32::MIN;
    let r = cw(&[(n, n), (n, m), (m, m), (m, n), (n, n)]);
    let side = (m as i128) - (n as i128);
    assert_eq!(ShoelaceArea.doubled_area(&r), 2 * side * side);
    assert_eq!(ShoelaceBoxArea.doubled_area(&Bounds::new([n, n], [m, m])), 2 * side * side);
}
