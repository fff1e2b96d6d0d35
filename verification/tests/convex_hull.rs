use geometry_rtree::area::{AreaStrategy, ShoelaceArea};
use geometry_rtree::convex_hull::{ConvexHullStrategy, MonotoneChain};
use geometry_rtree::geometry::{MultiPoint, Point};

fn multi_point(points: &[(i32, i32)]) -> MultiPoint {
    MultiPoint { points: points.iter().map(|&(x, y)| Point::new(x, y)).collect() }
}

#[test]
fn square_plus_interior_point_keeps_four_corners() {
    let mp = multi_point(&[(0, 0), (4, 0), (4, 4), (0, 4), (2, 2)]);
    let hull = MonotoneChain.convex_hull(&mp);
    assert_eq!(hull.points.len(), 5);
    assert_eq!(hull.points.first().unwrap().x, hull.points.last().unwrap().x);
    assert_eq!(hull.points.first().unwrap().y, hull.points.last().unwrap().y);
    let has_interior = hull.points.iter().any(|p| p.x == 2 && p.y == 2);
    assert!(!has_interior);
}

#[test]
fn hull_of_two_points_is_the_input_closed() {
    let mp = multi_point(&[(0, 0), (1, 1)]);
    let hull = MonotoneChain.convex_hull(&mp);
    let pts: Vec<(i32, i32)> = hull.points.iter().map(|p| (p.x, p.y)).collect();
    assert_eq!(pts, vec![(0, 0), (1, 1), (0, 0)]);
}

#[test]
fn hull_is_wound_clockwise_and_carries_only_the_corners() {
    let mp = multi_point(&[(0, 0), (4, 0), (4, 4), (0, 4), (2, 2), (1, 3)]);
    let hull = MonotoneChain.convex_hull(&mp);
    let signed = ShoelaceArea.doubled_area(&hull) as f64 / 2.0;
    assert!(signed > 0.0, "declared-CW ring must have positive signed area, got {signed}");
    assert!((signed - 16.0).abs() < 1e-12);
    let pts: Vec<(i64, i64)> = hull.points.iter().map(|p| (p.x as i64, p.y as i64)).collect();
    assert_eq!(pts.len(), 5);
    assert_eq!(pts[0], pts[4]);
    for w in pts.windows(3) {
        let cross = (w[1].0 - w[0].0) * (w[2].1 - w[1].1) - (w[1].1 - w[0].1) * (w[2].0 - w[1].0);
        assert!(cross < 0, "left turn in a clockwise hull: {pts:?}");
    }
}

#[test]
fn collinear_points_keep_only_the_ends() {
    let mp = multi_point(&[(0, 0), (1, 0), (2, 0), (3, 0)]);
    let hull = MonotoneChain.convex_hull(&mp);
    let pts: Vec<(i32, i32)> = hull.points.iter().map(|p| (p.x, p.y)).collect();
    assert_eq!(pts, vec![(3, 0), (0, 0), (3, 0)]);
}

#[test]
fn extreme_coordinates_hull() {
    let m = i32::MAX;
    let n = i32::MIN;
    let mp = multi_point(&[(n, n), (m, n), (m, m), (n, m), (0, 0), (1, -1)]);
    let hull = MonotoneChain.convex_hull(&mp);
    assert_eq!(hull.points.len(), 5);
    let side = (m as i128) - (n as i128);
    assert_eq!(ShoelaceArea.doubled_area(&hull), 2 * side * side);
}

#[test]
fn every_corner_turns_right_including_the_closing_one() {
    let mp = multi_point(&[(0, 0), (2, 0), (4, 0), (5, 3), (2, 6), (-1, 3), (1, 1), (3, 2)]);
    let hull = MonotoneChain.convex_hull(&mp);
    let pts: Vec<(i64, i64)> = hull.points.iter().map(|p| (p.x as i64, p.y as i64)).collect();
    assert_eq!(pts.len(), 6);
    let n = pts.len() - 1;
    let cross = |a: (i64, i64), b: (i64, i64), c: (i64, i64)| (b.0 - a.0) * (c.1 - b.1) - (b.1 - a.1) * (c.0 - b.0);
    for k in 0..n {
        let a = pts[k];
        let b = pts[(k + 1) % n];
        let c = pts[(k + 2) % n];
        assert!(cross(a, b, c) < 0, "corner {k} of {pts:?} does not turn right");
    }
    assert!(!pts.contains(&(2, 0)));
}
