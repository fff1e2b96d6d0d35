use geometry_rtree::bounds::Bounds;
use geometry_rtree::predicate::{and, not, satisfies, Predicate};
use geometry_rtree::rtree::Rtree;
use geometry_rtree::split::{Linear, Quadratic, RStarSplit};
use geometry_rtree::bulk::isqrt_ceil;
use geometry_rtree::node::Node;

type P = Bounds;

fn point(x: i32, y: i32) -> P {
    Bounds::point([x, y])
}

fn coords(hits: &[&P]) -> Vec<[i32; 2]> {
    let mut out: Vec<[i32; 2]> = hits.iter().map(|b| b.min).collect();
    out.sort_unstable();
    out
}

#[test]
fn empty_tree() {
    let t: Rtree<P> = Rtree::new();
    assert!(t.is_empty());
    assert_eq!(t.len(), 0);
    assert_eq!(t.height(), 1);
    assert!(t.query(Predicate::Intersects(Bounds::new([0, 0], [9, 9]))).is_empty());
    assert!(t.nearest([0, 0], 3).is_empty());
}

#[test]
fn default_tree_is_empty() {
    let t: Rtree<P> = Rtree::default();
    assert!(t.is_empty());
    assert_eq!(t.len(), 0);
}

#[test]
fn insert_many_points_keeps_len() {
    let mut t: Rtree<P> = Rtree::new();
    for i in 0..1000 {
        t.insert(point(i % 100, i / 100));
    }
    assert_eq!(t.len(), 1000);
    assert!(t.height() >= 2, "1000 points should build a multi-level tree");
}

#[test]
fn query_intersects_finds_the_point() {
    let mut t: Rtree<P> = Rtree::new();
    for i in 0..200 {
        t.insert(point(2 * i, 0));
    }
    // The window [19, 21] x [-1, 1] holds only the point x = 20.
    let hits = t.query(Predicate::Intersects(Bounds::new([19, -1], [21, 1])));
    assert_eq!(coords(&hits), [[20, 0]]);
}

#[test]
fn query_within_a_window() {
    let mut t: Rtree<P> = Rtree::new();
    for x in 0..10 {
        for y in 0..10 {
            t.insert(point(x, y));
        }
    }
    // The window [2,5]x[2,5] contains a 4x4 block of points.
    let hits = t.query(Predicate::Within(Bounds::new([2, 2], [5, 5])));
    assert_eq!(hits.len(), 16);
}

#[test]
fn nearest_returns_closest_first() {
    let mut t: Rtree<P> = Rtree::new();
    for i in 0..100 {
        t.insert(point(10 * i, 0));
    }
    // Scaled by ten: the query sits at x = 102, between 100 and 110.
    let near = t.nearest([102, 0], 3);
    assert_eq!(near.len(), 3);
    let xs: Vec<i32> = near.iter().map(|b| b.min[0]).collect();
    assert_eq!(xs, [100, 110, 90]);
}

#[test]
fn nearest_k_larger_than_len_returns_everything_sorted() {
    let t: Rtree<P> = Rtree::from_vec(vec![point(5, 0), point(1, 0), point(3, 0)]);
    let near = t.nearest([0, 0], 9);
    let xs: Vec<i32> = near.iter().map(|b| b.min[0]).collect();
    assert_eq!(xs, [1, 3, 5]);
    assert!(t.nearest([0, 0], 0).is_empty());
}

#[test]
fn nearest_matches_a_scan_on_a_bulk_tree() {
    let points: Vec<P> = (0..2_000).map(|i| point((i * 37) % 1_000, (i * 91) % 777)).collect();
    let t: Rtree<P> = Rtree::from_vec(points.clone());
    let q = [400, 300];
    let dist = |b: &P| {
        let dx = i128::from(b.min[0] - q[0]);
        let dy = i128::from(b.min[1] - q[1]);
        dx * dx + dy * dy
    };
    let mut expected: Vec<i128> = points.iter().map(dist).collect();
    expected.sort_unstable();
    expected.truncate(25);
    let got: Vec<i128> = t.nearest(q, 25).into_iter().map(dist).collect();
    assert_eq!(got, expected);
}

#[test]
fn linear_split_also_works() {
    let mut t: Rtree<P, Linear<8, 3>> = Rtree::new();
    for i in 0..500 {
        t.insert(point(i % 25, i / 25));
    }
    assert_eq!(t.len(), 500);
    let hits = t.query(Predicate::Intersects(Bounds::new([0, 0], [3, 3])));
    assert_eq!(hits.len(), 16);
}

#[test]
fn rstar_split_tree_answers_queries() {
    let mut t: Rtree<P, RStarSplit<6, 2>> = Rtree::new();
    for i in 0..300 {
        t.insert(point(i % 20, i / 20));
    }
    let hits = t.query(Predicate::CoveredBy(Bounds::new([0, 0], [4, 4])));
    assert_eq!(hits.len(), 25);
}

#[test]
fn bulk_load_balances() {
    let points: Vec<P> = (0..10_000).map(|i| point(i % 100, i / 100)).collect();
    let t: Rtree<P> = Rtree::from_vec(points);
    assert_eq!(t.len(), 10_000);
    // Four-way bulk packing needs seven levels to cover 10k values
    // (4^6 values beneath a height-7 root).
    assert_eq!(t.height(), 7);
}

#[test]
fn small_bulk_load_is_one_leaf() {
    let t: Rtree<P> = Rtree::from_vec(vec![point(0, 0), point(1, 1)]);
    assert_eq!(t.height(), 1);
    assert_eq!(t.len(), 2);
}

#[test]
fn every_predicate_matches_a_scan() {
    let points: Vec<P> = (0..400)
        .map(|i| {
            let x = (i * 13) % 97;
            let y = (i * 29) % 89;
            Bounds::new([x, y], [x + (i % 3), y + (i % 4)])
        })
        .collect();
    let t: Rtree<P> = Rtree::from_vec(points.clone());
    let window = Bounds::new([20, 10], [60, 50]);
    let predicates = [
        Predicate::Intersects(window),
        Predicate::Within(window),
        Predicate::Contains(Bounds::new([30, 30], [31, 31])),
        Predicate::CoveredBy(window),
        Predicate::Covers(Bounds::point([40, 40])),
        Predicate::Disjoint(window),
        Predicate::Overlaps(window),
    ];
    for predicate in predicates {
        let mut expected: Vec<[i32; 4]> = points
            .iter()
            .filter(|b| predicate.matches(b))
            .map(|b| [b.min[0], b.min[1], b.max[0], b.max[1]])
            .collect();
        expected.sort_unstable();
        let mut got: Vec<[i32; 4]> = t
            .query(predicate)
            .iter()
            .map(|b| [b.min[0], b.min[1], b.max[0], b.max[1]])
            .collect();
        got.sort_unstable();
        assert_eq!(got, expected, "{predicate:?}");
    }
}

#[test]
fn composed_predicates_filter_values() {
    let t: Rtree<(Bounds, u32)> =
        Rtree::from_vec((0..100u32).map(|i| (Bounds::point([i as i32, 0]), i)).collect());
    let window = Predicate::Intersects(Bounds::new([10, -1], [19, 1]));
    let even = satisfies(|v: &(Bounds, u32)| v.1 % 2 == 0);
    let mut ids: Vec<u32> = t.query_with(and(window, even)).iter().map(|v| v.1).collect();
    ids.sort_unstable();
    assert_eq!(ids, [10, 12, 14, 16, 18]);
    let outside = t.query_with(not(window));
    assert_eq!(outside.len(), 90);
    let id_sum: u32 = t.query(window).iter().map(|v| v.1).sum();
    assert_eq!(id_sum, (10..=19).sum());
}

#[test]
fn range_scan_hand_case() {
    let points: [[i32; 2]; 4] = [[0, 0], [3, 4], [1, 0], [0, 2]];
    let tree: Rtree<(Bounds, u32)> = Rtree::from_vec(
        points
            .iter()
            .enumerate()
            .map(|(i, p)| (Bounds::point(*p), i as u32))
            .collect(),
    );
    let range_scan = |min: [i32; 2], max: [i32; 2]| {
        let mut ids: Vec<u32> = tree
            .query(Predicate::CoveredBy(Bounds::new(min, max)))
            .iter()
            .map(|v| v.1)
            .collect();
        ids.sort_unstable();
        ids
    };
    assert_eq!(range_scan([0, 0], [1, 2]), [0, 2, 3]);
    assert_eq!(range_scan([3, 4], [3, 4]), [1]);
    assert_eq!(range_scan([8, 8], [9, 9]), [0u32; 0]);
}

#[test]
fn query_iter_folds_without_collecting() {
    let tree: Rtree<(Bounds, u32)> =
        Rtree::from_vec((0..100u32).map(|i| (Bounds::point([i as i32, 0]), i)).collect());
    let window = Predicate::Intersects(Bounds::new([10, -1], [19, 1]));
    let mut it = tree.query_iter(window);
    let mut id_sum: u32 = 0;
    while let Some(v) = it.next() {
        id_sum += v.1;
    }
    assert_eq!(id_sum, (10..=19).sum());
    assert!(it.next().is_none());
}

#[test]
fn query_iter_stops_early_in_query_order() {
    let mut tree: Rtree<(Bounds, u32)> = Rtree::new();
    for i in 0..50u32 {
        tree.insert((Bounds::point([i as i32, (i % 7) as i32]), i));
    }
    let window = Predicate::CoveredBy(Bounds::new([5, 0], [30, 6]));
    let all: Vec<u32> = tree.query(window).iter().map(|v| v.1).collect();
    let mut it = tree.query_iter(window);
    let first_three: Vec<u32> = (0..3).map(|_| it.next().unwrap().1).collect();
    assert_eq!(first_three[..], all[..3]);
}

#[test]
fn private_metric_helpers_handle_empty_queries_and_small_integer_roots() {
    assert_eq!(isqrt_ceil(0), 0);
    assert_eq!(isqrt_ceil(1), 1);
    assert_eq!(isqrt_ceil(2), 2);
    assert_eq!(isqrt_ceil(4), 2);

    let tree: Rtree<P> = Rtree::new();
    assert!(tree.nearest([0, 0], 0).is_empty());
    assert!(tree.nearest([0, 0], 1).is_empty());
}

fn uniform_points(n: usize) -> Vec<P> {
    let mut state: u64 = 0x9E37_79B9_7F4A_7C15;
    let mut next = || {
        state = state.wrapping_mul(6_364_136_223_846_793_005).wrapping_add(1_442_695_040_888_963_407);
        (((state >> 11) as u128 * 1000) >> 53) as i32
    };
    (0..n).map(|_| point(next(), next())).collect()
}

#[test]
fn query_of_an_exact_leaf_box_matches_scan() {
    fn collect_leaf_boxes(node: &Node<P>, boxes: &mut Vec<Bounds>) {
        match node {
            Node::Leaf(values) => boxes.push(
                values.iter().copied().reduce(|l, r| l.union(&r)).expect("bulk leaves are non-empty"),
            ),
            Node::Branch(children) => {
                for (_, child) in children {
                    collect_leaf_boxes(child, boxes);
                }
            }
        }
    }
    let points = uniform_points(40);
    let tree: Rtree<P> = Rtree::from_vec(points.clone());
    let mut leaf_boxes = Vec::new();
    collect_leaf_boxes(tree.root(), &mut leaf_boxes);
    for leaf_box in leaf_boxes {
        let mut expected: Vec<[i32; 2]> = points
            .iter()
            .filter(|p| {
                p.min[0] >= leaf_box.min[0]
                    && p.min[0] <= leaf_box.max[0]
                    && p.min[1] >= leaf_box.min[1]
                    && p.min[1] <= leaf_box.max[1]
            })
            .map(|p| p.min)
            .collect();
        expected.sort_unstable();
        for predicate in [Predicate::Intersects(leaf_box), Predicate::Within(leaf_box)] {
            let mut got: Vec<[i32; 2]> = tree.query(predicate).iter().map(|p| p.min).collect();
            got.sort_unstable();
            assert_eq!(got, expected, "{predicate:?}");
        }
    }
}

#[test]
fn nearest_iter_yields_everything_nearest_first() {
    let mut t: Rtree<(Bounds, u32)> = Rtree::new();
    for i in 0..100u32 {
        t.insert((Bounds::point([i as i32, 0]), i));
    }
    let mut it = t.nearest_iter([41, 0]);
    assert_eq!(it.next().unwrap().1, 41);
    let mut seen = vec![41u32];
    let mut last = 0i128;
    while let Some(v) = it.next() {
        let d = (v.1 as i128 - 41).pow(2);
        assert!(d >= last);
        last = d;
        seen.push(v.1);
    }
    seen.sort_unstable();
    assert_eq!(seen, (0..100).collect::<Vec<_>>());
    assert!(it.next().is_none());
}

#[test]
fn an_inserted_value_is_found_by_its_own_box_beside_inverted_boxes() {
    let mut t: Rtree<(Bounds, u32), Quadratic<4, 2>> = Rtree::new();
    for i in 0..30i32 {
        t.insert((Bounds::new([i * 5 + 3, i * 5 + 3], [i * 5, i * 5]), i as u32));
    }
    let target = Bounds::new([7, 7], [9, 9]);
    t.insert((target, 99));
    let found = t.query(Predicate::Intersects(target));
    assert!(found.iter().any(|(_, id)| *id == 99));
}

#[test]
fn the_first_values_of_a_nearest_walk_are_as_near_as_the_k_nearest() {
    let mut t: Rtree<(Bounds, u32)> = Rtree::new();
    for i in 0..40u32 {
        t.insert((Bounds::point([(i % 8) as i32, (i / 8) as i32]), i));
    }
    let q = [3, 2];
    let dist = |v: &(Bounds, u32)| {
        let dx = v.0.min[0] as i64 - q[0] as i64;
        let dy = v.0.min[1] as i64 - q[1] as i64;
        dx * dx + dy * dy
    };
    for k in [0usize, 1, 5, 9, 40, 60] {
        let mut it = t.nearest_iter(q);
        let walked: Vec<i64> = it.take(k).iter().map(|v| dist(v)).collect();
        let nearest: Vec<i64> = t.nearest(q, k).iter().map(|v| dist(v)).collect();
        assert_eq!(walked.len(), k.min(40));
        assert_eq!(walked, nearest, "k {k}");
    }
    let mut it = t.nearest_iter(q);
    assert_eq!(it.take(3).iter().map(|v| dist(v)).collect::<Vec<_>>(), vec![0, 1, 1]);
    assert_eq!(it.take(100).len(), 37);
    assert!(it.take(5).is_empty());
}
