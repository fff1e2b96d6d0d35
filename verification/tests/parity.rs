use geometry_rtree::bounds::Bounds;
use geometry_rtree::predicate::{not, satisfies, Predicate, QueryPredicate};
use geometry_rtree::rtree::Rtree;
use geometry_rtree::split::{
    AsymmetricQuadratic, AsymmetricRStarSplit, Linear, Quadratic, SplitParameters,
};

const FIELD: i32 = 50_000;
const CLUSTER_COUNT: usize = 16;
const CLUSTER_RADIUS: i32 = 100;
const K: usize = 8;
const HALF: i32 = 500;
const QUERY_COUNT: usize = 20;

type Pt = [i32; 2];
type IndexTree<P> = Rtree<(Bounds, u32), P>;
type DefaultQuadratic = Quadratic<32, 9>;

struct Lcg {
    state: u64,
}

impl Lcg {
    fn new() -> Self {
        Lcg { state: 0x9E37_79B9_7F4A_7C15 }
    }

    /// A uniform draw in `[0, span)`: the integer part of the unit draw
    /// `(state >> 11) / 2^53` scaled by `span`.
    fn next_below(&mut self, span: i32) -> i32 {
        self.state = self
            .state
            .wrapping_mul(6_364_136_223_846_793_005)
            .wrapping_add(1_442_695_040_888_963_407);
        (((self.state >> 11) as u128 * span as u128) >> 53) as i32
    }
}

fn uniform(n: usize) -> Vec<Pt> {
    let mut lcg = Lcg::new();
    (0..n).map(|_| [lcg.next_below(FIELD), lcg.next_below(FIELD)]).collect()
}

fn clustered(n: usize) -> Vec<Pt> {
    let mut lcg = Lcg::new();
    let centers: Vec<Pt> =
        (0..CLUSTER_COUNT).map(|_| [lcg.next_below(FIELD), lcg.next_below(FIELD)]).collect();
    (0..n)
        .map(|i| {
            let c = centers[i % CLUSTER_COUNT];
            [
                c[0] + lcg.next_below(2 * CLUSTER_RADIUS) - CLUSTER_RADIUS,
                c[1] + lcg.next_below(2 * CLUSTER_RADIUS) - CLUSTER_RADIUS,
            ]
        })
        .collect()
}

fn duplicates(n: usize) -> Vec<Pt> {
    let mut lcg = Lcg::new();
    (0..n / 4)
        .flat_map(|_| {
            let p = [lcg.next_below(FIELD), lcg.next_below(FIELD)];
            [p; 4]
        })
        .collect()
}

fn sorted_by_x(n: usize) -> Vec<Pt> {
    let mut points = uniform(n);
    points.sort_unstable_by(|a, b| a[0].cmp(&b[0]));
    points
}

fn reverse_sorted_by_x(n: usize) -> Vec<Pt> {
    let mut points = sorted_by_x(n);
    points.reverse();
    points
}

fn one_point(n: usize) -> Vec<Pt> {
    let mut lcg = Lcg::new();
    let p = [lcg.next_below(FIELD), lcg.next_below(FIELD)];
    vec![p; n]
}

fn vertical_line(n: usize) -> Vec<Pt> {
    let mut lcg = Lcg::new();
    let x = lcg.next_below(FIELD);
    (0..n).map(|_| [x, lcg.next_below(FIELD)]).collect()
}

fn queries(q: usize) -> Vec<Pt> {
    let mut lcg = Lcg::new();
    (0..q)
        .map(|_| {
            let x = lcg.next_below(FIELD);
            lcg.next_below(FIELD);
            let y = lcg.next_below(FIELD);
            [x, y]
        })
        .collect()
}

fn squared_distance(p: Pt, q: Pt) -> i64 {
    let dx = i64::from(p[0]) - i64::from(q[0]);
    let dy = i64::from(p[1]) - i64::from(q[1]);
    dx * dx + dy * dy
}

fn knn_scan(points: &[Pt], q: Pt, k: usize) -> Vec<i64> {
    let mut dists: Vec<i64> = points.iter().map(|&p| squared_distance(p, q)).collect();
    dists.sort_unstable();
    dists.truncate(k);
    dists
}

fn range_scan(points: &[Pt], min: Pt, max: Pt) -> Vec<u32> {
    points
        .iter()
        .enumerate()
        .filter(|(_, p)| p[0] >= min[0] && p[0] <= max[0] && p[1] >= min[1] && p[1] <= max[1])
        .map(|(i, _)| i as u32)
        .collect()
}

fn contains_scan(points: &[Pt], min: Pt, max: Pt) -> Vec<u32> {
    points
        .iter()
        .enumerate()
        .filter(|(_, p)| p[0] <= min[0] && p[0] >= max[0] && p[1] <= min[1] && p[1] >= max[1])
        .map(|(i, _)| i as u32)
        .collect()
}

fn families() -> [Vec<Pt>; 3] {
    [uniform(5_000), clustered(5_000), duplicates(4_000)]
}

fn build_tree<P: SplitParameters>(points: &[Pt]) -> IndexTree<P> {
    Rtree::from_vec(points.iter().enumerate().map(|(i, &p)| (Bounds::point(p), i as u32)).collect())
}

fn tree_knn_distances<P: SplitParameters>(tree: &IndexTree<P>, q: Pt, k: usize) -> Vec<i64> {
    tree.nearest(q, k).iter().map(|(b, _)| squared_distance(b.min, q)).collect()
}

fn tree_range_ids<P: SplitParameters>(tree: &IndexTree<P>, min: Pt, max: Pt) -> Vec<u32> {
    let mut ids: Vec<u32> =
        tree.query(Predicate::Intersects(Bounds::new(min, max))).iter().map(|(_, id)| *id).collect();
    ids.sort_unstable();
    ids
}

fn tree_predicate_ids<P: SplitParameters>(tree: &IndexTree<P>, predicate: Predicate) -> Vec<u32> {
    let mut ids: Vec<u32> = tree.query(predicate).iter().map(|(_, id)| *id).collect();
    ids.sort_unstable();
    ids
}

fn window(q: Pt) -> (Pt, Pt) {
    ([q[0] - HALF, q[1] - HALF], [q[0] + HALF, q[1] + HALF])
}

fn knn_parity_case<P: SplitParameters>() {
    for points in families() {
        let tree = build_tree::<P>(&points);
        for q in queries(QUERY_COUNT) {
            assert_eq!(tree_knn_distances(&tree, q, K), knn_scan(&points, q, K), "knn at {q:?}");
        }
    }
}

fn range_parity_case<P: SplitParameters>() {
    for points in families() {
        let tree = build_tree::<P>(&points);
        for q in queries(QUERY_COUNT) {
            let (min, max) = window(q);
            assert_eq!(tree_range_ids(&tree, min, max), range_scan(&points, min, max), "range at {q:?}");
        }
    }
}

fn adversarial_families() -> [Vec<Pt>; 4] {
    [sorted_by_x(5_000), reverse_sorted_by_x(5_000), one_point(5_000), vertical_line(5_000)]
}

fn adversarial_parity_case<P: SplitParameters>() {
    for points in adversarial_families() {
        let tree = build_tree::<P>(&points);
        assert_eq!(tree.len(), points.len());
        for q in queries(QUERY_COUNT) {
            let (min, max) = window(q);
            assert_eq!(tree_range_ids(&tree, min, max), range_scan(&points, min, max));
            assert_eq!(tree_knn_distances(&tree, q, K), knn_scan(&points, q, K));
        }
    }
}

fn insert_split_stress_case<P: SplitParameters>() {
    let points = one_point(5_000);
    let mut tree: IndexTree<P> = Rtree::new();
    for (i, &p) in points.iter().enumerate() {
        tree.insert((Bounds::point(p), i as u32));
    }
    assert_eq!(tree.len(), points.len());
    let q = points[0];
    assert_eq!(tree_knn_distances(&tree, q, K), knn_scan(&points, q, K));
    let (min, max) = window(q);
    assert_eq!(tree_range_ids(&tree, min, max), range_scan(&points, min, max));
}

#[test]
fn boost_knn_matches_scan_max6() {
    knn_parity_case::<Quadratic<6, 2>>();
}

#[test]
fn boost_knn_matches_scan_max8() {
    knn_parity_case::<Quadratic<8, 3>>();
}

#[test]
fn boost_knn_matches_scan_max16() {
    knn_parity_case::<Quadratic<16, 4>>();
}

#[test]
fn boost_knn_matches_scan_max32() {
    knn_parity_case::<Quadratic<32, 9>>();
}

#[test]
fn boost_knn_matches_scan_branch8_leaf32() {
    knn_parity_case::<AsymmetricQuadratic<8, 3, 32, 9>>();
}

#[test]
fn boost_knn_matches_scan_rstar_split_branch8_leaf32() {
    knn_parity_case::<AsymmetricRStarSplit<8, 3, 32, 9, 0, 0>>();
}

#[test]
fn boost_range_matches_scan_max6() {
    range_parity_case::<Quadratic<6, 2>>();
}

#[test]
fn boost_range_matches_scan_max8() {
    range_parity_case::<Quadratic<8, 3>>();
}

#[test]
fn boost_range_matches_scan_max16() {
    range_parity_case::<Quadratic<16, 4>>();
}

#[test]
fn boost_range_matches_scan_max32() {
    range_parity_case::<Quadratic<32, 9>>();
}

#[test]
fn boost_range_matches_scan_branch8_leaf32() {
    range_parity_case::<AsymmetricQuadratic<8, 3, 32, 9>>();
}

#[test]
fn boost_range_matches_scan_rstar_split_branch8_leaf32() {
    range_parity_case::<AsymmetricRStarSplit<8, 3, 32, 9, 0, 0>>();
}

#[test]
fn adversarial_bulk_inputs_match_scan_max6() {
    adversarial_parity_case::<Quadratic<6, 2>>();
}

#[test]
fn adversarial_bulk_inputs_match_scan_max8() {
    adversarial_parity_case::<Quadratic<8, 3>>();
}

#[test]
fn adversarial_bulk_inputs_match_scan_max16() {
    adversarial_parity_case::<Quadratic<16, 4>>();
}

#[test]
fn adversarial_bulk_inputs_match_scan_max32() {
    adversarial_parity_case::<Quadratic<32, 9>>();
}

#[test]
fn adversarial_bulk_inputs_match_scan_branch8_leaf32() {
    adversarial_parity_case::<AsymmetricQuadratic<8, 3, 32, 9>>();
}

#[test]
fn adversarial_bulk_inputs_match_scan_rstar_split_branch8_leaf32() {
    adversarial_parity_case::<AsymmetricRStarSplit<8, 3, 32, 9, 0, 0>>();
}

#[test]
fn insert_split_survives_all_equal_keys_max6() {
    insert_split_stress_case::<Quadratic<6, 2>>();
}

#[test]
fn insert_split_survives_all_equal_keys_max8() {
    insert_split_stress_case::<Quadratic<8, 3>>();
}

#[test]
fn insert_split_survives_all_equal_keys_max16() {
    insert_split_stress_case::<Quadratic<16, 4>>();
}

#[test]
fn insert_split_survives_all_equal_keys_max32() {
    insert_split_stress_case::<Quadratic<32, 9>>();
}

#[test]
fn insert_split_survives_all_equal_keys_branch8_leaf32() {
    insert_split_stress_case::<AsymmetricQuadratic<8, 3, 32, 9>>();
}

#[test]
fn insert_split_survives_all_equal_keys_rstar_split_branch8_leaf32() {
    insert_split_stress_case::<AsymmetricRStarSplit<8, 3, 32, 9, 0, 0>>();
}

fn query_ids<P: SplitParameters>(tree: &IndexTree<P>, predicate: Predicate) -> Vec<u32> {
    let mut it = tree.query_iter(predicate);
    let mut ids = Vec::new();
    while let Some(v) = it.next() {
        ids.push(v.1);
    }
    ids
}

#[test]
fn bulk_build_is_deterministic() {
    let points = uniform(10_000);
    let first = build_tree::<DefaultQuadratic>(&points);
    let second = build_tree::<DefaultQuadratic>(&points);
    assert_eq!(first.height(), second.height());
    for q in queries(QUERY_COUNT) {
        let (min, max) = window(q);
        let predicate = Predicate::Intersects(Bounds::new(min, max));
        assert_eq!(query_ids(&first, predicate), query_ids(&second, predicate), "query {q:?}");
    }
}

#[test]
fn window_size_predicate_matrix_matches_scan() {
    for points in [uniform(5_000), clustered(5_000)] {
        let tree = build_tree::<DefaultQuadratic>(&points);
        for q in queries(QUERY_COUNT) {
            for half in [50, 500, 5_000, 50_000] {
                let min = [q[0] - half, q[1] - half];
                let max = [q[0] + half, q[1] + half];
                let window = Bounds::new(min, max);
                let point_hits = range_scan(&points, min, max);
                for (predicate, oracle) in [
                    (Predicate::Intersects(window), point_hits.clone()),
                    (Predicate::CoveredBy(window), point_hits.clone()),
                    (Predicate::Contains(window), contains_scan(&points, min, max)),
                ] {
                    assert_eq!(tree_predicate_ids(&tree, predicate), oracle, "{predicate:?}");
                }
            }
        }
    }
}

#[test]
fn covers_matches_a_degenerate_point_window() {
    let points = duplicates(4_000);
    let tree = build_tree::<DefaultQuadratic>(&points);
    let target = points[0];
    let window = Bounds::point(target);
    let oracle = contains_scan(&points, target, target);
    assert!(oracle.len() >= 4);
    assert_eq!(tree_predicate_ids(&tree, Predicate::Covers(window)), oracle);
    assert!(tree_predicate_ids(&tree, Predicate::Contains(window)).is_empty());
}

#[test]
fn query_iter_collect_equals_query() {
    for points in families() {
        let tree = build_tree::<DefaultQuadratic>(&points);
        for q in queries(QUERY_COUNT) {
            let (min, max) = window(q);
            let predicate = Predicate::Intersects(Bounds::new(min, max));
            let mut eager: Vec<u32> = tree.query(predicate).iter().map(|(_, id)| *id).collect();
            let mut lazy = query_ids(&tree, predicate);
            eager.sort_unstable();
            lazy.sort_unstable();
            assert_eq!(lazy, eager, "query {q:?}");
        }
    }
}

fn stream_distances<P: SplitParameters>(tree: &IndexTree<P>, q: Pt, k: usize) -> Vec<i64> {
    let mut it = tree.nearest_iter(q);
    it.take(k).iter().map(|v| squared_distance(v.0.min, q)).collect()
}

#[test]
fn nearest_iter_take_matches_nearest() {
    for points in families() {
        let tree = build_tree::<DefaultQuadratic>(&points);
        for q in queries(QUERY_COUNT) {
            for k in [1, 8, 64] {
                assert_eq!(stream_distances(&tree, q, k), tree_knn_distances(&tree, q, k), "k {k} at {q:?}");
            }
        }
    }
}

#[test]
fn nearest_iter_full_drain_is_sorted() {
    for points in families() {
        let tree = build_tree::<DefaultQuadratic>(&points);
        let q = queries(1)[0];
        let mut it = tree.nearest_iter(q);
        let mut drained: Vec<(i64, u32)> = Vec::new();
        while let Some(v) = it.next() {
            drained.push((squared_distance(v.0.min, q), v.1));
        }
        assert!(drained.windows(2).all(|pair| pair[0].0 <= pair[1].0));
        let mut ids: Vec<u32> = drained.iter().map(|(_, id)| *id).collect();
        ids.sort_unstable();
        let every_id: Vec<u32> = (0..points.len() as u32).collect();
        assert_eq!(ids, every_id);
    }
}

#[test]
fn iterators_are_fused() {
    let points = uniform(500);
    let tree = build_tree::<DefaultQuadratic>(&points);
    let q = queries(1)[0];
    let (min, max) = window(q);

    let field = Predicate::Intersects(Bounds::new([0, 0], [FIELD, FIELD]));
    let mut range = tree.query_iter(field);
    let mut count = 0;
    while range.next().is_some() {
        count += 1;
    }
    assert_eq!(count, points.len());
    for _ in 0..3 {
        assert!(range.next().is_none());
    }

    let mut stream = tree.nearest_iter(q);
    let mut count = 0;
    while stream.next().is_some() {
        count += 1;
    }
    assert_eq!(count, points.len());
    for _ in 0..3 {
        assert!(stream.next().is_none());
    }

    let empty = build_tree::<DefaultQuadratic>(&[]);
    assert!(empty.query_iter(Predicate::Intersects(Bounds::new(min, max))).next().is_none());
    assert!(empty.nearest_iter(q).next().is_none());

    let no_match = Predicate::Intersects(Bounds::new([-2, -2], [-1, -1]));
    assert!(tree.query_iter(no_match).next().is_none());
}

#[test]
fn knn_k_zero_returns_nothing() {
    let points = uniform(100);
    let q = queries(1)[0];
    assert!(knn_scan(&points, q, 0).is_empty());
    assert!(tree_knn_distances(&build_tree::<DefaultQuadratic>(&points), q, 0).is_empty());
}

#[test]
fn knn_k_beyond_len_returns_all_ascending() {
    let points = uniform(50);
    let q = queries(1)[0];
    let oracle = knn_scan(&points, q, 100);
    assert_eq!(oracle.len(), 50);
    assert_eq!(tree_knn_distances(&build_tree::<DefaultQuadratic>(&points), q, 100), oracle);
}

#[test]
fn knn_k_equals_len_returns_all_ascending() {
    let points = uniform(64);
    let q = queries(1)[0];
    let oracle = knn_scan(&points, q, 64);
    assert_eq!(oracle.len(), 64);
    assert_eq!(tree_knn_distances(&build_tree::<DefaultQuadratic>(&points), q, 64), oracle);
}

#[test]
fn knn_query_coincident_with_a_stored_point() {
    let points = uniform(500);
    let q = points[123];
    let oracle = knn_scan(&points, q, K);
    assert_eq!(oracle[0], 0);
    assert_eq!(tree_knn_distances(&build_tree::<DefaultQuadratic>(&points), q, K), oracle);
}

#[test]
fn empty_tree_returns_nothing() {
    let points: Vec<Pt> = Vec::new();
    let tree = build_tree::<DefaultQuadratic>(&points);
    let q = queries(1)[0];
    let (min, max) = window(q);
    assert!(tree_knn_distances(&tree, q, K).is_empty());
    assert!(tree_range_ids(&tree, min, max).is_empty());
}

#[test]
fn window_covering_the_field_returns_every_id() {
    let points = uniform(1_000);
    let min = [0, 0];
    let max = [FIELD, FIELD];
    let all: Vec<u32> = (0..1_000).collect();
    assert_eq!(range_scan(&points, min, max), all);
    assert_eq!(tree_range_ids(&build_tree::<DefaultQuadratic>(&points), min, max), all);
}

#[test]
fn window_boundary_touch_is_inclusive() {
    let points = vec![[0, 0], [1, 1], [2, 2]];
    let tree = build_tree::<DefaultQuadratic>(&points);
    for (min, max, expected) in [
        ([0, 0], [1, 1], vec![0u32, 1]),
        ([1, 1], [3, 3], vec![1, 2]),
        ([2, 2], [2, 2], vec![2]),
    ] {
        assert_eq!(range_scan(&points, min, max), expected);
        assert_eq!(tree_range_ids(&tree, min, max), expected);
    }
}

#[test]
fn knn_scan_hand_case() {
    const POINTS: [Pt; 4] = [[0, 0], [3, 4], [1, 0], [0, 2]];
    assert_eq!(knn_scan(&POINTS, [0, 0], 3), [0, 1, 4]);
    assert_eq!(knn_scan(&POINTS, [0, 0], 0), [0i64; 0]);
    assert_eq!(knn_scan(&POINTS, [0, 0], 9), [0, 1, 4, 25]);
}

// The insert-and-query milestones on a 100 x 10 lattice.

type LatticePoint = Bounds;

fn fixture() -> Vec<LatticePoint> {
    (0..1000).map(|i| Bounds::point([i % 100, i / 100])).collect()
}

fn brute_window(points: &[LatticePoint], win: Bounds) -> usize {
    points
        .iter()
        .filter(|p| {
            let (x, y) = (p.min[0], p.min[1]);
            x >= win.min[0] && x <= win.max[0] && y >= win.min[1] && y <= win.max[1]
        })
        .count()
}

#[test]
fn insert_parity_quadratic_and_linear() {
    let pts = fixture();
    let mut q: Rtree<LatticePoint, Quadratic<32, 9>> = Rtree::new();
    let mut l: Rtree<LatticePoint, Linear<32, 9>> = Rtree::new();
    for p in &pts {
        q.insert(*p);
        l.insert(*p);
    }
    assert_eq!(q.len(), 1000);
    assert_eq!(l.len(), 1000);
    assert!(q.height() >= 3 && q.height() <= 8, "quadratic height {}", q.height());
    assert!(l.height() >= 3 && l.height() <= 10, "linear height {}", l.height());
}

#[test]
fn bulk_load_parity() {
    let t: Rtree<LatticePoint> = Rtree::from_vec(fixture());
    assert_eq!(t.len(), 1000);
    assert!(t.height() <= 5, "bulk height {}", t.height());
}

#[test]
fn query_window_matches_brute_force() {
    let pts = fixture();
    let mut t: Rtree<LatticePoint> = Rtree::new();
    for p in &pts {
        t.insert(*p);
    }
    for win in [
        Bounds::new([0, 0], [9, 9]),
        Bounds::new([20, 2], [40, 6]),
        Bounds::new([95, 0], [99, 9]),
        Bounds::new([50, 5], [50, 5]),
    ] {
        let hits = t.query(Predicate::Intersects(win));
        assert_eq!(hits.len(), brute_window(&pts, win), "window {win:?}");
    }
}

#[test]
fn query_result_sets_are_the_same_points() {
    let pts = fixture();
    let mut t: Rtree<LatticePoint> = Rtree::new();
    for p in &pts {
        t.insert(*p);
    }
    let win = Bounds::new([10, 2], [15, 4]);
    let mut hits: Vec<(i32, i32)> =
        t.query(Predicate::CoveredBy(win)).iter().map(|p| (p.min[0], p.min[1])).collect();
    hits.sort_unstable();
    let mut brute: Vec<(i32, i32)> = pts
        .iter()
        .map(|p| (p.min[0], p.min[1]))
        .filter(|&(x, y)| (10..=15).contains(&x) && (2..=4).contains(&y))
        .collect();
    brute.sort_unstable();
    assert_eq!(hits, brute);
}

#[test]
fn logical_query_predicates_compose_through_the_public_api() {
    let tree: Rtree<LatticePoint> = Rtree::from_vec(vec![
        Bounds::point([0, 0]),
        Bounds::point([1, 1]),
        Bounds::point([2, 2]),
        Bounds::point([5, 5]),
    ]);
    let window = Bounds::new([0, 0], [3, 3]);
    let selected = tree.query_with(
        Predicate::Intersects(window).and(satisfies(|point: &LatticePoint| point.min[0] >= 1)),
    );
    assert_eq!(selected.len(), 2);

    let outside = tree.query_with(not(Predicate::Intersects(window)));
    assert_eq!(outside.len(), 1);
    assert_eq!(outside[0].min[0], 5);
    let outside_by_operator = tree.query_with(!Predicate::Intersects(window));
    assert_eq!(outside_by_operator.len(), 1);
    assert_eq!(outside_by_operator[0].min[0], 5);

    let condition = satisfies(|point: &LatticePoint| point.min[1] >= 0);
    assert!(<_ as QueryPredicate<LatticePoint>>::matches(&condition, &Bounds::point([1, 1])));
    assert!(<_ as QueryPredicate<LatticePoint>>::could_match(&condition, &window));
    assert!(!<_ as QueryPredicate<LatticePoint>>::covers_all(&condition, &window));

    let conjunction = Predicate::Intersects(window).and(Predicate::CoveredBy(window));
    assert!(<_ as QueryPredicate<LatticePoint>>::could_match(&conjunction, &window));
    assert!(<_ as QueryPredicate<LatticePoint>>::covers_all(&conjunction, &window));

    let negated = not(Predicate::Intersects(window));
    assert!(!<_ as QueryPredicate<LatticePoint>>::could_match(&negated, &window));
    assert!(!<_ as QueryPredicate<LatticePoint>>::covers_all(&negated, &window));
}

#[test]
fn nearest_matches_brute_force() {
    // The lattice and the query are scaled by ten so that the query
    // point (42.3, 4.1) is integral.
    let pts: Vec<LatticePoint> = fixture().iter().map(|p| Bounds::point([p.min[0] * 10, p.min[1] * 10])).collect();
    let mut t: Rtree<LatticePoint> = Rtree::new();
    for p in &pts {
        t.insert(*p);
    }
    let query = [423, 41];
    let k = 10;
    let mut tree_near: Vec<(i32, i32)> = t.nearest(query, k).iter().map(|p| (p.min[0], p.min[1])).collect();
    let mut all: Vec<(i64, (i32, i32))> =
        pts.iter().map(|p| (squared_distance(p.min, query), (p.min[0], p.min[1]))).collect();
    all.sort_unstable();
    let mut brute_near: Vec<(i32, i32)> = all.iter().take(k).map(|(_, p)| *p).collect();
    tree_near.sort_unstable();
    brute_near.sort_unstable();
    assert_eq!(tree_near, brute_near);
}

#[test]
fn caller_selected_inline_capacities_preserve_distance_order() {
    let tree: IndexTree<DefaultQuadratic> = build_tree(&uniform(2_000));
    let query = [12_345, 23_456];
    let mut expected = stream_distances(&tree, query, 64);
    let mut it = tree.nearest_iter_with_inline_capacities::<0, 0>(query);
    let mut actual = Vec::new();
    while actual.len() < 64 {
        match it.next() {
            Some(v) => actual.push(squared_distance(v.0.min, query)),
            None => break,
        }
    }
    expected.sort_unstable();
    assert_eq!(actual, expected);
}

#[test]
fn covers_and_contains_stay_exact_beside_an_inverted_box() {
    let mut values: Vec<(Bounds, u32)> = Vec::new();
    values.push((Bounds::new([5, 5], [1, 1]), 0));
    for i in 1..40u32 {
        let c = (i as i32) * 3;
        values.push((Bounds::new([c - 2, c - 2], [c + 2, c + 2]), i));
    }
    values.push((Bounds::new([0, 0], [200, 200]), 40));
    let tree: Rtree<(Bounds, u32), Quadratic<4, 2>> = Rtree::from_vec(values.clone());
    let probe = Bounds::point([30, 30]);
    let mut covering: Vec<u32> = tree.query(Predicate::Covers(probe)).iter().map(|(_, id)| *id).collect();
    covering.sort_unstable();
    let mut expected: Vec<u32> = values
        .iter()
        .filter(|(b, _)| b.min[0] <= 30 && b.min[1] <= 30 && b.max[0] >= 30 && b.max[1] >= 30)
        .map(|(_, id)| *id)
        .collect();
    expected.sort_unstable();
    assert_eq!(covering, expected);
    let window = Bounds::new([29, 29], [31, 31]);
    let mut containing: Vec<u32> = tree.query(Predicate::Contains(window)).iter().map(|(_, id)| *id).collect();
    containing.sort_unstable();
    assert_eq!(containing, vec![10, 40]);
}
