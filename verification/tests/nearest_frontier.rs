use geometry_rtree::bounds::Bounds;
use geometry_rtree::rtree::Rtree;
use geometry_rtree::split::{AsymmetricQuadratic, AsymmetricRStarSplit, Quadratic, SplitParameters};

const FIELD: i32 = 50_000;
const N: usize = 50_000;
const Q: usize = 100;
const K: usize = 8;

struct Lcg {
    state: u64,
}

impl Lcg {
    fn new() -> Self {
        Lcg { state: 0x9E37_79B9_7F4A_7C15 }
    }

    /// A uniform draw in `[0, span)`: the integer part of the unit draw
    /// `(state >> 11) / 2^53` scaled by `span`.
    fn next_below(&mut self, span: i32) -> i32 {
        self.state = self
            .state
            .wrapping_mul(6_364_136_223_846_793_005)
            .wrapping_add(1_442_695_040_888_963_407);
        (((self.state >> 11) as u128 * span as u128) >> 53) as i32
    }
}

fn uniform(n: usize) -> Vec<[i32; 2]> {
    let mut lcg = Lcg::new();
    (0..n).map(|_| [lcg.next_below(FIELD), lcg.next_below(FIELD)]).collect()
}

fn queries(q: usize) -> Vec<[i32; 2]> {
    let mut lcg = Lcg::new();
    (0..q)
        .map(|_| {
            let x = lcg.next_below(FIELD);
            lcg.next_below(FIELD);
            let y = lcg.next_below(FIELD);
            [x, y]
        })
        .collect()
}

/// Total frontier pushes over the queries, and the largest combined
/// frontier any query reached, taking the `K` nearest each time.
fn measure<Params: SplitParameters>() -> (usize, usize) {
    let values: Vec<(Bounds, u32)> = uniform(N)
        .into_iter()
        .enumerate()
        .map(|(i, point)| (Bounds::point(point), u32::try_from(i).expect("N fits u32")))
        .collect();
    let tree: Rtree<(Bounds, u32), Params> = Rtree::from_vec(values);
    let mut total_pushes = 0;
    let mut max_high_water = 0;
    for query in queries(Q) {
        let mut nearest = tree.nearest_iter(query);
        let mut taken = 0;
        while taken < K && nearest.next().is_some() {
            taken += 1;
        }
        assert_eq!(taken, K);
        total_pushes += nearest.frontier_pushes();
        max_high_water = max_high_water.max(nearest.frontier_high_water());
    }
    (total_pushes, max_high_water)
}

#[test]
fn asymmetric_fanout_reduces_knn_frontier_work() {
    let baseline = measure::<Quadratic<32, 9>>();
    let default = measure::<AsymmetricRStarSplit<6, 2, 12, 4, 4, 4>>();
    assert!(
        default.0 < baseline.0 * 7 / 10,
        "default asymmetric fanout must cut frontier pushes by at least 30%: baseline={baseline:?}, default={default:?}"
    );
    assert!(default.1 < baseline.1);
    for (name, observed) in [
        ("branch6_leaf32", measure::<AsymmetricQuadratic<6, 2, 32, 9>>()),
        ("default_insert6_leaf12_bulk4_4", default),
        ("branch12_leaf32", measure::<AsymmetricQuadratic<12, 4, 32, 9>>()),
        ("branch16_leaf32", measure::<AsymmetricQuadratic<16, 4, 32, 9>>()),
    ] {
        println!("[rtree-asymmetric-fanout] config={name} expected_pushes_below={} observed={observed:?}", baseline.0 * 7 / 10);
    }
    for (name, observed) in [
        ("branch8_leaf6", measure::<AsymmetricQuadratic<8, 3, 6, 2>>()),
        ("branch8_leaf8", measure::<AsymmetricQuadratic<8, 3, 8, 3>>()),
        ("branch8_leaf12", measure::<AsymmetricQuadratic<8, 3, 12, 4>>()),
        ("branch8_leaf16", measure::<AsymmetricQuadratic<8, 3, 16, 4>>()),
        ("branch8_leaf24", measure::<AsymmetricQuadratic<8, 3, 24, 7>>()),
        ("branch8_leaf32", default),
    ] {
        println!("[rtree-leaf-fanout] config={name} observed={observed:?}");
    }
}

#[test]
fn a_fresh_nearest_walk_has_pushed_only_the_root() {
    let values: Vec<(Bounds, u32)> =
        uniform(100).into_iter().enumerate().map(|(i, p)| (Bounds::point(p), i as u32)).collect();
    let tree: Rtree<(Bounds, u32), Quadratic<8, 3>> = Rtree::from_vec(values);
    let mut walk = tree.nearest_iter([FIELD / 2, FIELD / 2]);
    assert_eq!(walk.frontier_pushes(), 1);
    assert_eq!(walk.frontier_high_water(), 1);
    let mut yielded = 0;
    while walk.next().is_some() {
        yielded += 1;
    }
    assert_eq!(yielded, 100);
    // A full drain pushes every node and every value exactly once.
    assert!(walk.frontier_pushes() > 100);
    assert!(walk.frontier_high_water() >= 2);
}
