use geometry_rtree::bounds::Bounds;
use geometry_rtree::split::{
    AsymmetricQuadratic, AsymmetricRStarSplit, Linear, Quadratic, RStarSplit, SplitParameters,
    bulk_params_ok, insert_params_ok,
};

fn line_of_boxes(n: i32) -> Vec<Bounds> {
    (0..n).map(|i| Bounds::point([i, 0])).collect()
}

fn assert_partition(g1: &[usize], g2: &[usize], n: usize, min: usize) {
    assert!(g1.len() >= min && g2.len() >= min);
    let mut all: Vec<usize> = g1.iter().chain(g2.iter()).copied().collect();
    all.sort_unstable();
    assert_eq!(all, (0..n).collect::<Vec<_>>());
}

#[test]
fn asymmetric_rstar_bulk_capacities_are_independent_and_optional() {
    type Inherited = AsymmetricRStarSplit<6, 2, 12, 4, 0, 0>;
    type Tuned = AsymmetricRStarSplit<6, 2, 12, 4, 4, 4>;

    assert_eq!(Inherited::BULK_BRANCH_MAX, 6);
    assert_eq!(Inherited::BULK_LEAF_MAX, 12);

    assert_eq!(Tuned::BRANCH_MAX, 6);
    assert_eq!(Tuned::LEAF_MAX, 12);
    assert_eq!(Tuned::BULK_BRANCH_MAX, 4);
    assert_eq!(Tuned::BULK_LEAF_MAX, 4);
}

#[test]
fn every_index_assigned_exactly_once() {
    let entries = line_of_boxes(9);
    let (g1, g2) = <Quadratic<8, 3>>::split(&entries);
    assert_partition(&g1, &g2, 9, 3);
}

#[test]
fn asymmetric_leaf_and_branch_minimums_are_independent() {
    type Params = AsymmetricQuadratic<8, 3, 32, 9>;
    let branch_entries = line_of_boxes(9);
    let (b1, b2) = Params::split_branch(&branch_entries);
    assert_partition(&b1, &b2, 9, Params::BRANCH_MIN);

    let leaf_entries = line_of_boxes(33);
    let (l1, l2) = Params::split_leaf(&leaf_entries);
    assert_partition(&l1, &l2, 33, Params::LEAF_MIN);
}

#[test]
fn asymmetric_rstar_leaf_and_branch_minimums_are_independent() {
    type Params = AsymmetricRStarSplit<8, 3, 32, 9, 0, 0>;
    let branch_entries = line_of_boxes(9);
    let (b1, b2) = Params::split_branch(&branch_entries);
    assert_partition(&b1, &b2, 9, Params::BRANCH_MIN);

    let leaf_entries = line_of_boxes(33);
    let (l1, l2) = Params::split_leaf(&leaf_entries);
    assert_partition(&l1, &l2, 33, Params::LEAF_MIN);
}

#[test]
fn linear_and_rstar_partition_a_line() {
    let entries = line_of_boxes(7);
    let (a1, a2) = <Linear<6, 2>>::split(&entries);
    assert_partition(&a1, &a2, 7, 2);
    let (r1, r2) = <RStarSplit<6, 2>>::split(&entries);
    assert_partition(&r1, &r2, 7, 2);
    // Along a line the R* split puts a prefix of the x order on one side.
    let mut left = r1.clone();
    left.sort_unstable();
    assert_eq!(left, (0..left.len()).collect::<Vec<_>>());
}

#[test]
fn quadratic_separates_two_clusters() {
    let mut entries = Vec::new();
    for i in 0..4 {
        entries.push(Bounds::new([i, i], [i + 1, i + 1]));
    }
    for i in 0..4 {
        entries.push(Bounds::new([1000 + i, 1000 + i], [1001 + i, 1001 + i]));
    }
    let (g1, g2) = <Quadratic<7, 2>>::split(&entries);
    assert_partition(&g1, &g2, 8, 2);
    let near = |g: &[usize]| g.iter().all(|&i| i < 4) || g.iter().all(|&i| i >= 4);
    assert!(near(&g1) && near(&g2));
}

#[test]
fn quadratic_splits_into_two_min_sized_groups() {
    let entries = line_of_boxes(9);
    let (g1, g2) = <Quadratic<8, 3>>::split(&entries);
    assert!(g1.len() >= 3 && g2.len() >= 3);
    assert_eq!(g1.len() + g2.len(), 9);
}

#[test]
fn linear_splits_into_two_min_sized_groups() {
    let entries = line_of_boxes(9);
    let (g1, g2) = <Linear<8, 3>>::split(&entries);
    assert!(g1.len() >= 3 && g2.len() >= 3);
    assert_eq!(g1.len() + g2.len(), 9);
}

#[test]
fn rstar_splits_into_two_min_sized_groups() {
    let entries = line_of_boxes(9);
    let (g1, g2) = <RStarSplit<8, 3>>::split(&entries);
    assert!(g1.len() >= 3 && g2.len() >= 3);
    assert_eq!(g1.len() + g2.len(), 9);
}

#[test]
fn parameter_checks_accept_the_shipped_sets_and_refuse_a_too_large_minimum() {
    assert!(insert_params_ok::<AsymmetricRStarSplit<6, 2, 12, 4, 4, 4>>());
    assert!(bulk_params_ok::<AsymmetricRStarSplit<6, 2, 12, 4, 4, 4>>());
    assert!(insert_params_ok::<Quadratic<32, 9>>());
    assert!(bulk_params_ok::<Quadratic<32, 9>>());
    assert!(insert_params_ok::<Linear<16, 4>>());
    assert!(insert_params_ok::<RStarSplit<8, 3>>());
    assert!(insert_params_ok::<AsymmetricQuadratic<8, 2, 16, 4>>());
    // Two halves of at least 3 cannot come out of 4 + 1 entries.
    assert!(!insert_params_ok::<Quadratic<4, 3>>());
    // A minimum of zero is refused.
    assert!(!insert_params_ok::<Linear<4, 0>>());
    // Bulk branches need room for two children.
    assert!(!bulk_params_ok::<Quadratic<1, 1>>());
    assert!(bulk_params_ok::<Quadratic<2, 1>>());
    assert!(!bulk_params_ok::<AsymmetricRStarSplit<6, 2, 12, 4, 1, 4>>());
    assert!(bulk_params_ok::<AsymmetricRStarSplit<6, 2, 12, 4, 0, 0>>());
}
