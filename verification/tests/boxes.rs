use geometry_rtree::bounds::{union_all, Bounds};
use geometry_rtree::indexable::Indexable;
use geometry_rtree::nearest_bound::NearestBound;
use geometry_rtree::node::Node;
use geometry_rtree::predicate::Predicate;

#[test]
fn area_and_perimeter() {
    let b = Bounds::new([0, 0], [2, 3]);
    assert_eq!(b.area(), 6);
    assert_eq!(b.half_perimeter(), 5);
}

#[test]
fn union_and_enlargement() {
    let a = Bounds::new([0, 0], [1, 1]);
    let b = Bounds::new([2, 2], [3, 3]);
    let u = a.union(&b);
    assert_eq!(u, Bounds::new([0, 0], [3, 3]));
    assert_eq!(a.enlargement(&b), 8);
}

#[test]
fn intersects_and_contains() {
    let a = Bounds::new([0, 0], [4, 4]);
    let inside = Bounds::new([1, 1], [2, 2]);
    let overlap = Bounds::new([3, 3], [5, 5]);
    let apart = Bounds::new([9, 9], [10, 10]);
    assert!(a.contains(&inside));
    assert!(a.intersects(&overlap));
    assert!(!a.contains(&overlap));
    assert!(!a.intersects(&apart));
}

#[test]
fn min_distance() {
    let b = Bounds::new([0, 0], [2, 2]);
    let distance = |p: [i32; 2]| (b.comparable_min_distance_to(p) as f64).sqrt();
    assert_eq!(distance([1, 1]), 0.0);
    assert_eq!(distance([5, 1]), 3.0);
    assert_eq!(distance([5, 6]), 5.0);
    assert_eq!(b.comparable_min_distance_to([5, 6]), 25);
}

#[test]
fn union_all_of_many() {
    let boxes = [Bounds::point([1, 1]), Bounds::point([-2, 3]), Bounds::point([4, -1])];
    assert_eq!(union_all(&boxes), Bounds::new([-2, -1], [4, 3]));
}

#[test]
fn point_bounds_is_degenerate() {
    let b = Bounds::point([1, 2]).bounds();
    assert_eq!(b.min, [1, 2]);
    assert_eq!(b.max, [1, 2]);
}

#[test]
fn box_is_its_own_bounds() {
    let b = Bounds::new([0, 0], [5, 5]);
    assert_eq!(b.bounds(), b);
}

#[test]
fn payload_pair_indexes_by_box() {
    let value = (Bounds::new([1, 1], [2, 2]), "label");
    assert_eq!(value.bounds(), Bounds::new([1, 1], [2, 2]));
}

#[test]
fn unfull_bound_is_infinity() {
    let mut bound = NearestBound::new(3, 3);
    assert_eq!(bound.bound(), None);
    bound.admit_better(4, 1u32);
    bound.admit_better(1, 2);
    assert_eq!(bound.bound(), None);
    bound.admit_better(9, 3);
    assert_eq!(bound.bound(), Some(9));
    assert_eq!(bound.into_values(), [2, 1, 3]);
}

#[test]
fn better_candidate_replaces_the_bound() {
    // Distances scaled by two so that the half-way candidate is integral.
    let mut bound = NearestBound::new(3, 3);
    bound.admit_better(2, 1u32);
    bound.admit_better(4, 2);
    bound.admit_better(6, 3);
    assert_eq!(bound.bound(), Some(6));

    bound.admit_better(5, 25);
    assert_eq!(bound.bound(), Some(5));
    assert_eq!(bound.into_values(), [1, 2, 25]);
}

#[test]
fn ties_at_the_k_boundary_keep_the_first_admitted() {
    let mut bound = NearestBound::new(2, 2);
    bound.admit_better(5, 1u32);
    bound.admit_better(5, 2);
    assert!(bound.bound().map_or(false, |b| 5 >= b));
    assert_eq!(bound.bound(), Some(5));

    bound.admit_better(1, 4);
    assert_eq!(bound.bound(), Some(5));
    assert_eq!(bound.into_values(), [4, 1]);
}

#[test]
fn k_one_tracks_the_single_best() {
    let mut bound = NearestBound::new(1, 1);
    bound.admit_better(5, 1u32);
    assert_eq!(bound.bound(), Some(5));
    assert!(bound.bound().map_or(false, |b| 7 >= b));
    bound.admit_better(2, 3);
    assert_eq!(bound.bound(), Some(2));
    assert_eq!(bound.into_values(), [3]);
}

#[test]
fn leaf_bounds_union_of_values() {
    let leaf: Node<Bounds> = Node::Leaf(vec![Bounds::point([0, 0]), Bounds::point([2, 3])]);
    assert_eq!(leaf.bounds(), Some(Bounds::new([0, 0], [2, 3])));
    assert_eq!(leaf.entry_count(), 2);
    assert_eq!(leaf.height(), 1);
}

#[test]
fn branch_bounds_and_height() {
    let leaf_a: Node<Bounds> = Node::Leaf(vec![Bounds::point([0, 0])]);
    let leaf_b: Node<Bounds> = Node::Leaf(vec![Bounds::point([5, 5])]);
    let branch: Node<Bounds> = Node::Branch(vec![
        (leaf_a.bounds().unwrap(), leaf_a),
        (leaf_b.bounds().unwrap(), leaf_b),
    ]);
    assert_eq!(branch.bounds(), Some(Bounds::new([0, 0], [5, 5])));
    assert_eq!(branch.height(), 2);
    assert_eq!(branch.value_count(), 2);
}

#[test]
fn empty_leaf_has_no_bounds() {
    let leaf: Node<Bounds> = Node::Leaf(vec![]);
    assert_eq!(leaf.bounds(), None);
}

#[test]
fn intersects_matches_overlap() {
    let p = Predicate::Intersects(Bounds::new([0, 0], [2, 2]));
    assert!(p.matches(&Bounds::new([1, 1], [3, 3])));
    assert!(!p.matches(&Bounds::new([5, 5], [6, 6])));
}

#[test]
fn within_matches_contained() {
    let p = Predicate::Within(Bounds::new([0, 0], [10, 10]));
    assert!(p.matches(&Bounds::new([2, 2], [3, 3])));
    assert!(!p.matches(&Bounds::new([2, 2], [12, 3])));
}

#[test]
fn contains_matches_covering() {
    // Coordinates scaled by two so that the half-unit corner is integral.
    let p = Predicate::Contains(Bounds::new([8, 8], [10, 10]));
    assert!(p.matches(&Bounds::new([0, 0], [20, 20])));
    assert!(!p.matches(&Bounds::new([0, 0], [9, 9])));
}

#[test]
fn pruning_skips_disjoint_subtrees() {
    // Coordinates scaled by two so that the half-unit corner is integral.
    let p = Predicate::Intersects(Bounds::new([0, 0], [2, 2]));
    assert!(p.could_match(&Bounds::new([1, 1], [18, 18])));
    assert!(!p.could_match(&Bounds::new([10, 10], [18, 18])));
}

const QUERY: Bounds = Bounds { min: [0, 0], max: [10, 10] };
const CONTAINED: Bounds = Bounds { min: [2, 2], max: [3, 3] };
const OVERLAPPING: Bounds = Bounds { min: [5, 5], max: [15, 15] };
const DISJOINT: Bounds = Bounds { min: [20, 20], max: [30, 30] };

#[test]
fn covers_all_intersects() {
    let p = Predicate::Intersects(QUERY);
    assert!(p.covers_all(&CONTAINED));
    assert!(p.covers_all(&QUERY));
    assert!(!p.covers_all(&OVERLAPPING));
    assert!(!p.covers_all(&DISJOINT));
}

#[test]
fn covers_all_within_never_assumes_value_dimension() {
    let p = Predicate::Within(QUERY);
    assert!(!p.covers_all(&CONTAINED));
    assert!(!p.covers_all(&QUERY));
    assert!(!p.covers_all(&OVERLAPPING));
    assert!(!p.covers_all(&DISJOINT));
}

#[test]
fn covers_all_contains_never() {
    let p = Predicate::Contains(QUERY);
    assert!(!p.covers_all(&CONTAINED));
    assert!(!p.covers_all(&QUERY));
    assert!(!p.covers_all(&OVERLAPPING));
    assert!(!p.covers_all(&DISJOINT));
}
