use geometry_rtree::bounds::{union_all, Bounds};
use geometry_rtree::indexable::Indexable;
use geometry_rtree::node::Node;
use geometry_rtree::rtree::Rtree;
use geometry_rtree::split::{AsymmetricQuadratic, Quadratic, SplitParameters};

type P = Bounds;

struct Lcg {
    state: u64,
}

impl Lcg {
    fn new() -> Self {
        Self {
            state: 0x9E37_79B9_7F4A_7C15,
        }
    }

    fn next_f64(&mut self) -> f64 {
        self.state = self
            .state
            .wrapping_mul(6_364_136_223_846_793_005)
            .wrapping_add(1_442_695_040_888_963_407);
        (self.state >> 11) as f64 / (1u64 << 53) as f64
    }
}

fn point(x: i32, y: i32) -> P {
    Bounds::point([x, y])
}

fn uniform_points(n: usize) -> Vec<P> {
    let mut lcg = Lcg::new();
    (0..n)
        .map(|_| {
            let x = (lcg.next_f64() * 50_000.0) as i32;
            let y = (lcg.next_f64() * 50_000.0) as i32;
            point(x, y)
        })
        .collect()
}

fn insert_built<Params: SplitParameters>(points: &[P]) -> Rtree<P, Params> {
    let mut tree: Rtree<P, Params> = Rtree::new();
    for p in points {
        tree.insert(*p);
    }
    tree
}

fn checked_subtree_union(node: &Node<P>) -> Bounds {
    match node {
        Node::Leaf(leaf) => union_all(&leaf.iter().map(Indexable::bounds).collect::<Vec<_>>()),
        Node::Branch(children) => {
            for (b, child) in children {
                assert_eq!(*b, checked_subtree_union(child));
            }
            union_all(&children.iter().map(|(b, _)| *b).collect::<Vec<_>>())
        }
    }
}

fn walk<Params: SplitParameters>(node: &Node<P>, depth: usize, leaf_depths: &mut Vec<usize>) {
    match node {
        Node::Leaf(leaf) => {
            assert!(leaf.len() <= Params::LEAF_MAX);
            leaf_depths.push(depth);
        }
        Node::Branch(children) => {
            assert!(children.len() <= Params::BRANCH_MAX);
            for (_, child) in children {
                walk::<Params>(child, depth + 1, leaf_depths);
            }
        }
    }
}

fn assert_fill_and_depth<Params: SplitParameters>(tree: &Rtree<P, Params>, inserted_len: usize) {
    let mut leaf_depths = Vec::new();
    walk::<Params>(tree.root(), 1, &mut leaf_depths);
    assert!(leaf_depths.iter().all(|&d| d == leaf_depths[0]));
    assert_eq!(tree.height(), leaf_depths[0]);
    assert_eq!(tree.height(), tree.root().height());
    assert_eq!(tree.root().value_count(), tree.len());
    assert_eq!(tree.len(), inserted_len);
}

fn adversarial_bulk_inputs() -> [Vec<P>; 4] {
    let sorted_by_x: Vec<P> = (0..5_000i32).map(|i| point(i, i % 71)).collect();
    let reverse_sorted_by_x: Vec<P> = sorted_by_x.iter().copied().rev().collect();
    let one_point: Vec<P> = std::iter::repeat(point(123, 456)).take(5_000).collect();
    let vertical_line: Vec<P> = (0..5_000i32).map(|i| point(7, i)).collect();
    [sorted_by_x, reverse_sorted_by_x, one_point, vertical_line]
}

fn adversarial_str_invariant_case<Params: SplitParameters>() {
    for points in adversarial_bulk_inputs() {
        let bulk: Rtree<P, Params> = Rtree::from_vec(points.clone());
        checked_subtree_union(bulk.root());
        assert_fill_and_depth(&bulk, points.len());
    }
}

#[test]
fn invariants_hold_on_adversarial_bulk_inputs_max6() {
    adversarial_str_invariant_case::<Quadratic<6, 2>>();
}

#[test]
fn invariants_hold_on_adversarial_bulk_inputs_max8() {
    adversarial_str_invariant_case::<Quadratic<8, 3>>();
}

#[test]
fn invariants_hold_on_adversarial_bulk_inputs_max16() {
    adversarial_str_invariant_case::<Quadratic<16, 4>>();
}

#[test]
fn invariants_hold_on_adversarial_bulk_inputs_max32() {
    adversarial_str_invariant_case::<Quadratic<32, 9>>();
}

fn structural_invariant_case<Params: SplitParameters>() {
    let points = uniform_points(10_000);
    let tree = insert_built::<Params>(&points);
    checked_subtree_union(tree.root());
    assert_fill_and_depth(&tree, points.len());
    let bulk: Rtree<P, Params> = Rtree::from_vec(points.clone());
    checked_subtree_union(bulk.root());
    assert_fill_and_depth(&bulk, points.len());
}

#[test]
fn invariant_bounds_fill_and_depth_max6() {
    structural_invariant_case::<Quadratic<6, 2>>();
}

#[test]
fn invariant_bounds_fill_and_depth_max8() {
    structural_invariant_case::<Quadratic<8, 3>>();
}

#[test]
fn invariant_bounds_fill_and_depth_max16() {
    structural_invariant_case::<Quadratic<16, 4>>();
}

#[test]
fn invariant_bounds_fill_and_depth_max32() {
    structural_invariant_case::<Quadratic<32, 9>>();
}

#[test]
fn invariant_bounds_fill_and_depth_asymmetric_8_32() {
    structural_invariant_case::<AsymmetricQuadratic<8, 3, 32, 9>>();
}
