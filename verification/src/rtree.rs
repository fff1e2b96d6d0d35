//! The [`Rtree`] itself: insertion, spatial query, nearest-neighbour
//! search and Sort-Tile-Recursive bulk loading.
//!
//! A tree is viewed as the sequence of its values in depth-first order.
//! Its invariant ([`Rtree::wf`]) keeps every leaf at the same depth,
//! every node within the capacities the tree was built with, and every
//! recorded child box equal to the tightest box around the values below
//! it: the property that makes pruning sound.

use vstd::prelude::*;

use core::marker::PhantomData;

use crate::bounds::Bounds;
use crate::indexable::Indexable;
use crate::node::{
    Node, node_contents, children_contents, node_wf, lemma_children_wf_all, lemma_node_wf_caps,
    lemma_node_wf_height, lemma_children_contents_single,
};
use crate::predicate::{Predicate, QueryPredicate};
use crate::insertion::{InsertOutcome, insert_into};
use crate::bulk::{str_pack, is_packed_height};
use crate::nearest::{nearest_search, value_dist};
use crate::values::Values;
use crate::nearest_iter::{NearestIter, DEFAULT_NODE_INLINE_CAPACITY, DEFAULT_VALUE_INLINE_CAPACITY};
use crate::query_iter::{
    QueryIter, QueryWithIter, all_sound, exact_for, lemma_exact_all_sound, lemma_valid_all_sound,
    stack_capacity_fits,
};
use crate::split::{AsymmetricRStarSplit, SplitParameters, bulk_params_valid, insert_params_valid};

verus! {

/// The larger of two naturals.
pub open spec fn nat_max(a: nat, b: nat) -> nat {
    if a >= b { a } else { b }
}

/// Every value of `vs` has a valid box (`min <= max` on both axes).
pub open spec fn boxes_valid<T: Indexable>(vs: Seq<T>) -> bool {
    forall|v: T| vs.contains(v) ==> #[trigger] v.spec_bounds().valid()
}

/// A spatial index over `Indexable` values, parameterised by a split
/// strategy.
///
/// The default uses six-child branches and 12-value leaves for
/// insertion, with four-child branches and four-value leaves for bulk
/// packing, via [`AsymmetricRStarSplit`]; pass a symmetric
/// [`RStarSplit`](crate::split::RStarSplit),
/// [`Quadratic`](crate::split::Quadratic) or
/// [`Linear`](crate::split::Linear) as `Params` for a different trade-off.
pub struct Rtree<T: Indexable, Params: SplitParameters = AsymmetricRStarSplit<6, 2, 12, 4, 4, 4>> {
    root: Node<T>,
    len: usize,
    height: usize,
    leaf_cap: Ghost<nat>,
    branch_cap: Ghost<nat>,
    params: PhantomData<Params>,
}

impl<T: Indexable, Params: SplitParameters> View for Rtree<T, Params> {
    type V = Seq<T>;

    /// The stored values in depth-first order.
    closed spec fn view(&self) -> Seq<T> {
        node_contents(self.root)
    }
}

impl<T: Indexable, Params: SplitParameters> Default for Rtree<T, Params> {
    /// An empty tree, as [`Rtree::new`] builds it.
    fn default() -> (t: Self)
        ensures
            t.wf(),
            t@ == Seq::<T>::empty(),
            t.spec_height() == 1,
    {
        Self::new()
    }
}

impl<T: Indexable, Params: SplitParameters> Rtree<T, Params> {
    /// The tree's invariant: balanced at its recorded height, length
    /// cached correctly, nodes within capacity, child boxes tight.
    pub closed spec fn wf(&self) -> bool {
        &&& node_wf(self.root, self.height as nat, self.leaf_cap@, self.branch_cap@)
        &&& self.len == node_contents(self.root).len()
    }

    /// The height the tree records (a single-leaf tree is height 1).
    pub closed spec fn spec_height(&self) -> nat {
        self.height as nat
    }

    /// The most values any leaf of this tree may hold.
    pub closed spec fn leaf_capacity(&self) -> nat {
        self.leaf_cap@
    }

    /// The most children any branch of this tree may hold.
    pub closed spec fn branch_capacity(&self) -> nat {
        self.branch_cap@
    }

    /// The root node, for inspecting the tree's shape.
    pub closed spec fn spec_root(&self) -> Node<T> {
        self.root
    }

    /// An empty tree.
    pub fn new() -> (t: Self)
        ensures
            t.wf(),
            t@ == Seq::<T>::empty(),
            t.spec_height() == 1,
            t.leaf_capacity() == Params::LEAF_MAX as nat,
            t.branch_capacity() == Params::BRANCH_MAX as nat,
    {
        Rtree {
            root: Node::Leaf(Vec::new()),
            len: 0,
            height: 1,
            leaf_cap: Ghost(Params::LEAF_MAX as nat),
            branch_cap: Ghost(Params::BRANCH_MAX as nat),
            params: PhantomData,
        }
    }

    /// Bulk-load with top-down Sort-Tile-Recursive packing: the values
    /// are cut into balanced tiles by their centres until each fits a
    /// bulk leaf, giving a balanced tree of the least height whose bulk
    /// capacity holds them. A batch that fits one bulk leaf stays a
    /// single leaf. A caller meets the parameter precondition with the
    /// `lemma_constants` of a shipped parameter set, or by testing
    /// [`bulk_params_ok`](crate::split::bulk_params_ok).
    pub fn from_vec(values: Vec<T>) -> (t: Self)
        requires
            bulk_params_valid::<Params>(),
        ensures
            t.wf(),
            t@.to_multiset() == values@.to_multiset(),
            t.leaf_capacity() == Params::BULK_LEAF_MAX as nat,
            t.branch_capacity() == Params::BULK_BRANCH_MAX as nat,
            values@.len() <= Params::BULK_LEAF_MAX ==> t.spec_height() == 1,
            values@.len() > Params::BULK_LEAF_MAX ==> is_packed_height(
                Params::BULK_LEAF_MAX as nat,
                Params::BULK_BRANCH_MAX as nat,
                values@.len(),
                t.spec_height(),
            ),
    {
        let len = values.len();
        if len <= Params::BULK_LEAF_MAX {
            return Rtree {
                root: Node::Leaf(values),
                len,
                height: 1,
                leaf_cap: Ghost(Params::BULK_LEAF_MAX as nat),
                branch_cap: Ghost(Params::BULK_BRANCH_MAX as nat),
                params: PhantomData,
            };
        }
        let ghost input = values@;
        let (root, height) = str_pack(values, Params::BULK_LEAF_MAX, Params::BULK_BRANCH_MAX);
        proof {
            vstd::seq_lib::to_multiset_len(node_contents(root));
            vstd::seq_lib::to_multiset_len(input);
        }
        Rtree {
            root,
            len,
            height,
            leaf_cap: Ghost(Params::BULK_LEAF_MAX as nat),
            branch_cap: Ghost(Params::BULK_BRANCH_MAX as nat),
            params: PhantomData,
        }
    }

    /// Number of values in the tree.
    pub fn len(&self) -> (r: usize)
        requires
            self.wf(),
        ensures
            r == self@.len(),
    {
        self.len
    }

    /// Whether the tree holds no values.
    pub fn is_empty(&self) -> (r: bool)
        requires
            self.wf(),
        ensures
            r == (self@.len() == 0),
    {
        self.len == 0
    }

    /// The height of the tree (a single-leaf tree is height 1), cached
    /// and returned in constant time.
    pub fn height(&self) -> (r: usize)
        ensures
            r == self.spec_height(),
    {
        self.height
    }

    /// The root node, for inspecting the tree's shape.
    pub fn root(&self) -> (r: &Node<T>)
        ensures
            *r == self.spec_root(),
            self.wf() ==> node_wf(*r, self.spec_height(), self.leaf_capacity(), self.branch_capacity()),
            node_contents(*r) == self@,
    {
        &self.root
    }

    /// Insert one value.
    ///
    /// Descends by least enlargement to a leaf, inserts, and splits and
    /// propagates upward whenever a node overflows; a split root grows a
    /// new root one level taller. The tree keeps its invariant, holds one
    /// more copy of `value`, and its capacities grow to at least the
    /// insertion maxima. A caller meets the parameter precondition with
    /// the `lemma_constants` of a shipped parameter set, or by testing
    /// [`insert_params_ok`](crate::split::insert_params_ok).
    pub fn insert(&mut self, value: T)
        requires
            old(self).wf(),
            insert_params_valid::<Params>(),
            old(self)@.len() < usize::MAX,
            old(self).spec_height() < usize::MAX,
        ensures
            final(self).wf(),
            final(self)@.to_multiset() == old(self)@.to_multiset().insert(value),
            final(self).spec_height() == old(self).spec_height() || final(self).spec_height()
                == old(self).spec_height() + 1,
            final(self).leaf_capacity() == nat_max(old(self).leaf_capacity(), Params::LEAF_MAX as nat),
            final(self).branch_capacity() == nat_max(
                nat_max(old(self).branch_capacity(), Params::BRANCH_MAX as nat),
                2,
            ),
    {
        let ghost lc = nat_max(self.leaf_cap@, Params::LEAF_MAX as nat);
        let ghost bc = nat_max(nat_max(self.branch_cap@, Params::BRANCH_MAX as nat), 2);
        proof {
            lemma_node_wf_caps(self.root, self.height as nat, self.leaf_cap@, self.branch_cap@, lc, bc);
            vstd::seq_lib::to_multiset_len(node_contents(self.root));
        }
        let mut root: Node<T> = Node::Leaf(Vec::new());
        core::mem::swap(&mut root, &mut self.root);
        let ghost before = root;
        let outcome = insert_into::<T, Params>(root, value, Ghost(self.height as nat), Ghost(lc), Ghost(bc));
        match outcome {
            InsertOutcome::Fit(grown) => {
                self.root = grown;
            },
            InsertOutcome::Split(b1, n1, b2, n2) => {
                let ghost e1 = (b1, n1);
                let ghost e2 = (b2, n2);
                let mut children: Vec<(Bounds, Node<T>)> = Vec::new();
                children.push((b1, n1));
                children.push((b2, n2));
                proof {
                    lemma_node_wf_height(n1, self.height as nat, lc, bc);
                    assert(children@ =~= seq![e1, e2]);
                    assert(children@.subrange(0, 1) =~= seq![e1]);
                    lemma_children_contents_single(e1);
                    assert(children_contents(children@) == node_contents(n1) + node_contents(n2));
                    vstd::seq_lib::lemma_multiset_commutative(node_contents(n1), node_contents(n2));
                    lemma_children_wf_all(children@, self.height as nat, lc, bc);
                }
                self.root = Node::Branch(children);
                self.height = self.height + 1;
            },
        }
        self.len = self.len + 1;
        self.leaf_cap = Ghost(lc);
        self.branch_cap = Ghost(bc);
        proof {
            vstd::seq_lib::to_multiset_len(node_contents(self.root));
            vstd::seq_lib::to_multiset_len(node_contents(before));
        }
    }

    /// The `k` values nearest to the query point, closest first.
    ///
    /// Best-first search over node boxes by squared minimum distance.
    /// The result holds `min(k, len)` stored values, in ascending
    /// distance; when every stored box is valid, no value left out is
    /// nearer than any value returned. Among values at equal distance,
    /// which are returned is left to the search order.
    pub fn nearest(&self, query: [i32; 2], k: usize) -> (r: Vec<&T>)
        requires
            self.wf(),
        ensures
            r@.len() == (if k < self@.len() { k as nat } else { self@.len() }),
            r@.unref().to_multiset().subset_of(self@.to_multiset()),
            forall|i: int, j: int|
                0 <= i <= j < r@.len() ==> value_dist(*#[trigger] r@[i], query) <= value_dist(
                    *#[trigger] r@[j],
                    query,
                ),
            boxes_valid(self@) ==> forall|v: T|
                self@.to_multiset().count(v) > r@.unref().to_multiset().count(v) ==> forall|i: int|
                    0 <= i < r@.len() ==> value_dist(*#[trigger] r@[i], query) <= value_dist(v, query),
    {
        if k == 0 || self.len == 0 {
            let r: Vec<&T> = Vec::new();
            proof {
                assert(r@.unref() =~= Seq::<T>::empty());
                crate::seq_facts::lemma_ms_empty(r@.unref());
            }
            return r;
        }
        nearest_search(
            &self.root,
            Ghost(self.height as nat),
            Ghost(self.leaf_cap@),
            Ghost(self.branch_cap@),
            self.len,
            query,
            k,
        )
    }

    /// Lazily walk every stored value, nearest to `query` first: an
    /// unbounded stream ordered by the squared distance from `query` to
    /// each value's box. The caller bounds it by how much it takes; with
    /// no `k` up front nothing is pruned ([`nearest`](Self::nearest)
    /// prunes for a known `k`).
    pub fn nearest_iter(&self, query: [i32; 2]) -> (it: NearestIter<'_, T, DEFAULT_NODE_INLINE_CAPACITY, DEFAULT_VALUE_INLINE_CAPACITY>)
        requires
            self.wf(),
        ensures
            it.wf(),
            it.spec_query() == query,
            it.remaining() == self@.to_multiset(),
            it.boxes_checked() == boxes_valid(self@),
    {
        NearestIter::new(&self.root, query, Ghost(self.height as nat), Ghost(self.leaf_cap@), Ghost(self.branch_cap@))
    }

    /// [`nearest_iter`](Self::nearest_iter) with caller-chosen inline
    /// capacities for the node and value frontiers; entries beyond either
    /// capacity spill that frontier to allocated storage, with the same
    /// order either way.
    pub fn nearest_iter_with_inline_capacities<const NODE_INLINE_CAPACITY: usize, const VALUE_INLINE_CAPACITY: usize>(
        &self,
        query: [i32; 2],
    ) -> (it: NearestIter<'_, T, NODE_INLINE_CAPACITY, VALUE_INLINE_CAPACITY>)
        requires
            self.wf(),
        ensures
            it.wf(),
            it.spec_query() == query,
            it.remaining() == self@.to_multiset(),
            it.boxes_checked() == boxes_valid(self@),
    {
        NearestIter::new(&self.root, query, Ghost(self.height as nat), Ghost(self.leaf_cap@), Ghost(self.branch_cap@))
    }

    /// A depth-first walk over every stored value.
    pub fn iter(&self) -> (it: Values<'_, T>)
        requires
            self.wf(),
        ensures
            it.wf(),
            it.rest() == self@,
    {
        Values::new(&self.root, self.len)
    }

    /// Every value whose bounds satisfy `predicate`, in depth-first
    /// order: [`query_iter`](Self::query_iter) run to its end.
    ///
    /// Subtrees whose box cannot hold a match are pruned; subtrees whose
    /// box guarantees a match are yielded whole. On every tree each stored
    /// value with a valid box that matches is in the result. The result
    /// is exactly the matching values when every stored box is valid, and
    /// on every tree for `Contains` and `Covers`, whose walk drains no
    /// subtree untested and prunes soundly whatever the boxes.
    pub fn query(&self, predicate: Predicate) -> (r: Vec<&T>)
        requires
            self.wf(),
            stack_capacity_fits(self.spec_height(), Params::BRANCH_MAX as nat),
        ensures
            exact_for(predicate, self@) ==> r@.unref() == self@.filter(
                |v: T| predicate.spec_matches_box(v.spec_bounds()),
            ),
            forall|v: T| #[trigger] self@.contains(v) && v.spec_bounds().valid() && predicate.spec_matches_box(
                v.spec_bounds(),
            ) ==> r@.unref().contains(v),
    {
        self.query_iter(predicate).collect_all()
    }

    /// Lazily walk the values whose bounds satisfy `predicate`, in
    /// depth-first order; stopping early traverses nothing past the value
    /// stopped at.
    pub fn query_iter(&self, predicate: Predicate) -> (it: QueryIter<'_, T>)
        requires
            self.wf(),
            stack_capacity_fits(self.spec_height(), Params::BRANCH_MAX as nat),
        ensures
            it.wf(),
            it.predicate() == predicate,
            it.unexamined() == self@,
    {
        QueryIter::new(&self.root, predicate, self.height, Params::BRANCH_MAX, Ghost(self.leaf_cap@), Ghost(self.branch_cap@))
    }

    /// Every value satisfying a composable [`QueryPredicate`] (built with
    /// [`and`](crate::predicate::and), [`not`](crate::predicate::not) or
    /// [`satisfies`](crate::predicate::satisfies)), in depth-first order,
    /// by the same pruning walk as [`query`](Self::query); exact when the
    /// predicate's subtree tests are sound for every stored value
    /// ([`all_sound`]), so in particular when every stored box is valid.
    pub fn query_with<P: QueryPredicate<T>>(&self, predicate: P) -> (r: Vec<&T>)
        requires
            self.wf(),
            predicate.spec_ready(),
            stack_capacity_fits(self.spec_height(), Params::BRANCH_MAX as nat),
        ensures
            all_sound(predicate, self@) ==> r@.unref() == self@.filter(|v: T| predicate.spec_matches(v)),
            boxes_valid(self@) ==> r@.unref() == self@.filter(|v: T| predicate.spec_matches(v)),
            forall|v: T| #[trigger] self@.contains(v) && predicate.spec_sound_for(v) && predicate.spec_matches(v)
                ==> r@.unref().contains(v),
    {
        proof {
            if boxes_valid(self@) {
                lemma_valid_all_sound(predicate, self@);
            }
        }
        let it = QueryWithIter::new(&self.root, predicate, self.height, Params::BRANCH_MAX, Ghost(self.leaf_cap@), Ghost(self.branch_cap@));
        proof {
            assert(match_fn(predicate) =~= |v: T| predicate.spec_matches(v));
        }
        it.collect_all()
    }
}


/// The matching test of a query predicate, as a function on values.
pub open spec fn match_fn<T: Indexable, P: QueryPredicate<T>>(pred: P) -> spec_fn(T) -> bool {
    |v: T| pred.spec_matches(v)
}

/// Filtering empties a sequence when no element passes.
pub proof fn lemma_filter_none<A>(s: Seq<A>, p: spec_fn(A) -> bool)
    requires
        forall|i: int| 0 <= i < s.len() ==> !p(#[trigger] s[i]),
    ensures
        s.filter(p) == Seq::<A>::empty(),
    decreases s.len(),
{
    reveal(Seq::filter);
    if s.len() > 0 {
        let d = s.drop_last();
        assert forall|i: int| 0 <= i < d.len() implies !p(#[trigger] d[i]) by {
            assert(d[i] == s[i]);
        }
        lemma_filter_none(d, p);
    }
}

} // verus!
