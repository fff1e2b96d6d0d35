//! Unbounded nearest-first streaming.
//!
//! A best-first walk over two [`SearchFrontier`]s: one holds unexpanded
//! nodes keyed by the squared distance from the query to their box, the
//! other holds values keyed by their own squared distance. Each call to
//! [`NearestIter::next`] expands nodes until the closest pending value is
//! no farther than the closest unexpanded node, then yields that value.
//! A child's box lies inside its parent's, so every entry an expansion
//! pushes is at least as far as the node it came from: a value that is
//! yielded is no farther than anything still unseen.
//!
//! Frontier entries rank arena identifiers; the arenas hold the nodes
//! and values the walk has reached.

use vstd::prelude::*;
use vstd::multiset::Multiset;

use crate::bounds::{Bounds, lemma_distance_monotone, lemma_distance_nonneg};
use crate::indexable::Indexable;
use crate::nearest::{
    value_dist, pending_ms, pending_size, active_entries, lemma_pending_remove,
    lemma_pending_member, lemma_pending_size_remove, lemma_pending_extend,
};
use crate::node::{
    Node, node_contents, children_contents, node_wf, child_wf, lemma_children_wf_all,
    lemma_child_contents_within,
    lemma_tight_contains, node_size, children_size, };
use crate::search_frontier::{SearchFrontier, FrontierEntry, entry_le};
use crate::seq_facts::lemma_ms_empty;

verus! {

broadcast use {vstd::multiset::group_multiset_axioms, vstd::multiset::group_multiset_properties};

/// Default inline entry capacity of a nearest walk's node frontier.
pub const DEFAULT_NODE_INLINE_CAPACITY: usize = 32;

/// Default inline entry capacity of a nearest walk's value frontier.
pub const DEFAULT_VALUE_INLINE_CAPACITY: usize = 64;

/// `v` is a value of `m`, and no value of `m` is nearer to `q`.
pub open spec fn nearest_of<T: Indexable>(m: Multiset<T>, v: T, q: [i32; 2]) -> bool {
    &&& m.count(v) > 0
    &&& forall|w: T| #[trigger] m.count(w) > 0 ==> value_dist(v, q) <= value_dist(w, q)
}

/// `ys` takes values of `m` one at a time, each a nearest to `q` of those
/// not yet taken: what successive calls of [`NearestIter::next`] yield
/// on a walk whose boxes are valid.
pub open spec fn nearest_first<T: Indexable>(m: Multiset<T>, ys: Seq<T>, q: [i32; 2]) -> bool
    decreases ys.len(),
{
    if ys.len() == 0 {
        true
    } else {
        nearest_of(m, ys[0], q) && nearest_first(m.remove(ys[0]), ys.drop_first(), q)
    }
}

/// A sequence's multiset is its first item and the multiset of the rest.
proof fn lemma_ms_cons<A>(ys: Seq<A>)
    requires
        ys.len() > 0,
    ensures
        ys.to_multiset() == ys.drop_first().to_multiset().insert(ys[0]),
{
    broadcast use vstd::seq_lib::group_to_multiset_ensures;
    assert(ys.remove(0) =~= ys.drop_first());
    assert(ys.contains(ys[0]));
    assert(ys.to_multiset() =~= ys.drop_first().to_multiset().insert(ys[0]));
}

/// Taking `y` first and then `b` leaves what taking both at once does.
proof fn lemma_sub_insert<A>(m: Multiset<A>, y: A, b: Multiset<A>)
    requires
        m.count(y) > 0,
    ensures
        m.sub(b.insert(y)) == m.remove(y).sub(b),
{
    assert(m.sub(b.insert(y)) =~= m.remove(y).sub(b));
}

/// Adding then taking away the same values gives back what was there.
proof fn lemma_add_sub<A>(a: Multiset<A>, b: Multiset<A>)
    ensures
        a.add(b).sub(b) == a,
{
    assert(a.add(b).sub(b) =~= a);
}

/// A nearest-first sequence extends by a nearest value of what it has
/// not taken.
proof fn lemma_nearest_first_push<T: Indexable>(m: Multiset<T>, ys: Seq<T>, v: T, q: [i32; 2])
    requires
        nearest_first(m, ys, q),
        nearest_of(m.sub(ys.to_multiset()), v, q),
    ensures
        nearest_first(m, ys.push(v), q),
    decreases ys.len(),
{
    if ys.len() == 0 {
        lemma_ms_empty(ys);
        assert(m.sub(ys.to_multiset()) =~= m);
        assert(ys.push(v).drop_first() =~= Seq::<T>::empty());
        assert(ys.push(v)[0] == v);
        assert(nearest_first(m.remove(v), ys.push(v).drop_first(), q));
    } else {
        let y = ys[0];
        lemma_ms_cons(ys);
        lemma_sub_insert(m, y, ys.drop_first().to_multiset());
        lemma_nearest_first_push(m.remove(y), ys.drop_first(), v, q);
        assert(ys.push(v).drop_first() =~= ys.drop_first().push(v));
        assert(ys.push(v)[0] == y);
    }
}

/// The first values of a nearest-first walk are, distance by distance,
/// the nearest values. If `ys` takes values of `m` nearest first (what
/// successive calls of [`NearestIter::next`] yield on a walk whose boxes
/// are valid), and `xs` is as many values of `m`, in order of distance,
/// none farther than a value of `m` it leaves out (what
/// [`Rtree::nearest`](crate::rtree::Rtree::nearest) returns on such a
/// tree), then `xs[i]` and `ys[i]` are equally far from `q` for every `i`.
pub proof fn lemma_nearest_first_matches_nearest<T: Indexable>(m: Multiset<T>, ys: Seq<T>, xs: Seq<T>, q: [i32; 2])
    requires
        nearest_first(m, ys, q),
        xs.len() == ys.len(),
        xs.to_multiset().subset_of(m),
        forall|i: int, j: int|
            0 <= i <= j < xs.len() ==> value_dist(#[trigger] xs[i], q) <= value_dist(#[trigger] xs[j], q),
        forall|v: T|
            m.count(v) > xs.to_multiset().count(v) ==> forall|i: int|
                0 <= i < xs.len() ==> value_dist(#[trigger] xs[i], q) <= value_dist(v, q),
    ensures
        forall|i: int| 0 <= i < xs.len() ==> value_dist(#[trigger] xs[i], q) == value_dist(ys[i], q),
    decreases ys.len(),
{
    broadcast use vstd::seq_lib::group_to_multiset_ensures;
    if ys.len() > 0 {
        let y = ys[0];
        let delta = value_dist(y, q);
        let xm = xs.to_multiset();
        let m2 = m.remove(y);
        let ys2 = ys.drop_first();
        assert forall|i: int| 0 <= i < xs.len() implies value_dist(#[trigger] xs[i], q) >= delta by {
            assert(xs.contains(xs[i]));
            assert(m.count(xs[i]) > 0);
        }
        if xm.count(y) > 0 {
            assert(xs.contains(y));
            let j = choose|j: int| 0 <= j < xs.len() && xs[j] == y;
            let xs2 = xs.remove(j);
            assert(xs2.to_multiset() == xm.remove(y));
            assert forall|i: int| 0 <= i < xs2.len() implies #[trigger] xs2[i] == (if i < j { xs[i] } else { xs[i + 1] }) by {}
            assert forall|i: int, k: int| 0 <= i <= k < xs2.len() implies value_dist(#[trigger] xs2[i], q) <= value_dist(#[trigger] xs2[k], q) by {
                let a = if i < j { i } else { i + 1 };
                let b = if k < j { k } else { k + 1 };
                assert(xs2[i] == xs[a] && xs2[k] == xs[b]);
                assert(value_dist(xs[a], q) <= value_dist(xs[b], q));
            }
            assert forall|v: T| m2.count(v) > xs2.to_multiset().count(v) implies forall|i: int|
                0 <= i < xs2.len() ==> value_dist(#[trigger] xs2[i], q) <= value_dist(v, q) by {
                assert(m.count(v) > xm.count(v));
                assert forall|i: int| 0 <= i < xs2.len() implies value_dist(#[trigger] xs2[i], q) <= value_dist(v, q) by {
                    let a = if i < j { i } else { i + 1 };
                    assert(xs2[i] == xs[a]);
                    assert(value_dist(xs[a], q) <= value_dist(v, q));
                }
            }
            assert(xs2.to_multiset().subset_of(m2));
            lemma_nearest_first_matches_nearest(m2, ys2, xs2, q);
            assert forall|i: int| 0 <= i < xs.len() implies value_dist(#[trigger] xs[i], q) == value_dist(ys[i], q) by {
                assert(value_dist(xs[0], q) <= value_dist(xs[j], q));
                if i == 0 {
                } else if i <= j {
                    assert(value_dist(xs[i], q) <= value_dist(xs[j], q));
                    assert(value_dist(xs[i - 1], q) <= value_dist(xs[j], q));
                    assert(xs2[i - 1] == xs[i - 1]);
                    assert(ys2[i - 1] == ys[i]);
                } else {
                    assert(xs2[i - 1] == xs[i]);
                    assert(ys2[i - 1] == ys[i]);
                }
            }
        } else {
            assert(m.count(y) > xm.count(y));
            let xs2 = xs.drop_first();
            lemma_ms_cons(xs);
            assert forall|v: T| m2.count(v) > xs2.to_multiset().count(v) implies forall|i: int|
                0 <= i < xs2.len() ==> value_dist(#[trigger] xs2[i], q) <= value_dist(v, q) by {
                assert(m.count(v) > 0);
                assert forall|i: int| 0 <= i < xs2.len() implies value_dist(#[trigger] xs2[i], q) <= value_dist(v, q) by {
                    assert(xs2[i] == xs[i + 1]);
                    assert(value_dist(xs[i + 1], q) <= delta);
                }
            }
            assert forall|i: int, k: int| 0 <= i <= k < xs2.len() implies value_dist(#[trigger] xs2[i], q) <= value_dist(#[trigger] xs2[k], q) by {
                assert(xs2[i] == xs[i + 1] && xs2[k] == xs[k + 1]);
            }
            assert(xs2.to_multiset().subset_of(m2));
            lemma_nearest_first_matches_nearest(m2, ys2, xs2, q);
            assert forall|i: int| 0 <= i < xs.len() implies value_dist(#[trigger] xs[i], q) == value_dist(ys[i], q) by {
                assert(value_dist(xs[i], q) <= delta);
                if i > 0 {
                    assert(xs2[i - 1] == xs[i]);
                    assert(ys2[i - 1] == ys[i]);
                }
            }
        }
    }
}

/// The values the live value identifiers name.
pub open spec fn live_values_ms<T>(arena: Seq<&T>, live: Seq<usize>) -> Multiset<T> {
    live.map_values(|id: usize| *arena[id as int]).to_multiset()
}

/// Retiring one live value removes exactly that value.
proof fn lemma_live_values_remove<T>(arena: Seq<&T>, live: Seq<usize>, j: int)
    requires
        0 <= j < live.len(),
    ensures
        live_values_ms(arena, live).count(*arena[live[j] as int]) > 0,
        live_values_ms(arena, live.remove(j)) == live_values_ms(arena, live).remove(*arena[live[j] as int]),
{
    let f = |id: usize| *arena[id as int];
    let m = live.map_values(f);
    assert(live.remove(j).map_values(f) =~= m.remove(j));
    vstd::seq_lib::to_multiset_remove(m, j);
    vstd::seq_lib::to_multiset_contains(m, m[j]);
    assert(m.contains(m[j]));
}

/// A live value is named by some live identifier.
proof fn lemma_live_values_member<T>(arena: Seq<&T>, live: Seq<usize>, w: T)
    requires
        live_values_ms(arena, live).count(w) > 0,
    ensures
        exists|j: int| 0 <= j < live.len() && *arena[#[trigger] live[j] as int] == w,
{
    let m = live.map_values(|id: usize| *arena[id as int]);
    vstd::seq_lib::to_multiset_contains(m, w);
    let j = choose|j: int| 0 <= j < m.len() && m[j] == w;
    assert(*arena[live[j] as int] == w);
}

/// Adding a value to the arena and making it live adds exactly it.
proof fn lemma_live_values_push<T>(arena: Seq<&T>, live: Seq<usize>, v: &T, id: usize)
    requires
        id == arena.len(),
        forall|j: int| 0 <= j < live.len() ==> #[trigger] live[j] < arena.len(),
    ensures
        live_values_ms(arena.push(v), live.push(id)) == live_values_ms(arena, live).insert(*v),
{
    let f = |id: usize| *arena[id as int];
    let g = |id: usize| *arena.push(v)[id as int];
    assert(live.map_values(g) =~= live.map_values(f)) by {
        assert forall|j: int| 0 <= j < live.len() implies live.map_values(g)[j] == live.map_values(f)[j] by {
            assert(live[j] < arena.len());
        }
    }
    assert(live.push(id).map_values(g) =~= live.map_values(f).push(*v));
    vstd::seq_lib::to_multiset_build(live.map_values(f), *v);
}

/// Frontier entries after adding an identifier past every live one.
proof fn lemma_active_push(dists: Seq<i128>, live: Seq<usize>, d: i128, id: usize)
    requires
        id == dists.len(),
        forall|j: int| 0 <= j < live.len() ==> #[trigger] live[j] < dists.len(),
    ensures
        active_entries(dists.push(d), live.push(id)).to_multiset()
            == active_entries(dists, live).to_multiset().insert((d, id)),
{
    let e = active_entries(dists, live);
    assert(active_entries(dists.push(d), live.push(id)) =~= e.push((d, id))) by {
        assert forall|j: int| 0 <= j < live.len() implies active_entries(dists.push(d), live.push(id))[j] == e[j] by {
            assert(live[j] < dists.len());
        }
    }
    vstd::seq_lib::to_multiset_build(e, (d, id));
}

/// Frontier entries after retiring one identifier.
proof fn lemma_active_remove(dists: Seq<i128>, live: Seq<usize>, j: int)
    requires
        0 <= j < live.len(),
    ensures
        active_entries(dists, live.remove(j)).to_multiset() == active_entries(dists, live).to_multiset().remove(
            active_entries(dists, live)[j],
        ),
{
    let e = active_entries(dists, live);
    assert(active_entries(dists, live.remove(j)) =~= e.remove(j));
    vstd::seq_lib::to_multiset_remove(e, j);
}

/// A lazy walk over every value of a subtree, nearest to a query point
/// first: values come out in non-decreasing squared distance from the
/// query to their box. Both frontiers keep up to their inline capacity
/// of entries before spilling to allocated storage.
pub struct NearestIter<'a, T, const NODE_INLINE_CAPACITY: usize, const VALUE_INLINE_CAPACITY: usize> {
    query: [i32; 2],
    nodes: SearchFrontier<NODE_INLINE_CAPACITY>,
    values: SearchFrontier<VALUE_INLINE_CAPACITY>,
    node_arena: Vec<&'a Node<T>>,
    value_arena: Vec<&'a T>,
    node_dists: Ghost<Seq<i128>>,
    node_heights: Ghost<Seq<nat>>,
    live_nodes: Ghost<Seq<usize>>,
    value_dists: Ghost<Seq<i128>>,
    live_values: Ghost<Seq<usize>>,
    leaf_cap: Ghost<nat>,
    branch_cap: Ghost<nat>,
    checked: Ghost<bool>,
    high_water: usize,
}

impl<'a, T: Indexable, const NODE_INLINE_CAPACITY: usize, const VALUE_INLINE_CAPACITY: usize> NearestIter<
    'a,
    T,
    NODE_INLINE_CAPACITY,
    VALUE_INLINE_CAPACITY,
> {
    /// The query point.
    pub closed spec fn spec_query(&self) -> [i32; 2] {
        self.query
    }

    /// Whether every value the walk started with has a valid box; the
    /// distance order is promised for such walks.
    pub closed spec fn boxes_checked(&self) -> bool {
        self.checked@
    }

    /// How many entries the two frontiers hold together.
    pub closed spec fn spec_frontier_len(&self) -> nat {
        self.nodes.view().len() + self.values.view().len()
    }

    /// The most entries the two frontiers have held at once, counted
    /// after each expansion (saturating at `usize::MAX`).
    pub closed spec fn spec_high_water(&self) -> nat {
        self.high_water as nat
    }

    /// How many entries have been pushed onto the two frontiers, the
    /// root included: every pushed entry is kept in an arena.
    pub closed spec fn spec_pushes(&self) -> nat {
        self.node_arena@.len() + self.value_arena@.len()
    }

    /// The values not yet yielded.
    pub closed spec fn remaining(&self) -> Multiset<T> {
        pending_ms(self.node_arena@, self.live_nodes@).add(live_values_ms(self.value_arena@, self.live_values@))
    }

    /// How many tree nodes are still to be expanded.
    closed spec fn unexpanded(&self) -> nat {
        pending_size(self.node_arena@, self.live_nodes@)
    }

    /// The walk's invariant: both frontiers rank exactly the live
    /// identifiers by their recorded distances, every arena node is well
    /// formed, and (for checked walks) a node's distance bounds the
    /// distance of every value below it.
    pub closed spec fn wf(&self) -> bool {
        &&& self.arenas_ok()
        &&& self.node_frontier_ok()
        &&& self.value_frontier_ok()
        &&& self.high_water_ok()
    }

    /// The high-water mark is at least what the frontiers hold now.
    closed spec fn high_water_ok(&self) -> bool {
        self.spec_frontier_len() <= self.high_water || self.high_water == usize::MAX
    }

    /// The arenas and the live identifiers are consistent.
    closed spec fn arenas_ok(&self) -> bool {
        &&& self.node_arena@.len() == self.node_dists@.len()
        &&& self.node_arena@.len() == self.node_heights@.len()
        &&& forall|id: int| 0 <= id < self.node_arena@.len() ==> #[trigger] node_wf(*self.node_arena@[id], self.node_heights@[id], self.leaf_cap@, self.branch_cap@)
        &&& self.checked@ ==> forall|id: int, v: T| 0 <= id < self.node_arena@.len() && #[trigger] node_contents(*self.node_arena@[id]).contains(v)
            ==> value_dist(v, self.query) >= self.node_dists@[id] && v.spec_bounds().valid()
        &&& forall|j: int| 0 <= j < self.live_nodes@.len() ==> #[trigger] self.live_nodes@[j] < self.node_arena@.len()
        &&& self.value_arena@.len() == self.value_dists@.len()
        &&& forall|id: int| 0 <= id < self.value_arena@.len() ==> #[trigger] self.value_dists@[id] == value_dist(*self.value_arena@[id], self.query)
        &&& self.checked@ ==> forall|id: int| 0 <= id < self.value_arena@.len() ==> (#[trigger] self.value_arena@[id]).spec_bounds().valid()
        &&& forall|j: int| 0 <= j < self.live_values@.len() ==> #[trigger] self.live_values@[j] < self.value_arena@.len()
    }

    /// The node frontier ranks exactly the live nodes.
    closed spec fn node_frontier_ok(&self) -> bool {
        &&& self.nodes.wf()
        &&& self.nodes.view() == active_entries(self.node_dists@, self.live_nodes@).to_multiset()
    }

    /// The value frontier ranks exactly the live values.
    closed spec fn value_frontier_ok(&self) -> bool {
        &&& self.values.wf()
        &&& self.values.view() == active_entries(self.value_dists@, self.live_values@).to_multiset()
    }

    /// A walk over the subtree `root` of height `h`, nearest to `query`
    /// first.
    pub(crate) fn new(root: &'a Node<T>, query: [i32; 2], Ghost(h): Ghost<nat>, Ghost(lc): Ghost<nat>, Ghost(bc): Ghost<nat>) -> (it: Self)
        requires
            node_wf(*root, h, lc, bc),
        ensures
            it.wf(),
            it.spec_query() == query,
            it.remaining() == node_contents(*root).to_multiset(),
            it.boxes_checked() == crate::rtree::boxes_valid(node_contents(*root)),
            it.spec_pushes() == 1,
            it.spec_high_water() == 1,
    {
        let ghost checked = crate::rtree::boxes_valid(node_contents(*root));
        let mut nodes: SearchFrontier<NODE_INLINE_CAPACITY> = SearchFrontier::new();
        nodes.push((0, 0));
        let mut node_arena: Vec<&'a Node<T>> = Vec::new();
        node_arena.push(root);
        let ghost node_dists: Seq<i128> = seq![0i128];
        let ghost node_heights: Seq<nat> = seq![h];
        let ghost live_nodes: Seq<usize> = seq![0usize];
        let ghost value_dists: Seq<i128> = Seq::empty();
        let ghost live_values: Seq<usize> = Seq::empty();
        let it = NearestIter {
            query,
            nodes,
            values: SearchFrontier::new(),
            node_arena,
            value_arena: Vec::new(),
            node_dists: Ghost(node_dists),
            node_heights: Ghost(node_heights),
            live_nodes: Ghost(live_nodes),
            value_dists: Ghost(value_dists),
            live_values: Ghost(live_values),
            leaf_cap: Ghost(lc),
            branch_cap: Ghost(bc),
            checked: Ghost(checked),
            high_water: 1,
        };
        proof {
            assert(it.node_arena@[0] == root);
            assert(active_entries(node_dists, live_nodes) =~= seq![(0i128, 0usize)]);
            crate::seq_facts::lemma_ms_singleton((0i128, 0usize));
            assert(live_nodes.drop_last() =~= Seq::<usize>::empty());
            assert(pending_ms(it.node_arena@, Seq::<usize>::empty()) =~= Multiset::<T>::empty());
            assert(pending_ms(it.node_arena@, live_nodes) =~= node_contents(*root).to_multiset());
            lemma_ms_empty(live_values.map_values(|id: usize| *it.value_arena@[id as int]));
            lemma_ms_empty(active_entries(value_dists, live_values));
            if checked {
                assert forall|id: int, v: T| 0 <= id < it.node_arena@.len() && #[trigger] node_contents(*it.node_arena@[id]).contains(v)
                    implies value_dist(v, query) >= it.node_dists@[id] && v.spec_bounds().valid() by {
                    lemma_distance_nonneg(v.spec_bounds(), query);
                }
            }
            assert(it.remaining() =~= node_contents(*root).to_multiset());
        }
        it
    }

    /// The next value, nearest first, or `None` once every value has
    /// been yielded. Each value comes out exactly once; in a checked walk
    /// the value yielded is no farther from the query than any value
    /// still to come.
    pub fn next(&mut self) -> (r: Option<&'a T>)
        requires
            old(self).wf(),
        ensures
            final(self).wf(),
            final(self).spec_query() == old(self).spec_query(),
            final(self).boxes_checked() == old(self).boxes_checked(),
            r is None <==> old(self).remaining().len() == 0,
            r is None ==> final(self).remaining() == old(self).remaining(),
            r matches Some(v) ==> old(self).remaining().count(*v) > 0 && final(self).remaining()
                == old(self).remaining().remove(*v),
            r matches Some(v) ==> (old(self).boxes_checked() ==> forall|w: T|
                old(self).remaining().count(w) > 0 ==> value_dist(*v, old(self).spec_query()) <= value_dist(w, old(self).spec_query())),
            final(self).spec_high_water() >= old(self).spec_high_water(),
    {
        let ghost start = self.remaining();
        loop
            invariant
                self.wf(),
                self.high_water >= old(self).high_water,
                self.query == old(self).query,
                self.checked == old(self).checked,
                start == old(self).remaining(),
                self.remaining() == start,
            decreases self.unexpanded(),
        {
            let node_peek = self.nodes.peek();
            let value_peek = self.values.peek();
            let take_value = match value_peek {
                Some(ve) => match node_peek {
                    Some(ne) => ve.0 <= ne.0,
                    None => true,
                },
                None => false,
            };
            if take_value {
                let ghost vview = self.values.view();
                let ghost nview = self.nodes.view();
                let ghost lv = self.live_values@;
                let ghost ln = self.live_nodes@;
                let popped = self.values.pop();
                let e = popped.unwrap();
                let id = e.1;
                let ghost entries = active_entries(self.value_dists@, lv);
                proof {
                    vstd::seq_lib::to_multiset_contains(entries, e);
                }
                let ghost j = choose|j: int| 0 <= j < entries.len() && entries[j] == e;
                proof {
                    assert(lv[j] == id);
                    assert(self.value_dists@[id as int] == e.0);
                    lemma_active_remove(self.value_dists@, lv, j);
                    lemma_live_values_remove(self.value_arena@, lv, j);
                    self.live_values = Ghost(lv.remove(j));
                    assert forall|jj: int| 0 <= jj < self.live_values@.len() implies #[trigger] self.live_values@[jj] < self.value_arena@.len() by {
                        if jj < j {
                            assert(self.live_values@[jj] == lv[jj]);
                        } else {
                            assert(self.live_values@[jj] == lv[jj + 1]);
                        }
                    }
                }
                let v = self.value_arena[id];
                proof {
                    let pend = pending_ms(self.node_arena@, ln);
                    let lvm = live_values_ms(self.value_arena@, lv);
                    assert(start == pend.add(lvm));
                    assert(self.remaining() =~= start.remove(*v));
                    assert(e.0 == value_dist(*v, self.query));
                    if self.checked@ {
                        let ve = value_peek->0;
                        assert(vview.count(ve) > 0);
                        assert(entry_le(e, ve));
                        assert forall|w: T| start.count(w) > 0 implies value_dist(*v, self.query) <= value_dist(w, self.query) by {
                            if lvm.count(w) > 0 {
                                lemma_live_values_member(self.value_arena@, lv, w);
                                let jj = choose|jj: int| 0 <= jj < lv.len() && *self.value_arena@[#[trigger] lv[jj] as int] == w;
                                assert(entries[jj] == (self.value_dists@[lv[jj] as int], lv[jj]));
                                vstd::seq_lib::to_multiset_contains(entries, entries[jj]);
                                assert(entry_le(e, entries[jj]));
                            } else {
                                assert(pend.count(w) > 0);
                                lemma_pending_member(self.node_arena@, ln, w);
                                let jj = choose|jj: int| 0 <= jj < ln.len() && #[trigger] node_contents(*self.node_arena@[ln[jj] as int]).contains(w);
                                let nentries = active_entries(self.node_dists@, ln);
                                assert(nentries[jj] == (self.node_dists@[ln[jj] as int], ln[jj]));
                                vstd::seq_lib::to_multiset_contains(nentries, nentries[jj]);
                                assert(nview.count(nentries[jj]) > 0);
                                let ne = node_peek->0;
                                assert(entry_le(ne, nentries[jj]));
                            }
                        }
                    }
                }
                return Some(v);
            }
            let ghost ln = self.live_nodes@;
            let ghost before = self.unexpanded();
            let popped = self.nodes.pop();
            match popped {
                None => {
                    proof {
                        let nentries = active_entries(self.node_dists@, ln);
                        vstd::seq_lib::to_multiset_len(nentries);
                        vstd::seq_lib::to_multiset_len(active_entries(self.value_dists@, self.live_values@));
                        assert(ln.len() == 0);
                        assert(self.live_values@.len() == 0);
                        assert(pending_ms(self.node_arena@, ln) =~= Multiset::<T>::empty());
                        lemma_ms_empty(self.live_values@.map_values(|id: usize| *self.value_arena@[id as int]));
                        assert(start =~= Multiset::<T>::empty());
                    }
                    return None;
                },
                Some(e) => {
                    let id = e.1;
                    let ghost entries = active_entries(self.node_dists@, ln);
                    proof {
                        vstd::seq_lib::to_multiset_contains(entries, e);
                    }
                    let ghost j = choose|j: int| 0 <= j < entries.len() && entries[j] == e;
                    proof {
                        assert(ln[j] == id);
                        lemma_active_remove(self.node_dists@, ln, j);
                        lemma_pending_remove(self.node_arena@, ln, j);
                        lemma_pending_size_remove(self.node_arena@, ln, j);
                        self.live_nodes = Ghost(ln.remove(j));
                        assert forall|jj: int| 0 <= jj < self.live_nodes@.len() implies #[trigger] self.live_nodes@[jj] < self.node_arena@.len() by {
                            if jj < j {
                                assert(self.live_nodes@[jj] == ln[jj]);
                            } else {
                                assert(self.live_nodes@[jj] == ln[jj + 1]);
                            }
                        }
                    }
                    let node: &'a Node<T> = self.node_arena[id];
                    let ghost h = self.node_heights@[id as int];
                    proof {
                        assert(node_wf(*node, h, self.leaf_cap@, self.branch_cap@));
                        assert(self.remaining().add(node_contents(*node).to_multiset()) =~= start);
                        assert(self.unexpanded() + node_size(*node) == before);
                    }
                    match node {
                        Node::Leaf(values) => {
                            proof {
                                assert(node_contents(*node) == values@);
                            }
                            self.expand_leaf(values);
                        },
                        Node::Branch(children) => {
                            proof {
                                assert(node_size(*node) == 1 + children_size(children@));
                            }
                            self.expand_branch(node, children, Ghost(h));
                        },
                    }
                },
            }
        }
    }

    /// Make every value of a popped leaf live in the value frontier,
    /// pushed as one batch.
    fn expand_leaf(&mut self, values: &'a Vec<T>)
        requires
            old(self).wf(),
            old(self).checked@ ==> forall|v: T| values@.contains(v) ==> v.spec_bounds().valid(),
        ensures
            final(self).wf(),
            final(self).remaining() == old(self).remaining().add(values@.to_multiset()),
            final(self).unexpanded() == old(self).unexpanded(),
            final(self).query == old(self).query,
            final(self).checked == old(self).checked,
            final(self).high_water >= old(self).high_water,
    {
        let ghost start = self.remaining();
        let ghost frontier = self.values.view();
        let mut batch: Vec<FrontierEntry> = Vec::new();
        let mut i: usize = 0;
        proof {
            lemma_ms_empty(values@.subrange(0, 0));
            lemma_ms_empty(batch@);
            assert(start =~= start.add(values@.subrange(0, 0).to_multiset()));
            assert(frontier =~= frontier.add(batch@.to_multiset()));
        }
        while i < values.len()
            invariant
                self.arenas_ok(),
                self.node_frontier_ok(),
                self.values.wf(),
                self.values.view() == frontier,
                self.high_water == old(self).high_water,
                frontier.add(batch@.to_multiset()) == active_entries(self.value_dists@, self.live_values@).to_multiset(),
                i <= values@.len(),
                self.query == old(self).query,
                self.checked == old(self).checked,
                self.node_arena@ == old(self).node_arena@,
                self.live_nodes == old(self).live_nodes,
                self.checked@ ==> forall|v: T| values@.contains(v) ==> v.spec_bounds().valid(),
                start == old(self).remaining(),
                self.remaining() == start.add(values@.subrange(0, i as int).to_multiset()),
            decreases values@.len() - i,
        {
            let value = &values[i];
            let dist = value.bounds().comparable_min_distance_to(self.query);
            let id = self.value_arena.len();
            proof {
                lemma_live_values_push(self.value_arena@, self.live_values@, value, id);
                lemma_active_push(self.value_dists@, self.live_values@, dist, id);
                assert(values@.contains(values@[i as int]));
            }
            let ghost old_values_arena = self.value_arena@;
            let ghost old_remaining = self.remaining();
            let ghost old_batch = batch@;
            batch.push((dist, id));
            self.value_arena.push(value);
            proof {
                let old_live = self.live_values@;
                assert(self.value_arena@ == old_values_arena.push(value));
                self.value_dists = Ghost(self.value_dists@.push(dist));
                self.live_values = Ghost(self.live_values@.push(id));
                assert forall|j: int| 0 <= j < self.live_values@.len() implies #[trigger] self.live_values@[j] < self.value_arena@.len() by {
                    if j < old_live.len() {
                        assert(self.live_values@[j] == old_live[j]);
                    }
                }
                vstd::seq_lib::to_multiset_build(old_batch, (dist, id));
                assert(frontier.add(batch@.to_multiset()) =~= frontier.add(old_batch.to_multiset()).insert((dist, id)));
                assert(values@.subrange(0, i + 1) =~= values@.subrange(0, i as int).push(values@[i as int]));
                vstd::seq_lib::to_multiset_build(values@.subrange(0, i as int), values@[i as int]);
                assert(live_values_ms(self.value_arena@, self.live_values@) == live_values_ms(old_values_arena, old_live).insert(*value));
                assert(self.remaining() == old_remaining.insert(*value));
                assert(*value == values@[i as int]);
                assert(self.remaining() =~= start.add(values@.subrange(0, i + 1).to_multiset()));
            }
            i = i + 1;
        }
        self.values.extend(batch);
        self.note_high_water();
        proof {
            assert(values@.subrange(0, values@.len() as int) =~= values@);
        }
    }

    /// Make every child of a popped branch live in the node frontier,
    /// keyed by the distance to its box.
    fn expand_branch(&mut self, node: &'a Node<T>, children: &'a Vec<(Bounds, Node<T>)>, Ghost(h): Ghost<nat>)
        requires
            old(self).wf(),
            *node == Node::<T>::Branch(*children),
            node_wf(*node, h, old(self).leaf_cap@, old(self).branch_cap@),
            old(self).checked@ ==> forall|v: T| node_contents(*node).contains(v) ==> v.spec_bounds().valid(),
        ensures
            final(self).wf(),
            final(self).remaining() == old(self).remaining().add(node_contents(*node).to_multiset()),
            final(self).unexpanded() == old(self).unexpanded() + children_size(children@),
            final(self).query == old(self).query,
            final(self).checked == old(self).checked,
            final(self).high_water >= old(self).high_water,
    {
        let ghost start = self.remaining();
        let ghost base = self.unexpanded();
        let ghost lc = self.leaf_cap@;
        let ghost bc = self.branch_cap@;
        let ghost cs = children@;
        let ghost frontier = self.nodes.view();
        let mut batch: Vec<FrontierEntry> = Vec::new();
        proof {
            lemma_ms_empty(batch@);
            assert(frontier =~= frontier.add(batch@.to_multiset()));
            lemma_children_wf_all(cs, (h - 1) as nat, lc, bc);
            assert(cs.subrange(0, 0) =~= Seq::<(Bounds, Node<T>)>::empty());
            lemma_ms_empty(children_contents(cs.subrange(0, 0)));
            assert(start =~= start.add(children_contents(cs.subrange(0, 0)).to_multiset()));
        }
        let mut i: usize = 0;
        while i < children.len()
            invariant
                self.arenas_ok(),
                self.value_frontier_ok(),
                self.nodes.wf(),
                self.nodes.view() == frontier,
                self.high_water == old(self).high_water,
                frontier.add(batch@.to_multiset()) == active_entries(self.node_dists@, self.live_nodes@).to_multiset(),
                i <= cs.len(),
                cs == children@,
                *node == Node::<T>::Branch(*children),
                h >= 2,
                forall|c: int| 0 <= c < cs.len() ==> #[trigger] child_wf(cs[c], (h - 1) as nat, lc, bc),
                self.leaf_cap@ == lc,
                self.branch_cap@ == bc,
                self.query == old(self).query,
                self.checked == old(self).checked,
                self.checked@ ==> forall|v: T| node_contents(*node).contains(v) ==> v.spec_bounds().valid(),
                start == old(self).remaining(),
                base == old(self).unexpanded(),
                self.remaining() == start.add(children_contents(cs.subrange(0, i as int)).to_multiset()),
                self.unexpanded() == base + children_size(cs.subrange(0, i as int)),
            decreases cs.len() - i,
        {
            let entry = &children[i];
            let ghost c = cs[i as int];
            let ghost sub = node_contents(c.1);
            let dist = entry.0.comparable_min_distance_to(self.query);
            let id = self.node_arena.len();
            let ghost old_arena = self.node_arena@;
            let ghost old_live = self.live_nodes@;
            let ghost old_remaining = self.remaining();
            proof {
                lemma_active_push(self.node_dists@, self.live_nodes@, dist, id);
                lemma_child_contents_within(cs, i as int);
                assert(node_contents(*node) == children_contents(cs));
                assert(child_wf(c, (h - 1) as nat, lc, bc));
            }
            let ghost old_batch = batch@;
            batch.push((dist, id));
            self.node_arena.push(&entry.1);
            proof {
                lemma_pending_extend(old_arena, self.node_arena@, old_live);
                self.node_dists = Ghost(self.node_dists@.push(dist));
                self.node_heights = Ghost(self.node_heights@.push((h - 1) as nat));
                self.live_nodes = Ghost(old_live.push(id));
                assert(self.node_arena@[id as int] == &entry.1);
                vstd::seq_lib::to_multiset_build(old_batch, (dist, id));
                assert(frontier.add(batch@.to_multiset()) =~= frontier.add(old_batch.to_multiset()).insert((dist, id)));
                assert(self.live_nodes@.drop_last() =~= old_live);
                assert(pending_ms(self.node_arena@, self.live_nodes@) == pending_ms(self.node_arena@, old_live).add(sub.to_multiset()));
                assert(pending_size(self.node_arena@, self.live_nodes@) == pending_size(self.node_arena@, old_live) + node_size(c.1));
                assert forall|j: int| 0 <= j < self.live_nodes@.len() implies #[trigger] self.live_nodes@[j] < self.node_arena@.len() by {
                    if j < old_live.len() {
                        assert(self.live_nodes@[j] == old_live[j]);
                    }
                }
                assert forall|nid: int| 0 <= nid < self.node_arena@.len() implies #[trigger] node_wf(*self.node_arena@[nid], self.node_heights@[nid], lc, bc) by {
                    if nid < old_arena.len() {
                        assert(self.node_arena@[nid] == old_arena[nid]);
                    }
                }
                if self.checked@ {
                    assert forall|nid: int, v: T| 0 <= nid < self.node_arena@.len() && #[trigger] node_contents(*self.node_arena@[nid]).contains(v)
                        implies value_dist(v, self.query) >= self.node_dists@[nid] && v.spec_bounds().valid() by {
                        if nid == id {
                            assert(node_contents(*node).contains(v));
                            let m = choose|m: int| 0 <= m < sub.len() && sub[m] == v;
                            lemma_tight_contains(c.0, sub, m);
                            lemma_distance_monotone(c.0, v.spec_bounds(), self.query);
                        } else {
                            assert(self.node_arena@[nid] == old_arena[nid]);
                        }
                    }
                }
                let prev = cs.subrange(0, i as int);
                assert(cs.subrange(0, i + 1).subrange(0, i as int) =~= prev);
                assert(cs.subrange(0, i + 1)[i as int] == c);
                assert(children_contents(cs.subrange(0, i + 1)) == children_contents(prev) + sub);
                assert(children_size(cs.subrange(0, i + 1)) == children_size(prev) + node_size(c.1));
                vstd::seq_lib::lemma_multiset_commutative(children_contents(prev), sub);
                assert(pending_ms(self.node_arena@, old_live) == pending_ms(old_arena, old_live));
                assert(self.remaining() =~= old_remaining.add(sub.to_multiset()));
                assert(self.remaining() =~= start.add(children_contents(cs.subrange(0, i + 1)).to_multiset()));
            }
            i = i + 1;
        }
        self.nodes.extend(batch);
        self.note_high_water();
        proof {
            assert(cs.subrange(0, cs.len() as int) =~= cs);
        }
    }

    /// Raise the high-water mark to what the frontiers hold now.
    fn note_high_water(&mut self)
        requires
            old(self).nodes.wf(),
            old(self).values.wf(),
        ensures
            final(self).high_water >= old(self).high_water,
            final(self).high_water_ok(),
            final(self).nodes == old(self).nodes,
            final(self).values == old(self).values,
            final(self).node_arena == old(self).node_arena,
            final(self).value_arena == old(self).value_arena,
            final(self).node_dists == old(self).node_dists,
            final(self).node_heights == old(self).node_heights,
            final(self).live_nodes == old(self).live_nodes,
            final(self).value_dists == old(self).value_dists,
            final(self).live_values == old(self).live_values,
            final(self).leaf_cap == old(self).leaf_cap,
            final(self).branch_cap == old(self).branch_cap,
            final(self).checked == old(self).checked,
            final(self).query == old(self).query,
    {
        let total = self.nodes.len().saturating_add(self.values.len());
        if total > self.high_water {
            self.high_water = total;
        }
    }

    /// The next `k` values, nearest first: what `k` calls of
    /// [`next`](Self::next) yield, stopping early once the walk is
    /// exhausted.
    pub fn take(&mut self, k: usize) -> (r: Vec<&'a T>)
        requires
            old(self).wf(),
        ensures
            final(self).wf(),
            final(self).spec_query() == old(self).spec_query(),
            final(self).boxes_checked() == old(self).boxes_checked(),
            r@.len() == (if k < old(self).remaining().len() { k as nat } else { old(self).remaining().len() }),
            old(self).remaining() == final(self).remaining().add(r@.unref().to_multiset()),
            old(self).boxes_checked() ==> nearest_first(old(self).remaining(), r@.unref(), old(self).spec_query()),
    {
        let mut r: Vec<&'a T> = Vec::new();
        let ghost start = self.remaining();
        let ghost q = self.spec_query();
        let ghost checked = self.boxes_checked();
        proof {
            assert(r@.unref() =~= Seq::<T>::empty());
            lemma_ms_empty(r@.unref());
            assert(start =~= self.remaining().add(r@.unref().to_multiset()));
        }
        while r.len() < k
            invariant
                self.wf(),
                self.spec_query() == q,
                self.boxes_checked() == checked,
                r@.len() <= k,
                start == self.remaining().add(r@.unref().to_multiset()),
                checked ==> nearest_first(start, r@.unref(), q),
            ensures
                self.wf(),
                self.spec_query() == q,
                self.boxes_checked() == checked,
                r@.len() <= k,
                start == self.remaining().add(r@.unref().to_multiset()),
                checked ==> nearest_first(start, r@.unref(), q),
                r@.len() == k || self.remaining().len() == 0,
            decreases k - r@.len(),
        {
            let ghost before = self.remaining();
            let ghost prev = r@.unref();
            match self.next() {
                Some(v) => {
                    r.push(v);
                    proof {
                        broadcast use vstd::seq_lib::group_to_multiset_ensures;
                        assert(r@.unref() =~= prev.push(*v));
                        lemma_add_sub(before, prev.to_multiset());
                        if checked {
                            lemma_nearest_first_push(start, prev, *v, q);
                        }
                        assert(start =~= self.remaining().add(r@.unref().to_multiset()));
                    }
                },
                None => {
                    break;
                },
            }
        }
        proof {
            broadcast use vstd::seq_lib::group_to_multiset_ensures;
            assert(start.len() == self.remaining().len() + r@.unref().len());
        }
        r
    }

    /// How many entries have been pushed onto the two frontiers, the root
    /// included (saturating at `usize::MAX`).
    pub fn frontier_pushes(&self) -> (n: usize)
        ensures
            n as nat == (if self.spec_pushes() <= usize::MAX { self.spec_pushes() } else { usize::MAX as nat }),
    {
        self.node_arena.len().saturating_add(self.value_arena.len())
    }

    /// The most entries the two frontiers have held at once; never less
    /// than they hold now.
    pub fn frontier_high_water(&self) -> (n: usize)
        requires
            self.wf(),
        ensures
            n == self.spec_high_water(),
            self.spec_frontier_len() <= n || n == usize::MAX,
    {
        self.high_water
    }
}

} // verus!
