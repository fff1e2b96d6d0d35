//! Best-first k-nearest-neighbour search.
//!
//! Unexpanded nodes wait in a [`SearchFrontier`] keyed by the squared
//! distance from the query to their box, popped nearest first; candidate
//! values go through a [`NearestBound`] that keeps the best `k`. A
//! child's box contains everything below it, so popped distances only
//! grow: once the nearest unexpanded node is no nearer than the k-th best
//! value, every value still unseen is at least that far away and the
//! held ranks are final.

use vstd::prelude::*;
use vstd::multiset::Multiset;

use crate::bounds::{Bounds, lemma_distance_monotone, lemma_distance_nonneg};
use crate::indexable::Indexable;
use crate::nearest_bound::{NearestBound, Rank, rank_values};
use crate::node::{
    Node, node_contents, children_contents, node_wf, child_wf, lemma_children_wf_all,
    lemma_children_contents_add, lemma_children_contents_single, lemma_child_contents_within,
    lemma_tight_contains, node_size, children_size, lemma_children_size_front,
};
use crate::rtree::boxes_valid;
use crate::search_frontier::{SearchFrontier, FrontierEntry, entry_le};
use crate::seq_facts::{lemma_ms_empty, lemma_map_ms, lemma_ms_same_members};

verus! {

broadcast use {vstd::multiset::group_multiset_axioms, vstd::multiset::group_multiset_properties};

/// The squared distance from the query point to a value's box.
pub open spec fn value_dist<T: Indexable>(v: T, q: [i32; 2]) -> int {
    v.spec_bounds().spec_comparable_distance(q)
}

/// The values below the active arena nodes.
pub open spec fn pending_ms<T>(nodes: Seq<&Node<T>>, act: Seq<usize>) -> Multiset<T>
    decreases act.len(),
{
    if act.len() == 0 {
        Multiset::empty()
    } else {
        pending_ms(nodes, act.drop_last()).add(node_contents(*nodes[act.last() as int]).to_multiset())
    }
}

/// The values a run of ranks holds.
pub open spec fn held_ms<T>(ranks: Seq<Rank<&T>>) -> Multiset<T> {
    ranks.map_values(|r: Rank<&T>| *r.2).to_multiset()
}

/// The frontier entries of the active arena nodes.
pub open spec fn active_entries(dists: Seq<i128>, act: Seq<usize>) -> Seq<FrontierEntry> {
    act.map_values(|id: usize| (dists[id as int], id))
}

/// Retiring one active node removes exactly its values.
pub(crate) proof fn lemma_pending_remove<T>(nodes: Seq<&Node<T>>, act: Seq<usize>, j: int)
    requires
        0 <= j < act.len(),
    ensures
        pending_ms(nodes, act.remove(j)).add(node_contents(*nodes[act[j] as int]).to_multiset())
            == pending_ms(nodes, act),
    decreases act.len(),
{
    let r = act.remove(j);
    if j == act.len() - 1 {
        assert(r =~= act.drop_last());
    } else {
        lemma_pending_remove(nodes, act.drop_last(), j);
        assert(r.drop_last() =~= act.drop_last().remove(j));
        assert(r.last() == act.last());
        assert(pending_ms(nodes, r) =~= pending_ms(nodes, act.drop_last().remove(j)).add(
            node_contents(*nodes[act.last() as int]).to_multiset(),
        ));
        assert(pending_ms(nodes, r).add(node_contents(*nodes[act[j] as int]).to_multiset())
            =~= pending_ms(nodes, act));
    }
}

/// A pending value lies below some active node.
pub(crate) proof fn lemma_pending_member<T>(nodes: Seq<&Node<T>>, act: Seq<usize>, v: T)
    requires
        pending_ms(nodes, act).count(v) > 0,
    ensures
        exists|j: int| 0 <= j < act.len() && #[trigger] node_contents(*nodes[act[j] as int]).contains(v),
    decreases act.len(),
{
    let last = node_contents(*nodes[act.last() as int]);
    if pending_ms(nodes, act.drop_last()).count(v) > 0 {
        lemma_pending_member(nodes, act.drop_last(), v);
        let j = choose|j: int| 0 <= j < act.drop_last().len() && #[trigger] node_contents(*nodes[act.drop_last()[j] as int]).contains(v);
        assert(act.drop_last()[j] == act[j]);
    } else {
        assert(last.to_multiset().count(v) > 0);
        vstd::seq_lib::to_multiset_contains(last, v);
        assert(node_contents(*nodes[act[act.len() - 1] as int]).contains(v));
    }
}

/// The number of tree nodes below the active arena nodes.
pub open spec fn pending_size<T>(nodes: Seq<&Node<T>>, act: Seq<usize>) -> nat
    decreases act.len(),
{
    if act.len() == 0 {
        0
    } else {
        pending_size(nodes, act.drop_last()) + node_size(*nodes[act.last() as int])
    }
}

/// Retiring one active node removes exactly its node count.
pub(crate) proof fn lemma_pending_size_remove<T>(nodes: Seq<&Node<T>>, act: Seq<usize>, j: int)
    requires
        0 <= j < act.len(),
    ensures
        pending_size(nodes, act.remove(j)) + node_size(*nodes[act[j] as int]) == pending_size(nodes, act),
    decreases act.len(),
{
    let r = act.remove(j);
    if j == act.len() - 1 {
        assert(r =~= act.drop_last());
    } else {
        lemma_pending_size_remove(nodes, act.drop_last(), j);
        assert(r.drop_last() =~= act.drop_last().remove(j));
        assert(r.last() == act.last());
    }
}

/// Growing the arena leaves what the active nodes hold unchanged.
pub(crate) proof fn lemma_pending_extend<T>(nodes: Seq<&Node<T>>, more: Seq<&Node<T>>, act: Seq<usize>)
    requires
        more.len() >= nodes.len(),
        forall|i: int| 0 <= i < nodes.len() ==> more[i] == nodes[i],
        forall|j: int| 0 <= j < act.len() ==> #[trigger] act[j] < nodes.len(),
    ensures
        pending_ms(more, act) == pending_ms(nodes, act),
        pending_size(more, act) == pending_size(nodes, act),
    decreases act.len(),
{
    if act.len() > 0 {
        lemma_pending_extend(nodes, more, act.drop_last());
        assert(act[act.len() - 1] < nodes.len());
    }
}

/// The values of ranks, dereferenced, are the values they hold.
proof fn lemma_held_values<T>(ranks: Seq<Rank<&T>>)
    ensures
        rank_values(ranks).unref() == ranks.map_values(|r: Rank<&T>| *r.2),
{
    assert(rank_values(ranks).unref() =~= ranks.map_values(|r: Rank<&T>| *r.2));
}

/// Admitting a rank adds its value to the held values.
proof fn lemma_held_insert<T>(after: Seq<Rank<&T>>, kept: Seq<Rank<&T>>, r: Rank<&T>)
    requires
        after.to_multiset() == kept.to_multiset().insert(r),
    ensures
        held_ms(after) == held_ms(kept).insert(*r.2),
        forall|x: Rank<&T>| after.contains(x) ==> kept.contains(x) || x == r,
{
    vstd::seq_lib::to_multiset_build(kept, r);
    lemma_map_ms(after, kept.push(r), |x: Rank<&T>| *x.2);
    assert(kept.push(r).map_values(|x: Rank<&T>| *x.2) =~= kept.map_values(|x: Rank<&T>| *x.2).push(*r.2));
    vstd::seq_lib::to_multiset_build(kept.map_values(|x: Rank<&T>| *x.2), *r.2);
    lemma_ms_same_members(after, kept.push(r));
    assert forall|x: Rank<&T>| after.contains(x) implies kept.contains(x) || x == r by {
        if kept.push(r).contains(x) {
            let i = choose|i: int| 0 <= i < kept.push(r).len() && kept.push(r)[i] == x;
            if i < kept.len() {
                assert(kept[i] == x);
            }
        }
    }
}

/// Dropping the last rank removes its value from the held values.
proof fn lemma_held_drop_last<T>(s: Seq<Rank<&T>>)
    requires
        s.len() > 0,
    ensures
        held_ms(s) == held_ms(s.drop_last()).insert(*s.last().2),
{
    assert(s.map_values(|x: Rank<&T>| *x.2) =~= s.drop_last().map_values(|x: Rank<&T>| *x.2).push(*s.last().2));
    vstd::seq_lib::to_multiset_build(s.drop_last().map_values(|x: Rank<&T>| *x.2), *s.last().2);
}

/// The `k` values of the subtree nearest to `query`, nearest first.
pub fn nearest_search<'a, T: Indexable>(
    root: &'a Node<T>,
    Ghost(h): Ghost<nat>,
    Ghost(lc): Ghost<nat>,
    Ghost(bc): Ghost<nat>,
    len: usize,
    query: [i32; 2],
    k: usize,
) -> (r: Vec<&'a T>)
    requires
        node_wf(*root, h, lc, bc),
        len == node_contents(*root).len(),
        k >= 1,
        len >= 1,
    ensures
        r@.len() == (if k < len { k } else { len }),
        r@.unref().to_multiset().subset_of(node_contents(*root).to_multiset()),
        forall|i: int, j: int| 0 <= i <= j < r@.len() ==> value_dist(*#[trigger] r@[i], query) <= value_dist(*#[trigger] r@[j], query),
        boxes_valid(node_contents(*root)) ==> forall|v: T| node_contents(*root).to_multiset().count(v)
            > r@.unref().to_multiset().count(v) ==> forall|i: int| 0 <= i < r@.len() ==> value_dist(*#[trigger] r@[i], query) <= value_dist(v, query),
{
    let ghost total = node_contents(*root).to_multiset();
    let ghost valid = boxes_valid(node_contents(*root));
    let capacity = if k < len { k } else { len };
    let mut ranks: NearestBound<&'a T> = NearestBound::new(k, capacity);
    let mut frontier: SearchFrontier<192> = SearchFrontier::new();
    let mut nodes: Vec<&'a Node<T>> = Vec::new();
    nodes.push(root);
    let ghost mut dists: Seq<i128> = seq![0i128];
    let ghost mut hs: Seq<nat> = seq![h];
    let ghost mut act: Seq<usize> = seq![0usize];
    let ghost mut settled: Multiset<T> = Multiset::empty();
    frontier.push((0, 0));
    proof {
        assert(nodes@[0] == root);
        vstd::seq_lib::to_multiset_len(node_contents(*root));
        assert(active_entries(dists, act) =~= seq![(0i128, 0usize)]);
        crate::seq_facts::lemma_ms_singleton((0i128, 0usize));
        assert(pending_ms(nodes@, act) =~= total) by {
            assert(act.drop_last() =~= Seq::<usize>::empty());
            assert(pending_ms(nodes@, Seq::<usize>::empty()) =~= Multiset::<T>::empty());
            assert(act.last() == 0);
        }
        lemma_ms_empty(ranks.view().map_values(|x: Rank<&T>| *x.2));
        assert(total =~= held_ms(ranks.view()).add(settled).add(pending_ms(nodes@, act)));
        if valid {
            assert forall|v: T| #[trigger] node_contents(*nodes@[0]).contains(v) implies value_dist(v, query) >= dists[0] && v.spec_bounds().valid() by {
                lemma_distance_nonneg(v.spec_bounds(), query);
            }
        }
    }
    loop
        invariant_except_break
            valid == boxes_valid(node_contents(*root)),
            total == node_contents(*root).to_multiset(),
            total.len() == len,
            k >= 1,
            nodes@.len() == dists.len(),
            nodes@.len() == hs.len(),
            forall|id: int| 0 <= id < nodes@.len() ==> #[trigger] node_wf(*nodes@[id], hs[id], lc, bc),
            valid ==> forall|id: int, v: T| 0 <= id < nodes@.len() && #[trigger] node_contents(*nodes@[id]).contains(v)
                ==> value_dist(v, query) >= dists[id] && v.spec_bounds().valid(),
            forall|j: int| 0 <= j < act.len() ==> #[trigger] act[j] < nodes@.len(),
            frontier.wf(),
            frontier.view() == active_entries(dists, act).to_multiset(),
            ranks.wf(),
            ranks.spec_k() == k,
            forall|i: int| 0 <= i < ranks.view().len() ==> #[trigger] ranks.view()[i].0 == value_dist(*ranks.view()[i].2, query),
            total == held_ms(ranks.view()).add(settled).add(pending_ms(nodes@, act)),
            settled.len() > 0 ==> ranks.view().len() == k,
            valid ==> forall|v: T| #[trigger] settled.count(v) > 0 ==> (ranks.spec_bound() matches Some(b) && value_dist(v, query) >= b),
            ranks.spec_next_ordinal() <= held_ms(ranks.view()).len() + settled.len(),
        ensures
            ranks.wf(),
            ranks.spec_k() == k,
            total == held_ms(ranks.view()).add(settled),
            forall|i: int| 0 <= i < ranks.view().len() ==> #[trigger] ranks.view()[i].0 == value_dist(*ranks.view()[i].2, query),
            settled.len() > 0 ==> ranks.view().len() == k,
            valid ==> forall|v: T| #[trigger] settled.count(v) > 0 ==> (ranks.spec_bound() matches Some(b) && value_dist(v, query) >= b),
        decreases pending_size(nodes@, act),
    {
        let ghost before_pop = frontier.view();
        let ghost budget = pending_size(nodes@, act);
        let popped = frontier.pop();
        match popped {
            None => {
                proof {
                    vstd::seq_lib::to_multiset_len(active_entries(dists, act));
                    assert(act.len() == 0);
                    assert(pending_ms(nodes@, act) =~= Multiset::<T>::empty());
                    assert(total =~= held_ms(ranks.view()).add(settled));
                }
                break;
            },
            Some(entry) => {
                let d = entry.0;
                let id = entry.1;
                let ghost entries = active_entries(dists, act);
                proof {
                    vstd::seq_lib::to_multiset_contains(entries, entry);
                }
                let ghost j = choose|j: int| 0 <= j < entries.len() && entries[j] == entry;
                proof {
                    assert(act[j] == id && dists[id as int] == d);
                }
                let bound = ranks.bound();
                let stop = match bound {
                    Some(b) => d >= b,
                    None => false,
                };
                if stop {
                    proof {
                        ranks.lemma_held_count();
                        if valid {
                            assert forall|v: T| #[trigger] settled.add(pending_ms(nodes@, act)).count(v) > 0 implies (ranks.spec_bound() matches Some(b) && value_dist(v, query) >= b) by {
                                if pending_ms(nodes@, act).count(v) > 0 {
                                    lemma_pending_member(nodes@, act, v);
                                    let jj = choose|jj: int| 0 <= jj < act.len() && #[trigger] node_contents(*nodes@[act[jj] as int]).contains(v);
                                    assert(entries[jj] == (dists[act[jj] as int], act[jj]));
                                    vstd::seq_lib::to_multiset_contains(entries, entries[jj]);
                                    assert(entry_le(entry, entries[jj]));
                                }
                            }
                        }
                        settled = settled.add(pending_ms(nodes@, act));
                        act = Seq::empty();
                        assert(pending_ms(nodes@, act) =~= Multiset::<T>::empty());
                        assert(total =~= held_ms(ranks.view()).add(settled));
                    }
                    break;
                }
                proof {
                    lemma_pending_remove(nodes@, act, j);
                    lemma_pending_size_remove(nodes@, act, j);
                    let old_act = act;
                    act = act.remove(j);
                    assert(active_entries(dists, act) =~= entries.remove(j));
                    vstd::seq_lib::to_multiset_remove(entries, j);
                    assert forall|jj: int| 0 <= jj < act.len() implies #[trigger] act[jj] < nodes@.len() by {
                        if jj < j {
                            assert(act[jj] == old_act[jj]);
                        } else {
                            assert(act[jj] == old_act[jj + 1]);
                        }
                    }
                }
                let node = nodes[id];
                let ghost node_values = node_contents(*node);
                proof {
                    assert(node_wf(*node, hs[id as int], lc, bc));
                    assert(total =~= held_ms(ranks.view()).add(settled).add(pending_ms(nodes@, act)).add(
                        node_values.to_multiset(),
                    ));
                }
                match node {
                    Node::Leaf(values) => {
                        let mut i: usize = 0;
                        proof {
                            assert(values@.skip(0) =~= values@);
                        }
                        while i < values.len()
                            invariant
                                valid == boxes_valid(node_contents(*root)),
                                total.len() == len,
                                k >= 1,
                                i <= values@.len(),
                                node_values == values@,
                                valid ==> forall|v: T| #[trigger] values@.contains(v) ==> v.spec_bounds().valid(),
                                ranks.wf(),
                                ranks.spec_k() == k,
                                forall|ii: int| 0 <= ii < ranks.view().len() ==> #[trigger] ranks.view()[ii].0 == value_dist(*ranks.view()[ii].2, query),
                                total == held_ms(ranks.view()).add(settled).add(pending_ms(nodes@, act)).add(
                                    values@.skip(i as int).to_multiset(),
                                ),
                                settled.len() > 0 ==> ranks.view().len() == k,
                                valid ==> forall|v: T| #[trigger] settled.count(v) > 0 ==> (ranks.spec_bound() matches Some(b) && value_dist(v, query) >= b),
                                ranks.spec_next_ordinal() <= held_ms(ranks.view()).len() + settled.len(),
                                pending_size(nodes@, act) < budget,
                            decreases values@.len() - i,
                        {
                            let value = &values[i];
                            let ghost v = values@[i as int];
                            proof {
                                assert(values@.skip(i as int) =~= seq![v] + values@.skip(i + 1));
                                vstd::seq_lib::lemma_multiset_commutative(seq![v], values@.skip(i + 1));
                                crate::seq_facts::lemma_ms_singleton(v);
                                vstd::seq_lib::to_multiset_len(values@.skip(i as int));
                                assert(values@.contains(v));
                            }
                            let dist = value.bounds().comparable_min_distance_to(query);
                            let bound = ranks.bound();
                            let accept = match bound {
                                Some(b) => dist < b,
                                None => true,
                            };
                            if accept {
                                let ghost old_view = ranks.view();
                                let ghost full = old_view.len() == k;
                                let ghost rank: Rank<&'a T> = (dist, ranks.spec_next_ordinal() as usize, value);
                                proof {
                                    vstd::seq_lib::to_multiset_len(old_view.map_values(|x: Rank<&T>| *x.2));
                                }
                                ranks.admit_better(dist, value);
                                proof {
                                    let kept = if full { old_view.drop_last() } else { old_view };
                                    lemma_held_insert(ranks.view(), kept, rank);
                                    if full {
                                        lemma_held_drop_last(old_view);
                                        let evicted = *old_view.last().2;
                                        assert(old_view.last() == old_view[old_view.len() - 1]);
                                        let old_settled = settled;
                                        settled = settled.insert(evicted);
                                        if valid {
                                            assert forall|w: T| #[trigger] settled.count(w) > 0 implies (ranks.spec_bound() matches Some(b) && value_dist(w, query) >= b) by {
                                                if w != evicted {
                                                    assert(old_settled.count(w) > 0);
                                                }
                                            }
                                        }
                                    } else {
                                        if valid {
                                            assert(settled.len() == 0);
                                            assert forall|w: T| #[trigger] settled.count(w) > 0 implies (ranks.spec_bound() matches Some(b) && value_dist(w, query) >= b) by {
                                            }
                                        }
                                    }
                                    assert forall|ii: int| 0 <= ii < ranks.view().len() implies #[trigger] ranks.view()[ii].0 == value_dist(*ranks.view()[ii].2, query) by {
                                        assert(ranks.view().contains(ranks.view()[ii]));
                                        if kept.contains(ranks.view()[ii]) {
                                            let m = choose|m: int| 0 <= m < kept.len() && kept[m] == ranks.view()[ii];
                                            assert(old_view[m] == kept[m]);
                                        }
                                    }
                                    vstd::seq_lib::to_multiset_len(ranks.view().map_values(|x: Rank<&T>| *x.2));
                                    vstd::seq_lib::to_multiset_len(kept.map_values(|x: Rank<&T>| *x.2));
                                    assert(total =~= held_ms(ranks.view()).add(settled).add(pending_ms(nodes@, act)).add(
                                        values@.skip(i + 1).to_multiset(),
                                    ));
                                }
                            } else {
                                proof {
                                    ranks.lemma_held_count();
                                    assert(ranks.view().len() == k);
                                    let old_settled = settled;
                                    settled = settled.insert(v);
                                    if valid {
                                        assert forall|w: T| #[trigger] settled.count(w) > 0 implies (ranks.spec_bound() matches Some(b) && value_dist(w, query) >= b) by {
                                            if w != v {
                                                assert(old_settled.count(w) > 0);
                                            }
                                        }
                                    }
                                    assert(total =~= held_ms(ranks.view()).add(settled).add(pending_ms(nodes@, act)).add(
                                        values@.skip(i + 1).to_multiset(),
                                    ));
                                }
                            }
                            i = i + 1;
                        }
                        proof {
                            assert(values@.skip(values@.len() as int) =~= Seq::<T>::empty());
                            lemma_ms_empty(values@.skip(values@.len() as int));
                            assert(total =~= held_ms(ranks.view()).add(settled).add(pending_ms(nodes@, act)));
                        }
                    },
                    Node::Branch(children) => {
                        let ghost parent_h = hs[id as int];
                        let ghost parent = id as int;
                        proof {
                            lemma_children_wf_all(children@, (parent_h - 1) as nat, lc, bc);
                            assert(children@.skip(0) =~= children@);
                            assert(node_size(*node) == 1 + children_size(children@));
                        }
                        let mut i: usize = 0;
                        while i < children.len()
                            invariant
                                valid == boxes_valid(node_contents(*root)),
                                total.len() == len,
                                k >= 1,
                                i <= children@.len(),
                                *nodes@[parent] == Node::<T>::Branch(*children),
                                0 <= parent < nodes@.len(),
                                parent_h >= 2,
                                forall|c: int| 0 <= c < children@.len() ==> #[trigger] child_wf(children@[c], (parent_h - 1) as nat, lc, bc),
                                nodes@.len() == dists.len(),
                                nodes@.len() == hs.len(),
                                forall|nid: int| 0 <= nid < nodes@.len() ==> #[trigger] node_wf(*nodes@[nid], hs[nid], lc, bc),
                                valid ==> forall|nid: int, v: T| 0 <= nid < nodes@.len() && #[trigger] node_contents(*nodes@[nid]).contains(v)
                                    ==> value_dist(v, query) >= dists[nid] && v.spec_bounds().valid(),
                                forall|jj: int| 0 <= jj < act.len() ==> #[trigger] act[jj] < nodes@.len(),
                                frontier.wf(),
                                frontier.view() == active_entries(dists, act).to_multiset(),
                                ranks.wf(),
                                ranks.spec_k() == k,
                                ranks.spec_bound() == bound,
                                total == held_ms(ranks.view()).add(settled).add(pending_ms(nodes@, act)).add(
                                    children_contents(children@.skip(i as int)).to_multiset(),
                                ),
                                settled.len() > 0 ==> ranks.view().len() == k,
                                valid ==> forall|v: T| #[trigger] settled.count(v) > 0 ==> (ranks.spec_bound() matches Some(b) && value_dist(v, query) >= b),
                                ranks.spec_next_ordinal() <= held_ms(ranks.view()).len() + settled.len(),
                                pending_size(nodes@, act) + children_size(children@.skip(i as int)) < budget,
                            decreases children@.len() - i,
                        {
                            let entry = &children[i];
                            let ghost c = children@[i as int];
                            let ghost sub = node_contents(c.1);
                            proof {
                                let rest = children@.skip(i + 1);
                                assert(children@.skip(i as int) =~= seq![c] + rest);
                                lemma_children_contents_add(seq![c], rest);
                                lemma_children_contents_single(c);
                                vstd::seq_lib::lemma_multiset_commutative(sub, children_contents(rest));
                                lemma_child_contents_within(children@, i as int);
                                assert(child_wf(c, (parent_h - 1) as nat, lc, bc));
                                lemma_children_size_front(c, rest);
                            }
                            let dist = entry.0.comparable_min_distance_to(query);
                            let descend = match bound {
                                Some(b) => dist < b,
                                None => true,
                            };
                            if descend {
                                let child_id = nodes.len();
                                let ghost old_nodes = nodes@;
                                nodes.push(&entry.1);
                                proof {
                                    lemma_pending_extend(old_nodes, nodes@, act);
                                    assert(nodes@[child_id as int] == &entry.1);
                                    let old_entries = active_entries(dists, act);
                                    let old_act = act;
                                    dists = dists.push(dist);
                                    hs = hs.push((parent_h - 1) as nat);
                                    act = act.push(child_id);
                                    assert(act.drop_last() =~= old_act);
                                    assert(act.last() == child_id);
                                    assert(active_entries(dists, act) =~= old_entries.push((dist, child_id)));
                                    vstd::seq_lib::to_multiset_build(old_entries, (dist, child_id));
                                    assert(act.drop_last() =~= act.subrange(0, act.len() - 1));
                                    assert(pending_ms(nodes@, act) == pending_ms(nodes@, act.drop_last()).add(sub.to_multiset()));
                                    assert(pending_size(nodes@, act) == pending_size(nodes@, act.drop_last()) + node_size(c.1));
                                }
                                frontier.push((dist, child_id));
                                proof {
                                    if valid {
                                        assert forall|nid: int, v: T| 0 <= nid < nodes@.len() && #[trigger] node_contents(*nodes@[nid]).contains(v)
                                            implies value_dist(v, query) >= dists[nid] && v.spec_bounds().valid() by {
                                            if nid == child_id {
                                                assert(node_contents(*nodes@[parent]).contains(v));
                                                let m = choose|m: int| 0 <= m < sub.len() && sub[m] == v;
                                                lemma_tight_contains(c.0, sub, m);
                                                lemma_distance_monotone(c.0, v.spec_bounds(), query);
                                            }
                                        }
                                    }
                                    assert(total =~= held_ms(ranks.view()).add(settled).add(pending_ms(nodes@, act)).add(
                                        children_contents(children@.skip(i + 1)).to_multiset(),
                                    ));
                                }
                            } else {
                                proof {
                                    ranks.lemma_held_count();
                                    assert(ranks.view().len() == k);
                                    let old_settled = settled;
                                    settled = settled.add(sub.to_multiset());
                                    if valid {
                                        assert forall|w: T| #[trigger] settled.count(w) > 0 implies (ranks.spec_bound() matches Some(b) && value_dist(w, query) >= b) by {
                                            if old_settled.count(w) == 0 {
                                                vstd::seq_lib::to_multiset_contains(sub, w);
                                                assert(node_contents(*nodes@[parent]).contains(w));
                                                let m = choose|m: int| 0 <= m < sub.len() && sub[m] == w;
                                                lemma_tight_contains(c.0, sub, m);
                                                lemma_distance_monotone(c.0, w.spec_bounds(), query);
                                            }
                                        }
                                    }
                                    assert(sub.len() > 0);
                                    assert(total =~= held_ms(ranks.view()).add(settled).add(pending_ms(nodes@, act)).add(
                                        children_contents(children@.skip(i + 1)).to_multiset(),
                                    ));
                                }
                            }
                            i = i + 1;
                        }
                        proof {
                            assert(children@.skip(children@.len() as int) =~= Seq::<(Bounds, Node<T>)>::empty());
                            lemma_ms_empty(children_contents(children@.skip(children@.len() as int)));
                            assert(total =~= held_ms(ranks.view()).add(settled).add(pending_ms(nodes@, act)));
                        }
                    },
                }
            },
        }
    }
    let ghost final_view = ranks.view();
    proof {
        ranks.lemma_last_is_farthest();
        ranks.lemma_held_count();
        lemma_held_values(final_view);
        vstd::seq_lib::to_multiset_len(final_view.map_values(|x: Rank<&T>| *x.2));
    }
    let r = ranks.into_values();
    proof {
        assert(r@.unref() == final_view.map_values(|x: Rank<&T>| *x.2));
        assert forall|i: int| 0 <= i < r@.len() implies *#[trigger] r@[i] == *final_view[i].2 by {}
        assert(held_ms(final_view).len() == final_view.len());
        if final_view.len() < k {
            assert(settled.len() == 0);
            assert(held_ms(final_view) =~= total);
        }
        assert forall|i: int, j: int| 0 <= i <= j < r@.len() implies value_dist(*#[trigger] r@[i], query) <= value_dist(*#[trigger] r@[j], query) by {
            assert(*r@[i] == *final_view[i].2);
            assert(*r@[j] == *final_view[j].2);
            assert(final_view[i].0 == value_dist(*final_view[i].2, query));
            assert(final_view[j].0 == value_dist(*final_view[j].2, query));
            assert(final_view[i].0 <= final_view[j].0);
        }
        if valid {
            assert forall|v: T| total.count(v) > r@.unref().to_multiset().count(v) implies forall|i: int| 0 <= i < r@.len() ==> value_dist(*#[trigger] r@[i], query) <= value_dist(v, query) by {
                assert(r@.unref().to_multiset() == held_ms(final_view));
                assert(settled.count(v) > 0);
                assert forall|i: int| 0 <= i < r@.len() implies value_dist(*#[trigger] r@[i], query) <= value_dist(v, query) by {
                    assert(*r@[i] == *final_view[i].2);
                    assert(final_view[i].0 == value_dist(*final_view[i].2, query));
                    assert(final_view[i].0 <= final_view.last().0);
                }
            }
        }
    }
    r
}

} // verus!
