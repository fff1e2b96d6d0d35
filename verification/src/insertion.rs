//! Insertion: the least-enlargement descent, and the leaf and branch
//! splits that keep an overflowing node within capacity.

use vstd::prelude::*;

use crate::bounds::{Bounds, union_all};
use crate::indexable::Indexable;
use crate::node::{
    Node, node_contents, children_contents, node_wf, child_wf, value_boxes, recorded_boxes, lemma_children_wf_all, lemma_children_contents_add,
    lemma_children_contents_single, lemma_child_contents_within, lemma_tight_children,
    lemma_tight_insert,
};
use crate::seq_facts::{lemma_ms_empty, lemma_same_members_len};
use crate::split::{SplitParameters, insert_params_valid, is_partition, range_seq, lemma_partition_facts};

verus! {

broadcast use vstd::multiset::group_multiset_axioms;

/// What inserting into a subtree leaves behind: the subtree itself, or
/// the two halves it split into, each with its box.
pub enum InsertOutcome<T> {
    /// The subtree absorbed the value.
    Fit(Node<T>),
    /// The subtree split into two boxed halves.
    Split(Bounds, Node<T>, Bounds, Node<T>),
}

/// The entries of `s` whose flag equals `want`, in order.
pub open spec fn select<E>(s: Seq<E>, flags: Seq<bool>, want: bool) -> Seq<E>
    decreases s.len(),
{
    if s.len() == 0 {
        Seq::empty()
    } else {
        let rest = select(s.drop_last(), flags.take(s.len() - 1), want);
        if flags[s.len() - 1] == want {
            rest.push(s.last())
        } else {
            rest
        }
    }
}

/// Selecting from two sequences of the same length gives results of the
/// same length.
proof fn lemma_select_len<E, F>(a: Seq<E>, b: Seq<F>, flags: Seq<bool>, want: bool)
    requires
        a.len() == b.len(),
    ensures
        select(a, flags, want).len() == select(b, flags, want).len(),
    decreases a.len(),
{
    if a.len() > 0 {
        lemma_select_len(a.drop_last(), b.drop_last(), flags.take(a.len() - 1), want);
    }
}

/// The two selections split the multiset of `s`, and each holds only
/// members of `s`.
proof fn lemma_select_ms<E>(s: Seq<E>, flags: Seq<bool>)
    ensures
        select(s, flags, true).to_multiset().add(select(s, flags, false).to_multiset())
            == s.to_multiset(),
        forall|x: E| #[trigger] select(s, flags, true).contains(x) ==> s.contains(x),
        forall|x: E| #[trigger] select(s, flags, false).contains(x) ==> s.contains(x),
    decreases s.len(),
{
    if s.len() == 0 {
        lemma_ms_empty(s);
        lemma_ms_empty(select(s, flags, true));
        lemma_ms_empty(select(s, flags, false));
        assert(select(s, flags, true).to_multiset().add(select(s, flags, false).to_multiset())
            =~= s.to_multiset());
    } else {
        let d = s.drop_last();
        let f = flags.take(s.len() - 1);
        lemma_select_ms(d, f);
        vstd::seq_lib::to_multiset_build(d, s.last());
        assert(d.push(s.last()) =~= s);
        let t = select(d, f, true);
        let u = select(d, f, false);
        vstd::seq_lib::to_multiset_build(t, s.last());
        vstd::seq_lib::to_multiset_build(u, s.last());
        assert(select(s, flags, true).to_multiset().add(select(s, flags, false).to_multiset())
            =~= s.to_multiset());
        assert forall|x: E| #[trigger] select(s, flags, true).contains(x) implies s.contains(x) by {
            if t.contains(x) {
                let k = choose|k: int| 0 <= k < d.len() && d[k] == x;
                assert(s[k] == x);
            } else {
                let k = choose|k: int| 0 <= k < select(s, flags, true).len() && select(s, flags, true)[k] == x;
                assert(k == t.len());
                assert(s[s.len() - 1] == x);
            }
        }
        assert forall|x: E| #[trigger] select(s, flags, false).contains(x) implies s.contains(x) by {
            if u.contains(x) {
                let k = choose|k: int| 0 <= k < d.len() && d[k] == x;
                assert(s[k] == x);
            } else {
                let k = choose|k: int| 0 <= k < select(s, flags, false).len() && select(s, flags, false)[k] == x;
                assert(k == u.len());
                assert(s[s.len() - 1] == x);
            }
        }
    }
}

/// The selected children hold, between them, all the values of the run.
proof fn lemma_select_children<T>(cs: Seq<(Bounds, Node<T>)>, flags: Seq<bool>)
    ensures
        children_contents(select(cs, flags, true)).to_multiset().add(
            children_contents(select(cs, flags, false)).to_multiset(),
        ) == children_contents(cs).to_multiset(),
    decreases cs.len(),
{
    if cs.len() == 0 {
        lemma_ms_empty(children_contents(cs));
        lemma_ms_empty(children_contents(select(cs, flags, true)));
        lemma_ms_empty(children_contents(select(cs, flags, false)));
        assert(children_contents(select(cs, flags, true)).to_multiset().add(
            children_contents(select(cs, flags, false)).to_multiset(),
        ) =~= children_contents(cs).to_multiset());
    } else {
        let d = cs.subrange(0, cs.len() - 1);
        assert(d =~= cs.drop_last());
        let f = flags.take(cs.len() - 1);
        let last = cs[cs.len() - 1];
        lemma_select_children(d, f);
        let t = select(d, f, true);
        let u = select(d, f, false);
        let lm = node_contents(last.1).to_multiset();
        assert(children_contents(cs) == children_contents(d) + node_contents(last.1));
        vstd::seq_lib::lemma_multiset_commutative(children_contents(d), node_contents(last.1));
        lemma_children_contents_add(t, seq![last]);
        lemma_children_contents_add(u, seq![last]);
        lemma_children_contents_single(last);
        assert(t.push(last) =~= t + seq![last]);
        assert(u.push(last) =~= u + seq![last]);
        vstd::seq_lib::lemma_multiset_commutative(children_contents(t), node_contents(last.1));
        vstd::seq_lib::lemma_multiset_commutative(children_contents(u), node_contents(last.1));
        assert(children_contents(select(cs, flags, true)).to_multiset().add(
            children_contents(select(cs, flags, false)).to_multiset(),
        ) =~= children_contents(cs).to_multiset());
    }
}

/// Selecting the flagged positions `0..n` lists, without repetition,
/// exactly the positions whose flag equals `want`.
proof fn lemma_select_positions(n: nat, flags: Seq<bool>, want: bool)
    requires
        flags.len() == n,
        n <= usize::MAX + 1,
    ensures
        select(range_seq(n), flags, want).no_duplicates(),
        forall|j: usize| #[trigger] select(range_seq(n), flags, want).contains(j) <==> (j < n
            && flags[j as int] == want),
    decreases n,
{
    let r = range_seq(n);
    let sel = select(r, flags, want);
    if n == 0 {
        assert(sel.len() == 0);
    } else {
        let m = (n - 1) as nat;
        let f = flags.take(m as int);
        lemma_select_positions(m, f, want);
        assert(r.drop_last() =~= range_seq(m));
        let prev = select(range_seq(m), f, want);
        assert(r.last() == m as usize);
        assert forall|j: usize| #[trigger] sel.contains(j) <==> (j < n && flags[j as int] == want) by {
            if sel.contains(j) {
                let k = choose|k: int| 0 <= k < sel.len() && sel[k] == j;
                if k < prev.len() {
                    assert(prev.contains(j));
                    assert(f[j as int] == flags[j as int]);
                }
            }
            if j < n && flags[j as int] == want {
                if j < m {
                    assert(f[j as int] == flags[j as int]);
                    assert(prev.contains(j));
                    let k = choose|k: int| 0 <= k < prev.len() && prev[k] == j;
                    assert(sel[k] == j);
                } else {
                    assert(sel[sel.len() - 1] == j);
                }
            }
        }
        if flags[n - 1] == want {
            assert forall|a: int, b: int| 0 <= a < sel.len() && 0 <= b < sel.len() && a != b
                implies sel[a] != sel[b] by {
                if a < prev.len() && b < prev.len() {
                } else if a < prev.len() {
                    assert(prev.contains(sel[a]));
                } else {
                    assert(prev.contains(sel[b]));
                }
            }
        }
    }
}

/// Move the entries of `taken` into two vectors by their flags, keeping
/// their order.
fn route<E>(taken: Vec<E>, flags: &Vec<bool>) -> (r: (Vec<E>, Vec<E>))
    requires
        flags@.len() == taken@.len(),
    ensures
        r.0@ == select(taken@, flags@, true),
        r.1@ == select(taken@, flags@, false),
{
    let ghost orig = taken@;
    let n = taken.len();
    let mut rest = taken;
    let mut first: Vec<E> = Vec::new();
    let mut second: Vec<E> = Vec::new();
    let mut i: usize = 0;
    proof {
        assert(orig.take(0).len() == 0);
        assert(first@ =~= select(orig.take(0), flags@, true));
        assert(second@ =~= select(orig.take(0), flags@, false));
    }
    while i < n
        invariant
            n == orig.len(),
            flags@.len() == n,
            i <= n,
            rest@ == orig.skip(i as int),
            first@ == select(orig.take(i as int), flags@, true),
            second@ == select(orig.take(i as int), flags@, false),
        decreases n - i,
    {
        let x = rest.remove(0);
        proof {
            let t = orig.take(i + 1);
            assert(t.drop_last() =~= orig.take(i as int));
            assert(t.last() == x);
            assert(flags@.take(i + 1).take(i as int) =~= flags@.take(i as int));
            lemma_select_take(orig.take(i + 1), flags@, i + 1);
            lemma_select_take(orig.take(i as int), flags@, i as int);
            assert(rest@ =~= orig.skip(i + 1));
        }
        if flags[i] {
            first.push(x);
        } else {
            second.push(x);
        }
        i = i + 1;
    }
    proof {
        assert(orig.take(n as int) =~= orig);
    }
    (first, second)
}

/// Selection reads only as many flags as there are entries.
proof fn lemma_select_take<E>(s: Seq<E>, flags: Seq<bool>, k: int)
    requires
        s.len() == k,
        k <= flags.len(),
    ensures
        select(s, flags, true) == select(s, flags.take(k), true),
        select(s, flags, false) == select(s, flags.take(k), false),
    decreases s.len(),
{
    if s.len() > 0 {
        assert(flags.take(k).take(k - 1) =~= flags.take(k - 1));
        lemma_select_take(s.drop_last(), flags, k - 1);
        lemma_select_take(s.drop_last(), flags.take(k), k - 1);
    }
}

/// Flags marking the members of `group` among the indices `0..n`.
fn membership_flags(group: &Vec<usize>, n: usize) -> (flags: Vec<bool>)
    requires
        forall|i: int| 0 <= i < group@.len() ==> #[trigger] group@[i] < n,
    ensures
        flags@.len() == n,
        forall|j: int| 0 <= j < n ==> (#[trigger] flags@[j] <==> group@.contains(j as usize)),
{
    let mut flags: Vec<bool> = vec![false; n];
    proof {
        assert forall|j: int| 0 <= j < n implies #[trigger] flags@[j] == false by {}
    }
    let mut i: usize = 0;
    while i < group.len()
        invariant
            flags@.len() == n,
            i <= group@.len(),
            forall|k: int| 0 <= k < group@.len() ==> #[trigger] group@[k] < n,
            forall|j: int| 0 <= j < n ==> (#[trigger] flags@[j] <==> group@.take(i as int).contains(j as usize)),
        decreases group@.len() - i,
    {
        let g = group[i];
        flags.set(g, true);
        proof {
            let t = group@.take(i + 1);
            assert(t =~= group@.take(i as int).push(g));
            assert forall|j: int| 0 <= j < n implies (#[trigger] flags@[j] <==> t.contains(j as usize)) by {
                if j == g as int {
                    assert(t[i as int] == g);
                } else {
                    if t.contains(j as usize) {
                        let k = choose|k: int| 0 <= k < t.len() && t[k] == j as usize;
                        assert(group@.take(i as int)[k] == j as usize);
                    }
                    if group@.take(i as int).contains(j as usize) {
                        let k = choose|k: int| 0 <= k < i && group@.take(i as int)[k] == j as usize;
                        assert(t[k] == j as usize);
                    }
                }
            }
        }
        i = i + 1;
    }
    proof {
        assert(group@.take(group@.len() as int) =~= group@);
    }
    flags
}

/// Route the entries of a split node into its two groups: sizes follow
/// the groups, and the two results share out the entries.
fn split_entries<E>(taken: Vec<E>, g1: &Vec<usize>, g2: &Vec<usize>) -> (r: (Vec<E>, Vec<E>))
    requires
        is_partition(g1@, g2@, taken@.len()),
    ensures
        r.0@.len() == g1@.len(),
        r.1@.len() == g2@.len(),
        r.0@.to_multiset().add(r.1@.to_multiset()) == taken@.to_multiset(),
        forall|x: E| #[trigger] r.0@.contains(x) ==> taken@.contains(x),
        forall|x: E| #[trigger] r.1@.contains(x) ==> taken@.contains(x),
        exists|flags: Seq<bool>|
            r.0@ == select(taken@, flags, true) && r.1@ == select(taken@, flags, false),
{
    let n = taken.len();
    proof {
        lemma_partition_facts(g1@, g2@, n as nat);
    }
    let flags = membership_flags(g1, n);
    let ghost fl = flags@;
    let ghost orig = taken@;
    let r = route(taken, &flags);
    proof {
        lemma_select_ms(orig, fl);
        lemma_select_positions(n as nat, fl, true);
        lemma_select_positions(n as nat, fl, false);
        let p1 = select(range_seq(n as nat), fl, true);
        let p2 = select(range_seq(n as nat), fl, false);
        assert forall|x: usize| p1.contains(x) <==> g1@.contains(x) by {
            if g1@.contains(x) {
                let k = choose|k: int| 0 <= k < g1@.len() && g1@[k] == x;
                assert(g1@[k] < n);
            }
        }
        assert forall|x: usize| p2.contains(x) <==> g2@.contains(x) by {
            if g2@.contains(x) {
                let k = choose|k: int| 0 <= k < g2@.len() && g2@[k] == x;
                assert(g2@[k] < n);
            }
        }
        lemma_same_members_len(p1, g1@);
        lemma_same_members_len(p2, g2@);
        lemma_select_len(orig, range_seq(n as nat), fl, true);
        lemma_select_len(orig, range_seq(n as nat), fl, false);
    }
    r
}

/// Split an overflowing leaf's values into two boxed leaves.
fn split_leaf<T: Indexable, P: SplitParameters>(taken: Vec<T>, Ghost(lc): Ghost<nat>, Ghost(bc): Ghost<nat>) -> (r: (Bounds, Node<T>, Bounds, Node<T>))
    requires
        1 <= P::LEAF_MIN,
        2 * P::LEAF_MIN <= taken@.len() <= lc + 1,
    ensures
        child_wf((r.0, r.1), 1, lc, bc),
        child_wf((r.2, r.3), 1, lc, bc),
        node_contents(r.1).to_multiset().add(node_contents(r.3).to_multiset()) == taken@.to_multiset(),
{
    let boxes = value_boxes(&taken);
    let (g1, g2) = P::split_leaf(boxes.as_slice());
    let (v1, v2) = split_entries(taken, &g1, &g2);
    let bx1 = value_boxes(&v1);
    let bx2 = value_boxes(&v2);
    let b1 = union_all(bx1.as_slice());
    let b2 = union_all(bx2.as_slice());
    proof {
        lemma_partition_facts(g1@, g2@, boxes.len() as nat);
        assert(node_contents(Node::Leaf(v1)) == v1@);
        assert(node_contents(Node::Leaf(v2)) == v2@);
    }
    (b1, Node::Leaf(v1), b2, Node::Leaf(v2))
}

/// Split an overflowing branch's children into two boxed branches.
fn split_branch<T: Indexable, P: SplitParameters>(
    taken: Vec<(Bounds, Node<T>)>,
    Ghost(h): Ghost<nat>,
    Ghost(lc): Ghost<nat>,
    Ghost(bc): Ghost<nat>,
) -> (r: (Bounds, Node<T>, Bounds, Node<T>))
    requires
        1 <= P::BRANCH_MIN,
        2 * P::BRANCH_MIN <= taken@.len() <= bc + 1,
        h >= 1,
        forall|i: int| 0 <= i < taken@.len() ==> #[trigger] child_wf(taken@[i], h, lc, bc),
    ensures
        child_wf((r.0, r.1), h + 1, lc, bc),
        child_wf((r.2, r.3), h + 1, lc, bc),
        node_contents(r.1).to_multiset().add(node_contents(r.3).to_multiset())
            == children_contents(taken@).to_multiset(),
{
    let ghost orig = taken@;
    let boxes = recorded_boxes(&taken);
    let (g1, g2) = P::split_branch(boxes.as_slice());
    let (c1, c2) = split_entries(taken, &g1, &g2);
    let bx1 = recorded_boxes(&c1);
    let bx2 = recorded_boxes(&c2);
    let b1 = union_all(bx1.as_slice());
    let b2 = union_all(bx2.as_slice());
    proof {
        let flags = choose|flags: Seq<bool>|
            c1@ == select(orig, flags, true) && c2@ == select(orig, flags, false);
        lemma_select_children(orig, flags);
        lemma_partition_facts(g1@, g2@, boxes.len() as nat);
        assert forall|i: int| 0 <= i < c1@.len() implies #[trigger] child_wf(c1@[i], h, lc, bc) by {
            assert(c1@.contains(c1@[i]));
            let k = choose|k: int| 0 <= k < orig.len() && orig[k] == c1@[i];
            assert(child_wf(orig[k], h, lc, bc));
        }
        assert forall|i: int| 0 <= i < c2@.len() implies #[trigger] child_wf(c2@[i], h, lc, bc) by {
            assert(c2@.contains(c2@[i]));
            let k = choose|k: int| 0 <= k < orig.len() && orig[k] == c2@[i];
            assert(child_wf(orig[k], h, lc, bc));
        }
        lemma_tight_children(b1, c1@, h, lc, bc);
        lemma_tight_children(b2, c2@, h, lc, bc);
        lemma_children_wf_all(c1@, h, lc, bc);
        lemma_children_wf_all(c2@, h, lc, bc);
        assert(node_wf(Node::Branch(c1), h + 1, lc, bc));
        assert(node_wf(Node::Branch(c2), h + 1, lc, bc));
    }
    (b1, Node::Branch(c1), b2, Node::Branch(c2))
}


/// Box `a` admits a value with box `vb` more cheaply than box `b`: less
/// enlargement, or equal enlargement and smaller area.
pub open spec fn less_costly(a: Bounds, b: Bounds, vb: Bounds) -> bool {
    a.spec_enlargement(vb) < b.spec_enlargement(vb) || (a.spec_enlargement(vb) == b.spec_enlargement(
        vb,
    ) && a.spec_area() < b.spec_area())
}

/// Child `i` is where a value with box `vb` descends: no child admits it
/// more cheaply, and every earlier child admits it strictly less cheaply.
pub open spec fn child_choice<T>(cs: Seq<(Bounds, Node<T>)>, vb: Bounds, i: int) -> bool {
    &&& 0 <= i < cs.len()
    &&& forall|j: int| 0 <= j < cs.len() ==> !#[trigger] less_costly(cs[j].0, cs[i].0, vb)
    &&& forall|j: int| 0 <= j < i ==> #[trigger] less_costly(cs[i].0, cs[j].0, vb)
}

/// The index of the child whose box enlarges least to take in `vb` (ties
/// broken by smaller area, then by position).
pub fn choose_child<T>(children: &Vec<(Bounds, Node<T>)>, vb: &Bounds) -> (r: usize)
    requires
        children@.len() > 0,
    ensures
        child_choice(children@, *vb, r as int),
{
    let mut best: usize = 0;
    let mut best_enl = children[0].0.enlargement(vb);
    let mut best_area = children[0].0.area();
    let mut i: usize = 1;
    while i < children.len()
        invariant
            1 <= i <= children@.len(),
            best < i,
            best_enl == children@[best as int].0.spec_enlargement(*vb),
            best_area == children@[best as int].0.spec_area(),
            forall|j: int| 0 <= j < i ==> !#[trigger] less_costly(children@[j].0, children@[best as int].0, *vb),
            forall|j: int| 0 <= j < best ==> #[trigger] less_costly(children@[best as int].0, children@[j].0, *vb),
        decreases children@.len() - i,
    {
        let b = &children[i].0;
        let enl = b.enlargement(vb);
        let area = b.area();
        let ghost previous = best as int;
        if enl < best_enl || (enl == best_enl && area < best_area) {
            best = i;
            best_enl = enl;
            best_area = area;
            proof {
                let cs = children@;
                assert forall|j: int| 0 <= j < i + 1 implies !#[trigger] less_costly(cs[j].0, cs[i as int].0, *vb) by {
                    if j < i {
                        assert(!less_costly(cs[j].0, cs[previous].0, *vb));
                    }
                }
                assert forall|j: int| 0 <= j < i implies #[trigger] less_costly(cs[i as int].0, cs[j].0, *vb) by {
                    assert(!less_costly(cs[j].0, cs[previous].0, *vb));
                }
            }
        }
        i = i + 1;
    }
    best
}

/// Replacing one child changes the run's values by that child's values.
proof fn lemma_replace_child<T>(cs: Seq<(Bounds, Node<T>)>, i: int, c: (Bounds, Node<T>))
    requires
        0 <= i < cs.len(),
    ensures
        children_contents(cs.update(i, c)).to_multiset().add(node_contents(cs[i].1).to_multiset())
            == children_contents(cs).to_multiset().add(node_contents(c.1).to_multiset()),
{
    let u = cs.update(i, c);
    lemma_child_contents_within(cs, i);
    lemma_child_contents_within(u, i);
    assert(u.subrange(0, i) =~= cs.subrange(0, i));
    assert(u.subrange(i + 1, u.len() as int) =~= cs.subrange(i + 1, cs.len() as int));
    let pre = children_contents(cs.subrange(0, i));
    let post = children_contents(cs.subrange(i + 1, cs.len() as int));
    let old_m = node_contents(cs[i].1);
    let new_m = node_contents(c.1);
    vstd::seq_lib::lemma_multiset_commutative(pre + old_m, post);
    vstd::seq_lib::lemma_multiset_commutative(pre, old_m);
    vstd::seq_lib::lemma_multiset_commutative(pre + new_m, post);
    vstd::seq_lib::lemma_multiset_commutative(pre, new_m);
    assert(children_contents(u).to_multiset().add(old_m.to_multiset())
        =~= children_contents(cs).to_multiset().add(new_m.to_multiset()));
}

/// Insert `value` into a well-formed subtree of height `h`, splitting
/// every node that overflows on the way back up.
pub fn insert_into<T: Indexable, P: SplitParameters>(
    node: Node<T>,
    value: T,
    Ghost(h): Ghost<nat>,
    Ghost(lc): Ghost<nat>,
    Ghost(bc): Ghost<nat>,
) -> (r: InsertOutcome<T>)
    requires
        node_wf(node, h, lc, bc),
        insert_params_valid::<P>(),
        P::LEAF_MAX <= lc,
        P::BRANCH_MAX <= bc,
    ensures
        match r {
            InsertOutcome::Fit(n) => node_wf(n, h, lc, bc) && node_contents(n).to_multiset()
                == node_contents(node).to_multiset().insert(value),
            InsertOutcome::Split(b1, n1, b2, n2) => child_wf((b1, n1), h, lc, bc) && child_wf(
                (b2, n2),
                h,
                lc,
                bc,
            ) && node_contents(n1).to_multiset().add(node_contents(n2).to_multiset())
                == node_contents(node).to_multiset().insert(value),
        },
    decreases node,
{
    let ghost orig = node;
    match node {
        Node::Leaf(mut values) => {
            let ghost before = values@;
            values.push(value);
            proof {
                vstd::seq_lib::to_multiset_build(before, value);
            }
            if values.len() > P::LEAF_MAX {
                let (b1, n1, b2, n2) = split_leaf::<T, P>(values, Ghost(lc), Ghost(bc));
                InsertOutcome::Split(b1, n1, b2, n2)
            } else {
                InsertOutcome::Fit(Node::Leaf(values))
            }
        },
        Node::Branch(mut children) => {
            let ghost cs = children@;
            proof {
                lemma_children_wf_all(cs, (h - 1) as nat, lc, bc);
            }
            let vb = value.bounds();
            let choice = choose_child(&children, &vb);
            let mut slot: (Bounds, Node<T>) = (vb, Node::Leaf(Vec::new()));
            children.set_and_swap(choice, &mut slot);
            let (cb, child) = slot;
            proof {
                assert(child_wf(cs[choice as int], (h - 1) as nat, lc, bc));
                assert(decreases_to!(orig => orig->Branch_0));
                assert(decreases_to!(orig->Branch_0 => orig->Branch_0@));
                assert(decreases_to!(orig->Branch_0@ => orig->Branch_0@[choice as int]));
                assert(decreases_to!(orig->Branch_0@[choice as int] => orig->Branch_0@[choice as int].1));
            }
            let outcome = insert_into::<T, P>(child, value, Ghost((h - 1) as nat), Ghost(lc), Ghost(bc));
            match outcome {
                InsertOutcome::Fit(grown) => {
                    let nb = cb.union(&vb);
                    let ghost entry = (nb, grown);
                    children.set(choice, (nb, grown));
                    proof {
                        lemma_tight_insert(cb, node_contents(child), node_contents(entry.1), value);
                        assert(children@ == cs.update(choice as int, entry));
                        assert forall|j: int| 0 <= j < children@.len() implies #[trigger] child_wf(
                            children@[j],
                            (h - 1) as nat,
                            lc,
                            bc,
                        ) by {
                            if j != choice {
                                assert(children@[j] == cs[j]);
                            }
                        }
                        lemma_children_wf_all(children@, (h - 1) as nat, lc, bc);
                        lemma_replace_child(cs, choice as int, entry);
                        let a = children_contents(children@).to_multiset();
                        let b = children_contents(cs).to_multiset();
                        let c = node_contents(child).to_multiset();
                        let d = node_contents(grown).to_multiset();
                        assert forall|x: T| a.count(x) == b.insert(value).count(x) by {
                            assert(a.add(c).count(x) == b.add(d).count(x));
                        }
                        assert(a =~= b.insert(value));
                    }
                    InsertOutcome::Fit(Node::Branch(children))
                },
                InsertOutcome::Split(b1, n1, b2, n2) => {
                    let ghost e1 = (b1, n1);
                    let ghost e2 = (b2, n2);
                    children.set(choice, (b1, n1));
                    let ghost updated = children@;
                    children.push((b2, n2));
                    proof {
                        assert(updated == cs.update(choice as int, e1));
                        assert(children@ == updated.push(e2));
                        assert forall|j: int| 0 <= j < children@.len() implies #[trigger] child_wf(
                            children@[j],
                            (h - 1) as nat,
                            lc,
                            bc,
                        ) by {
                            if j != choice && j < cs.len() {
                                assert(children@[j] == cs[j]);
                            }
                        }
                        lemma_replace_child(cs, choice as int, e1);
                        lemma_children_contents_add(updated, seq![e2]);
                        lemma_children_contents_single(e2);
                        assert(updated + seq![e2] =~= children@);
                        vstd::seq_lib::lemma_multiset_commutative(
                            children_contents(updated),
                            node_contents(n2),
                        );
                        let a = children_contents(children@).to_multiset();
                        let au = children_contents(updated).to_multiset();
                        let b = children_contents(cs).to_multiset();
                        let c = node_contents(child).to_multiset();
                        let m1 = node_contents(n1).to_multiset();
                        let m2 = node_contents(n2).to_multiset();
                        assert forall|x: T| a.count(x) == b.insert(value).count(x) by {
                            assert(au.add(c).count(x) == b.add(m1).count(x));
                            assert(m1.add(m2).count(x) == c.insert(value).count(x));
                            assert(a.count(x) == au.add(m2).count(x));
                        }
                        assert(a =~= b.insert(value));
                    }
                    if children.len() > P::BRANCH_MAX {
                        let (c1b, c1, c2b, c2) = split_branch::<T, P>(
                            children,
                            Ghost((h - 1) as nat),
                            Ghost(lc),
                            Ghost(bc),
                        );
                        InsertOutcome::Split(c1b, c1, c2b, c2)
                    } else {
                        proof {
                            lemma_children_wf_all(children@, (h - 1) as nat, lc, bc);
                        }
                        InsertOutcome::Fit(Node::Branch(children))
                    }
                },
            }
        },
    }
}

} // verus!
