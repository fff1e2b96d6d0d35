//! Tree nodes: leaves hold values, branches hold child subtrees.
//!
//! The tree is modelled by the sequence of values a depth-first walk
//! meets ([`node_contents`]) and by a well-formedness predicate
//! ([`node_wf`]): every leaf sits at the same depth, every non-root node
//! is non-empty, and every child's recorded box is exactly the tightest
//! box around the values below it.

use vstd::prelude::*;

use crate::bounds::{Bounds, spec_union_all, tight_around_boxes};
use crate::indexable::Indexable;

verus! {

/// One node of the tree.
///
/// A [`Node::Leaf`] stores the indexed values directly; a
/// [`Node::Branch`] stores `(child_bounds, child_node)` pairs.
#[derive(Debug)]
pub enum Node<T> {
    /// Values at the bottom of the tree.
    Leaf(Vec<T>),
    /// Child subtrees, each paired with its bounding box.
    Branch(Vec<(Bounds, Node<T>)>),
}

/// The values of a subtree, in depth-first order.
pub open spec fn node_contents<T>(n: Node<T>) -> Seq<T>
    decreases n, 0nat,
{
    match n {
        Node::Leaf(vs) => vs@,
        Node::Branch(cs) => {
            proof {
                assert(decreases_to!(n => n->Branch_0));
                assert(decreases_to!(n->Branch_0 => n->Branch_0@));
            }
            children_contents(cs@)
        },
    }
}

/// The values below a run of children, in depth-first order.
pub open spec fn children_contents<T>(cs: Seq<(Bounds, Node<T>)>) -> Seq<T>
    decreases cs, 1nat,
{
    if cs.len() == 0 {
        Seq::empty()
    } else {
        proof {
            assert(decreases_to!(cs => cs.subrange(0, cs.len() - 1)));
            assert(decreases_to!(cs => cs[cs.len() - 1]));
            assert(decreases_to!(cs[cs.len() - 1] => cs[cs.len() - 1].1));
        }
        children_contents(cs.subrange(0, cs.len() - 1)) + node_contents(cs[cs.len() - 1].1)
    }
}

/// The boxes of a sequence of values.
pub open spec fn boxes_of<T: Indexable>(vs: Seq<T>) -> Seq<Bounds> {
    vs.map_values(|v: T| v.spec_bounds())
}

/// The boxes recorded for a run of children.
pub open spec fn child_boxes<T>(cs: Seq<(Bounds, Node<T>)>) -> Seq<Bounds> {
    cs.map_values(|c: (Bounds, Node<T>)| c.0)
}

/// The immediate entries' boxes: value boxes in a leaf, child boxes in a
/// branch.
pub open spec fn entry_boxes<T: Indexable>(n: Node<T>) -> Seq<Bounds> {
    match n {
        Node::Leaf(vs) => boxes_of(vs@),
        Node::Branch(cs) => child_boxes(cs@),
    }
}

/// The number of immediate entries.
pub open spec fn spec_entry_count<T>(n: Node<T>) -> nat {
    match n {
        Node::Leaf(vs) => vs@.len(),
        Node::Branch(cs) => cs@.len(),
    }
}

/// `b` is the tightest box around the boxes of `vs`.
pub open spec fn tight_around_values<T: Indexable>(b: Bounds, vs: Seq<T>) -> bool {
    vs.len() > 0 && tight_around_boxes(b, boxes_of(vs))
}

/// A well-formed subtree of height `h` whose leaves hold at most `lc`
/// values and whose branches hold at most `bc` children: every leaf at
/// depth `h`, every branch non-empty, and each child non-empty and
/// recorded with the tightest box around its values.
pub open spec fn node_wf<T: Indexable>(n: Node<T>, h: nat, lc: nat, bc: nat) -> bool
    decreases n, 0nat,
{
    match n {
        Node::Leaf(vs) => h == 1 && vs@.len() <= lc,
        Node::Branch(cs) => {
            proof {
                assert(decreases_to!(n => n->Branch_0));
                assert(decreases_to!(n->Branch_0 => n->Branch_0@));
            }
            h >= 2 && 0 < cs@.len() <= bc && children_wf(cs@, (h - 1) as nat, lc, bc)
        },
    }
}

/// Every child of the run is well formed at height `h`, non-empty, and
/// recorded with its tight box.
pub open spec fn children_wf<T: Indexable>(cs: Seq<(Bounds, Node<T>)>, h: nat, lc: nat, bc: nat) -> bool
    decreases cs, 1nat,
{
    if cs.len() == 0 {
        true
    } else {
        proof {
            assert(decreases_to!(cs => cs.subrange(0, cs.len() - 1)));
            assert(decreases_to!(cs => cs[cs.len() - 1]));
            assert(decreases_to!(cs[cs.len() - 1] => cs[cs.len() - 1].1));
        }
        children_wf(cs.subrange(0, cs.len() - 1), h, lc, bc) && child_wf(cs[cs.len() - 1], h, lc, bc)
    }
}

/// One child entry is well formed at height `h`.
pub open spec fn child_wf<T: Indexable>(c: (Bounds, Node<T>), h: nat, lc: nat, bc: nat) -> bool
    decreases c, 2nat,
{
    proof {
        assert(decreases_to!(c => c.1));
    }
    &&& node_wf(c.1, h, lc, bc)
    &&& tight_around_values(c.0, node_contents(c.1))
}

/// The height of a subtree: a leaf is height 1, a branch one more than
/// its tallest child (an empty branch is height 1).
pub open spec fn node_height<T>(n: Node<T>) -> nat
    decreases n, 0nat,
{
    match n {
        Node::Leaf(_) => 1,
        Node::Branch(cs) => {
            proof {
                assert(decreases_to!(n => n->Branch_0));
                assert(decreases_to!(n->Branch_0 => n->Branch_0@));
            }
            1 + children_height(cs@)
        },
    }
}

/// The tallest height among a run of children (0 for no children).
pub open spec fn children_height<T>(cs: Seq<(Bounds, Node<T>)>) -> nat
    decreases cs, 1nat,
{
    if cs.len() == 0 {
        0
    } else {
        proof {
            assert(decreases_to!(cs => cs.subrange(0, cs.len() - 1)));
            assert(decreases_to!(cs => cs[cs.len() - 1]));
            assert(decreases_to!(cs[cs.len() - 1] => cs[cs.len() - 1].1));
        }
        let rest = children_height(cs.subrange(0, cs.len() - 1));
        let last = node_height(cs[cs.len() - 1].1);
        if rest >= last { rest } else { last }
    }
}

/// The values below a run of children, one more child at a time.
pub proof fn lemma_children_contents_step<T>(cs: Seq<(Bounds, Node<T>)>, i: int)
    requires
        0 <= i < cs.len(),
    ensures
        children_contents(cs.subrange(0, i + 1)) == children_contents(cs.subrange(0, i))
            + node_contents(cs[i].1),
        children_height(cs.subrange(0, i + 1)) == (if children_height(cs.subrange(0, i))
            >= node_height(cs[i].1) {
            children_height(cs.subrange(0, i))
        } else {
            node_height(cs[i].1)
        }),
{
    assert(cs.subrange(0, i + 1).subrange(0, i) =~= cs.subrange(0, i));
}

/// The values below a concatenation of runs are the concatenation of
/// their values.
pub proof fn lemma_children_contents_add<T>(a: Seq<(Bounds, Node<T>)>, b: Seq<(Bounds, Node<T>)>)
    ensures
        children_contents(a + b) == children_contents(a) + children_contents(b),
    decreases b.len(),
{
    if b.len() == 0 {
        assert(a + b =~= a);
        assert(children_contents(a) + children_contents(b) =~= children_contents(a));
    } else {
        let bl = b.subrange(0, b.len() - 1);
        lemma_children_contents_add(a, bl);
        let ab = a + b;
        assert(ab.subrange(0, ab.len() - 1) =~= a + bl);
        assert(ab[ab.len() - 1] == b[b.len() - 1]);
        assert(children_contents(a) + children_contents(bl) + node_contents(b[b.len() - 1].1)
            =~= children_contents(a) + (children_contents(bl) + node_contents(b[b.len() - 1].1)));
    }
}

/// A single child's run holds exactly that child's values.
pub proof fn lemma_children_contents_single<T>(c: (Bounds, Node<T>))
    ensures
        children_contents(seq![c]) == node_contents(c.1),
{
    let s = seq![c];
    assert(s.subrange(0, 0) =~= Seq::<(Bounds, Node<T>)>::empty());
    assert(s[0] == c);
    assert(children_contents(s.subrange(0, 0)) == Seq::<T>::empty());
    assert(Seq::<T>::empty() + node_contents(c.1) =~= node_contents(c.1));
}

/// A run of children is well formed exactly when each child is.
pub proof fn lemma_children_wf_all<T: Indexable>(cs: Seq<(Bounds, Node<T>)>, h: nat, lc: nat, bc: nat)
    ensures
        children_wf(cs, h, lc, bc) <==> forall|i: int| 0 <= i < cs.len() ==> #[trigger] child_wf(cs[i], h, lc, bc),
    decreases cs.len(),
{
    if cs.len() > 0 {
        let init = cs.subrange(0, cs.len() - 1);
        lemma_children_wf_all(init, h, lc, bc);
        assert(children_wf(cs, h, lc, bc) == (children_wf(init, h, lc, bc) && child_wf(cs[cs.len() - 1], h, lc, bc)));
        if children_wf(cs, h, lc, bc) {
            assert forall|i: int| 0 <= i < cs.len() implies #[trigger] child_wf(cs[i], h, lc, bc) by {
                if i < cs.len() - 1 {
                    assert(init[i] == cs[i]);
                    assert(child_wf(init[i], h, lc, bc));
                }
            }
        }
        if forall|i: int| 0 <= i < cs.len() ==> #[trigger] child_wf(cs[i], h, lc, bc) {
            assert forall|i: int| 0 <= i < init.len() implies #[trigger] child_wf(init[i], h, lc, bc) by {
                assert(init[i] == cs[i]);
            }
        }
    }
}

impl<T: Indexable> Node<T> {
    /// Number of immediate entries (values in a leaf, children in a
    /// branch).
    pub fn entry_count(&self) -> (r: usize)
        ensures
            r == spec_entry_count(*self),
    {
        match self {
            Node::Leaf(values) => values.len(),
            Node::Branch(children) => children.len(),
        }
    }

    /// Total number of leaf values in this subtree.
    pub fn value_count(&self) -> (r: usize)
        requires
            node_contents(*self).len() <= usize::MAX,
        ensures
            r == node_contents(*self).len(),
        decreases *self,
    {
        match self {
            Node::Leaf(values) => values.len(),
            Node::Branch(children) => {
                let mut total: usize = 0;
                let mut i: usize = 0;
                proof {
                    assert(children@.subrange(0, 0) =~= Seq::<(Bounds, Node<T>)>::empty());
                }
                while i < children.len()
                    invariant
                        *self == Node::<T>::Branch(*children),
                        i <= children@.len(),
                        total == children_contents(children@.subrange(0, i as int)).len(),
                        children_contents(children@).len() <= usize::MAX,
                    decreases children@.len() - i,
                {
                    proof {
                        lemma_children_contents_step(children@, i as int);
                        let cs = children@;
                        assert(cs =~= cs.subrange(0, i + 1) + cs.subrange(i + 1, cs.len() as int));
                        lemma_children_contents_add(
                            cs.subrange(0, i + 1),
                            cs.subrange(i + 1, cs.len() as int),
                        );
                        assert(decreases_to!(*self => (*self)->Branch_0));
                        assert(decreases_to!(*children => children@));
                        assert(decreases_to!(children@ => children@[i as int]));
                        assert(decreases_to!(children@[i as int] => children@[i as int].1));
                    }
                    let n = children[i].1.value_count();
                    total = total + n;
                    i = i + 1;
                }
                proof {
                    assert(children@.subrange(0, children@.len() as int) =~= children@);
                }
                total
            },
        }
    }

    /// Height of this subtree: a leaf is height 1.
    pub fn height(&self) -> (r: usize)
        requires
            node_height(*self) <= usize::MAX,
        ensures
            r == node_height(*self),
        decreases *self,
    {
        match self {
            Node::Leaf(_) => 1,
            Node::Branch(children) => {
                let mut tallest: usize = 0;
                let mut i: usize = 0;
                proof {
                    assert(children@.subrange(0, 0) =~= Seq::<(Bounds, Node<T>)>::empty());
                }
                while i < children.len()
                    invariant
                        *self == Node::<T>::Branch(*children),
                        i <= children@.len(),
                        tallest == children_height(children@.subrange(0, i as int)),
                        1 + children_height(children@) <= usize::MAX,
                    decreases children@.len() - i,
                {
                    proof {
                        lemma_children_contents_step(children@, i as int);
                        lemma_children_height_prefix(children@, i + 1);
                        assert(decreases_to!(*self => (*self)->Branch_0));
                        assert(decreases_to!(*children => children@));
                        assert(decreases_to!(children@ => children@[i as int]));
                        assert(decreases_to!(children@[i as int] => children@[i as int].1));
                    }
                    let h = children[i].1.height();
                    if h > tallest {
                        tallest = h;
                    }
                    i = i + 1;
                }
                proof {
                    assert(children@.subrange(0, children@.len() as int) =~= children@);
                }
                tallest + 1
            },
        }
    }

    /// The bounding box covering everything in this node, or `None` for
    /// an empty node.
    pub fn bounds(&self) -> (r: Option<Bounds>)
        ensures
            spec_entry_count(*self) == 0 ==> r is None,
            spec_entry_count(*self) > 0 ==> r == Some(spec_union_all(entry_boxes(*self))),
    {
        match self {
            Node::Leaf(values) => {
                if values.len() == 0 {
                    None
                } else {
                    let boxes = value_boxes(values);
                    Some(crate::bounds::union_all(boxes.as_slice()))
                }
            },
            Node::Branch(children) => {
                if children.len() == 0 {
                    None
                } else {
                    let boxes = recorded_boxes(children);
                    Some(crate::bounds::union_all(boxes.as_slice()))
                }
            },
        }
    }
}

/// The height of a prefix of children is at most the height of the run.
pub proof fn lemma_children_height_prefix<T>(cs: Seq<(Bounds, Node<T>)>, k: int)
    requires
        0 <= k <= cs.len(),
    ensures
        children_height(cs.subrange(0, k)) <= children_height(cs),
        forall|i: int| 0 <= i < k ==> node_height(#[trigger] cs[i].1) <= children_height(cs),
    decreases cs.len() - k,
{
    if k < cs.len() {
        lemma_children_height_prefix(cs, k + 1);
        lemma_children_contents_step(cs, k);
    } else {
        assert(cs.subrange(0, k) =~= cs);
        assert forall|i: int| 0 <= i < k implies node_height(#[trigger] cs[i].1) <= children_height(cs) by {
            lemma_child_height_le(cs, i);
        }
    }
}

/// Each child is no taller than the tallest child.
proof fn lemma_child_height_le<T>(cs: Seq<(Bounds, Node<T>)>, i: int)
    requires
        0 <= i < cs.len(),
    ensures
        node_height(cs[i].1) <= children_height(cs),
    decreases cs.len(),
{
    let init = cs.subrange(0, cs.len() - 1);
    if i < cs.len() - 1 {
        lemma_child_height_le(init, i);
        assert(init[i] == cs[i]);
    }
}

/// The boxes of a slice of values, in order.
pub fn value_boxes<T: Indexable>(values: &Vec<T>) -> (boxes: Vec<Bounds>)
    ensures
        boxes@ == boxes_of(values@),
{
    let mut boxes: Vec<Bounds> = Vec::new();
    let mut i: usize = 0;
    while i < values.len()
        invariant
            i <= values@.len(),
            boxes@ =~= boxes_of(values@.subrange(0, i as int)),
        decreases values@.len() - i,
    {
        boxes.push(values[i].bounds());
        i = i + 1;
    }
    proof {
        assert(values@.subrange(0, values@.len() as int) =~= values@);
    }
    boxes
}

/// The recorded boxes of a run of children, in order.
pub fn recorded_boxes<T>(children: &Vec<(Bounds, Node<T>)>) -> (boxes: Vec<Bounds>)
    ensures
        boxes@ == child_boxes(children@),
{
    let mut boxes: Vec<Bounds> = Vec::new();
    let mut i: usize = 0;
    while i < children.len()
        invariant
            i <= children@.len(),
            boxes@ =~= child_boxes(children@.subrange(0, i as int)),
        decreases children@.len() - i,
    {
        boxes.push(children[i].0);
        i = i + 1;
    }
    proof {
        assert(children@.subrange(0, children@.len() as int) =~= children@);
    }
    boxes
}


/// Every value of `vs` has its box inside `b`.
pub open spec fn covers_values<T: Indexable>(b: Bounds, vs: Seq<T>) -> bool {
    forall|v: T| #[trigger] vs.contains(v) ==> b.spec_contains(v.spec_bounds())
}

/// Each side of `b` is a side of some value's box in `vs`.
pub open spec fn attained_by_values<T: Indexable>(b: Bounds, vs: Seq<T>) -> bool {
    &&& exists|v: T| #[trigger] vs.contains(v) && v.spec_bounds().lo(0) == b.lo(0)
    &&& exists|v: T| #[trigger] vs.contains(v) && v.spec_bounds().lo(1) == b.lo(1)
    &&& exists|v: T| #[trigger] vs.contains(v) && v.spec_bounds().hi(0) == b.hi(0)
    &&& exists|v: T| #[trigger] vs.contains(v) && v.spec_bounds().hi(1) == b.hi(1)
}

/// Tightness stated over the members of the sequence.
pub proof fn lemma_tight_members<T: Indexable>(b: Bounds, vs: Seq<T>)
    ensures
        tight_around_values(b, vs) <==> (vs.len() > 0 && covers_values(b, vs) && attained_by_values(b, vs)),
{
    let bx = boxes_of(vs);
    assert forall|i: int| 0 <= i < vs.len() implies #[trigger] bx[i] == vs[i].spec_bounds() by {}
    if tight_around_values(b, vs) {
        assert forall|v: T| #[trigger] vs.contains(v) implies b.spec_contains(v.spec_bounds()) by {
            let i = choose|i: int| 0 <= i < vs.len() && vs[i] == v;
            assert(b.spec_contains(bx[i]));
        }
        let i = choose|i: int| 0 <= i < bx.len() && #[trigger] bx[i].lo(0) == b.lo(0);
        assert(vs.contains(vs[i]));
        let i = choose|i: int| 0 <= i < bx.len() && #[trigger] bx[i].lo(1) == b.lo(1);
        assert(vs.contains(vs[i]));
        let i = choose|i: int| 0 <= i < bx.len() && #[trigger] bx[i].hi(0) == b.hi(0);
        assert(vs.contains(vs[i]));
        let i = choose|i: int| 0 <= i < bx.len() && #[trigger] bx[i].hi(1) == b.hi(1);
        assert(vs.contains(vs[i]));
    }
    if vs.len() > 0 && covers_values(b, vs) && attained_by_values(b, vs) {
        assert forall|i: int| 0 <= i < bx.len() implies #[trigger] b.spec_contains(bx[i]) by {
            assert(vs.contains(vs[i]));
        }
        let v = choose|v: T| #[trigger] vs.contains(v) && v.spec_bounds().lo(0) == b.lo(0);
        let i = choose|i: int| 0 <= i < vs.len() && vs[i] == v;
        assert(bx[i].lo(0) == b.lo(0));
        let v = choose|v: T| #[trigger] vs.contains(v) && v.spec_bounds().lo(1) == b.lo(1);
        let i = choose|i: int| 0 <= i < vs.len() && vs[i] == v;
        assert(bx[i].lo(1) == b.lo(1));
        let v = choose|v: T| #[trigger] vs.contains(v) && v.spec_bounds().hi(0) == b.hi(0);
        let i = choose|i: int| 0 <= i < vs.len() && vs[i] == v;
        assert(bx[i].hi(0) == b.hi(0));
        let v = choose|v: T| #[trigger] vs.contains(v) && v.spec_bounds().hi(1) == b.hi(1);
        let i = choose|i: int| 0 <= i < vs.len() && vs[i] == v;
        assert(bx[i].hi(1) == b.hi(1));
    }
}

/// A value belongs to a run of children exactly when it belongs to one
/// of the children.
pub proof fn lemma_children_contents_member<T>(cs: Seq<(Bounds, Node<T>)>, v: T)
    ensures
        children_contents(cs).contains(v) <==> exists|i: int|
            0 <= i < cs.len() && #[trigger] node_contents(cs[i].1).contains(v),
    decreases cs.len(),
{
    if cs.len() > 0 {
        let init = cs.subrange(0, cs.len() - 1);
        let last = cs[cs.len() - 1];
        lemma_children_contents_member(init, v);
        let a = children_contents(init);
        let b = node_contents(last.1);
        assert(children_contents(cs) == a + b);
        if (a + b).contains(v) {
            let k = choose|k: int| 0 <= k < (a + b).len() && (a + b)[k] == v;
            if k < a.len() {
                assert(a.contains(v));
                let i = choose|i: int| 0 <= i < init.len() && #[trigger] node_contents(init[i].1).contains(v);
                assert(init[i] == cs[i]);
            } else {
                assert(b[k - a.len()] == v);
                assert(node_contents(cs[cs.len() - 1].1).contains(v));
            }
        }
        if exists|i: int| 0 <= i < cs.len() && #[trigger] node_contents(cs[i].1).contains(v) {
            let i = choose|i: int| 0 <= i < cs.len() && #[trigger] node_contents(cs[i].1).contains(v);
            if i < cs.len() - 1 {
                assert(init[i] == cs[i]);
                assert(a.contains(v));
                let k = choose|k: int| 0 <= k < a.len() && a[k] == v;
                assert((a + b)[k] == v);
            } else {
                let k = choose|k: int| 0 <= k < b.len() && b[k] == v;
                assert((a + b)[a.len() + k] == v);
            }
        }
    }
}

/// A box tight around the children's recorded boxes, each itself tight
/// around its child's values, is tight around all of their values.
pub proof fn lemma_tight_children<T: Indexable>(b: Bounds, cs: Seq<(Bounds, Node<T>)>, h: nat, lc: nat, bc: nat)
    requires
        cs.len() > 0,
        forall|i: int| 0 <= i < cs.len() ==> #[trigger] child_wf(cs[i], h, lc, bc),
        tight_around_boxes(b, child_boxes(cs)),
    ensures
        tight_around_values(b, children_contents(cs)),
{
    let all = children_contents(cs);
    let cb = child_boxes(cs);
    assert forall|i: int| 0 <= i < cs.len() implies #[trigger] cb[i] == cs[i].0 by {}
    assert forall|i: int| 0 <= i < cs.len() implies covers_values(cs[i].0, node_contents(#[trigger] cs[i].1))
        && attained_by_values(cs[i].0, node_contents(cs[i].1)) && node_contents(cs[i].1).len() > 0 by {
        assert(child_wf(cs[i], h, lc, bc));
        lemma_tight_members(cs[i].0, node_contents(cs[i].1));
    }
    assert forall|v: T| #[trigger] all.contains(v) implies b.spec_contains(v.spec_bounds()) by {
        lemma_children_contents_member(cs, v);
        let i = choose|i: int| 0 <= i < cs.len() && #[trigger] node_contents(cs[i].1).contains(v);
        assert(b.spec_contains(cb[i]));
        crate::bounds::lemma_contains_transitive(b, cs[i].0, v.spec_bounds());
    }
    // Each side of `b` comes from some child's box, whose side comes from one of its values.
    let i = choose|i: int| 0 <= i < cb.len() && #[trigger] cb[i].lo(0) == b.lo(0);
    let v = choose|v: T| #[trigger] node_contents(cs[i].1).contains(v) && v.spec_bounds().lo(0) == cs[i].0.lo(0);
    lemma_children_contents_member(cs, v);
    assert(all.contains(v));
    let i = choose|i: int| 0 <= i < cb.len() && #[trigger] cb[i].lo(1) == b.lo(1);
    let v = choose|v: T| #[trigger] node_contents(cs[i].1).contains(v) && v.spec_bounds().lo(1) == cs[i].0.lo(1);
    lemma_children_contents_member(cs, v);
    assert(all.contains(v));
    let i = choose|i: int| 0 <= i < cb.len() && #[trigger] cb[i].hi(0) == b.hi(0);
    let v = choose|v: T| #[trigger] node_contents(cs[i].1).contains(v) && v.spec_bounds().hi(0) == cs[i].0.hi(0);
    lemma_children_contents_member(cs, v);
    assert(all.contains(v));
    let i = choose|i: int| 0 <= i < cb.len() && #[trigger] cb[i].hi(1) == b.hi(1);
    let v = choose|v: T| #[trigger] node_contents(cs[i].1).contains(v) && v.spec_bounds().hi(1) == cs[i].0.hi(1);
    lemma_children_contents_member(cs, v);
    assert(all.contains(v));
    assert(all.len() > 0) by {
        let v = choose|v: T| #[trigger] node_contents(cs[0].1).contains(v) && v.spec_bounds().lo(0) == cs[0].0.lo(0);
        lemma_children_contents_member(cs, v);
    }
    lemma_tight_members(b, all);
}

/// Adding one value to a tightly boxed collection: the box grown by the
/// value's box is tight around the result.
pub proof fn lemma_tight_insert<T: Indexable>(b: Bounds, s1: Seq<T>, s2: Seq<T>, x: T)
    requires
        tight_around_values(b, s1),
        s2.to_multiset() == s1.to_multiset().insert(x),
    ensures
        tight_around_values(b.spec_union(x.spec_bounds()), s2),
{
    broadcast use vstd::multiset::group_multiset_axioms;
    let u = b.spec_union(x.spec_bounds());
    let xb = x.spec_bounds();
    lemma_tight_members(b, s1);
    assert forall|v: T| s2.contains(v) <==> (s1.contains(v) || v == x) by {
        crate::seq_facts::lemma_ms_contains_iff(s1, v);
        crate::seq_facts::lemma_ms_contains_iff(s2, v);
    }
    crate::bounds::lemma_union_coords(b, xb);
    assert forall|v: T| #[trigger] s2.contains(v) implies u.spec_contains(v.spec_bounds()) by {
        if v != x {
            assert(s1.contains(v));
        }
    }
    assert(s2.contains(x));
    if b.lo(0) <= xb.lo(0) {
        let v = choose|v: T| #[trigger] s1.contains(v) && v.spec_bounds().lo(0) == b.lo(0);
        assert(s2.contains(v));
    }
    if b.lo(1) <= xb.lo(1) {
        let v = choose|v: T| #[trigger] s1.contains(v) && v.spec_bounds().lo(1) == b.lo(1);
        assert(s2.contains(v));
    }
    if b.hi(0) >= xb.hi(0) {
        let v = choose|v: T| #[trigger] s1.contains(v) && v.spec_bounds().hi(0) == b.hi(0);
        assert(s2.contains(v));
    }
    if b.hi(1) >= xb.hi(1) {
        let v = choose|v: T| #[trigger] s1.contains(v) && v.spec_bounds().hi(1) == b.hi(1);
        assert(s2.contains(v));
    }
    assert(s2.len() > 0) by {
        vstd::seq_lib::to_multiset_len(s2);
        vstd::seq_lib::to_multiset_len(s1);
    }
    lemma_tight_members(u, s2);
}

/// The values of one child are among the values of its run.
pub proof fn lemma_child_contents_within<T>(cs: Seq<(Bounds, Node<T>)>, i: int)
    requires
        0 <= i < cs.len(),
    ensures
        children_contents(cs) == children_contents(cs.subrange(0, i)) + node_contents(cs[i].1)
            + children_contents(cs.subrange(i + 1, cs.len() as int)),
        forall|v: T| #[trigger] node_contents(cs[i].1).contains(v) ==> children_contents(cs).contains(v),
{
    let a = cs.subrange(0, i);
    let b = cs.subrange(i + 1, cs.len() as int);
    assert(cs =~= (a + seq![cs[i]]) + b);
    lemma_children_contents_add(a + seq![cs[i]], b);
    lemma_children_contents_add(a, seq![cs[i]]);
    lemma_children_contents_single(cs[i]);
    let whole = children_contents(cs);
    let pre = children_contents(a);
    let mid = node_contents(cs[i].1);
    assert forall|v: T| #[trigger] mid.contains(v) implies whole.contains(v) by {
        let k = choose|k: int| 0 <= k < mid.len() && mid[k] == v;
        assert(whole[pre.len() + k] == v);
    }
}

/// Every value below a tightly boxed child lies inside the child's box.
pub proof fn lemma_tight_contains<T: Indexable>(b: Bounds, vs: Seq<T>, k: int)
    requires
        tight_around_values(b, vs),
        0 <= k < vs.len(),
    ensures
        b.spec_contains(vs[k].spec_bounds()),
{
    assert(boxes_of(vs)[k] == vs[k].spec_bounds());
    assert(b.spec_contains(boxes_of(vs)[k]));
}


/// Well-formedness survives raising the capacities.
pub proof fn lemma_node_wf_caps<T: Indexable>(n: Node<T>, h: nat, lc: nat, bc: nat, lc2: nat, bc2: nat)
    requires
        node_wf(n, h, lc, bc),
        lc <= lc2,
        bc <= bc2,
    ensures
        node_wf(n, h, lc2, bc2),
    decreases n, 0nat,
{
    match n {
        Node::Leaf(_) => {},
        Node::Branch(cs) => {
            assert(decreases_to!(n => n->Branch_0));
            assert(decreases_to!(n->Branch_0 => n->Branch_0@));
            lemma_children_wf_caps(cs@, (h - 1) as nat, lc, bc, lc2, bc2);
        },
    }
}

/// Well-formedness of a run of children survives raising the capacities.
pub proof fn lemma_children_wf_caps<T: Indexable>(cs: Seq<(Bounds, Node<T>)>, h: nat, lc: nat, bc: nat, lc2: nat, bc2: nat)
    requires
        children_wf(cs, h, lc, bc),
        lc <= lc2,
        bc <= bc2,
    ensures
        children_wf(cs, h, lc2, bc2),
    decreases cs, 1nat,
{
    if cs.len() > 0 {
        assert(decreases_to!(cs => cs.subrange(0, cs.len() - 1)));
        assert(decreases_to!(cs => cs[cs.len() - 1]));
        assert(decreases_to!(cs[cs.len() - 1] => cs[cs.len() - 1].1));
        let last = cs[cs.len() - 1];
        assert(children_wf(cs.subrange(0, cs.len() - 1), h, lc, bc) && child_wf(last, h, lc, bc));
        assert(node_wf(last.1, h, lc, bc));
        lemma_children_wf_caps(cs.subrange(0, cs.len() - 1), h, lc, bc, lc2, bc2);
        lemma_node_wf_caps(last.1, h, lc, bc, lc2, bc2);
        assert(child_wf(last, h, lc2, bc2));
    }
}

/// A well-formed subtree has height at least one.
pub proof fn lemma_node_wf_height<T: Indexable>(n: Node<T>, h: nat, lc: nat, bc: nat)
    requires
        node_wf(n, h, lc, bc),
    ensures
        h >= 1,
{
}


/// The number of nodes in a subtree.
pub open spec fn node_size<T>(n: Node<T>) -> nat
    decreases n, 0nat,
{
    match n {
        Node::Leaf(_) => 1,
        Node::Branch(cs) => {
            proof {
                assert(decreases_to!(n => n->Branch_0));
                assert(decreases_to!(n->Branch_0 => n->Branch_0@));
            }
            1 + children_size(cs@)
        },
    }
}

/// The number of nodes below a run of children.
pub open spec fn children_size<T>(cs: Seq<(Bounds, Node<T>)>) -> nat
    decreases cs, 1nat,
{
    if cs.len() == 0 {
        0
    } else {
        proof {
            assert(decreases_to!(cs => cs.subrange(0, cs.len() - 1)));
            assert(decreases_to!(cs => cs[cs.len() - 1]));
            assert(decreases_to!(cs[cs.len() - 1] => cs[cs.len() - 1].1));
        }
        children_size(cs.subrange(0, cs.len() - 1)) + node_size(cs[cs.len() - 1].1)
    }
}

/// The node count of a run of children splits at its first child.
pub proof fn lemma_children_size_front<T>(c: (Bounds, Node<T>), rest: Seq<(Bounds, Node<T>)>)
    ensures
        children_size(seq![c] + rest) == node_size(c.1) + children_size(rest),
    decreases rest.len(),
{
    let s = seq![c] + rest;
    if rest.len() == 0 {
        assert(s =~= seq![c]);
        assert(s.subrange(0, 0) =~= Seq::<(Bounds, Node<T>)>::empty());
        assert(children_size(Seq::<(Bounds, Node<T>)>::empty()) == 0);
        assert(s[0] == c);
        assert(rest =~= Seq::<(Bounds, Node<T>)>::empty());
    } else {
        let init = rest.subrange(0, rest.len() - 1);
        lemma_children_size_front(c, init);
        assert(s.subrange(0, s.len() - 1) =~= seq![c] + init);
        assert(s[s.len() - 1] == rest[rest.len() - 1]);
    }
}

} // verus!
