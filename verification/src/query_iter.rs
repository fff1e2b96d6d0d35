//! Lazy spatial-query iteration.
//!
//! [`QueryWithIter`] runs the pruning walk of a query one value at a
//! time, for any [`QueryPredicate`]; [`QueryIter`] is the walk for the
//! built-in [`Predicate`]. A walk pauses after each yielded value and
//! traverses nothing beyond it.

use vstd::prelude::*;

use crate::bounds::Bounds;
use crate::indexable::Indexable;
use crate::node::{
    Node, node_contents, children_contents, node_wf, child_wf, node_size, children_size,
    lemma_children_wf_all, lemma_children_contents_add, lemma_children_contents_single,
    lemma_children_size_front, lemma_child_contents_within, lemma_tight_contains,
};
use crate::predicate::{Predicate, QueryPredicate, spec_prunes_soundly};
use crate::rtree::{boxes_valid, match_fn, lemma_filter_none};

verus! {

/// Every value of `vs` is one the predicate's subtree tests are sound
/// for, so that a walk over them yields exactly the matching values.
pub open spec fn all_sound<T: Indexable, P: QueryPredicate<T>>(p: P, vs: Seq<T>) -> bool {
    forall|v: T| vs.contains(v) ==> #[trigger] p.spec_sound_for(v)
}

/// Every value of `from` that the predicate matches, and whose subtree
/// tests are sound, is also in `to`.
pub open spec fn keeps<T: Indexable, P: QueryPredicate<T>>(p: P, from: Seq<T>, to: Seq<T>) -> bool {
    forall|v: T| #[trigger] from.contains(v) && p.spec_sound_for(v) && p.spec_matches(v) ==> to.contains(v)
}

proof fn lemma_contains_concat<A>(a: Seq<A>, b: Seq<A>, v: A)
    ensures
        (a + b).contains(v) == (a.contains(v) || b.contains(v)),
{
    if (a + b).contains(v) {
        let k = choose|k: int| 0 <= k < (a + b).len() && (a + b)[k] == v;
        if k < a.len() {
            assert(a[k] == v);
        } else {
            assert(b[k - a.len()] == v);
        }
    }
    if a.contains(v) {
        let k = choose|k: int| 0 <= k < a.len() && a[k] == v;
        assert((a + b)[k] == v);
    }
    if b.contains(v) {
        let k = choose|k: int| 0 <= k < b.len() && b[k] == v;
        assert((a + b)[a.len() + k] == v);
    }
}

/// Values with valid boxes are all sound for any ready predicate.
pub proof fn lemma_valid_all_sound<T: Indexable, P: QueryPredicate<T>>(p: P, vs: Seq<T>)
    requires
        p.spec_ready(),
        boxes_valid(vs),
    ensures
        all_sound(p, vs),
{
    assert forall|v: T| vs.contains(v) implies #[trigger] p.spec_sound_for(v) by {
        p.lemma_valid_sound(v);
    }
}

/// A built-in predicate's walk over `vs` is exact: every box valid, or a
/// `Contains` or `Covers` query, whose walk is exact on any tree.
pub open spec fn exact_for<T: Indexable>(p: Predicate, vs: Seq<T>) -> bool {
    boxes_valid(vs) || p is Contains || p is Covers
}

/// An exact built-in walk is one whose values are all sound, and back.
pub proof fn lemma_exact_all_sound<T: Indexable>(p: Predicate, vs: Seq<T>)
    ensures
        exact_for(p, vs) == all_sound(p, vs),
{
    if all_sound(p, vs) && !(p is Contains || p is Covers) {
        assert forall|v: T| vs.contains(v) implies #[trigger] v.spec_bounds().valid() by {
            assert(<Predicate as QueryPredicate<T>>::spec_sound_for(&p, v));
        }
    }
    if exact_for(p, vs) {
        assert forall|v: T| vs.contains(v) implies #[trigger] <Predicate as QueryPredicate<T>>::spec_sound_for(&p, v) by {
            if boxes_valid(vs) {
                assert(v.spec_bounds().valid());
            }
        }
    }
}

/// Whether the stack capacity for a tree of this height and fan-out
/// fits in a `usize`.
pub open spec fn stack_capacity_fits(height: nat, max_fanout: nat) -> bool {
    (if height >= 1 { height - 1 } else { 0 }) * (if max_fanout >= 1 { max_fanout - 1 } else { 0 })
        + max_fanout <= usize::MAX
}

/// Capacity hint for a walk's stack: enough for one path of full
/// branches.
pub fn stack_capacity(height: usize, max_fanout: usize) -> (r: usize)
    requires
        stack_capacity_fits(height as nat, max_fanout as nat),
    ensures
        r == (if height >= 1 { height - 1 } else { 0 }) * (if max_fanout >= 1 { max_fanout - 1 } else { 0 })
            + max_fanout,
{
    let h = if height >= 1 { height - 1 } else { 0 };
    let f = if max_fanout >= 1 { max_fanout - 1 } else { 0 };
    proof {
        assert(0 <= h * f) by (nonlinear_arith)
            requires
                h >= 0,
                f >= 0,
        ;
    }
    h * f + max_fanout
}

/// A stack entry: a subtree, whether every value below it is known to
/// match, and (ghost) its height.
pub type QueryFrame<'a, T> = (&'a Node<T>, bool);

/// The values below the stacked subtrees, the top (last) entry first.
pub open spec fn frames_contents<T>(stack: Seq<QueryFrame<T>>) -> Seq<T>
    decreases stack.len(),
{
    if stack.len() == 0 {
        Seq::empty()
    } else {
        node_contents(*stack.last().0) + frames_contents(stack.drop_last())
    }
}

/// The number of tree nodes below the stacked subtrees.
pub open spec fn frames_size<T>(stack: Seq<QueryFrame<T>>) -> nat
    decreases stack.len(),
{
    if stack.len() == 0 {
        0
    } else {
        node_size(*stack.last().0) + frames_size(stack.drop_last())
    }
}

/// A lazy pruning walk yielding the values that satisfy a predicate, in
/// depth-first order.
pub struct QueryWithIter<'a, T, P> {
    predicate: P,
    stack: Vec<QueryFrame<'a, T>>,
    heights: Ghost<Seq<nat>>,
    leaf_cap: Ghost<nat>,
    branch_cap: Ghost<nat>,
    leaf: Option<&'a Vec<T>>,
    position: usize,
    dump_all: bool,
}

impl<'a, T: Indexable, P: QueryPredicate<T>> QueryWithIter<'a, T, P> {
    /// The values of the current leaf not yet examined.
    closed spec fn leaf_rest(&self) -> Seq<T> {
        match self.leaf {
            Some(values) => values@.skip(self.position as int),
            None => Seq::empty(),
        }
    }

    /// Every value not yet examined or pruned, matching or not.
    pub closed spec fn unexamined(&self) -> Seq<T> {
        self.leaf_rest() + frames_contents(self.stack@)
    }

    /// The predicate the walk answers.
    pub closed spec fn predicate(&self) -> P {
        self.predicate
    }

    /// The matching values still to come, in order.
    pub open spec fn rest(&self) -> Seq<T> {
        self.unexamined().filter(match_fn(self.predicate()))
    }

    /// The walk's invariant: every stacked subtree well formed, the
    /// covered flags and the dump mode truthful for valid boxes.
    pub closed spec fn wf(&self) -> bool {
        &&& self.predicate.spec_ready()
        &&& (self.leaf matches Some(values) ==> self.position <= values@.len())
        &&& self.heights@.len() == self.stack@.len()
        &&& forall|i: int| 0 <= i < self.stack@.len() ==> #[trigger] node_wf(*self.stack@[i].0, self.heights@[i], self.leaf_cap@, self.branch_cap@)
        &&& forall|i: int| 0 <= i < self.stack@.len() && #[trigger] self.stack@[i].1 ==> forall|v: T| node_contents(*self.stack@[i].0).contains(v) && self.predicate.spec_sound_for(v) ==> self.predicate.spec_matches(v)
        &&& self.dump_all ==> forall|v: T| self.leaf_rest().contains(v) && self.predicate.spec_sound_for(v) ==> self.predicate.spec_matches(v)
    }

    /// A walk over the subtree `root` of height `height`, whose stack
    /// starts with room for one path of full branches of `max_fanout`
    /// children.
    pub(crate) fn new(root: &'a Node<T>, predicate: P, height: usize, max_fanout: usize, Ghost(lc): Ghost<nat>, Ghost(bc): Ghost<nat>) -> (it: Self)
        requires
            node_wf(*root, height as nat, lc, bc),
            predicate.spec_ready(),
            stack_capacity_fits(height as nat, max_fanout as nat),
        ensures
            it.wf(),
            it.predicate() == predicate,
            it.unexamined() == node_contents(*root),
    {
        let mut stack: Vec<QueryFrame<'a, T>> = Vec::with_capacity(stack_capacity(height, max_fanout));
        stack.push((root, false));
        let ghost heights: Seq<nat> = seq![height as nat];
        let it = QueryWithIter {
            predicate,
            stack,
            heights: Ghost(heights),
            leaf_cap: Ghost(lc),
            branch_cap: Ghost(bc),
            leaf: None,
            position: 0,
            dump_all: false,
        };
        proof {
            assert(it.stack@.drop_last() =~= Seq::<QueryFrame<T>>::empty());
            assert(frames_contents(Seq::<QueryFrame<T>>::empty()) =~= Seq::<T>::empty());
            assert(it.leaf_rest() =~= Seq::<T>::empty());
            assert(it.unexamined() =~= node_contents(*root));
        }
        it
    }

    /// The next matching value in depth-first order, or `None` when the
    /// walk is done. When the predicate's subtree tests are sound for
    /// every value still to be examined ([`all_sound`]; so when every
    /// stored box is valid) this is exactly the first value of
    /// [`rest`](Self::rest).
    pub fn next(&mut self) -> (r: Option<&'a T>)
        requires
            old(self).wf(),
        ensures
            final(self).wf(),
            final(self).predicate() == old(self).predicate(),
            all_sound(old(self).predicate(), old(self).unexamined()) ==> {
                &&& old(self).rest().len() == 0 ==> r is None && final(self).rest().len() == 0
                &&& old(self).rest().len() > 0 ==> (r matches Some(v) && *v == old(self).rest()[0]
                    && final(self).rest() == old(self).rest().drop_first())
                &&& all_sound(old(self).predicate(), final(self).unexamined())
            },
            final(self).unexamined().len() <= old(self).unexamined().len(),
            r is Some ==> final(self).unexamined().len() < old(self).unexamined().len(),
            r is None ==> final(self).unexamined().len() == 0,
            forall|v: T| #[trigger] old(self).unexamined().contains(v) && old(self).predicate().spec_sound_for(v)
                && old(self).predicate().spec_matches(v) ==> final(self).unexamined().contains(v) || (r matches Some(w) && *w == v),
    {
        let ghost valid = all_sound(self.predicate, self.unexamined());
        let ghost un0 = self.unexamined();
        let ghost start = self.rest();
        let ghost p = match_fn(self.predicate);
        loop
            invariant
                self.wf(),
                self.predicate == old(self).predicate,
                p == match_fn(self.predicate),
                start == old(self).rest(),
                valid == all_sound(self.predicate, old(self).unexamined()),
                valid ==> all_sound(self.predicate, self.unexamined()),
                valid ==> self.rest() == start,
                self.unexamined().len() <= old(self).unexamined().len(),
                un0 == old(self).unexamined(),
                keeps(self.predicate, un0, self.unexamined()),
            decreases frames_size(self.stack@),
        {
            let ghost frames0 = self.stack@;
            if let Some(values) = self.leaf {
                while self.position < values.len()
                    invariant
                        self.wf(),
                        self.leaf == Some(values),
                        self.stack@ == frames0,
                        self.predicate == old(self).predicate,
                        p == match_fn(self.predicate),
                        start == old(self).rest(),
                        valid == all_sound(self.predicate, old(self).unexamined()),
                        valid ==> all_sound(self.predicate, self.unexamined()),
                        valid ==> self.rest() == start,
                        self.unexamined().len() <= old(self).unexamined().len(),
                        un0 == old(self).unexamined(),
                        keeps(self.predicate, un0, self.unexamined()),
                    decreases values@.len() - self.position,
                {
                    let v = &values[self.position];
                    let ghost before = self.unexamined();
                    let ghost tail = values@.skip(self.position + 1);
                    let ghost old_position = self.position;
                    proof {
                        assert(values@.skip(self.position as int) =~= seq![*v] + tail);
                        assert(before =~= seq![*v] + (tail + frames_contents(self.stack@)));
                        assert(before[0] == *v);
                        assert(before.contains(*v));
                        Seq::filter_distributes_over_add(seq![*v], tail + frames_contents(self.stack@), p);
                        reveal(Seq::filter);
                        assert(seq![*v].drop_last() =~= Seq::<T>::empty());
                        assert(values@.skip(self.position as int)[0] == *v);
                        assert(values@.skip(self.position as int).contains(*v));
                    }
                    self.position = self.position + 1;
                    proof {
                        assert(self.unexamined() =~= tail + frames_contents(self.stack@));
                        if self.dump_all {
                            assert forall|w: T| self.leaf_rest().contains(w) && self.predicate.spec_sound_for(w) implies self.predicate.spec_matches(w) by {
                                let k = choose|k: int| 0 <= k < self.leaf_rest().len() && self.leaf_rest()[k] == w;
                                assert(values@.skip(old_position as int)[k + 1] == w);
                                assert(values@.skip(old_position as int).contains(w));
                            }
                        }
                        if valid {
                            assert forall|w: T| self.unexamined().contains(w) implies #[trigger] self.predicate.spec_sound_for(w) by {
                                let k = choose|k: int| 0 <= k < self.unexamined().len() && self.unexamined()[k] == w;
                                assert(before[k + 1] == w);
                            }
                        }
                    }
                    proof {
                        assert forall|x: T| #[trigger] un0.contains(x) && self.predicate.spec_sound_for(x) && self.predicate.spec_matches(x)
                            implies self.unexamined().contains(x) || x == *v by {
                            assert(before.contains(x));
                            lemma_contains_concat(seq![*v], tail + frames_contents(self.stack@), x);
                            if seq![*v].contains(x) {
                                assert(seq![*v][0] == *v);
                            }
                        }
                    }
                    if self.dump_all || self.predicate.matches(v) {
                        proof {
                            if valid {
                                assert(self.predicate.spec_sound_for(*v));
                                assert(p(*v));
                                assert(seq![*v].filter(p) =~= seq![*v]);
                                assert(start =~= seq![*v] + self.rest());
                                assert(start[0] == *v);
                                assert(start.drop_first() =~= self.rest());
                            }
                        }
                        return Some(v);
                    }
                    proof {
                        assert(!self.predicate.spec_matches(*v));
                        assert forall|x: T| #[trigger] un0.contains(x) && self.predicate.spec_sound_for(x) && self.predicate.spec_matches(x)
                            implies self.unexamined().contains(x) by {
                        }
                        if valid {
                            assert(!p(*v));
                            reveal_with_fuel(Seq::filter, 2);
                            assert(seq![*v].drop_last() =~= Seq::<T>::empty());
                            assert(seq![*v].filter(p) =~= Seq::<T>::empty());
                            assert(start =~= self.rest());
                        }
                    }
                }
            }
            let ghost frames = self.stack@;
            let ghost hs = self.heights@;
            proof {
                assert(self.leaf_rest() =~= Seq::<T>::empty());
                assert(self.unexamined() =~= frames_contents(frames));
            }
            match self.stack.pop() {
                None => {
                    proof {
                        assert(frames.len() == 0);
                        reveal(Seq::filter);
                    }
                    return None;
                },
                Some(frame) => {
                    let node = frame.0;
                    let covered = frame.1;
                    let ghost base = self.stack@;
                    let ghost h = hs.last();
                    proof {
                        assert(frames.drop_last() =~= base);
                        assert(frames.last() == frame);
                        assert(frames_size(frames) == node_size(*node) + frames_size(base));
                        self.heights = Ghost(hs.drop_last());
                        assert(node_wf(*node, h, self.leaf_cap@, self.branch_cap@)) by {
                            assert(frames[frames.len() - 1] == frame);
                        }
                        assert forall|i: int| 0 <= i < self.stack@.len() implies #[trigger] node_wf(*self.stack@[i].0, self.heights@[i], self.leaf_cap@, self.branch_cap@) by {
                            assert(self.stack@[i] == frames[i]);
                        }
                        if covered {
                            assert(frames[frames.len() - 1].1);
                        }
                    }
                    match node {
                        Node::Leaf(values) => {
                            self.leaf = Some(values);
                            self.position = 0;
                            self.dump_all = covered;
                            proof {
                                assert(values@.skip(0) =~= values@);
                                assert(self.unexamined() =~= frames_contents(frames));
                                if covered {
                                    assert(frames[frames.len() - 1].1);
                                    assert forall|w: T| self.leaf_rest().contains(w) && self.predicate.spec_sound_for(w) implies self.predicate.spec_matches(w) by {
                                        assert(node_contents(*node).contains(w));
                                    }
                                }
                                assert forall|i: int| 0 <= i < self.stack@.len() && #[trigger] self.stack@[i].1 implies forall|w: T| node_contents(*self.stack@[i].0).contains(w) && self.predicate.spec_sound_for(w) ==> self.predicate.spec_matches(w) by {
                                    assert(self.stack@[i] == frames[i]);
                                }
                            }
                        },
                        Node::Branch(children) => {
                            proof {
                                assert(frames_contents(frames) == node_contents(*node) + frames_contents(base));
                            }
                            self.expand(node, children, covered, Ghost(h), Ghost(base), Ghost(valid), Ghost(start));
                        },
                    }
                },
            }
        }
    }

    /// Run the walk to its end, keeping every yielded value in order.
    pub(crate) fn collect_all(self) -> (r: Vec<&'a T>)
        requires
            self.wf(),
        ensures
            all_sound(self.predicate(), self.unexamined()) ==> r@.unref() == self.rest(),
            keeps(self.predicate(), self.unexamined(), r@.unref()),
    {
        let ghost valid = all_sound(self.predicate, self.unexamined());
        let ghost target = self.rest();
        let ghost pred0 = self.predicate;
        let ghost init = self.unexamined();
        let mut it = self;
        let mut out: Vec<&'a T> = Vec::new();
        proof {
            assert(out@.unref() =~= Seq::<T>::empty());
            assert(Seq::<T>::empty() + target =~= target);
            assert forall|x: T| #[trigger] init.contains(x) && pred0.spec_sound_for(x) && pred0.spec_matches(x)
                implies (out@.unref() + it.unexamined()).contains(x) by {
                lemma_contains_concat(out@.unref(), it.unexamined(), x);
            }
        }
        loop
            invariant_except_break
                it.wf(),
                it.predicate == pred0,
                valid ==> all_sound(pred0, it.unexamined()),
                valid ==> out@.unref() + it.rest() == target,
                keeps(pred0, init, out@.unref() + it.unexamined()),
            ensures
                valid ==> out@.unref() == target,
                keeps(pred0, init, out@.unref()),
            decreases it.unexamined().len(),
        {
            let ghost before = it.rest();
            let ghost prior = out@.unref();
            let ghost un_before = it.unexamined();
            match it.next() {
                Some(v) => {
                    out.push(v);
                    proof {
                        if valid {
                            assert(out@.unref() =~= prior.push(*v));
                            assert(before =~= seq![*v] + before.drop_first());
                            assert(out@.unref() + it.rest() =~= prior + before);
                        }
                        assert(out@.unref() =~= prior.push(*v));
                        assert forall|x: T| #[trigger] init.contains(x) && pred0.spec_sound_for(x) && pred0.spec_matches(x)
                            implies (out@.unref() + it.unexamined()).contains(x) by {
                            lemma_contains_concat(prior, un_before, x);
                            lemma_contains_concat(out@.unref(), it.unexamined(), x);
                            if prior.contains(x) {
                                let k = choose|k: int| 0 <= k < prior.len() && prior[k] == x;
                                assert(out@.unref()[k] == x);
                            } else {
                                assert(un_before.contains(x));
                                if !it.unexamined().contains(x) {
                                    assert(out@.unref()[prior.len() as int] == x);
                                }
                            }
                        }
                    }
                },
                None => {
                    proof {
                        if valid {
                            assert(it.rest() =~= Seq::<T>::empty());
                            assert(out@.unref() + it.rest() =~= out@.unref());
                        }
                        assert forall|x: T| #[trigger] init.contains(x) && pred0.spec_sound_for(x) && pred0.spec_matches(x)
                            implies out@.unref().contains(x) by {
                            lemma_contains_concat(prior, un_before, x);
                            if !prior.contains(x) {
                                assert(un_before.contains(x));
                                assert(it.unexamined().len() == 0);
                            }
                        }
                    }
                    break;
                },
            }
        }
        out
    }

    /// Push the children of a popped branch: all of them when the branch
    /// is covered, otherwise those that may match, each flagged when its
    /// box guarantees a match.
    fn expand(
        &mut self,
        node: &'a Node<T>,
        children: &'a Vec<(Bounds, Node<T>)>,
        covered: bool,
        Ghost(h): Ghost<nat>,
        Ghost(base): Ghost<Seq<QueryFrame<'a, T>>>,
        Ghost(valid): Ghost<bool>,
        Ghost(start): Ghost<Seq<T>>,
    )
        requires
            *node == Node::<T>::Branch(*children),
            node_wf(*node, h, old(self).leaf_cap@, old(self).branch_cap@),
            old(self).stack@ == base,
            old(self).predicate.spec_ready(),
            old(self).heights@.len() == base.len(),
            forall|i: int| 0 <= i < base.len() ==> #[trigger] node_wf(*base[i].0, old(self).heights@[i], old(self).leaf_cap@, old(self).branch_cap@),
            old(self).leaf_rest() == Seq::<T>::empty(),
            (old(self).leaf matches Some(values) ==> old(self).position <= values@.len()),
            valid ==> all_sound(old(self).predicate, node_contents(*node) + frames_contents(base)),
            forall|i: int| 0 <= i < base.len() && #[trigger] base[i].1 ==> forall|v: T| node_contents(*base[i].0).contains(v) && old(self).predicate.spec_sound_for(v) ==> old(self).predicate.spec_matches(v),
            covered ==> forall|v: T| node_contents(*node).contains(v) && old(self).predicate.spec_sound_for(v) ==> old(self).predicate.spec_matches(v),
            valid ==> (node_contents(*node) + frames_contents(base)).filter(match_fn(old(self).predicate)) == start,
        ensures
            final(self).wf(),
            final(self).predicate == old(self).predicate,
            final(self).leaf == old(self).leaf,
            final(self).position == old(self).position,
            final(self).leaf_cap == old(self).leaf_cap,
            final(self).branch_cap == old(self).branch_cap,
            valid ==> all_sound(old(self).predicate, final(self).unexamined()),
            valid ==> final(self).rest() == start,
            keeps(old(self).predicate, node_contents(*node) + frames_contents(base), final(self).unexamined()),
            frames_size(final(self).stack@) < node_size(*node) + frames_size(base),
            final(self).unexamined().len() <= node_contents(*node).len() + frames_contents(base).len(),
    {
        let ghost lc = self.leaf_cap@;
        let ghost bc = self.branch_cap@;
        let ghost cs = children@;
        let ghost p = match_fn(self.predicate);
        proof {
            lemma_children_wf_all(cs, (h - 1) as nat, lc, bc);
        }
        let mut i: usize = children.len();
        proof {
            assert(cs.subrange(i as int, cs.len() as int) =~= Seq::<(Bounds, Node<T>)>::empty());
            assert(children_contents(cs.subrange(i as int, cs.len() as int)) =~= Seq::<T>::empty());
            assert(children_contents(cs.subrange(i as int, cs.len() as int)) + frames_contents(base) =~= frames_contents(base));
            reveal(Seq::filter);
            assert(Seq::<T>::empty().filter(p) =~= Seq::<T>::empty());
            assert(Seq::<T>::empty() + frames_contents(base).filter(p) =~= frames_contents(base).filter(p));
            if valid {
                assert forall|v: T| frames_contents(base).contains(v) implies #[trigger] self.predicate.spec_sound_for(v) by {
                    let k = choose|k: int| 0 <= k < frames_contents(base).len() && frames_contents(base)[k] == v;
                    assert((node_contents(*node) + frames_contents(base))[node_contents(*node).len() + k] == v);
                }
            }
        }
        while i > 0
            invariant
                i <= cs.len(),
                cs == children@,
                h >= 2,
                *node == Node::<T>::Branch(*children),
                forall|c: int| 0 <= c < cs.len() ==> #[trigger] child_wf(cs[c], (h - 1) as nat, lc, bc),
                self.predicate.spec_ready(),
                self.predicate == old(self).predicate,
                p == match_fn(self.predicate),
                self.leaf == old(self).leaf,
                self.position == old(self).position,
                self.leaf_cap@ == lc,
                self.branch_cap@ == bc,
                self.heights@.len() == self.stack@.len(),
                forall|k: int| 0 <= k < self.stack@.len() ==> #[trigger] node_wf(*self.stack@[k].0, self.heights@[k], lc, bc),
                self.stack@.len() >= base.len(),
                forall|k: int| 0 <= k < base.len() ==> self.stack@[k] == base[k],
                valid ==> all_sound(self.predicate, node_contents(*node) + frames_contents(base)),
                forall|k: int| 0 <= k < self.stack@.len() && #[trigger] self.stack@[k].1 ==> forall|v: T| node_contents(*self.stack@[k].0).contains(v) && self.predicate.spec_sound_for(v) ==> self.predicate.spec_matches(v),
                covered ==> forall|v: T| node_contents(*node).contains(v) && self.predicate.spec_sound_for(v) ==> self.predicate.spec_matches(v),
                self.dump_all == old(self).dump_all,
                valid ==> frames_contents(self.stack@).filter(p) == children_contents(cs.subrange(i as int, cs.len() as int)).filter(p) + frames_contents(base).filter(p),
                valid ==> all_sound(self.predicate, frames_contents(self.stack@)),
                frames_size(self.stack@) <= children_size(cs.subrange(i as int, cs.len() as int)) + frames_size(base),
                frames_contents(self.stack@).len() <= children_contents(cs.subrange(i as int, cs.len() as int)).len() + frames_contents(base).len(),
                keeps(self.predicate, children_contents(cs.subrange(i as int, cs.len() as int)) + frames_contents(base), frames_contents(self.stack@)),
            decreases i,
        {
            i = i - 1;
            let entry = &children[i];
            let ghost c = cs[i as int];
            let ghost sub = node_contents(c.1);
            let ghost later = cs.subrange(i + 1, cs.len() as int);
            proof {
                assert(cs.subrange(i as int, cs.len() as int) =~= seq![c] + later);
                lemma_children_contents_add(seq![c], later);
                lemma_children_contents_single(c);
                lemma_children_size_front(c, later);
                lemma_child_contents_within(cs, i as int);
                Seq::filter_distributes_over_add(sub, children_contents(later), p);
                Seq::filter_distributes_over_add(sub.filter(p) + children_contents(later).filter(p), frames_contents(base), p);
                assert(child_wf(c, (h - 1) as nat, lc, bc));
                if valid {
                    assert forall|v: T| sub.contains(v) implies #[trigger] self.predicate.spec_sound_for(v) by {
                        assert(node_contents(*node).contains(v));
                        let k = choose|k: int| 0 <= k < node_contents(*node).len() && node_contents(*node)[k] == v;
                        assert((node_contents(*node) + frames_contents(base))[k] == v);
                    }
                }
            }
            let push = if covered { true } else { self.predicate.could_match(&entry.0) };
            if push {
                let flag = if covered { true } else { self.predicate.covers_all(&entry.0) };
                let ghost prior = self.stack@;
                self.stack.push((&entry.1, flag));
                proof {
                    self.heights = Ghost(self.heights@.push((h - 1) as nat));
                    assert(self.stack@.drop_last() =~= prior);
                    assert(self.stack@.last() == (&entry.1, flag));
                    assert forall|k: int| 0 <= k < self.stack@.len() implies #[trigger] node_wf(*self.stack@[k].0, self.heights@[k], lc, bc) by {
                        if k < prior.len() {
                            assert(self.stack@[k] == prior[k]);
                        }
                    }
                    if flag && !covered {
                        assert forall|v: T| sub.contains(v) && self.predicate.spec_sound_for(v) implies self.predicate.spec_matches(v) by {
                            let m = choose|m: int| 0 <= m < sub.len() && sub[m] == v;
                            lemma_tight_contains(c.0, sub, m);
                            self.predicate.lemma_sound(v, c.0);
                        }
                    }
                    if flag && covered {
                        assert forall|v: T| sub.contains(v) && self.predicate.spec_sound_for(v) implies self.predicate.spec_matches(v) by {
                            assert(node_contents(*node).contains(v));
                        }
                    }
                    assert forall|k: int| 0 <= k < self.stack@.len() && #[trigger] self.stack@[k].1 implies forall|v: T| node_contents(*self.stack@[k].0).contains(v) && self.predicate.spec_sound_for(v) ==> self.predicate.spec_matches(v) by {
                        if k < prior.len() {
                            assert(self.stack@[k] == prior[k]);
                        }
                    }
                    if valid {
                        assert(frames_contents(self.stack@) == sub + frames_contents(prior));
                        Seq::filter_distributes_over_add(sub, frames_contents(prior), p);
                        assert(sub.filter(p) + (children_contents(later).filter(p) + frames_contents(base).filter(p))
                            =~= sub.filter(p) + children_contents(later).filter(p) + frames_contents(base).filter(p));
                        assert forall|v: T| frames_contents(self.stack@).contains(v) implies #[trigger] self.predicate.spec_sound_for(v) by {
                            let k = choose|k: int| 0 <= k < frames_contents(self.stack@).len() && frames_contents(self.stack@)[k] == v;
                            if k < sub.len() {
                                assert(sub.contains(v));
                            } else {
                                assert(frames_contents(prior)[k - sub.len()] == v);
                                assert(frames_contents(prior).contains(v));
                            }
                        }
                    }
                    assert(frames_size(self.stack@) == node_size(c.1) + frames_size(prior));
                    assert(frames_contents(self.stack@) == sub + frames_contents(prior));
                    assert(children_contents(cs.subrange(i as int, cs.len() as int)) == sub + children_contents(later));
                    assert forall|x: T| #[trigger] (children_contents(cs.subrange(i as int, cs.len() as int)) + frames_contents(base)).contains(x)
                        && self.predicate.spec_sound_for(x) && self.predicate.spec_matches(x) implies frames_contents(self.stack@).contains(x) by {
                        lemma_contains_concat(children_contents(cs.subrange(i as int, cs.len() as int)), frames_contents(base), x);
                        lemma_contains_concat(sub, children_contents(later), x);
                        lemma_contains_concat(children_contents(later), frames_contents(base), x);
                        lemma_contains_concat(sub, frames_contents(prior), x);
                        if !sub.contains(x) {
                            assert((children_contents(later) + frames_contents(base)).contains(x));
                        }
                    }
                }
            } else {
                proof {
                    if valid {
                        assert forall|m: int| 0 <= m < sub.len() implies !p(#[trigger] sub[m]) by {
                            lemma_tight_contains(c.0, sub, m);
                            assert(sub.contains(sub[m]));
                            self.predicate.lemma_sound(sub[m], c.0);
                        }
                        lemma_filter_none(sub, p);
                        assert(Seq::<T>::empty() + children_contents(later).filter(p) =~= children_contents(later).filter(p));
                    }
                    assert(children_contents(cs.subrange(i as int, cs.len() as int)) == sub + children_contents(later));
                    assert forall|x: T| #[trigger] (children_contents(cs.subrange(i as int, cs.len() as int)) + frames_contents(base)).contains(x)
                        && self.predicate.spec_sound_for(x) && self.predicate.spec_matches(x) implies frames_contents(self.stack@).contains(x) by {
                        lemma_contains_concat(children_contents(cs.subrange(i as int, cs.len() as int)), frames_contents(base), x);
                        lemma_contains_concat(sub, children_contents(later), x);
                        lemma_contains_concat(children_contents(later), frames_contents(base), x);
                        if sub.contains(x) {
                            let m = choose|m: int| 0 <= m < sub.len() && sub[m] == x;
                            lemma_tight_contains(c.0, sub, m);
                            self.predicate.lemma_sound(x, c.0);
                        }
                        assert((children_contents(later) + frames_contents(base)).contains(x));
                    }
                }
            }
        }
        proof {
            assert(cs.subrange(0, cs.len() as int) =~= cs);
            assert(node_contents(*node) == children_contents(cs));
            assert(node_size(*node) == 1 + children_size(cs));
            assert(self.leaf_rest() =~= Seq::<T>::empty());
            assert(self.unexamined() =~= frames_contents(self.stack@));
            if valid {
                Seq::filter_distributes_over_add(children_contents(cs), frames_contents(base), p);
            }
        }
    }
}

/// A lazy walk yielding the values whose bounds satisfy a built-in
/// [`Predicate`], in depth-first order: subtrees that cannot match are
/// skipped and subtrees the predicate covers are drained untested.
pub struct QueryIter<'a, T> {
    inner: QueryWithIter<'a, T, Predicate>,
}

impl<'a, T: Indexable> QueryIter<'a, T> {
    /// The walk's invariant.
    pub closed spec fn wf(&self) -> bool {
        self.inner.wf()
    }

    /// The predicate the walk answers.
    pub closed spec fn predicate(&self) -> Predicate {
        self.inner.predicate()
    }

    /// Every value not yet examined or pruned.
    pub closed spec fn unexamined(&self) -> Seq<T> {
        self.inner.unexamined()
    }

    /// The matching values still to come, in order.
    pub open spec fn rest(&self) -> Seq<T> {
        self.unexamined().filter(|v: T| self.predicate().spec_matches_box(v.spec_bounds()))
    }

    proof fn lemma_rest(&self)
        ensures
            self.rest() == self.inner.rest(),
    {
        assert(match_fn::<T, Predicate>(self.inner.predicate()) =~= (|v: T| self.predicate().spec_matches_box(v.spec_bounds())));
    }

    /// A walk over the subtree `root` of height `height`.
    pub(crate) fn new(root: &'a Node<T>, predicate: Predicate, height: usize, max_fanout: usize, Ghost(lc): Ghost<nat>, Ghost(bc): Ghost<nat>) -> (it: Self)
        requires
            node_wf(*root, height as nat, lc, bc),
            stack_capacity_fits(height as nat, max_fanout as nat),
        ensures
            it.wf(),
            it.predicate() == predicate,
            it.unexamined() == node_contents(*root),
    {
        QueryIter { inner: QueryWithIter::new(root, predicate, height, max_fanout, Ghost(lc), Ghost(bc)) }
    }

    /// The next matching value in depth-first order, or `None` when the
    /// walk is done. When the walk is exact ([`exact_for`]: every stored
    /// box valid, or a `Contains` or `Covers` query) this is exactly the
    /// first value of [`rest`](Self::rest).
    pub fn next(&mut self) -> (r: Option<&'a T>)
        requires
            old(self).wf(),
        ensures
            final(self).wf(),
            final(self).predicate() == old(self).predicate(),
            exact_for(old(self).predicate(), old(self).unexamined()) ==> {
                &&& old(self).rest().len() == 0 ==> r is None && final(self).rest().len() == 0
                &&& old(self).rest().len() > 0 ==> (r matches Some(v) && *v == old(self).rest()[0]
                    && final(self).rest() == old(self).rest().drop_first())
                &&& exact_for(final(self).predicate(), final(self).unexamined())
            },
            final(self).unexamined().len() <= old(self).unexamined().len(),
            r is Some ==> final(self).unexamined().len() < old(self).unexamined().len(),
            r is None ==> final(self).unexamined().len() == 0,
            forall|v: T| #[trigger] old(self).unexamined().contains(v) && spec_prunes_soundly(old(self).predicate(), v.spec_bounds())
                && old(self).predicate().spec_matches_box(v.spec_bounds()) ==> final(self).unexamined().contains(v) || (r matches Some(w) && *w == v),
    {
        proof {
            self.lemma_rest();
            lemma_exact_all_sound(self.predicate(), self.unexamined());
        }
        let r = self.inner.next();
        proof {
            self.lemma_rest();
            lemma_exact_all_sound(self.predicate(), self.unexamined());
        }
        r
    }

    /// Run the walk to its end, keeping every yielded value in order.
    pub(crate) fn collect_all(self) -> (r: Vec<&'a T>)
        requires
            self.wf(),
        ensures
            exact_for(self.predicate(), self.unexamined()) ==> r@.unref() == self.rest(),
            forall|v: T| #[trigger] self.unexamined().contains(v) && spec_prunes_soundly(self.predicate(), v.spec_bounds())
                && self.predicate().spec_matches_box(v.spec_bounds()) ==> r@.unref().contains(v),
    {
        proof {
            self.lemma_rest();
            lemma_exact_all_sound(self.predicate(), self.unexamined());
        }
        self.inner.collect_all()
    }
}

} // verus!
