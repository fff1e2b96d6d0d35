//! Iteration over every value stored in a tree, in depth-first order.

use vstd::prelude::*;

use crate::bounds::Bounds;
use crate::node::{Node, node_contents, children_contents, node_size, children_size, lemma_children_contents_add, lemma_children_contents_single, lemma_children_size_front};

verus! {

/// The values below a stack of nodes, the top (last) node first.
pub open spec fn stack_contents<T>(stack: Seq<&Node<T>>) -> Seq<T>
    decreases stack.len(),
{
    if stack.len() == 0 {
        Seq::empty()
    } else {
        node_contents(*stack.last()) + stack_contents(stack.drop_last())
    }
}

/// The number of tree nodes below a stack of nodes.
pub open spec fn stack_size<T>(stack: Seq<&Node<T>>) -> nat
    decreases stack.len(),
{
    if stack.len() == 0 {
        0
    } else {
        node_size(*stack.last()) + stack_size(stack.drop_last())
    }
}

/// Pushing a run of children, last first, puts the first child on top:
/// the stack then holds the run's values ahead of what it held.
pub proof fn lemma_push_children_reversed<T>(stack: Seq<&Node<T>>, cs: Seq<(Bounds, Node<T>)>, k: int)
    requires
        0 <= k <= cs.len(),
    ensures
        stack_contents(stack + Seq::new((cs.len() - k) as nat, |i: int| &cs[cs.len() - 1 - i].1))
            == children_contents(cs.subrange(k, cs.len() as int)) + stack_contents(stack),
        stack_size(stack + Seq::new((cs.len() - k) as nat, |i: int| &cs[cs.len() - 1 - i].1))
            == children_size(cs.subrange(k, cs.len() as int)) + stack_size(stack),
    decreases cs.len() - k,
{
    let pushed = Seq::new((cs.len() - k) as nat, |i: int| &cs[cs.len() - 1 - i].1);
    let rest = cs.subrange(k, cs.len() as int);
    if k == cs.len() {
        assert(stack + pushed =~= stack);
        assert(rest =~= Seq::<(Bounds, Node<T>)>::empty());
        assert(children_contents(rest) + stack_contents(stack) =~= stack_contents(stack));
    } else {
        lemma_push_children_reversed(stack, cs, k + 1);
        let shorter = Seq::new((cs.len() - k - 1) as nat, |i: int| &cs[cs.len() - 1 - i].1);
        assert((stack + pushed).drop_last() =~= stack + shorter);
        assert((stack + pushed).last() == &cs[k].1);
        let tail = cs.subrange(k + 1, cs.len() as int);
        assert(rest =~= seq![cs[k]] + tail);
        lemma_children_contents_add(seq![cs[k]], tail);
        lemma_children_contents_single(cs[k]);
        lemma_children_size_front(cs[k], tail);
        assert(node_contents(cs[k].1) + (children_contents(tail) + stack_contents(stack))
            =~= children_contents(rest) + stack_contents(stack));
    }
}

/// A depth-first walk over every value of a tree.
pub struct Values<'a, T> {
    stack: Vec<&'a Node<T>>,
    leaf: Option<&'a Vec<T>>,
    position: usize,
    remaining: usize,
}

impl<'a, T> Values<'a, T> {
    /// The values still to come, in order.
    pub closed spec fn rest(&self) -> Seq<T> {
        self.leaf_rest() + stack_contents(self.stack@)
    }

    /// The values of the current leaf still to come.
    closed spec fn leaf_rest(&self) -> Seq<T> {
        match self.leaf {
            Some(values) => values@.skip(self.position as int),
            None => Seq::empty(),
        }
    }

    /// The walk's invariant.
    pub closed spec fn wf(&self) -> bool {
        &&& (self.leaf matches Some(values) ==> self.position <= values@.len())
        &&& self.remaining == self.rest().len()
    }

    /// A walk over the values below `root`, which holds `len` values.
    pub fn new(root: &'a Node<T>, len: usize) -> (it: Self)
        requires
            len == node_contents(*root).len(),
        ensures
            it.wf(),
            it.rest() == node_contents(*root),
    {
        let mut stack: Vec<&'a Node<T>> = Vec::new();
        stack.push(root);
        let it = Values { stack, leaf: None, position: 0, remaining: len };
        proof {
            assert(it.stack@.drop_last() =~= Seq::<&Node<T>>::empty());
            assert(stack_contents(Seq::<&Node<T>>::empty()) =~= Seq::<T>::empty());
            assert(it.stack@.last() == root);
            assert(stack_contents(it.stack@) =~= node_contents(*root));
            assert(it.leaf_rest() =~= Seq::<T>::empty());
            assert(it.rest() =~= node_contents(*root));
        }
        it
    }

    /// How many values are still to come.
    pub fn len(&self) -> (n: usize)
        requires
            self.wf(),
        ensures
            n == self.rest().len(),
    {
        self.remaining
    }

    /// The next value in depth-first order, or `None` when the walk is
    /// done.
    pub fn next(&mut self) -> (r: Option<&'a T>)
        requires
            old(self).wf(),
        ensures
            final(self).wf(),
            old(self).rest().len() == 0 ==> r is None && final(self).rest().len() == 0,
            old(self).rest().len() > 0 ==> (r matches Some(v) && *v == old(self).rest()[0]
                && final(self).rest() == old(self).rest().drop_first()),
    {
        let ghost start = self.rest();
        loop
            invariant
                self.wf(),
                self.rest() == start,
                start == old(self).rest(),
            decreases stack_size(self.stack@),
        {
            if let Some(values) = self.leaf {
                if self.position < values.len() {
                    let v = &values[self.position];
                    proof {
                        assert(values@.skip(self.position as int)[0] == *v);
                        assert(values@.skip(self.position + 1) =~= values@.skip(self.position as int).drop_first());
                        assert(start.drop_first() =~= values@.skip(self.position + 1) + stack_contents(self.stack@));
                        assert(start[0] == *v);
                    }
                    self.position = self.position + 1;
                    self.remaining = self.remaining - 1;
                    return Some(v);
                }
            }
            let ghost before = self.stack@;
            proof {
                assert(self.leaf_rest() =~= Seq::<T>::empty());
                assert(start =~= stack_contents(before));
            }
            match self.stack.pop() {
                None => {
                    proof {
                        assert(before.len() == 0);
                    }
                    return None;
                },
                Some(node) => {
                    let ghost base = self.stack@;
                    proof {
                        assert(before.drop_last() =~= base);
                        assert(before.last() == node);
                    }
                    match node {
                        Node::Leaf(values) => {
                            self.leaf = Some(values);
                            self.position = 0;
                            proof {
                                assert(values@.skip(0) =~= values@);
                                assert(self.rest() =~= start);
                            }
                        },
                        Node::Branch(children) => {
                            let mut i: usize = children.len();
                            let ghost leaf0 = self.leaf;
                            let ghost position0 = self.position;
                            let ghost remaining0 = self.remaining;
                            proof {
                                assert(self.stack@ =~= base + Seq::new((children@.len() - i) as nat, |j: int| &children@[children@.len() - 1 - j].1));
                            }
                            while i > 0
                                invariant
                                    i <= children@.len(),
                                    self.leaf == leaf0,
                                    self.position == position0,
                                    self.remaining == remaining0,
                                    self.stack@ == base + Seq::new((children@.len() - i) as nat, |j: int| &children@[children@.len() - 1 - j].1),
                                decreases i,
                            {
                                i = i - 1;
                                let ghost prior = self.stack@;
                                self.stack.push(&children[i].1);
                                proof {
                                    assert(self.stack@ =~= base + Seq::new((children@.len() - i) as nat, |j: int| &children@[children@.len() - 1 - j].1));
                                }
                            }
                            proof {
                                lemma_push_children_reversed(base, children@, 0);
                                assert(children@.subrange(0, children@.len() as int) =~= children@);
                                assert(node_contents(*node) == children_contents(children@));
                                assert(start == node_contents(*node) + stack_contents(base));
                                assert(self.leaf_rest() =~= Seq::<T>::empty());
                                assert(self.rest() =~= start);
                            }
                        },
                    }
                },
            }
        }
    }
}

} // verus!
