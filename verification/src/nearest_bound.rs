//! The k-th-best rank tracker of the nearest search.
//!
//! The best `k` candidates seen so far are kept sorted by distance, ties
//! by the order in which they were admitted. While fewer than `k` are
//! held the bound is open (`None`); once `k` are held it is the k-th best
//! distance, and a candidate must beat it to be admitted.

use vstd::prelude::*;

verus! {

/// A held candidate: distance, admission ordinal, value.
pub type Rank<V> = (i128, usize, V);

/// Rank `a` orders strictly before rank `b`: nearer, or equally near and
/// admitted earlier.
pub open spec fn rank_before<V>(a: Rank<V>, b: Rank<V>) -> bool {
    a.0 < b.0 || (a.0 == b.0 && a.1 < b.1)
}

/// `s` is in strictly ascending rank order.
pub open spec fn ranks_sorted<V>(s: Seq<Rank<V>>) -> bool {
    forall|i: int, j: int| 0 <= i < j < s.len() ==> #[trigger] rank_before(s[i], s[j])
}

/// The values of a run of ranks, in order.
pub open spec fn rank_values<V>(s: Seq<Rank<V>>) -> Seq<V> {
    s.map_values(|r: Rank<V>| r.2)
}

/// The best `k` candidates seen so far, sorted ascending.
pub struct NearestBound<V> {
    ranks: Vec<Rank<V>>,
    k: usize,
    next_ordinal: usize,
}

impl<V> NearestBound<V> {
    /// The held ranks, nearest first.
    pub closed spec fn view(&self) -> Seq<Rank<V>> {
        self.ranks@
    }

    /// How many ranks the tracker keeps.
    pub closed spec fn spec_k(&self) -> nat {
        self.k as nat
    }

    /// The ordinal the next admitted candidate receives.
    pub closed spec fn spec_next_ordinal(&self) -> nat {
        self.next_ordinal as nat
    }

    /// The tracker's invariant: at most `k` ranks, strictly ascending,
    /// every ordinal already handed out.
    pub closed spec fn wf(&self) -> bool {
        &&& self.ranks@.len() <= self.k
        &&& ranks_sorted(self.ranks@)
        &&& forall|i: int| 0 <= i < self.ranks@.len() ==> #[trigger] self.ranks@[i].1 < self.next_ordinal
    }

    /// The distance a candidate must beat: the k-th best distance held,
    /// or `None` (no bound) while fewer than `k` ranks are held.
    pub open spec fn spec_bound(&self) -> Option<i128> {
        if self.view().len() < self.spec_k() || self.view().len() == 0 {
            None
        } else {
            Some(self.view().last().0)
        }
    }

    /// An empty tracker for the best `k` ranks, with room reserved for
    /// `capacity` of them.
    pub fn new(k: usize, capacity: usize) -> (b: Self)
        ensures
            b.wf(),
            b.view() == Seq::<Rank<V>>::empty(),
            b.spec_k() == k,
            b.spec_next_ordinal() == 0,
    {
        NearestBound { ranks: Vec::with_capacity(capacity), k, next_ordinal: 0 }
    }

    /// The distance a candidate must beat, or `None` while fewer than `k`
    /// ranks are held.
    pub fn bound(&self) -> (r: Option<i128>)
        requires
            self.wf(),
        ensures
            r == self.spec_bound(),
    {
        let n = self.ranks.len();
        if n < self.k || n == 0 {
            None
        } else {
            Some(self.ranks[n - 1].0)
        }
    }

    /// Admit a candidate that beats the bound. When `k` ranks are already
    /// held, the last (farthest, latest admitted among the farthest) is
    /// dropped first.
    pub fn admit_better(&mut self, dist: i128, value: V)
        requires
            old(self).wf(),
            old(self).spec_k() >= 1,
            old(self).spec_next_ordinal() < usize::MAX,
            old(self).spec_bound() matches Some(b) ==> dist < b,
        ensures
            final(self).wf(),
            final(self).spec_k() == old(self).spec_k(),
            final(self).spec_next_ordinal() == old(self).spec_next_ordinal() + 1,
            ({
                let kept = if old(self).view().len() == old(self).spec_k() {
                    old(self).view().drop_last()
                } else {
                    old(self).view()
                };
                final(self).view().to_multiset() == kept.to_multiset().insert(
                    (dist, old(self).spec_next_ordinal() as usize, value),
                )
            }),
            final(self).view().len() == (if old(self).view().len() == old(self).spec_k() {
                old(self).view().len()
            } else {
                old(self).view().len() + 1
            }),
            old(self).spec_bound() matches Some(b) ==> (final(self).spec_bound() matches Some(b2)
                && b2 <= b),
            ranks_sorted(final(self).view()),
            forall|i: int| 0 <= i < final(self).view().len() ==> #[trigger] final(self).view()[i].1
                < final(self).spec_next_ordinal(),
    {
        let ordinal = self.next_ordinal;
        self.next_ordinal = self.next_ordinal + 1;
        if self.ranks.len() == self.k {
            let ghost before = self.ranks@;
            self.ranks.pop();
            proof {
                assert(self.ranks@ =~= before.drop_last());
            }
        }
        let ghost kept = self.ranks@;
        let mut p: usize = 0;
        while p < self.ranks.len() && self.ranks[p].0 <= dist
            invariant
                p <= self.ranks@.len(),
                self.ranks@ == kept,
                forall|i: int| 0 <= i < p ==> #[trigger] self.ranks@[i].0 <= dist,
            decreases self.ranks@.len() - p,
        {
            p = p + 1;
        }
        self.ranks.insert(p, (dist, ordinal, value));
        proof {
            vstd::seq_lib::to_multiset_insert(kept, p as int, (dist, ordinal, value));
            let s = self.ranks@;
            assert forall|i: int, j: int| 0 <= i < j < s.len() implies #[trigger] rank_before(s[i], s[j]) by {
                if j < p {
                    assert(s[i] == kept[i] && s[j] == kept[j]);
                } else if j == p {
                    assert(s[i] == kept[i]);
                    assert(kept[i].1 < ordinal);
                } else if i < p {
                    assert(s[i] == kept[i] && s[j] == kept[j - 1]);
                } else if i == p {
                    assert(s[j] == kept[j - 1]);
                    assert(kept[p as int].0 > dist);
                    if j - 1 > p {
                        assert(rank_before(kept[p as int], kept[j - 1]));
                    }
                } else {
                    assert(s[i] == kept[i - 1] && s[j] == kept[j - 1]);
                }
            }
            assert forall|i: int| 0 <= i < s.len() implies #[trigger] s[i].1 < self.next_ordinal by {
                if i < p {
                    assert(s[i] == kept[i]);
                } else if i > p {
                    assert(s[i] == kept[i - 1]);
                }
            }
            if p < kept.len() {
                assert(s.last() == kept.last());
                if kept.len() >= 2 {
                    assert(rank_before(kept[kept.len() - 1], old(self).ranks@.last()) || kept.len()
                        == old(self).ranks@.len());
                }
            }
        }
    }

    /// A well-formed tracker holds at most `k` ranks, and holds exactly
    /// `k` whenever it reports a bound.
    pub proof fn lemma_held_count(&self)
        requires
            self.wf(),
        ensures
            self.view().len() <= self.spec_k(),
            self.spec_bound() is Some ==> self.view().len() == self.spec_k(),
    {
    }

    /// A well-formed tracker holds its ranks in strictly ascending order
    /// (nearer first, equally near in admission order), each with an
    /// ordinal already handed out.
    pub proof fn lemma_ranks_sorted(&self)
        requires
            self.wf(),
        ensures
            ranks_sorted(self.view()),
            forall|i: int| 0 <= i < self.view().len() ==> #[trigger] self.view()[i].1 < self.spec_next_ordinal(),
    {
    }

    /// Every held distance is at most the last one.
    pub proof fn lemma_last_is_farthest(&self)
        requires
            self.wf(),
        ensures
            forall|i: int| 0 <= i < self.view().len() ==> #[trigger] self.view()[i].0 <= self.view().last().0,
            forall|i: int, j: int| 0 <= i <= j < self.view().len() ==> #[trigger] self.view()[i].0 <= #[trigger] self.view()[j].0,
    {
        assert forall|i: int, j: int| 0 <= i <= j < self.view().len() implies #[trigger] self.view()[i].0 <= #[trigger] self.view()[j].0 by {
            if i < j {
                assert(rank_before(self.ranks@[i], self.ranks@[j]));
            }
        }
    }

    /// Consume the tracker: the held values, nearest first.
    pub fn into_values(self) -> (r: Vec<V>)
        ensures
            r@ == rank_values(self.view()),
    {
        let mut ranks = self.ranks;
        let ghost all = ranks@;
        let mut reversed: Vec<V> = Vec::new();
        while ranks.len() > 0
            invariant
                all.len() == ranks@.len() + reversed@.len(),
                ranks@ == all.take(ranks@.len() as int),
                forall|i: int| 0 <= i < reversed@.len() ==> #[trigger] reversed@[i] == all[all.len() - 1 - i].2,
            decreases ranks@.len(),
        {
            let ghost before = ranks@;
            let entry = ranks.pop().unwrap();
            proof {
                assert(ranks@ =~= all.take(ranks@.len() as int));
            }
            reversed.push(entry.2);
        }
        let mut values: Vec<V> = Vec::new();
        while reversed.len() > 0
            invariant
                all.len() == reversed@.len() + values@.len(),
                forall|i: int| 0 <= i < reversed@.len() ==> #[trigger] reversed@[i] == all[all.len() - 1 - i].2,
                forall|i: int| 0 <= i < values@.len() ==> #[trigger] values@[i] == all[i].2,
            decreases reversed@.len(),
        {
            let v = reversed.pop().unwrap();
            values.push(v);
        }
        proof {
            assert(values@ =~= rank_values(all));
        }
        values
    }
}

} // verus!
