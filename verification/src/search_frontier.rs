//! A priority queue for the nearest search's node frontier.
//!
//! Entries begin in a fixed-capacity inline binary heap (heapless's
//! `BinaryHeap`) and move into an allocated, sorted vector only if the
//! frontier outgrows the inline capacity. Pop order is identical either
//! way (smallest entry first), so correctness never depends on staying
//! below the boundary.

use vstd::prelude::*;
use vstd::multiset::Multiset;

verus! {

broadcast use vstd::multiset::group_multiset_axioms;

#[verifier::external_type_specification]
#[verifier::external_body]
#[verifier::reject_recursive_types(T)]
#[verifier::reject_recursive_types(K)]
pub struct ExInlineBinaryHeap<T, K, const N: usize>(heapless::binary_heap::BinaryHeap<T, K, N>);

#[verifier::external_type_specification]
#[verifier::external_body]
pub struct ExMinHeapKind(heapless::binary_heap::Min);

/// A frontier entry: a distance key and the identifier it ranks.
pub type FrontierEntry = (i128, usize);

/// The most entries the inline storage holds.
pub const INLINE_STORAGE: usize = 192;

/// The inline storage: a min-heap of frontier entries.
pub type InlineHeap = heapless::binary_heap::BinaryHeap<(i128, usize), heapless::binary_heap::Min, 192>;

/// The entries an inline heap holds.
pub uninterp spec fn inline_entries(h: InlineHeap) -> Multiset<(i128, usize)>;

/// Entry `a` orders no later than entry `b`: by key, then by identifier.
pub open spec fn entry_le(a: FrontierEntry, b: FrontierEntry) -> bool {
    a.0 < b.0 || (a.0 == b.0 && a.1 <= b.1)
}

/// `e` is a least entry of `m`.
pub open spec fn is_least(m: Multiset<FrontierEntry>, e: FrontierEntry) -> bool {
    m.count(e) > 0 && forall|x: FrontierEntry| m.count(x) > 0 ==> #[trigger] entry_le(e, x)
}

/// `heapless::binary_heap::BinaryHeap::new`: an empty heap.
#[verifier::external_body]
fn inline_new() -> (h: InlineHeap)
    ensures
        inline_entries(h) =~= Multiset::empty(),
{
    heapless::binary_heap::BinaryHeap::new()
}

/// `heapless::binary_heap::BinaryHeap::len`: the number of entries held.
#[verifier::external_body]
fn inline_len(h: &InlineHeap) -> (n: usize)
    ensures
        n == inline_entries(*h).len(),
{
    h.len()
}

/// `heapless::binary_heap::BinaryHeap::push`: adds the entry when the
/// heap holds fewer than its capacity of 192 entries, and otherwise
/// hands it back (here: reports `false`) leaving the heap unchanged.
#[verifier::external_body]
fn inline_push(h: &mut InlineHeap, e: FrontierEntry) -> (pushed: bool)
    ensures
        pushed <==> inline_entries(*old(h)).len() < INLINE_STORAGE,
        inline_entries(*final(h)) == (if pushed {
            inline_entries(*old(h)).insert(e)
        } else {
            inline_entries(*old(h))
        }),
{
    h.push(e).is_ok()
}

/// `heapless::binary_heap::BinaryHeap::pop` on a min-heap: removes and
/// returns a smallest entry (by the tuple order of `(i128, usize)`), or
/// `None` when the heap is empty.
#[verifier::external_body]
fn inline_pop(h: &mut InlineHeap) -> (r: Option<FrontierEntry>)
    ensures
        r is None <==> inline_entries(*old(h)).len() == 0,
        r is None ==> inline_entries(*final(h)) == inline_entries(*old(h)),
        r matches Some(e) ==> is_least(inline_entries(*old(h)), e) && inline_entries(*final(h))
            == inline_entries(*old(h)).remove(e),
{
    h.pop()
}

/// `heapless::binary_heap::BinaryHeap::peek` on a min-heap: a copy of a
/// smallest entry (the heap's root), or `None` when the heap is empty.
#[verifier::external_body]
fn inline_peek(h: &InlineHeap) -> (r: Option<FrontierEntry>)
    ensures
        r is None <==> inline_entries(*h).len() == 0,
        r matches Some(e) ==> is_least(inline_entries(*h), e),
{
    h.peek().copied()
}

/// `heapless::binary_heap::BinaryHeap::into_vec`, copied into a `Vec`:
/// the entries the heap held, in no particular order.
#[verifier::external_body]
fn inline_into_entries(h: InlineHeap) -> (v: Vec<FrontierEntry>)
    ensures
        v@.to_multiset() == inline_entries(h),
{
    h.into_vec().iter().copied().collect()
}

/// `v` is sorted from largest to smallest entry, so its last entry is a
/// least one.
pub open spec fn sorted_descending(v: Seq<FrontierEntry>) -> bool {
    forall|i: int, j: int| 0 <= i < j < v.len() ==> #[trigger] entry_le(v[j], v[i])
}

/// Where the frontier's entries live.
enum FrontierEntries {
    Inline(InlineHeap),
    Spilled(Vec<FrontierEntry>),
}

/// A min-priority queue: [`pop`](Self::pop) returns a smallest entry.
/// The first `min(INLINE_CAPACITY, 192)` entries stay inline; the first
/// push past that moves every entry into an allocated sorted vector.
pub struct SearchFrontier<const INLINE_CAPACITY: usize> {
    entries: FrontierEntries,
}

impl<const INLINE_CAPACITY: usize> SearchFrontier<INLINE_CAPACITY> {
    /// The entries held, as a multiset.
    pub closed spec fn view(&self) -> Multiset<FrontierEntry> {
        match self.entries {
            FrontierEntries::Inline(h) => inline_entries(h),
            FrontierEntries::Spilled(v) => v@.to_multiset(),
        }
    }

    /// The frontier's invariant.
    pub closed spec fn wf(&self) -> bool {
        match self.entries {
            FrontierEntries::Inline(h) => inline_entries(h).len() <= Self::inline_limit(),
            FrontierEntries::Spilled(v) => sorted_descending(v@),
        }
    }

    /// How many entries stay inline before the frontier spills.
    pub open spec fn inline_limit() -> nat {
        if INLINE_CAPACITY < INLINE_STORAGE { INLINE_CAPACITY as nat } else { INLINE_STORAGE as nat }
    }

    /// Whether the entries have moved to allocated storage.
    pub closed spec fn spec_spilled(&self) -> bool {
        self.entries is Spilled
    }

    /// An empty frontier backed entirely by inline storage.
    pub fn new() -> (f: Self)
        ensures
            f.wf(),
            f.view() =~= Multiset::<FrontierEntry>::empty(),
            !f.spec_spilled(),
    {
        SearchFrontier { entries: FrontierEntries::Inline(inline_new()) }
    }

    /// The number of entries held.
    pub fn len(&self) -> (n: usize)
        requires
            self.wf(),
        ensures
            n == self.view().len(),
    {
        match &self.entries {
            FrontierEntries::Inline(h) => inline_len(h),
            FrontierEntries::Spilled(v) => {
                proof {
                    vstd::seq_lib::to_multiset_len(v@);
                }
                v.len()
            },
        }
    }

    /// Whether the entries have moved to allocated storage.
    pub fn is_spilled(&self) -> (r: bool)
        ensures
            r == self.spec_spilled(),
    {
        match &self.entries {
            FrontierEntries::Inline(_) => false,
            FrontierEntries::Spilled(_) => true,
        }
    }

    /// Push an entry; the first push past the inline limit moves every
    /// entry into allocated storage. The frontier spills exactly when it
    /// would otherwise hold more than the inline limit.
    pub fn push(&mut self, entry: FrontierEntry)
        requires
            old(self).wf(),
        ensures
            final(self).wf(),
            final(self).view() == old(self).view().insert(entry),
            final(self).spec_spilled() == (old(self).spec_spilled() || old(self).view().len() + 1
                > Self::inline_limit()),
    {
        let mut entries = FrontierEntries::Spilled(Vec::new());
        core::mem::swap(&mut entries, &mut self.entries);
        match entries {
            FrontierEntries::Inline(mut heap) => {
                let held = inline_len(&heap);
                if held < INLINE_CAPACITY && inline_push(&mut heap, entry) {
                    self.entries = FrontierEntries::Inline(heap);
                } else {
                    let ghost before = inline_entries(heap);
                    let loose = inline_into_entries(heap);
                    let mut sorted: Vec<FrontierEntry> = Vec::new();
                    let mut i: usize = 0;
                    proof {
                        crate::seq_facts::lemma_ms_empty(sorted@);
                        assert(loose@.take(0) =~= Seq::<FrontierEntry>::empty());
                        crate::seq_facts::lemma_ms_empty(loose@.take(0));
                    }
                    while i < loose.len()
                        invariant
                            i <= loose@.len(),
                            sorted_descending(sorted@),
                            sorted@.to_multiset() == loose@.take(i as int).to_multiset(),
                        decreases loose@.len() - i,
                    {
                        let ghost prefix = loose@.take(i as int);
                        insert_sorted(&mut sorted, loose[i]);
                        proof {
                            assert(loose@.take(i + 1) =~= prefix.push(loose@[i as int]));
                            vstd::seq_lib::to_multiset_build(prefix, loose@[i as int]);
                        }
                        i = i + 1;
                    }
                    proof {
                        assert(loose@.take(loose@.len() as int) =~= loose@);
                    }
                    insert_sorted(&mut sorted, entry);
                    self.entries = FrontierEntries::Spilled(sorted);
                }
            },
            FrontierEntries::Spilled(mut sorted) => {
                insert_sorted(&mut sorted, entry);
                self.entries = FrontierEntries::Spilled(sorted);
            },
        }
    }

    /// Push a batch of entries; the frontier spills exactly when it would
    /// otherwise hold more than the inline limit.
    pub fn extend(&mut self, entries: Vec<FrontierEntry>)
        requires
            old(self).wf(),
        ensures
            final(self).wf(),
            final(self).view() == old(self).view().add(entries@.to_multiset()),
            final(self).spec_spilled() == (old(self).spec_spilled() || old(self).view().len() + entries@.len()
                > Self::inline_limit()),
    {
        let ghost start = self.view();
        let ghost was_spilled = self.spec_spilled();
        let mut i: usize = 0;
        proof {
            crate::seq_facts::lemma_ms_empty(entries@.subrange(0, 0));
            assert(start.add(entries@.subrange(0, 0).to_multiset()) =~= start);
        }
        while i < entries.len()
            invariant
                self.wf(),
                i <= entries@.len(),
                self.view() == start.add(entries@.subrange(0, i as int).to_multiset()),
                self.spec_spilled() == (was_spilled || start.len() + i > Self::inline_limit()),
            decreases entries@.len() - i,
        {
            let ghost prefix = entries@.subrange(0, i as int);
            proof {
                vstd::seq_lib::to_multiset_len(prefix);
            }
            self.push(entries[i]);
            proof {
                assert(entries@.subrange(0, i + 1) =~= prefix.push(entries@[i as int]));
                vstd::seq_lib::to_multiset_build(prefix, entries@[i as int]);
                assert(self.view() =~= start.add(entries@.subrange(0, i + 1).to_multiset()));
            }
            i = i + 1;
        }
        proof {
            assert(entries@.subrange(0, entries@.len() as int) =~= entries@);
        }
    }

    /// A smallest entry, left in place, or `None` when empty.
    pub fn peek(&self) -> (r: Option<FrontierEntry>)
        requires
            self.wf(),
        ensures
            r is None <==> self.view().len() == 0,
            r matches Some(e) ==> is_least(self.view(), e),
    {
        match &self.entries {
            FrontierEntries::Inline(h) => inline_peek(h),
            FrontierEntries::Spilled(sorted) => {
                proof {
                    vstd::seq_lib::to_multiset_len(sorted@);
                }
                if sorted.len() == 0 {
                    None
                } else {
                    let e = sorted[sorted.len() - 1];
                    proof {
                        let s = sorted@;
                        vstd::seq_lib::to_multiset_contains(s, e);
                        assert(s.contains(e)) by {
                            assert(s[s.len() - 1] == e);
                        }
                        assert forall|x: FrontierEntry| s.to_multiset().count(x) > 0 implies #[trigger] entry_le(e, x) by {
                            vstd::seq_lib::to_multiset_contains(s, x);
                            let k = choose|k: int| 0 <= k < s.len() && s[k] == x;
                            if k < s.len() - 1 {
                                assert(entry_le(s[s.len() - 1], s[k]));
                            }
                        }
                    }
                    Some(e)
                }
            },
        }
    }

    /// Remove and return a smallest entry, or `None` when empty.
    pub fn pop(&mut self) -> (r: Option<FrontierEntry>)
        requires
            old(self).wf(),
        ensures
            final(self).wf(),
            final(self).spec_spilled() == old(self).spec_spilled(),
            r is None <==> old(self).view().len() == 0,
            r is None ==> final(self).view() == old(self).view(),
            r matches Some(e) ==> is_least(old(self).view(), e) && final(self).view()
                == old(self).view().remove(e),
    {
        let mut entries = FrontierEntries::Spilled(Vec::new());
        core::mem::swap(&mut entries, &mut self.entries);
        match entries {
            FrontierEntries::Inline(mut heap) => {
                let r = inline_pop(&mut heap);
                self.entries = FrontierEntries::Inline(heap);
                r
            },
            FrontierEntries::Spilled(mut sorted) => {
                let ghost before = sorted@;
                proof {
                    vstd::seq_lib::to_multiset_len(before);
                }
                let r = sorted.pop();
                proof {
                    if before.len() > 0 {
                        let e = before.last();
                        assert(before =~= sorted@.push(e));
                        vstd::seq_lib::to_multiset_build(sorted@, e);
                        assert forall|x: FrontierEntry| before.to_multiset().count(x) > 0 implies #[trigger] entry_le(e, x) by {
                            vstd::seq_lib::to_multiset_contains(before, x);
                            let k = choose|k: int| 0 <= k < before.len() && before[k] == x;
                            if k < before.len() - 1 {
                                assert(entry_le(before[before.len() - 1], before[k]));
                            }
                        }
                        assert(sorted_descending(sorted@)) by {
                            assert forall|i: int, j: int| 0 <= i < j < sorted@.len() implies #[trigger] entry_le(sorted@[j], sorted@[i]) by {
                                assert(sorted@[i] == before[i] && sorted@[j] == before[j]);
                            }
                        }
                    }
                }
                self.entries = FrontierEntries::Spilled(sorted);
                r
            },
        }
    }
}

/// Insert `e` into a vector kept sorted from largest to smallest.
fn insert_sorted(v: &mut Vec<FrontierEntry>, e: FrontierEntry)
    requires
        sorted_descending(old(v)@),
    ensures
        sorted_descending(final(v)@),
        final(v)@.to_multiset() == old(v)@.to_multiset().insert(e),
{
    let mut p: usize = 0;
    while p < v.len() && !(v[p].0 < e.0 || (v[p].0 == e.0 && v[p].1 <= e.1))
        invariant
            p <= v@.len(),
            forall|i: int| 0 <= i < p ==> !#[trigger] entry_le(v@[i], e),
        decreases v@.len() - p,
    {
        p = p + 1;
    }
    let ghost before = v@;
    v.insert(p, e);
    proof {
        vstd::seq_lib::to_multiset_insert(before, p as int, e);
        assert(p < before.len() ==> entry_le(before[p as int], e));
        assert forall|i: int, j: int| 0 <= i < j < v@.len() implies #[trigger] entry_le(v@[j], v@[i]) by {
            if j < p {
                assert(v@[i] == before[i] && v@[j] == before[j]);
            } else if j == p {
                assert(v@[i] == before[i]);
                assert(!entry_le(before[i], e));
            } else if i < p {
                assert(v@[i] == before[i] && v@[j] == before[j - 1]);
            } else if i == p {
                assert(v@[j] == before[j - 1]);
                if j - 1 > p {
                    assert(entry_le(before[j - 1], before[p as int]));
                }
            } else {
                assert(v@[i] == before[i - 1] && v@[j] == before[j - 1]);
            }
        }
    }
}

} // verus!
