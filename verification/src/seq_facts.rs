//! Small facts about sequences and their multisets that the tree and the
//! split strategies share.

use vstd::prelude::*;
use vstd::multiset::Multiset;

verus! {

/// The empty sequence has the empty multiset.
pub proof fn lemma_ms_empty<A>(s: Seq<A>)
    requires
        s.len() == 0,
    ensures
        s.to_multiset() =~= Multiset::<A>::empty(),
{
    vstd::seq_lib::to_multiset_len(s);
    vstd::multiset::lemma_multiset_empty_len(s.to_multiset());
}

/// A one-element sequence has a one-element multiset.
pub proof fn lemma_ms_singleton<A>(x: A)
    ensures
        seq![x].to_multiset() =~= Multiset::<A>::empty().insert(x),
{
    lemma_ms_empty(Seq::<A>::empty());
    assert(seq![x] =~= Seq::<A>::empty().push(x));
    vstd::seq_lib::to_multiset_build(Seq::<A>::empty(), x);
}

/// Membership in a sequence is membership in its multiset.
pub proof fn lemma_ms_contains_iff<A>(s: Seq<A>, x: A)
    ensures
        s.contains(x) <==> s.to_multiset().count(x) > 0,
{
    vstd::seq_lib::to_multiset_contains(s, x);
}


/// Two duplicate-free sequences with the same members have the same
/// length.
pub proof fn lemma_same_members_len<A>(a: Seq<A>, b: Seq<A>)
    requires
        a.no_duplicates(),
        b.no_duplicates(),
        forall|x: A| a.contains(x) <==> b.contains(x),
    ensures
        a.len() == b.len(),
{
    a.lemma_multiset_has_no_duplicates();
    b.lemma_multiset_has_no_duplicates();
    assert forall|x: A| a.to_multiset().count(x) == b.to_multiset().count(x) by {
        lemma_ms_contains_iff(a, x);
        lemma_ms_contains_iff(b, x);
    }
    assert(a.to_multiset() =~= b.to_multiset());
    vstd::seq_lib::to_multiset_len(a);
    vstd::seq_lib::to_multiset_len(b);
}

/// Sequences with equal multisets have the same members.
pub proof fn lemma_ms_same_members<A>(a: Seq<A>, b: Seq<A>)
    requires
        a.to_multiset() == b.to_multiset(),
    ensures
        forall|x: A| a.contains(x) <==> b.contains(x),
{
    assert forall|x: A| a.contains(x) <==> b.contains(x) by {
        lemma_ms_contains_iff(a, x);
        lemma_ms_contains_iff(b, x);
    }
}


/// Sequences with equal multisets keep equal multisets under a map.
pub proof fn lemma_map_ms<A, B>(a: Seq<A>, b: Seq<A>, f: spec_fn(A) -> B)
    requires
        a.to_multiset() == b.to_multiset(),
    ensures
        a.map_values(f).to_multiset() == b.map_values(f).to_multiset(),
    decreases a.len(),
{
    broadcast use vstd::multiset::group_multiset_axioms;
    vstd::seq_lib::to_multiset_len(a);
    vstd::seq_lib::to_multiset_len(b);
    if a.len() == 0 {
        lemma_ms_empty(a.map_values(f));
        lemma_ms_empty(b.map_values(f));
    } else {
        let x = a.last();
        let d = a.drop_last();
        vstd::seq_lib::to_multiset_build(d, x);
        assert(d.push(x) =~= a);
        vstd::seq_lib::to_multiset_contains(b, x);
        let k = choose|k: int| 0 <= k < b.len() && b[k] == x;
        let br = b.remove(k);
        vstd::seq_lib::to_multiset_remove(b, k);
        assert(d.to_multiset() =~= br.to_multiset());
        lemma_map_ms(d, br, f);
        assert(a.map_values(f) =~= d.map_values(f).push(f(x)));
        vstd::seq_lib::to_multiset_build(d.map_values(f), f(x));
        assert(b.map_values(f).remove(k) =~= br.map_values(f));
        vstd::seq_lib::to_multiset_remove(b.map_values(f), k);
        assert(b.map_values(f)[k] == f(x));
        vstd::seq_lib::to_multiset_contains(b.map_values(f), f(x));
        assert(a.map_values(f).to_multiset() =~= b.map_values(f).to_multiset());
    }
}

} // verus!
