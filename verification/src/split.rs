//! Node-split strategies: the type parameter that governs tree shape.
//!
//! When a node overflows, the split strategy decides how to partition
//! its entries into two nodes. The strategy is a [`SplitParameters`]
//! type carried on `Rtree<T, Params>`. Four strategies ship:
//! [`AsymmetricRStarSplit`] (the tree's default), symmetric
//! [`RStarSplit`], [`Quadratic`] and [`Linear`].
//!
//! The parameters are positional: insertion branch maximum and minimum,
//! insertion leaf maximum and minimum, and (for [`AsymmetricRStarSplit`])
//! the bulk-packed branch and leaf maxima, where zero inherits the
//! insertion maximum. The insertion strategies expect both minimums to be
//! non-zero and to leave room for two groups when a node of `MAX + 1`
//! entries splits: `2 * MIN <= MAX + 1`.

use vstd::prelude::*;


use crate::bounds::{Bounds, union_all, spec_union_all};
use crate::seq_facts::{lemma_ms_empty, lemma_ms_singleton};

verus! {

broadcast use {
    vstd::multiset::group_multiset_axioms,
    vstd::seq_lib::lemma_multiset_commutative,
    vstd::seq_lib::to_multiset_build,
    vstd::seq_lib::to_multiset_remove,
    vstd::seq_lib::to_multiset_len,
};

/// The indices `0, 1, ..., n - 1`.
pub open spec fn range_seq(n: nat) -> Seq<usize> {
    Seq::new(n, |i: int| i as usize)
}

/// `g1` and `g2` together list every index below `n` exactly once.
pub open spec fn is_partition(g1: Seq<usize>, g2: Seq<usize>, n: nat) -> bool {
    g1.to_multiset().add(g2.to_multiset()) == range_seq(n).to_multiset()
}

/// What a partition gives: the groups are disjoint, duplicate-free, hold
/// only indices below `n`, and together hold all `n` of them.
pub proof fn lemma_partition_facts(g1: Seq<usize>, g2: Seq<usize>, n: nat)
    requires
        is_partition(g1, g2, n),
        n <= usize::MAX + 1,
    ensures
        g1.len() + g2.len() == n,
        (g1 + g2).no_duplicates(),
        g1.no_duplicates(),
        g2.no_duplicates(),
        forall|i: int| 0 <= i < g1.len() ==> #[trigger] g1[i] < n,
        forall|i: int| 0 <= i < g2.len() ==> #[trigger] g2[i] < n,
        forall|x: usize| x < n ==> (g1.contains(x) || g2.contains(x)),
        forall|x: usize| !(g1.contains(x) && g2.contains(x)),
{
    let all = g1 + g2;
    let r = range_seq(n);
    assert(all.to_multiset() == r.to_multiset());
    assert(r.no_duplicates());
    r.lemma_multiset_has_no_duplicates();
    all.lemma_multiset_has_no_duplicates_conv();
    assert(all.len() == r.len()) by {
        vstd::seq_lib::to_multiset_len(all);
        vstd::seq_lib::to_multiset_len(r);
    }
    assert forall|i: int| 0 <= i < g1.len() implies #[trigger] g1[i] < n by {
        assert(all[i] == g1[i]);
        vstd::seq_lib::to_multiset_contains(all, g1[i]);
        vstd::seq_lib::to_multiset_contains(r, g1[i]);
        let k = choose|k: int| 0 <= k < r.len() && r[k] == g1[i];
    }
    assert forall|i: int| 0 <= i < g2.len() implies #[trigger] g2[i] < n by {
        assert(all[g1.len() + i] == g2[i]);
        vstd::seq_lib::to_multiset_contains(all, g2[i]);
        vstd::seq_lib::to_multiset_contains(r, g2[i]);
        let k = choose|k: int| 0 <= k < r.len() && r[k] == g2[i];
    }
    assert forall|x: usize| x < n implies (g1.contains(x) || g2.contains(x)) by {
        assert(r[x as int] == x);
        vstd::seq_lib::to_multiset_contains(r, x);
        vstd::seq_lib::to_multiset_contains(all, x);
        let k = choose|k: int| 0 <= k < all.len() && all[k] == x;
        if k < g1.len() {
            assert(g1[k] == x);
        } else {
            assert(g2[k - g1.len()] == x);
        }
    }
    assert forall|x: usize| !(g1.contains(x) && g2.contains(x)) by {
        if g1.contains(x) && g2.contains(x) {
            let a = choose|a: int| 0 <= a < g1.len() && g1[a] == x;
            let b = choose|b: int| 0 <= b < g2.len() && g2[b] == x;
            assert(all[a] == all[g1.len() + b]);
        }
    }
    assert forall|i: int, j: int| 0 <= i < g1.len() && 0 <= j < g1.len() && i != j implies g1[i]
        != g1[j] by {
        assert(all[i] == g1[i] && all[j] == g1[j]);
    }
    assert forall|i: int, j: int| 0 <= i < g2.len() && 0 <= j < g2.len() && i != j implies g2[i]
        != g2[j] by {
        assert(all[g1.len() + i] == g2[i] && all[g1.len() + j] == g2[j]);
    }
}

/// Removing the element at `p` by swapping the last element into its
/// place removes exactly that element from the multiset.
pub proof fn lemma_swap_remove_multiset<A>(s: Seq<A>, p: int)
    requires
        0 <= p < s.len(),
    ensures
        s.update(p, s.last()).drop_last().to_multiset() == s.to_multiset().remove(s[p]),
{
    let t = s.update(p, s.last()).drop_last();
    let x = s[p];
    let l = s.last();
    let a = s.subrange(0, p);
    if p == s.len() - 1 {
        assert(t =~= a);
        assert(s =~= a + seq![x]);
        vstd::seq_lib::lemma_multiset_commutative(a, seq![x]);
        lemma_ms_singleton(x);
    } else {
        let b = s.subrange(p + 1, s.len() - 1);
        assert(s =~= a + seq![x] + b + seq![l]);
        assert(t =~= a + seq![l] + b);
        vstd::seq_lib::lemma_multiset_commutative(a + seq![x] + b, seq![l]);
        vstd::seq_lib::lemma_multiset_commutative(a + seq![x], b);
        vstd::seq_lib::lemma_multiset_commutative(a, seq![x]);
        vstd::seq_lib::lemma_multiset_commutative(a + seq![l], b);
        vstd::seq_lib::lemma_multiset_commutative(a, seq![l]);
        lemma_ms_singleton(x);
        lemma_ms_singleton(l);
    }
    assert(t.to_multiset() =~= s.to_multiset().remove(x));
}

/// How a full node is partitioned when it overflows.
///
/// Insertion uses the leaf/branch maxima and minima; bulk loading may
/// select other maxima. The split methods take the overflowing entries'
/// bounds and return the two groups of entry indices.
pub trait SplitParameters {
    /// Maximum children per node before it must split.
    const MAX: usize;
    /// Minimum children each node keeps after a split.
    const MIN: usize;
    /// Maximum values in a leaf.
    const LEAF_MAX: usize = Self::MAX;
    /// Minimum values in either half of a split leaf.
    const LEAF_MIN: usize = Self::MIN;
    /// Maximum children in a branch.
    const BRANCH_MAX: usize = Self::MAX;
    /// Minimum children in either half of a split branch.
    const BRANCH_MIN: usize = Self::MIN;
    /// Maximum values per leaf created by bulk loading.
    const BULK_LEAF_MAX: usize = Self::LEAF_MAX;
    /// Maximum children per branch created by bulk loading.
    const BULK_BRANCH_MAX: usize = Self::BRANCH_MAX;

    /// Partition `entries` into two groups of indices, each of size at
    /// least [`Self::MIN`].
    fn split(entries: &[Bounds]) -> (r: (Vec<usize>, Vec<usize>))
        requires
            1 <= Self::MIN,
            2 * Self::MIN <= entries@.len(),
        ensures
            is_partition(r.0@, r.1@, entries@.len()),
            r.0@.len() >= Self::MIN,
            r.1@.len() >= Self::MIN,
    ;

    /// Partition an overflowing leaf.
    fn split_leaf(entries: &[Bounds]) -> (r: (Vec<usize>, Vec<usize>))
        requires
            1 <= Self::LEAF_MIN,
            2 * Self::LEAF_MIN <= entries@.len(),
        ensures
            is_partition(r.0@, r.1@, entries@.len()),
            r.0@.len() >= Self::LEAF_MIN,
            r.1@.len() >= Self::LEAF_MIN,
    ;

    /// Partition an overflowing branch.
    fn split_branch(entries: &[Bounds]) -> (r: (Vec<usize>, Vec<usize>))
        requires
            1 <= Self::BRANCH_MIN,
            2 * Self::BRANCH_MIN <= entries@.len(),
        ensures
            is_partition(r.0@, r.1@, entries@.len()),
            r.0@.len() >= Self::BRANCH_MIN,
            r.1@.len() >= Self::BRANCH_MIN,
    ;
}

/// The insertion parameters leave room for two non-empty groups when a
/// node one past its insertion maximum splits: both minimums are at
/// least one and `2 * MIN <= MAX + 1` for leaves and for branches.
pub open spec fn insert_params_valid<P: SplitParameters>() -> bool {
    &&& 1 <= P::LEAF_MIN
    &&& 2 * P::LEAF_MIN <= P::LEAF_MAX + 1
    &&& 1 <= P::BRANCH_MIN
    &&& 2 * P::BRANCH_MIN <= P::BRANCH_MAX + 1
}

/// The bulk-loading parameters can build a tree: leaves hold at least
/// one value and branches at least two children.
pub open spec fn bulk_params_valid<P: SplitParameters>() -> bool {
    &&& P::BULK_LEAF_MAX > 0
    &&& P::BULK_BRANCH_MAX >= 2
}

/// Whether `P`'s insertion parameters are valid, read from its
/// constants: how a caller meets [`Rtree::insert`](crate::rtree::Rtree::insert)'s
/// precondition.
pub fn insert_params_ok<P: SplitParameters>() -> (r: bool)
    ensures
        r == insert_params_valid::<P>(),
{
    let leaf_min = P::LEAF_MIN as u128;
    let leaf_max = P::LEAF_MAX as u128;
    let branch_min = P::BRANCH_MIN as u128;
    let branch_max = P::BRANCH_MAX as u128;
    1 <= leaf_min && 2 * leaf_min <= leaf_max + 1 && 1 <= branch_min && 2 * branch_min <= branch_max + 1
}

/// Whether `P`'s bulk-loading parameters are valid, read from its
/// constants: how a caller meets [`Rtree::from_vec`](crate::rtree::Rtree::from_vec)'s
/// precondition.
pub fn bulk_params_ok<P: SplitParameters>() -> (r: bool)
    ensures
        r == bulk_params_valid::<P>(),
{
    P::BULK_LEAF_MAX > 0 && P::BULK_BRANCH_MAX >= 2
}

/// Quadratic split, Guttman's textbook algorithm with one capacity for
/// branches and leaves.
///
/// `O(n^2)`: pick the two entries whose combined box wastes the most area
/// as the seeds of the two groups, then repeatedly assign the entry with
/// the strongest preference to the group whose box it enlarges least.
#[derive(Debug, Clone, Copy, Default)]
pub struct Quadratic<const MAX: usize, const MIN: usize>;

impl<const MAX: usize, const MIN: usize> Quadratic<MAX, MIN> {
    /// The constants of `Quadratic<MAX, MIN>`: one maximum and one minimum for leaves,
    /// branches and bulk loading alike.
    pub proof fn lemma_constants()
        ensures
            <Self as SplitParameters>::MAX == MAX,
            <Self as SplitParameters>::MIN == MIN,
            <Self as SplitParameters>::LEAF_MAX == MAX,
            <Self as SplitParameters>::LEAF_MIN == MIN,
            <Self as SplitParameters>::BRANCH_MAX == MAX,
            <Self as SplitParameters>::BRANCH_MIN == MIN,
            <Self as SplitParameters>::BULK_LEAF_MAX == MAX,
            <Self as SplitParameters>::BULK_BRANCH_MAX == MAX,
    {
    }
}

impl<const MAX: usize, const MIN: usize> SplitParameters for Quadratic<MAX, MIN> {
    const MAX: usize = MAX;
    const MIN: usize = MIN;

    fn split(entries: &[Bounds]) -> (r: (Vec<usize>, Vec<usize>)) {
        quadratic_partition(entries, MIN)
    }

    fn split_leaf(entries: &[Bounds]) -> (r: (Vec<usize>, Vec<usize>)) {
        quadratic_partition(entries, MIN)
    }

    fn split_branch(entries: &[Bounds]) -> (r: (Vec<usize>, Vec<usize>)) {
        quadratic_partition(entries, MIN)
    }
}

/// Quadratic split with independent branch and leaf capacities: branch
/// maximum/minimum, then leaf maximum/minimum.
#[derive(Debug, Clone, Copy, Default)]
pub struct AsymmetricQuadratic<
    const BRANCH_MAX: usize,
    const BRANCH_MIN: usize,
    const LEAF_MAX: usize,
    const LEAF_MIN: usize,
>;

impl<
    const BRANCH_MAX: usize,
    const BRANCH_MIN: usize,
    const LEAF_MAX: usize,
    const LEAF_MIN: usize,
> AsymmetricQuadratic<BRANCH_MAX, BRANCH_MIN, LEAF_MAX, LEAF_MIN> {
    /// The constants of this parameter set: bulk loading uses the
    /// insertion maxima.
    pub proof fn lemma_constants()
        ensures
            <Self as SplitParameters>::MAX == BRANCH_MAX,
            <Self as SplitParameters>::MIN == BRANCH_MIN,
            <Self as SplitParameters>::LEAF_MAX == LEAF_MAX,
            <Self as SplitParameters>::LEAF_MIN == LEAF_MIN,
            <Self as SplitParameters>::BRANCH_MAX == BRANCH_MAX,
            <Self as SplitParameters>::BRANCH_MIN == BRANCH_MIN,
            <Self as SplitParameters>::BULK_LEAF_MAX == LEAF_MAX,
            <Self as SplitParameters>::BULK_BRANCH_MAX == BRANCH_MAX,
    {
    }
}

impl<
    const BRANCH_MAX: usize,
    const BRANCH_MIN: usize,
    const LEAF_MAX: usize,
    const LEAF_MIN: usize,
> SplitParameters for AsymmetricQuadratic<BRANCH_MAX, BRANCH_MIN, LEAF_MAX, LEAF_MIN> {
    const MAX: usize = BRANCH_MAX;
    const MIN: usize = BRANCH_MIN;
    const LEAF_MAX: usize = LEAF_MAX;
    const LEAF_MIN: usize = LEAF_MIN;
    const BRANCH_MAX: usize = BRANCH_MAX;
    const BRANCH_MIN: usize = BRANCH_MIN;

    fn split(entries: &[Bounds]) -> (r: (Vec<usize>, Vec<usize>)) {
        quadratic_partition(entries, BRANCH_MIN)
    }

    fn split_leaf(entries: &[Bounds]) -> (r: (Vec<usize>, Vec<usize>)) {
        quadratic_partition(entries, LEAF_MIN)
    }

    fn split_branch(entries: &[Bounds]) -> (r: (Vec<usize>, Vec<usize>)) {
        quadratic_partition(entries, BRANCH_MIN)
    }
}

/// The area wasted by covering `a` and `b` with one box.
pub open spec fn spec_waste(a: Bounds, b: Bounds) -> int {
    a.spec_union(b).spec_area() - a.spec_area() - b.spec_area()
}

/// `(s1, s2)` is the first pair `i < j` (in lexicographic order) whose
/// combined box wastes the most area.
pub open spec fn best_waste_pair(entries: Seq<Bounds>, s1: int, s2: int) -> bool {
    &&& 0 <= s1 < s2 < entries.len()
    &&& forall|i: int, j: int|
        0 <= i < j < entries.len() ==> #[trigger] spec_waste(entries[i], entries[j]) <= spec_waste(
            entries[s1],
            entries[s2],
        )
    &&& forall|i: int, j: int|
        0 <= i < j < entries.len() && (i < s1 || (i == s1 && j < s2)) ==> #[trigger] spec_waste(
            entries[i],
            entries[j],
        ) < spec_waste(entries[s1], entries[s2])
}

fn waste(a: &Bounds, b: &Bounds) -> (r: i128)
    ensures
        r == spec_waste(*a, *b),
{
    let u = a.union(b);
    let ua = u.area();
    let aa = a.area();
    let ba = b.area();
    ua - aa - ba
}

/// The pair of entries whose combined box wastes the most area: the
/// quadratic-split seeds.
fn quadratic_seeds(entries: &[Bounds]) -> (r: (usize, usize))
    requires
        entries@.len() >= 2,
    ensures
        best_waste_pair(entries@, r.0 as int, r.1 as int),
{
    let n = entries.len();
    let mut s1: usize = 0;
    let mut s2: usize = 1;
    let mut worst = waste(&entries[0], &entries[1]);
    let mut i: usize = 0;
    while i < n
        invariant
            n == entries@.len(),
            n >= 2,
            i <= n,
            0 <= s1 < s2 < n,
            worst == spec_waste(entries@[s1 as int], entries@[s2 as int]),
            forall|a: int, b: int|
                0 <= a < b < n && a < i ==> #[trigger] spec_waste(entries@[a], entries@[b])
                    <= worst,
            forall|a: int, b: int|
                0 <= a < b < n && (a < s1 || (a == s1 && b < s2)) ==> #[trigger] spec_waste(
                    entries@[a],
                    entries@[b],
                ) < worst,
            i > 0 ==> (s1 < i),
            i == 0 ==> (s1 == 0 && s2 == 1),
        decreases n - i,
    {
        let mut j: usize = i + 1;
        while j < n
            invariant
                n == entries@.len(),
                n >= 2,
                i < n,
                i + 1 <= j <= n,
                0 <= s1 < s2 < n,
                worst == spec_waste(entries@[s1 as int], entries@[s2 as int]),
                forall|a: int, b: int|
                    0 <= a < b < n && (a < i || (a == i && b < j)) ==> #[trigger] spec_waste(
                        entries@[a],
                        entries@[b],
                    ) <= worst,
                forall|a: int, b: int|
                    0 <= a < b < n && (a < s1 || (a == s1 && b < s2)) ==> #[trigger] spec_waste(
                        entries@[a],
                        entries@[b],
                    ) < worst,
                s1 < i || (s1 == i && s2 < j) || (i == 0 && j == 1 && s1 == 0 && s2 == 1),
            decreases n - j,
        {
            let w = waste(&entries[i], &entries[j]);
            if w > worst {
                s1 = i;
                s2 = j;
                worst = w;
            }
            j = j + 1;
        }
        i = i + 1;
    }
    (s1, s2)
}

/// How strongly `e` prefers one group over the other: the gap between
/// the enlargements it causes to the group boxes `b1` and `b2`.
pub open spec fn preference(b1: Bounds, b2: Bounds, e: Bounds) -> int {
    let d = b1.spec_enlargement(e) - b2.spec_enlargement(e);
    if d >= 0 { d } else { -d }
}

/// Among the first `k` positions of `rem`, the position whose entry has
/// the strongest preference; the earliest such position on ties.
pub open spec fn strongest_position(entries: Seq<Bounds>, b1: Bounds, b2: Bounds, rem: Seq<usize>, k: nat) -> int
    decreases k,
{
    if k <= 1 {
        0
    } else {
        let p = strongest_position(entries, b1, b2, rem, (k - 1) as nat);
        if preference(b1, b2, entries[rem[k - 1] as int]) > preference(b1, b2, entries[rem[p] as int]) {
            k - 1
        } else {
            p
        }
    }
}

/// `rem` without its entry at `p`, the last entry moved into its place.
pub open spec fn swap_out(rem: Seq<usize>, p: int) -> Seq<usize> {
    if 0 <= p < rem.len() {
        rem.update(p, rem.last()).drop_last()
    } else {
        rem.drop_last()
    }
}

/// Whether the quadratic split sends `e` to the first group (box `b1`,
/// `len1` entries) rather than the second: the smaller enlargement wins,
/// then the smaller box, then the smaller group, then the first group.
pub open spec fn quadratic_prefers_first(b1: Bounds, b2: Bounds, e: Bounds, len1: nat, len2: nat) -> bool {
    let e1 = b1.spec_enlargement(e);
    let e2 = b2.spec_enlargement(e);
    if e1 != e2 {
        e1 < e2
    } else if b1.spec_area() != b2.spec_area() {
        b1.spec_area() < b2.spec_area()
    } else {
        len1 <= len2
    }
}

/// The groups the quadratic split ends with from groups `g1`, `g2` with
/// boxes `b1`, `b2` and the entries `rem` still to place: a group that
/// needs every remaining entry to reach `min` takes them all (the first
/// group checked first); otherwise the entry with the strongest
/// preference joins the group [`quadratic_prefers_first`] chooses and the
/// rest follow.
pub open spec fn quadratic_run(
    entries: Seq<Bounds>,
    min: nat,
    g1: Seq<usize>,
    g2: Seq<usize>,
    rem: Seq<usize>,
    b1: Bounds,
    b2: Bounds,
) -> (Seq<usize>, Seq<usize>)
    decreases rem.len(),
{
    if rem.len() == 0 {
        (g1, g2)
    } else if g1.len() + rem.len() == min {
        (g1 + rem, g2)
    } else if g2.len() + rem.len() == min {
        (g1, g2 + rem)
    } else {
        let p = strongest_position(entries, b1, b2, rem, rem.len());
        let idx = rem[p];
        let e = entries[idx as int];
        if quadratic_prefers_first(b1, b2, e, g1.len(), g2.len()) {
            quadratic_run(entries, min, g1.push(idx), g2, swap_out(rem, p), b1.spec_union(e), b2)
        } else {
            quadratic_run(entries, min, g1, g2.push(idx), swap_out(rem, p), b1, b2.spec_union(e))
        }
    }
}

/// The quadratic split from seeds `s1 < s2`: each seed starts a group,
/// and every other index, in ascending order, waits to be placed.
pub open spec fn quadratic_split_from(entries: Seq<Bounds>, min: nat, s1: usize, s2: usize) -> (Seq<usize>, Seq<usize>) {
    quadratic_run(
        entries,
        min,
        seq![s1],
        seq![s2],
        range_seq(entries.len()).remove(s2 as int).remove(s1 as int),
        entries[s1 as int],
        entries[s2 as int],
    )
}

proof fn lemma_strongest_in_range(entries: Seq<Bounds>, b1: Bounds, b2: Bounds, rem: Seq<usize>, k: nat)
    requires
        k >= 1,
    ensures
        0 <= strongest_position(entries, b1, b2, rem, k) < k,
    decreases k,
{
    if k > 1 {
        lemma_strongest_in_range(entries, b1, b2, rem, (k - 1) as nat);
    }
}

/// The quadratic partition with minimum group size `min`.
///
/// The seeds start the two groups; then, while neither group must take
/// every remaining entry to reach `min`, the entry with the largest
/// difference between its two enlargements is assigned to the group it
/// enlarges least (ties: smaller area, then smaller group, then the
/// first group).
pub fn quadratic_partition(entries: &[Bounds], min: usize) -> (r: (Vec<usize>, Vec<usize>))
    requires
        1 <= min,
        2 * min <= entries@.len(),
    ensures
        is_partition(r.0@, r.1@, entries@.len()),
        r.0@.len() >= min,
        r.1@.len() >= min,
        best_waste_pair(entries@, r.0@[0] as int, r.1@[0] as int),
        (r.0@, r.1@) == quadratic_split_from(entries@, min as nat, r.0@[0], r.1@[0]),
{
    let n = entries.len();
    let (s1, s2) = quadratic_seeds(entries);

    let mut remaining: Vec<usize> = Vec::new();
    let mut k: usize = 0;
    while k < n
        invariant
            k <= n,
            n == entries@.len(),
            remaining@ =~= range_seq(k as nat),
        decreases n - k,
    {
        remaining.push(k);
        k = k + 1;
    }
    let ghost full = remaining@;
    remaining.remove(s2);
    remaining.remove(s1);
    proof {
        assert(full[s2 as int] == s2);
        assert(full.remove(s2 as int)[s1 as int] == s1);
        vstd::seq_lib::to_multiset_remove(full, s2 as int);
        vstd::seq_lib::to_multiset_remove(full.remove(s2 as int), s1 as int);
    }

    let mut g1: Vec<usize> = Vec::new();
    g1.push(s1);
    let mut g2: Vec<usize> = Vec::new();
    g2.push(s2);
    let mut b1 = entries[s1];
    let mut b2 = entries[s2];
    proof {
        assert(g1@ =~= seq![s1]);
        assert(g2@ =~= seq![s2]);
        lemma_ms_singleton(s1);
        lemma_ms_singleton(s2);
        vstd::seq_lib::to_multiset_contains(full, s2);
        vstd::seq_lib::to_multiset_contains(full.remove(s2 as int), s1);
        assert(full.remove(s2 as int)[s1 as int] == s1);
        assert(full.to_multiset().count(s2) > 0);
        assert(full.remove(s2 as int).to_multiset().count(s1) > 0);
        assert(full =~= range_seq(n as nat));
        assert(g1@.to_multiset().add(g2@.to_multiset()).add(remaining@.to_multiset())
            =~= range_seq(n as nat).to_multiset());
    }
    let ghost target = quadratic_split_from(entries@, min as nat, s1, s2);
    proof {
        assert(remaining@ == range_seq(n as nat).remove(s2 as int).remove(s1 as int));
    }

    while remaining.len() > 0
        invariant
            n == entries@.len(),
            1 <= min,
            2 * min <= n,
            g1@.len() >= 1,
            g2@.len() >= 1,
            g1@[0] == s1,
            g2@[0] == s2,
            target == quadratic_split_from(entries@, min as nat, s1, s2),
            quadratic_run(entries@, min as nat, g1@, g2@, remaining@, b1, b2) == target,
            g1@.len() + remaining@.len() >= min,
            g2@.len() + remaining@.len() >= min,
            g1@.len() + g2@.len() + remaining@.len() == n,
            forall|i: int| 0 <= i < remaining@.len() ==> #[trigger] remaining@[i] < n,
            g1@.to_multiset().add(g2@.to_multiset()).add(remaining@.to_multiset())
                == range_seq(n as nat).to_multiset(),
        ensures
            remaining@.len() == 0,
        decreases remaining@.len(),
    {
        // Force a group to fill if every remaining entry is needed to
        // reach the minimum.
        if g1.len() + remaining.len() == min {
            let ghost g1_before = g1@;
            proof {
                assert(target == (g1_before + remaining@, g2@));
            }
            let mut t: usize = 0;
            while t < remaining.len()
                invariant
                    t <= remaining@.len(),
                    g1@ =~= g1_before + remaining@.subrange(0, t as int),
                    forall|i: int| 0 <= i < remaining@.len() ==> #[trigger] remaining@[i] < n,
                    n == entries@.len(),
                decreases remaining@.len() - t,
            {
                g1.push(remaining[t]);
                b1 = b1.union(&entries[remaining[t]]);
                t = t + 1;
            }
            proof {
                assert(remaining@.subrange(0, remaining@.len() as int) =~= remaining@);
                vstd::seq_lib::lemma_multiset_commutative(g1_before, remaining@);
            }
            remaining.clear();
            proof {
                lemma_ms_empty(remaining@);
            }
            break;
        }
        if g2.len() + remaining.len() == min {
            let ghost g2_before = g2@;
            proof {
                assert(target == (g1@, g2_before + remaining@));
            }
            let mut t: usize = 0;
            while t < remaining.len()
                invariant
                    t <= remaining@.len(),
                    g2@ =~= g2_before + remaining@.subrange(0, t as int),
                    forall|i: int| 0 <= i < remaining@.len() ==> #[trigger] remaining@[i] < n,
                    n == entries@.len(),
                decreases remaining@.len() - t,
            {
                g2.push(remaining[t]);
                b2 = b2.union(&entries[remaining[t]]);
                t = t + 1;
            }
            proof {
                assert(remaining@.subrange(0, remaining@.len() as int) =~= remaining@);
                vstd::seq_lib::lemma_multiset_commutative(g2_before, remaining@);
            }
            remaining.clear();
            proof {
                lemma_ms_empty(remaining@);
            }
            break;
        }
        // PickNext: decide the entry with the strongest preference first.
        let mut next_pos: usize = 0;
        let e1_first = b1.enlargement(&entries[remaining[0]]);
        let e2_first = b2.enlargement(&entries[remaining[0]]);
        let mut best_difference = abs_diff(e1_first, e2_first);
        let mut pos: usize = 1;
        proof {
            assert(strongest_position(entries@, b1, b2, remaining@, 1) == 0);
        }
        while pos < remaining.len()
            invariant
                1 <= pos <= remaining@.len(),
                next_pos < remaining@.len(),
                forall|i: int| 0 <= i < remaining@.len() ==> #[trigger] remaining@[i] < n,
                n == entries@.len(),
                next_pos as int == strongest_position(entries@, b1, b2, remaining@, pos as nat),
                best_difference == preference(b1, b2, entries@[remaining@[next_pos as int] as int]),
            decreases remaining@.len() - pos,
        {
            let idx = remaining[pos];
            let e1 = b1.enlargement(&entries[idx]);
            let e2 = b2.enlargement(&entries[idx]);
            let difference = abs_diff(e1, e2);
            if difference > best_difference {
                next_pos = pos;
                best_difference = difference;
            }
            pos = pos + 1;
        }
        let ghost rem_before = remaining@;
        let ghost b1_before = b1;
        let ghost b2_before = b2;
        let idx = remaining.swap_remove(next_pos);
        proof {
            lemma_swap_remove_multiset(rem_before, next_pos as int);
            assert(remaining@ == swap_out(rem_before, next_pos as int));
        }
        let e1 = b1.enlargement(&entries[idx]);
        let e2 = b2.enlargement(&entries[idx]);
        let assign_first = if e1 < e2 {
            true
        } else if e1 > e2 {
            false
        } else {
            let a1 = b1.area();
            let a2 = b2.area();
            if a1 < a2 {
                true
            } else if a1 > a2 {
                false
            } else {
                g1.len() <= g2.len()
            }
        };
        let ghost g1_before = g1@;
        let ghost g2_before = g2@;
        if assign_first {
            g1.push(idx);
            b1 = b1.union(&entries[idx]);
            proof {
                vstd::seq_lib::to_multiset_build(g1_before, idx);
            }
        } else {
            g2.push(idx);
            b2 = b2.union(&entries[idx]);
            proof {
                vstd::seq_lib::to_multiset_build(g2_before, idx);
            }
        }
        proof {
            assert(rem_before.to_multiset().count(idx) > 0) by {
                vstd::seq_lib::to_multiset_contains(rem_before, idx);
                assert(rem_before[next_pos as int] == idx);
            }
            assert(assign_first == quadratic_prefers_first(b1_before, b2_before, entries@[idx as int], g1_before.len(), g2_before.len()));
            assert(quadratic_run(entries@, min as nat, g1_before, g2_before, rem_before, b1_before, b2_before)
                == quadratic_run(entries@, min as nat, g1@, g2@, remaining@, b1, b2));
        }
    }
    proof {
        lemma_ms_empty(remaining@);
        assert(g1@.to_multiset().add(g2@.to_multiset()) =~= range_seq(n as nat).to_multiset());
    }
    (g1, g2)
}

fn abs_diff(a: i128, b: i128) -> (r: i128)
    requires
        -0x10_0000_0000_0000_0000 <= a <= 0x10_0000_0000_0000_0000,
        -0x10_0000_0000_0000_0000 <= b <= 0x10_0000_0000_0000_0000,
    ensures
        r == if a >= b { a - b } else { b - a },
{
    if a >= b { a - b } else { b - a }
}


/// Linear split: cheap inserts, looser trees.
///
/// `O(n)`: pick the two entries furthest apart along the axis of greatest
/// spread as seeds, then distribute the rest, last first, by least
/// enlargement (ties go to the first group), forcing a group to take
/// every remaining entry once it needs all of them to reach `MIN`.
#[derive(Debug, Clone, Copy, Default)]
pub struct Linear<const MAX: usize, const MIN: usize>;

impl<const MAX: usize, const MIN: usize> Linear<MAX, MIN> {
    /// The constants of `Linear<MAX, MIN>`: one maximum and one minimum for leaves,
    /// branches and bulk loading alike.
    pub proof fn lemma_constants()
        ensures
            <Self as SplitParameters>::MAX == MAX,
            <Self as SplitParameters>::MIN == MIN,
            <Self as SplitParameters>::LEAF_MAX == MAX,
            <Self as SplitParameters>::LEAF_MIN == MIN,
            <Self as SplitParameters>::BRANCH_MAX == MAX,
            <Self as SplitParameters>::BRANCH_MIN == MIN,
            <Self as SplitParameters>::BULK_LEAF_MAX == MAX,
            <Self as SplitParameters>::BULK_BRANCH_MAX == MAX,
    {
    }
}

impl<const MAX: usize, const MIN: usize> SplitParameters for Linear<MAX, MIN> {
    const MAX: usize = MAX;
    const MIN: usize = MIN;

    fn split(entries: &[Bounds]) -> (r: (Vec<usize>, Vec<usize>)) {
        linear_partition(entries, MIN)
    }

    fn split_leaf(entries: &[Bounds]) -> (r: (Vec<usize>, Vec<usize>)) {
        linear_partition(entries, MIN)
    }

    fn split_branch(entries: &[Bounds]) -> (r: (Vec<usize>, Vec<usize>)) {
        linear_partition(entries, MIN)
    }
}

/// `k` is the first index whose box has the largest lower coordinate on
/// `axis`.
pub open spec fn first_max_lo(entries: Seq<Bounds>, axis: int, k: int) -> bool {
    &&& 0 <= k < entries.len()
    &&& forall|j: int| 0 <= j < entries.len() ==> #[trigger] entries[j].lo(axis) <= entries[k].lo(axis)
    &&& forall|j: int| 0 <= j < k ==> #[trigger] entries[j].lo(axis) < entries[k].lo(axis)
}

/// `k` is the first index whose box has the smallest upper coordinate on
/// `axis`.
pub open spec fn first_min_hi(entries: Seq<Bounds>, axis: int, k: int) -> bool {
    &&& 0 <= k < entries.len()
    &&& forall|j: int| 0 <= j < entries.len() ==> #[trigger] entries[j].hi(axis) >= entries[k].hi(axis)
    &&& forall|j: int| 0 <= j < k ==> #[trigger] entries[j].hi(axis) > entries[k].hi(axis)
}

/// The axis along which the union of all entries is widest (ties: x).
pub open spec fn widest_axis(entries: Seq<Bounds>) -> int {
    let all = spec_union_all(entries);
    if all.width(1) > all.width(0) { 1 } else { 0 }
}

/// The linear-split seeds: the entry with the lowest upper side and the
/// entry with the highest lower side along the widest axis, or the first
/// two entries when one entry is both.
pub open spec fn linear_seed_pair(entries: Seq<Bounds>, s1: int, s2: int) -> bool {
    let axis = widest_axis(entries);
    exists|lo_idx: int, hi_idx: int|
        first_min_hi(entries, axis, lo_idx) && first_max_lo(entries, axis, hi_idx) && if lo_idx
            == hi_idx {
            s1 == 0 && s2 == 1
        } else {
            s1 == lo_idx && s2 == hi_idx
        }
}

fn linear_seeds(entries: &[Bounds]) -> (r: (usize, usize))
    requires
        entries@.len() >= 2,
    ensures
        r.0 < entries@.len(),
        r.1 < entries@.len(),
        r.0 != r.1,
        linear_seed_pair(entries@, r.0 as int, r.1 as int),
{
    let n = entries.len();
    let all = union_all(entries);
    let axis: usize = if (all.max[1] as i64 - all.min[1] as i64) > (all.max[0] as i64 - all.min[0] as i64) {
        1
    } else {
        0
    };
    let ghost ax = axis as int;
    assert(ax == widest_axis(entries@));
    let mut lo_idx: usize = 0;
    let mut hi_idx: usize = 0;
    let mut max_low: i32 = entries[0].min[axis];
    let mut min_high: i32 = entries[0].max[axis];
    let mut i: usize = 1;
    while i < n
        invariant
            n == entries@.len(),
            axis < 2,
            ax == axis as int,
            1 <= i <= n,
            lo_idx < i,
            hi_idx < i,
            max_low == entries@[hi_idx as int].lo(ax),
            min_high == entries@[lo_idx as int].hi(ax),
            forall|j: int| 0 <= j < i ==> #[trigger] entries@[j].lo(ax) <= max_low,
            forall|j: int| 0 <= j < hi_idx ==> #[trigger] entries@[j].lo(ax) < max_low,
            forall|j: int| 0 <= j < i ==> #[trigger] entries@[j].hi(ax) >= min_high,
            forall|j: int| 0 <= j < lo_idx ==> #[trigger] entries@[j].hi(ax) > min_high,
        decreases n - i,
    {
        if entries[i].min[axis] > max_low {
            max_low = entries[i].min[axis];
            hi_idx = i;
        }
        if entries[i].max[axis] < min_high {
            min_high = entries[i].max[axis];
            lo_idx = i;
        }
        i = i + 1;
    }
    assert(first_min_hi(entries@, ax, lo_idx as int));
    assert(first_max_lo(entries@, ax, hi_idx as int));
    if lo_idx == hi_idx {
        (0, 1)
    } else {
        (lo_idx, hi_idx)
    }
}

/// The groups the linear split ends with from groups `g1`, `g2` with
/// boxes `b1`, `b2` and the indices `rem` still to place, taken from the
/// back: the last index joins the first group when that group needs every
/// remaining index to reach `min`, else the second group when it does,
/// else the first group when it enlarges that group's box no more than
/// the second's, else the second.
pub open spec fn linear_run(
    entries: Seq<Bounds>,
    min: nat,
    g1: Seq<usize>,
    g2: Seq<usize>,
    rem: Seq<usize>,
    b1: Bounds,
    b2: Bounds,
) -> (Seq<usize>, Seq<usize>)
    decreases rem.len(),
{
    if rem.len() == 0 {
        (g1, g2)
    } else {
        let idx = rem.last();
        let rest = rem.drop_last();
        let e = entries[idx as int];
        let to_first = if g1.len() + rem.len() == min {
            true
        } else if g2.len() + rem.len() == min {
            false
        } else {
            b1.spec_enlargement(e) <= b2.spec_enlargement(e)
        };
        if to_first {
            linear_run(entries, min, g1.push(idx), g2, rest, b1.spec_union(e), b2)
        } else {
            linear_run(entries, min, g1, g2.push(idx), rest, b1, b2.spec_union(e))
        }
    }
}

/// The linear split from seeds `s1` and `s2`: each seed starts a group,
/// and every other index, in ascending order, waits to be placed from
/// the back.
pub open spec fn linear_split_from(entries: Seq<Bounds>, min: nat, s1: usize, s2: usize) -> (Seq<usize>, Seq<usize>) {
    let first = if s1 < s2 { s1 } else { s2 };
    let second = if s1 < s2 { s2 } else { s1 };
    linear_run(
        entries,
        min,
        seq![s1],
        seq![s2],
        range_seq(entries.len()).remove(second as int).remove(first as int),
        entries[s1 as int],
        entries[s2 as int],
    )
}

/// The linear partition with minimum group size `min`.
pub fn linear_partition(entries: &[Bounds], min: usize) -> (r: (Vec<usize>, Vec<usize>))
    requires
        1 <= min,
        2 * min <= entries@.len(),
    ensures
        is_partition(r.0@, r.1@, entries@.len()),
        r.0@.len() >= min,
        r.1@.len() >= min,
        linear_seed_pair(entries@, r.0@[0] as int, r.1@[0] as int),
        (r.0@, r.1@) == linear_split_from(entries@, min as nat, r.0@[0], r.1@[0]),
{
    let n = entries.len();
    let (s1, s2) = linear_seeds(entries);

    let mut remaining: Vec<usize> = Vec::new();
    let mut k: usize = 0;
    while k < n
        invariant
            k <= n,
            n == entries@.len(),
            remaining@ =~= range_seq(k as nat),
        decreases n - k,
    {
        remaining.push(k);
        k = k + 1;
    }
    let ghost full = remaining@;
    let (first, second) = if s1 < s2 { (s1, s2) } else { (s2, s1) };
    remaining.remove(second);
    remaining.remove(first);
    proof {
        assert(full[second as int] == second);
        assert(full.remove(second as int)[first as int] == first);
        vstd::seq_lib::to_multiset_remove(full, second as int);
        vstd::seq_lib::to_multiset_remove(full.remove(second as int), first as int);
        vstd::seq_lib::to_multiset_contains(full, second);
        vstd::seq_lib::to_multiset_contains(full.remove(second as int), first);
        assert(full =~= range_seq(n as nat));
    }

    let mut g1: Vec<usize> = Vec::new();
    g1.push(s1);
    let mut g2: Vec<usize> = Vec::new();
    g2.push(s2);
    let mut b1 = entries[s1];
    let mut b2 = entries[s2];
    proof {
        assert(g1@ =~= seq![s1]);
        assert(g2@ =~= seq![s2]);
        lemma_ms_singleton(s1);
        lemma_ms_singleton(s2);
        assert(g1@.to_multiset().add(g2@.to_multiset()).add(remaining@.to_multiset())
            =~= range_seq(n as nat).to_multiset());
    }
    let ghost target = linear_split_from(entries@, min as nat, s1, s2);
    proof {
        assert(remaining@ == range_seq(n as nat).remove(second as int).remove(first as int));
    }
    while remaining.len() > 0
        invariant
            target == linear_split_from(entries@, min as nat, s1, s2),
            linear_run(entries@, min as nat, g1@, g2@, remaining@, b1, b2) == target,
            n == entries@.len(),
            1 <= min,
            2 * min <= n,
            g1@.len() >= 1,
            g2@.len() >= 1,
            g1@[0] == s1,
            g2@[0] == s2,
            g1@.len() + remaining@.len() >= min,
            g2@.len() + remaining@.len() >= min,
            g1@.len() + g2@.len() + remaining@.len() == n,
            forall|i: int| 0 <= i < remaining@.len() ==> #[trigger] remaining@[i] < n,
            g1@.to_multiset().add(g2@.to_multiset()).add(remaining@.to_multiset())
                == range_seq(n as nat).to_multiset(),
        decreases remaining@.len(),
    {
        let ghost rem_before = remaining@;
        let ghost g1_before = g1@;
        let ghost g2_before = g2@;
        let ghost b1_before = b1;
        let ghost b2_before = b2;
        let idx = remaining.pop().unwrap();
        proof {
            assert(rem_before =~= remaining@.push(idx));
            vstd::seq_lib::to_multiset_build(remaining@, idx);
        }
        if g1.len() + remaining.len() + 1 == min {
            g1.push(idx);
            b1 = b1.union(&entries[idx]);
            proof {
                vstd::seq_lib::to_multiset_build(g1_before, idx);
            }
        } else if g2.len() + remaining.len() + 1 == min {
            g2.push(idx);
            b2 = b2.union(&entries[idx]);
            proof {
                vstd::seq_lib::to_multiset_build(g2_before, idx);
            }
        } else {
            let e1 = b1.enlargement(&entries[idx]);
            let e2 = b2.enlargement(&entries[idx]);
            if e1 <= e2 {
                g1.push(idx);
                b1 = b1.union(&entries[idx]);
                proof {
                    vstd::seq_lib::to_multiset_build(g1_before, idx);
                }
            } else {
                g2.push(idx);
                b2 = b2.union(&entries[idx]);
                proof {
                    vstd::seq_lib::to_multiset_build(g2_before, idx);
                }
            }
        }
        proof {
            assert(g1@.to_multiset().add(g2@.to_multiset()).add(remaining@.to_multiset())
                =~= range_seq(n as nat).to_multiset());
            assert(rem_before.drop_last() =~= remaining@);
            assert(linear_run(entries@, min as nat, g1_before, g2_before, rem_before, b1_before, b2_before)
                == linear_run(entries@, min as nat, g1@, g2@, remaining@, b1, b2));
        }
    }
    proof {
        lemma_ms_empty(remaining@);
        assert(g1@.to_multiset().add(g2@.to_multiset()) =~= range_seq(n as nat).to_multiset());
    }
    (g1, g2)
}


/// R*-split selection with one capacity for branches and leaves.
///
/// Chooses the split axis by minimum summed margin, then the split index
/// by minimum overlap and, among equal overlaps, minimum combined area.
/// Insertion descent still uses least enlargement; this policy does not
/// perform forced reinsertion.
#[derive(Debug, Clone, Copy, Default)]
pub struct RStarSplit<const MAX: usize, const MIN: usize>;

impl<const MAX: usize, const MIN: usize> RStarSplit<MAX, MIN> {
    /// The constants of `RStarSplit<MAX, MIN>`: one maximum and one minimum for leaves,
    /// branches and bulk loading alike.
    pub proof fn lemma_constants()
        ensures
            <Self as SplitParameters>::MAX == MAX,
            <Self as SplitParameters>::MIN == MIN,
            <Self as SplitParameters>::LEAF_MAX == MAX,
            <Self as SplitParameters>::LEAF_MIN == MIN,
            <Self as SplitParameters>::BRANCH_MAX == MAX,
            <Self as SplitParameters>::BRANCH_MIN == MIN,
            <Self as SplitParameters>::BULK_LEAF_MAX == MAX,
            <Self as SplitParameters>::BULK_BRANCH_MAX == MAX,
    {
    }
}

impl<const MAX: usize, const MIN: usize> SplitParameters for RStarSplit<MAX, MIN> {
    const MAX: usize = MAX;
    const MIN: usize = MIN;

    fn split(entries: &[Bounds]) -> (r: (Vec<usize>, Vec<usize>)) {
        rstar_partition(entries, MIN)
    }

    fn split_leaf(entries: &[Bounds]) -> (r: (Vec<usize>, Vec<usize>)) {
        rstar_partition(entries, MIN)
    }

    fn split_branch(entries: &[Bounds]) -> (r: (Vec<usize>, Vec<usize>)) {
        rstar_partition(entries, MIN)
    }
}

/// R*-split selection with independent insertion and bulk capacities.
///
/// The first four parameters are the insertion branch maximum/minimum and
/// leaf maximum/minimum. `PACKED_BRANCH_MAX` and `PACKED_LEAF_MAX` set the
/// bulk-loaded layout; zero inherits the corresponding insertion maximum.
#[derive(Debug, Clone, Copy, Default)]
pub struct AsymmetricRStarSplit<
    const BRANCH_MAX: usize,
    const BRANCH_MIN: usize,
    const LEAF_MAX: usize,
    const LEAF_MIN: usize,
    const PACKED_BRANCH_MAX: usize,
    const PACKED_LEAF_MAX: usize,
>;

/// `p + m * (1 / (p + 1))`, in `usize`, is `m` when `p` is zero and `p`
/// otherwise.
proof fn lemma_inherit_when_zero(p: usize, m: usize)
    requires
        p < usize::MAX,
    ensures
        (p + (m * ((1usize / ((p + 1) as usize)) as usize)) as usize) as usize == (if p == 0 { m } else { p }),
{
    let q = (1usize / ((p + 1) as usize)) as usize;
    assert((p + 1) as usize == p + 1);
    if p == 0 {
        assert(1usize / ((p + 1) as usize) == 1) by (nonlinear_arith)
            requires
                (p + 1) as usize == p + 1,
                p == 0,
        ;
        assert(q == 1);
        assert(m * q == m);
    } else {
        assert(1usize / ((p + 1) as usize) == 0) by (nonlinear_arith)
            requires
                (p + 1) as usize == p + 1,
                p >= 1,
        ;
        assert(q == 0);
        assert(m * q == 0);
    }
}

impl<
    const BRANCH_MAX: usize,
    const BRANCH_MIN: usize,
    const LEAF_MAX: usize,
    const LEAF_MIN: usize,
    const PACKED_BRANCH_MAX: usize,
    const PACKED_LEAF_MAX: usize,
> AsymmetricRStarSplit<BRANCH_MAX, BRANCH_MIN, LEAF_MAX, LEAF_MIN, PACKED_BRANCH_MAX, PACKED_LEAF_MAX> {
    /// The constants of this parameter set: its insertion maxima and
    /// minima, and bulk-loading maxima that inherit the insertion maxima
    /// where the packed ones are zero. (A packed maximum of `usize::MAX`
    /// overflows the constant's definition and does not compile.)
    pub proof fn lemma_constants()
        ensures
            <Self as SplitParameters>::MAX == BRANCH_MAX,
            <Self as SplitParameters>::MIN == BRANCH_MIN,
            <Self as SplitParameters>::LEAF_MAX == LEAF_MAX,
            <Self as SplitParameters>::LEAF_MIN == LEAF_MIN,
            <Self as SplitParameters>::BRANCH_MAX == BRANCH_MAX,
            <Self as SplitParameters>::BRANCH_MIN == BRANCH_MIN,
            PACKED_LEAF_MAX < usize::MAX ==> <Self as SplitParameters>::BULK_LEAF_MAX == (if PACKED_LEAF_MAX == 0 { LEAF_MAX } else { PACKED_LEAF_MAX }),
            PACKED_BRANCH_MAX < usize::MAX ==> <Self as SplitParameters>::BULK_BRANCH_MAX == (if PACKED_BRANCH_MAX == 0 { BRANCH_MAX } else { PACKED_BRANCH_MAX }),
    {
        if PACKED_LEAF_MAX < usize::MAX {
            lemma_inherit_when_zero(PACKED_LEAF_MAX, LEAF_MAX);
        }
        if PACKED_BRANCH_MAX < usize::MAX {
            lemma_inherit_when_zero(PACKED_BRANCH_MAX, BRANCH_MAX);
        }
    }
}

impl<
    const BRANCH_MAX: usize,
    const BRANCH_MIN: usize,
    const LEAF_MAX: usize,
    const LEAF_MIN: usize,
    const PACKED_BRANCH_MAX: usize,
    const PACKED_LEAF_MAX: usize,
> SplitParameters for AsymmetricRStarSplit<
    BRANCH_MAX,
    BRANCH_MIN,
    LEAF_MAX,
    LEAF_MIN,
    PACKED_BRANCH_MAX,
    PACKED_LEAF_MAX,
> {
    const MAX: usize = BRANCH_MAX;
    const MIN: usize = BRANCH_MIN;
    const LEAF_MAX: usize = LEAF_MAX;
    const LEAF_MIN: usize = LEAF_MIN;
    const BRANCH_MAX: usize = BRANCH_MAX;
    const BRANCH_MIN: usize = BRANCH_MIN;
    // `1 / (P + 1)` is 1 exactly when `P == 0`, so a zero packed maximum
    // inherits the insertion maximum and any other value is used as is.
    const BULK_LEAF_MAX: usize = PACKED_LEAF_MAX + LEAF_MAX * (1 / (PACKED_LEAF_MAX + 1));
    const BULK_BRANCH_MAX: usize = PACKED_BRANCH_MAX + BRANCH_MAX * (1 / (PACKED_BRANCH_MAX + 1));

    fn split(entries: &[Bounds]) -> (r: (Vec<usize>, Vec<usize>)) {
        rstar_partition(entries, BRANCH_MIN)
    }

    fn split_leaf(entries: &[Bounds]) -> (r: (Vec<usize>, Vec<usize>)) {
        rstar_partition(entries, LEAF_MIN)
    }

    fn split_branch(entries: &[Bounds]) -> (r: (Vec<usize>, Vec<usize>)) {
        rstar_partition(entries, BRANCH_MIN)
    }
}


/// Entry `a` sorts before entry `b` on `axis`: by lower coordinate, ties
/// broken by index (a stable sort).
pub open spec fn key_before(entries: Seq<Bounds>, axis: int, a: usize, b: usize) -> bool {
    entries[a as int].lo(axis) < entries[b as int].lo(axis) || (entries[a as int].lo(axis)
        == entries[b as int].lo(axis) && a < b)
}

/// `ord` lists every entry index once, stably sorted by lower coordinate
/// on `axis`.
pub open spec fn sorted_on_axis(entries: Seq<Bounds>, axis: int, ord: Seq<usize>) -> bool {
    &&& ord.to_multiset() == range_seq(entries.len()).to_multiset()
    &&& forall|i: int, j: int|
        0 <= i < j < ord.len() ==> #[trigger] key_before(entries, axis, ord[i], ord[j])
}

/// The boxes of the entries, in the order `ord` lists them.
pub open spec fn ord_boxes(entries: Seq<Bounds>, ord: Seq<usize>) -> Seq<Bounds> {
    ord.map_values(|i: usize| entries[i as int])
}

/// The union of the first `k` boxes in `ord` order.
pub open spec fn prefix_box(entries: Seq<Bounds>, ord: Seq<usize>, k: int) -> Bounds {
    spec_union_all(ord_boxes(entries, ord).take(k))
}

/// The union of the boxes from position `k` on, in `ord` order.
pub open spec fn suffix_box(entries: Seq<Bounds>, ord: Seq<usize>, k: int) -> Bounds {
    spec_union_all(ord_boxes(entries, ord).skip(k))
}

/// The area of the intersection of two boxes (0 when they do not overlap).
pub open spec fn spec_intersection_area(a: Bounds, b: Bounds) -> int {
    let w = crate::bounds::min_int(a.hi(0), b.hi(0)) - crate::bounds::max_int(a.lo(0), b.lo(0));
    let h = crate::bounds::min_int(a.hi(1), b.hi(1)) - crate::bounds::max_int(a.lo(1), b.lo(1));
    crate::bounds::max_int(w, 0) * crate::bounds::max_int(h, 0)
}

/// Overlap of the two groups when `ord` is split at `k`.
pub open spec fn split_overlap(entries: Seq<Bounds>, ord: Seq<usize>, k: int) -> int {
    spec_intersection_area(prefix_box(entries, ord, k), suffix_box(entries, ord, k))
}

/// Combined area of the two groups when `ord` is split at `k`.
pub open spec fn split_area(entries: Seq<Bounds>, ord: Seq<usize>, k: int) -> int {
    prefix_box(entries, ord, k).spec_area() + suffix_box(entries, ord, k).spec_area()
}

/// Combined margin of the two groups when `ord` is split at `k`.
pub open spec fn split_margin(entries: Seq<Bounds>, ord: Seq<usize>, k: int) -> int {
    prefix_box(entries, ord, k).spec_half_perimeter() + suffix_box(
        entries,
        ord,
        k,
    ).spec_half_perimeter()
}

/// The summed margin of the splits `lo..=hi`.
pub open spec fn margin_sum(entries: Seq<Bounds>, ord: Seq<usize>, lo: int, hi: int) -> int
    decreases hi - lo + 1,
{
    if hi < lo {
        0
    } else {
        margin_sum(entries, ord, lo, hi - 1) + split_margin(entries, ord, hi)
    }
}

/// Split `a` beats split `b`: less overlap, or equal overlap and less area.
pub open spec fn split_better(entries: Seq<Bounds>, ord: Seq<usize>, a: int, b: int) -> bool {
    split_overlap(entries, ord, a) < split_overlap(entries, ord, b) || (split_overlap(
        entries,
        ord,
        a,
    ) == split_overlap(entries, ord, b) && split_area(entries, ord, a) < split_area(
        entries,
        ord,
        b,
    ))
}

/// `k` is the first split in `min..=n-min` that no other split beats.
pub open spec fn best_split(entries: Seq<Bounds>, ord: Seq<usize>, min: int, k: int) -> bool {
    &&& min <= k <= entries.len() - min
    &&& forall|j: int| min <= j <= entries.len() - min ==> !#[trigger] split_better(entries, ord, j, k)
    &&& forall|j: int| min <= j < k ==> #[trigger] split_better(entries, ord, k, j)
}

/// The R* choice: the axis whose stable sort gives the smaller summed
/// margin (ties: x), split at its best index.
pub open spec fn rstar_choice(entries: Seq<Bounds>, min: int, g1: Seq<usize>, g2: Seq<usize>) -> bool {
    exists|o0: Seq<usize>, o1: Seq<usize>, k: int|
        #![trigger sorted_on_axis(entries, 0, o0), sorted_on_axis(entries, 1, o1), best_split(entries, rstar_order(entries, min, o0, o1), min, k)]
        {
            &&& sorted_on_axis(entries, 0, o0)
            &&& sorted_on_axis(entries, 1, o1)
            &&& best_split(entries, rstar_order(entries, min, o0, o1), min, k)
            &&& g1 == rstar_order(entries, min, o0, o1).take(k)
            &&& g2 == rstar_order(entries, min, o0, o1).skip(k)
        }
}

/// Of the two axis orders, the one with the smaller summed margin (ties:
/// the x order).
pub open spec fn rstar_order(entries: Seq<Bounds>, min: int, o0: Seq<usize>, o1: Seq<usize>) -> Seq<usize> {
    let n = entries.len() as int;
    if margin_sum(entries, o1, min, n - min) < margin_sum(entries, o0, min, n - min) {
        o1
    } else {
        o0
    }
}

/// Entry indices stably sorted by lower coordinate on `axis`.
fn sorted_indices(entries: &[Bounds], axis: usize) -> (ord: Vec<usize>)
    requires
        axis < 2,
    ensures
        sorted_on_axis(entries@, axis as int, ord@),
        ord@.len() == entries@.len(),
        forall|i: int| 0 <= i < ord@.len() ==> #[trigger] ord@[i] < entries@.len(),
{
    let n = entries.len();
    let ghost ax = axis as int;
    let mut ord: Vec<usize> = Vec::new();
    let mut k: usize = 0;
    proof {
        lemma_ms_empty(ord@);
        lemma_ms_empty(range_seq(0));
    }
    while k < n
        invariant
            n == entries@.len(),
            axis < 2,
            ax == axis as int,
            k <= n,
            ord@.len() == k,
            ord@.to_multiset() == range_seq(k as nat).to_multiset(),
            forall|i: int| 0 <= i < ord@.len() ==> #[trigger] ord@[i] < k,
            forall|i: int, j: int|
                0 <= i < j < ord@.len() ==> #[trigger] key_before(entries@, ax, ord@[i], ord@[j]),
        decreases n - k,
    {
        let key = entries[k].min[axis];
        let mut p: usize = 0;
        while p < ord.len() && entries[ord[p]].min[axis] <= key
            invariant
                n == entries@.len(),
                axis < 2,
                ax == axis as int,
                k < n,
                key == entries@[k as int].lo(ax),
                p <= ord@.len(),
                forall|i: int| 0 <= i < ord@.len() ==> #[trigger] ord@[i] < k,
                forall|i: int| 0 <= i < p ==> #[trigger] entries@[ord@[i] as int].lo(ax) <= key,
            decreases ord@.len() - p,
        {
            p = p + 1;
        }
        let ghost old_ord = ord@;
        ord.insert(p, k);
        proof {
            vstd::seq_lib::to_multiset_insert(old_ord, p as int, k);
            assert(range_seq((k + 1) as nat) =~= range_seq(k as nat).push(k));
            vstd::seq_lib::to_multiset_build(range_seq(k as nat), k);
            assert forall|i: int| 0 <= i < ord@.len() implies #[trigger] ord@[i] < k + 1 by {
                if i < p {
                    assert(ord@[i] == old_ord[i]);
                } else if i > p {
                    assert(ord@[i] == old_ord[i - 1]);
                }
            }
            assert forall|i: int, j: int| 0 <= i < j < ord@.len() implies #[trigger] key_before(
                entries@,
                ax,
                ord@[i],
                ord@[j],
            ) by {
                if j < p {
                    assert(ord@[i] == old_ord[i] && ord@[j] == old_ord[j]);
                } else if j == p {
                    assert(ord@[i] == old_ord[i]);
                } else if i < p {
                    assert(ord@[i] == old_ord[i] && ord@[j] == old_ord[j - 1]);
                } else if i == p {
                    assert(ord@[j] == old_ord[j - 1]);
                    assert(p < old_ord.len());
                    if j - 1 > p {
                        assert(key_before(entries@, ax, old_ord[p as int], old_ord[j - 1]));
                    }
                } else {
                    assert(ord@[i] == old_ord[i - 1] && ord@[j] == old_ord[j - 1]);
                }
            }
        }
        k = k + 1;
    }
    ord
}

/// A tight box around `s`, extended by `x`, is tight around `s` with `x`
/// in front.
proof fn lemma_tight_prepend(b: Bounds, s: Seq<Bounds>, x: Bounds)
    requires
        crate::bounds::tight_around_boxes(b, s),
    ensures
        crate::bounds::tight_around_boxes(b.spec_union(x), seq![x] + s),
{
    let u = b.spec_union(x);
    let t = seq![x] + s;
    crate::bounds::lemma_union_coords(b, x);
    assert forall|i: int| 0 <= i < t.len() implies #[trigger] u.spec_contains(t[i]) by {
        if i > 0 {
            assert(t[i] == s[i - 1]);
            assert(b.spec_contains(s[i - 1]));
        }
    }
    if b.lo(0) <= x.lo(0) {
        let j = choose|j: int| 0 <= j < s.len() && #[trigger] s[j].lo(0) == b.lo(0);
        assert(t[j + 1].lo(0) == u.lo(0));
    } else {
        assert(t[0].lo(0) == u.lo(0));
    }
    if b.lo(1) <= x.lo(1) {
        let j = choose|j: int| 0 <= j < s.len() && #[trigger] s[j].lo(1) == b.lo(1);
        assert(t[j + 1].lo(1) == u.lo(1));
    } else {
        assert(t[0].lo(1) == u.lo(1));
    }
    if b.hi(0) >= x.hi(0) {
        let j = choose|j: int| 0 <= j < s.len() && #[trigger] s[j].hi(0) == b.hi(0);
        assert(t[j + 1].hi(0) == u.hi(0));
    } else {
        assert(t[0].hi(0) == u.hi(0));
    }
    if b.hi(1) >= x.hi(1) {
        let j = choose|j: int| 0 <= j < s.len() && #[trigger] s[j].hi(1) == b.hi(1);
        assert(t[j + 1].hi(1) == u.hi(1));
    } else {
        assert(t[0].hi(1) == u.hi(1));
    }
}

/// `suffixes[k]` is the union of the boxes from position `k` of `ord` on.
fn suffix_bounds(entries: &[Bounds], ord: &Vec<usize>) -> (suffixes: Vec<Bounds>)
    requires
        ord@.len() >= 1,
        forall|i: int| 0 <= i < ord@.len() ==> #[trigger] ord@[i] < entries@.len(),
    ensures
        suffixes@.len() == ord@.len(),
        forall|k: int| 0 <= k < ord@.len() ==> #[trigger] suffixes@[k] == suffix_box(entries@, ord@, k),
{
    let n = ord.len();
    let ghost boxes = ord_boxes(entries@, ord@);
    let mut bounds = entries[ord[n - 1]];
    let mut suffixes: Vec<Bounds> = vec![bounds; n];
    proof {
        assert(boxes.skip(n - 1) =~= seq![bounds]);
        assert(crate::bounds::tight_around_boxes(bounds, boxes.skip(n - 1))) by {
            let sk = boxes.skip(n - 1);
            assert(sk[0] == bounds);
            assert(sk[0].lo(0) == bounds.lo(0));
            assert(sk[0].lo(1) == bounds.lo(1));
            assert(sk[0].hi(0) == bounds.hi(0));
            assert(sk[0].hi(1) == bounds.hi(1));
            assert forall|i: int| 0 <= i < sk.len() implies #[trigger] bounds.spec_contains(sk[i]) by {
                assert(i == 0);
            }
        }
        crate::bounds::lemma_union_all_tight(boxes.skip(n - 1));
        crate::bounds::lemma_tight_unique(bounds, spec_union_all(boxes.skip(n - 1)), boxes.skip(n - 1));
    }
    let mut k: usize = n - 1;
    while k > 0
        invariant
            n == ord@.len(),
            n >= 1,
            boxes == ord_boxes(entries@, ord@),
            k < n,
            suffixes@.len() == n,
            forall|i: int| 0 <= i < ord@.len() ==> #[trigger] ord@[i] < entries@.len(),
            bounds == suffix_box(entries@, ord@, k as int),
            crate::bounds::tight_around_boxes(bounds, boxes.skip(k as int)),
            forall|j: int| k < j < n ==> #[trigger] suffixes@[j] == suffix_box(entries@, ord@, j),
        decreases k,
    {
        suffixes.set(k, bounds);
        k = k - 1;
        let ghost prev = bounds;
        bounds = bounds.union(&entries[ord[k]]);
        proof {
            assert(boxes.skip(k as int) =~= seq![boxes[k as int]] + boxes.skip(k + 1));
            lemma_tight_prepend(prev, boxes.skip(k + 1), boxes[k as int]);
            crate::bounds::lemma_union_all_tight(boxes.skip(k as int));
            crate::bounds::lemma_tight_unique(bounds, spec_union_all(boxes.skip(k as int)), boxes.skip(k as int));
        }
    }
    suffixes.set(0, bounds);
    assert forall|j: int| 0 <= j < ord@.len() implies #[trigger] suffixes@[j] == suffix_box(entries@, ord@, j) by {
        if j > 0 {
        }
    }
    suffixes
}

fn intersection_area(left: &Bounds, right: &Bounds) -> (r: i128)
    ensures
        r == spec_intersection_area(*left, *right),
        0 <= r <= 0x1_0000_0000_0000_0000,
{
    let x_hi = if left.max[0] <= right.max[0] { left.max[0] } else { right.max[0] };
    let x_lo = if left.min[0] >= right.min[0] { left.min[0] } else { right.min[0] };
    let y_hi = if left.max[1] <= right.max[1] { left.max[1] } else { right.max[1] };
    let y_lo = if left.min[1] >= right.min[1] { left.min[1] } else { right.min[1] };
    let width = x_hi as i128 - x_lo as i128;
    let height = y_hi as i128 - y_lo as i128;
    let w = if width >= 0 { width } else { 0 };
    let h = if height >= 0 { height } else { 0 };
    proof {
        assert(0 <= w * h <= 0x1_0000_0000_0000_0000) by (nonlinear_arith)
            requires
                0 <= w <= 0x1_0000_0000,
                0 <= h <= 0x1_0000_0000,
        ;
    }
    w * h
}

/// The stable order on `axis` and the summed margin of its allowed
/// splits.
fn axis_margin(entries: &[Bounds], min: usize, axis: usize) -> (r: (Vec<usize>, i128))
    requires
        axis < 2,
        1 <= min,
        2 * min <= entries@.len(),
    ensures
        sorted_on_axis(entries@, axis as int, r.0@),
        r.0@.len() == entries@.len(),
        forall|i: int| 0 <= i < r.0@.len() ==> #[trigger] r.0@[i] < entries@.len(),
        r.1 == margin_sum(entries@, r.0@, min as int, entries@.len() - min),
{
    let n = entries.len();
    let ordered = sorted_indices(entries, axis);
    let suffixes = suffix_bounds(entries, &ordered);
    let ghost boxes = ord_boxes(entries@, ordered@);
    let mut left = entries[ordered[0]];
    let mut t: usize = 1;
    proof {
        assert(boxes.take(1) =~= seq![left]);
    }
    while t < min
        invariant
            n == entries@.len(),
            ordered@.len() == n,
            boxes == ord_boxes(entries@, ordered@),
            forall|i: int| 0 <= i < ordered@.len() ==> #[trigger] ordered@[i] < n,
            1 <= t <= min,
            2 * min <= n,
            left == prefix_box(entries@, ordered@, t as int),
        decreases min - t,
    {
        left = left.union(&entries[ordered[t]]);
        t = t + 1;
        proof {
            assert(boxes.take(t as int).drop_last() =~= boxes.take(t - 1));
        }
    }
    let mut margin: i128 = left.half_perimeter() + suffixes[min].half_perimeter();
    proof {
        assert(suffixes@[min as int] == suffix_box(entries@, ordered@, min as int));
        assert(margin_sum(entries@, ordered@, min as int, min - 1) == 0);
        assert(margin == margin_sum(entries@, ordered@, min as int, min as int));
    }
    let mut split: usize = min + 1;
    while split <= n - min
        invariant
            n == entries@.len(),
            ordered@.len() == n,
            suffixes@.len() == n,
            boxes == ord_boxes(entries@, ordered@),
            forall|i: int| 0 <= i < ordered@.len() ==> #[trigger] ordered@[i] < n,
            forall|k: int| 0 <= k < n ==> #[trigger] suffixes@[k] == suffix_box(entries@, ordered@, k),
            1 <= min,
            2 * min <= n,
            min + 1 <= split <= n - min + 1,
            left == prefix_box(entries@, ordered@, split - 1),
            margin == margin_sum(entries@, ordered@, min as int, split - 1),
            -(split - min) * 0x10_0000_0000 <= margin <= (split - min) * 0x10_0000_0000,
        decreases n - min + 1 - split,
    {
        left = left.union(&entries[ordered[split - 1]]);
        proof {
            assert(boxes.take(split as int).drop_last() =~= boxes.take(split - 1));
        }
        margin = margin + left.half_perimeter() + suffixes[split].half_perimeter();
        split = split + 1;
    }
    (ordered, margin)
}

/// The R* partition with minimum group size `min`.
pub fn rstar_partition(entries: &[Bounds], min: usize) -> (r: (Vec<usize>, Vec<usize>))
    requires
        1 <= min,
        2 * min <= entries@.len(),
    ensures
        is_partition(r.0@, r.1@, entries@.len()),
        r.0@.len() >= min,
        r.1@.len() >= min,
        rstar_choice(entries@, min as int, r.0@, r.1@),
{
    let n = entries.len();
    let (o0, m0) = axis_margin(entries, min, 0);
    let (o1, m1) = axis_margin(entries, min, 1);
    let ordered = if m1 < m0 { o1 } else { o0 };
    let suffixes = suffix_bounds(entries, &ordered);
    let ghost boxes = ord_boxes(entries@, ordered@);

    let mut left = entries[ordered[0]];
    let mut t: usize = 1;
    proof {
        assert(boxes.take(1) =~= seq![left]);
    }
    while t < min
        invariant
            n == entries@.len(),
            ordered@.len() == n,
            boxes == ord_boxes(entries@, ordered@),
            forall|i: int| 0 <= i < ordered@.len() ==> #[trigger] ordered@[i] < n,
            1 <= t <= min,
            2 * min <= n,
            left == prefix_box(entries@, ordered@, t as int),
        decreases min - t,
    {
        left = left.union(&entries[ordered[t]]);
        t = t + 1;
        proof {
            assert(boxes.take(t as int).drop_last() =~= boxes.take(t - 1));
        }
    }
    let mut chosen: usize = min;
    let mut best_overlap = intersection_area(&left, &suffixes[min]);
    let mut best_area = left.area() + suffixes[min].area();
    let mut split: usize = min + 1;
    while split <= n - min
        invariant
            n == entries@.len(),
            ordered@.len() == n,
            suffixes@.len() == n,
            boxes == ord_boxes(entries@, ordered@),
            forall|i: int| 0 <= i < ordered@.len() ==> #[trigger] ordered@[i] < n,
            forall|k: int| 0 <= k < n ==> #[trigger] suffixes@[k] == suffix_box(entries@, ordered@, k),
            1 <= min,
            2 * min <= n,
            min + 1 <= split <= n - min + 1,
            min <= chosen < split,
            left == prefix_box(entries@, ordered@, split - 1),
            best_overlap == split_overlap(entries@, ordered@, chosen as int),
            best_area == split_area(entries@, ordered@, chosen as int),
            forall|j: int| min <= j < split ==> !#[trigger] split_better(entries@, ordered@, j, chosen as int),
            forall|j: int| min <= j < chosen ==> #[trigger] split_better(entries@, ordered@, chosen as int, j),
        decreases n - min + 1 - split,
    {
        left = left.union(&entries[ordered[split - 1]]);
        proof {
            assert(boxes.take(split as int).drop_last() =~= boxes.take(split - 1));
        }
        let right = suffixes[split];
        let overlap = intersection_area(&left, &right);
        let area = left.area() + right.area();
        proof {
            assert(right == suffix_box(entries@, ordered@, split as int));
            assert(overlap == split_overlap(entries@, ordered@, split as int));
            assert(area == split_area(entries@, ordered@, split as int));
        }
        let ghost previous = chosen as int;
        if overlap < best_overlap || (overlap == best_overlap && area < best_area) {
            chosen = split;
            best_overlap = overlap;
            best_area = area;
            proof {
                assert(split_better(entries@, ordered@, split as int, previous));
                assert forall|j: int| min <= j < split + 1 implies !#[trigger] split_better(
                    entries@,
                    ordered@,
                    j,
                    split as int,
                ) by {
                    if j < split {
                        assert(!split_better(entries@, ordered@, j, previous));
                    }
                }
                assert forall|j: int| min <= j < split implies #[trigger] split_better(
                    entries@,
                    ordered@,
                    split as int,
                    j,
                ) by {
                    assert(!split_better(entries@, ordered@, j, previous));
                }
            }
        } else {
            proof {
                assert(!split_better(entries@, ordered@, split as int, previous));
                assert forall|j: int| min <= j < split + 1 implies !#[trigger] split_better(
                    entries@,
                    ordered@,
                    j,
                    previous,
                ) by {
                    if j < split {
                        assert(!split_better(entries@, ordered@, j, previous));
                    }
                }
            }
        }
        split = split + 1;
    }
    let mut g1: Vec<usize> = Vec::new();
    let mut i: usize = 0;
    while i < chosen
        invariant
            i <= chosen <= n,
            ordered@.len() == n,
            g1@ =~= ordered@.take(i as int),
        decreases chosen - i,
    {
        g1.push(ordered[i]);
        i = i + 1;
    }
    let mut g2: Vec<usize> = Vec::new();
    while i < n
        invariant
            chosen <= i <= n,
            ordered@.len() == n,
            g2@ =~= ordered@.subrange(chosen as int, i as int),
        decreases n - i,
    {
        g2.push(ordered[i]);
        i = i + 1;
    }
    proof {
        assert(ordered@.take(chosen as int) + ordered@.skip(chosen as int) =~= ordered@);
        assert(g2@ =~= ordered@.skip(chosen as int));
        vstd::seq_lib::lemma_multiset_commutative(g1@, g2@);
        assert(best_split(entries@, ordered@, min as int, chosen as int));
        let nn = n as int;
        assert(margin_sum(entries@, o1@, min as int, nn - min) < margin_sum(entries@, o0@, min as int, nn - min) ==> ordered@ == o1@);
        assert(!(margin_sum(entries@, o1@, min as int, nn - min) < margin_sum(entries@, o0@, min as int, nn - min)) ==> ordered@ == o0@);
        assert(rstar_order(entries@, min as int, o0@, o1@) == ordered@);
        assert(sorted_on_axis(entries@, 0, o0@));
        assert(sorted_on_axis(entries@, 1, o1@));
    }
    (g1, g2)
}

} // verus!
