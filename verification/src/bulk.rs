//! Sort-Tile-Recursive bulk loading: pack a batch of values into a
//! balanced tree in one top-down pass.
//!
//! Values travel with their sort keys (twice the centre of their box,
//! exact in `i64`). At each level the batch is cut into vertical strips
//! and each strip into tiles, every tile small enough for the subtree
//! below it, so every node stays within the bulk capacities.

use vstd::prelude::*;

use crate::bounds::{Bounds, union_all};
use crate::indexable::Indexable;
use crate::node::{
    Node, node_contents, children_contents, node_wf, child_wf, value_boxes, recorded_boxes,
    lemma_children_wf_all, lemma_children_contents_add, lemma_children_contents_single,
    lemma_tight_children,
};
use crate::seq_facts::lemma_ms_empty;

verus! {

broadcast use vstd::multiset::group_multiset_axioms;

/// A value paired with its sort key.
pub type Keyed<T> = ([i64; 2], T);

/// The values of a keyed batch, in order.
pub open spec fn values_of<T>(keyed: Seq<Keyed<T>>) -> Seq<T> {
    keyed.map_values(|e: Keyed<T>| e.1)
}

/// How many values a packed subtree of height `h` can hold: `leaf`
/// values per leaf and `branch` children per branch.
pub open spec fn packed_cap(leaf: nat, branch: nat, h: nat) -> nat
    decreases h,
{
    if h <= 1 {
        leaf
    } else {
        packed_cap(leaf, branch, (h - 1) as nat) * branch
    }
}

/// Capacity clamped to what a `usize` can count.
pub open spec fn clamped(n: nat) -> nat {
    if n <= usize::MAX { n } else { usize::MAX as nat }
}

/// Reorders `v` so that the entry at `index` holds the key it would hold
/// if `v` were sorted by the coordinate on `axis`, with no greater key
/// before it and no smaller key after it.
///
/// Calls `slice::select_nth_unstable_by_key` of `std`, whose
/// documentation promises a reordering (the same entries) with exactly
/// this partition around `index`, and a panic when `index` is out of
/// bounds. Which of several equal keys lands where is not promised, and
/// is left unsaid here.
#[verifier::external_body]
fn select_nth_by_axis<T>(v: &mut Vec<Keyed<T>>, index: usize, axis: usize)
    requires
        index < old(v)@.len(),
        axis < 2,
    ensures
        final(v)@.to_multiset() == old(v)@.to_multiset(),
        forall|i: int| 0 <= i < index ==> #[trigger] final(v)@[i].0[axis as int] <= final(v)@[index as int].0[axis as int],
        forall|i: int| index < i < final(v)@.len() ==> #[trigger] final(v)@[i].0[axis as int] >= final(v)@[index as int].0[axis as int],
{
    v.select_nth_unstable_by_key(index, |e| e.0[axis]);
}

/// Equal multisets of keyed entries carry equal multisets of values.
proof fn lemma_values_ms<T>(a: Seq<Keyed<T>>, b: Seq<Keyed<T>>)
    requires
        a.to_multiset() == b.to_multiset(),
    ensures
        values_of(a).to_multiset() == values_of(b).to_multiset(),
    decreases a.len(),
{
    vstd::seq_lib::to_multiset_len(a);
    vstd::seq_lib::to_multiset_len(b);
    if a.len() == 0 {
        lemma_ms_empty(values_of(a));
        lemma_ms_empty(values_of(b));
    } else {
        let x = a.last();
        let d = a.drop_last();
        vstd::seq_lib::to_multiset_build(d, x);
        assert(d.push(x) =~= a);
        vstd::seq_lib::to_multiset_contains(b, x);
        let k = choose|k: int| 0 <= k < b.len() && b[k] == x;
        let br = b.remove(k);
        vstd::seq_lib::to_multiset_remove(b, k);
        assert(d.to_multiset() =~= br.to_multiset());
        lemma_values_ms(d, br);
        assert(values_of(a) =~= values_of(d).push(x.1));
        vstd::seq_lib::to_multiset_build(values_of(d), x.1);
        assert(values_of(b).remove(k) =~= values_of(br));
        vstd::seq_lib::to_multiset_remove(values_of(b), k);
        assert(values_of(b)[k] == x.1);
        vstd::seq_lib::to_multiset_contains(values_of(b), x.1);
        assert(values_of(a).to_multiset() =~= values_of(b).to_multiset());
    }
}

/// The values of a concatenation are the concatenation of the values.
proof fn lemma_values_add<T>(a: Seq<Keyed<T>>, b: Seq<Keyed<T>>)
    ensures
        values_of(a + b) == values_of(a) + values_of(b),
{
    assert(values_of(a + b) =~= values_of(a) + values_of(b));
}

/// Take the `take` entries with the smallest keys on `axis` out of
/// `values`, leaving the others.
fn take_lowest_by_axis<T>(values: &mut Vec<Keyed<T>>, take: usize, axis: usize) -> (lowest: Vec<Keyed<T>>)
    requires
        take <= old(values)@.len(),
        axis < 2,
    ensures
        lowest@.len() == take,
        final(values)@.len() == old(values)@.len() - take,
        lowest@.to_multiset().add(final(values)@.to_multiset()) == old(values)@.to_multiset(),
        forall|i: int, j: int|
            0 <= i < lowest@.len() && 0 <= j < final(values)@.len() ==> #[trigger] lowest@[i].0[axis as int]
                <= #[trigger] final(values)@[j].0[axis as int],
{
    if take == values.len() {
        let mut all: Vec<Keyed<T>> = Vec::new();
        core::mem::swap(&mut all, values);
        proof {
            lemma_ms_empty(values@);
            assert(all@.to_multiset().add(values@.to_multiset()) =~= all@.to_multiset());
        }
        return all;
    }
    let ghost before = values@;
    select_nth_by_axis(values, take, axis);
    let ghost selected = values@;
    proof {
        vstd::seq_lib::to_multiset_len(before);
        vstd::seq_lib::to_multiset_len(selected);
    }
    let tail = values.split_off(take);
    let mut lowest = tail;
    core::mem::swap(&mut lowest, values);
    proof {
        assert(selected =~= lowest@ + values@);
        vstd::seq_lib::lemma_multiset_commutative(lowest@, values@);
        assert forall|i: int, j: int|
            0 <= i < lowest@.len() && 0 <= j < values@.len() implies #[trigger] lowest@[i].0[axis as int]
                <= #[trigger] values@[j].0[axis as int] by {
            assert(lowest@[i] == selected[i]);
            assert(values@[j] == selected[take + j]);
        }
    }
    lowest
}

/// `min(packed_cap(leaf, branch, height), usize::MAX)`, computed with
/// saturating multiplication.
pub fn packed_subtree_capacity(leaf: usize, branch: usize, height: usize) -> (r: usize)
    requires
        branch >= 1,
    ensures
        r == clamped(packed_cap(leaf as nat, branch as nat, height as nat)),
{
    let mut capacity = leaf;
    let mut level: usize = 1;
    while level < height
        invariant
            branch >= 1,
            1 <= level,
            height >= 1 ==> level <= height,
            height == 0 ==> level == 1,
            capacity == clamped(packed_cap(leaf as nat, branch as nat, level as nat)),
        decreases height - level,
    {
        proof {
            lemma_clamped_step(leaf as nat, branch as nat, level as nat);
        }
        capacity = match capacity.checked_mul(branch) {
            Some(c) => c,
            None => usize::MAX,
        };
        level = level + 1;
    }
    proof {
        if height < 1 {
            assert(level == 1);
            assert(packed_cap(leaf as nat, branch as nat, height as nat) == leaf);
        } else {
            assert(level == height);
        }
    }
    capacity
}

/// One more level multiplies the clamped capacity, saturating.
proof fn lemma_clamped_step(leaf: nat, branch: nat, h: nat)
    requires
        branch >= 1,
        h >= 1,
    ensures
        clamped(packed_cap(leaf, branch, h + 1)) == (if clamped(packed_cap(leaf, branch, h)) * branch
            <= usize::MAX {
            clamped(packed_cap(leaf, branch, h)) * branch
        } else {
            usize::MAX as nat
        }),
{
    let c = packed_cap(leaf, branch, h);
    assert(packed_cap(leaf, branch, h + 1) == c * branch);
    if c > usize::MAX {
        assert(c * branch >= c) by (nonlinear_arith)
            requires
                branch >= 1,
        ;
        assert((usize::MAX as nat) * branch >= usize::MAX) by (nonlinear_arith)
            requires
                branch >= 1,
        ;
    }
}

/// The arithmetic of one strip: `k` of the `remaining` children take a
/// balanced share of `len` entries, each share within `cap`.
proof fn lemma_strip_take(len: int, remaining: int, k: int, cap: int)
    requires
        1 <= k <= remaining,
        remaining <= len <= remaining * cap,
        cap >= 1,
    ensures
        ({
            let base = len / remaining;
            let extra = len % remaining;
            let take = base * k + (if extra <= k { extra } else { k });
            &&& k <= take <= k * cap
            &&& remaining - k <= len - take <= (remaining - k) * cap
        }),
{
    let base = len / remaining;
    let extra = len % remaining;
    let m = if extra <= k { extra } else { k };
    assert(len == base * remaining + extra && 0 <= extra < remaining) by (nonlinear_arith)
        requires
            remaining >= 1,
            base == len / remaining,
            extra == len % remaining,
    ;
    assert(base >= 1) by (nonlinear_arith)
        requires
            len == base * remaining + extra,
            0 <= extra < remaining,
            remaining <= len,
    ;
    assert(base <= cap) by (nonlinear_arith)
        requires
            len == base * remaining + extra,
            0 <= extra,
            len <= remaining * cap,
            remaining >= 1,
    ;
    assert(extra > 0 ==> base < cap) by (nonlinear_arith)
        requires
            len == base * remaining + extra,
            len <= remaining * cap,
            remaining >= 1,
    ;
    let take = base * k + m;
    assert(k <= take <= k * cap) by (nonlinear_arith)
        requires
            take == base * k + m,
            1 <= base <= cap,
            0 <= m <= k,
            m > 0 ==> base < cap,
            k >= 1,
    ;
    assert(remaining - k <= len - take <= (remaining - k) * cap) by (nonlinear_arith)
        requires
            take == base * k + m,
            len == base * remaining + extra,
            0 <= extra < remaining,
            m == (if extra <= k { extra } else { k }),
            1 <= base <= cap,
            extra > 0 ==> base < cap,
            1 <= k <= remaining,
    ;
}

/// The arithmetic of one tile: of `m` remaining tiles in a strip of
/// `len` entries, the next takes `ceil(len / m)`, within `cap`.
proof fn lemma_tile_take(len: int, m: int, cap: int)
    requires
        1 <= m <= len <= m * cap,
        cap >= 1,
    ensures
        ({
            let take = len / m + (if len % m != 0 { 1int } else { 0 });
            &&& 1 <= take <= cap
            &&& m - 1 <= len - take <= (m - 1) * cap
        }),
{
    let q = len / m;
    let r = len % m;
    assert(len == q * m + r && 0 <= r < m) by (nonlinear_arith)
        requires
            m >= 1,
            q == len / m,
            r == len % m,
    ;
    let take = q + (if r != 0 { 1int } else { 0 });
    assert(q >= 1) by (nonlinear_arith)
        requires
            len == q * m + r,
            0 <= r < m,
            m <= len,
    ;
    assert(q <= cap && (r > 0 ==> q < cap)) by (nonlinear_arith)
        requires
            len == q * m + r,
            0 <= r,
            len <= m * cap,
            m >= 1,
    ;
    assert(m - 1 <= len - take <= (m - 1) * cap) by (nonlinear_arith)
        requires
            len == q * m + r,
            0 <= r < m,
            take == q + (if r != 0 { 1int } else { 0 }),
            1 <= q <= cap,
            r > 0 ==> q < cap,
            m >= 1,
    ;
}

/// How the children split among the columns: column `c` of `columns`
/// gets `count / columns` children, plus one for the first
/// `count % columns` columns.
proof fn lemma_columns(count: int, columns: int, c: int)
    requires
        columns >= 1,
        0 <= c < columns,
        count >= 0,
    ensures
        ({
            let q = count / columns;
            let r = count % columns;
            let before = c * q + (if c <= r { c } else { r });
            let k = q + (if c < r { 1int } else { 0 });
            let after = (c + 1) * q + (if c + 1 <= r { c + 1 } else { r });
            &&& after == before + k
            &&& before + k <= count
            &&& (c + 1 == columns ==> after == count)
        }),
{
    let q = count / columns;
    let r = count % columns;
    assert(count == q * columns + r && 0 <= r < columns && q >= 0) by (nonlinear_arith)
        requires
            columns >= 1,
            count >= 0,
            q == count / columns,
            r == count % columns,
    ;
    assert((c + 1) * q == c * q + q) by (nonlinear_arith);
    assert(q * columns == columns * q) by (nonlinear_arith);
    assert(c * q + q <= columns * q) by (nonlinear_arith)
        requires
            c + 1 <= columns,
            q >= 0,
    ;
    let before = c * q + (if c <= r { c } else { r });
    let k = q + (if c < r { 1int } else { 0 });
    let after = (c + 1) * q + (if c + 1 <= r { c + 1 } else { r });
    assert(after == before + k);
    if c < r {
        assert(before + k == c * q + q + c + 1);
        assert(c * q + q + c + 1 <= columns * q + r);
    } else {
        assert(before + k == c * q + q + r);
    }
    if c + 1 == columns {
        assert(after == columns * q + r);
    }
    assert(before + k <= count);
}


/// `t * t`, named so that it can trigger quantifiers.
pub open spec fn square(t: int) -> int {
    t * t
}

/// `r` is the ceiling of the square root of `n`.
pub open spec fn is_ceil_sqrt(n: int, r: int) -> bool {
    &&& r >= 0
    &&& n <= r * r
    &&& (r >= 1 ==> (r - 1) * (r - 1) < n)
}

/// One Newton step never drops below a number whose square fits in `n`.
proof fn lemma_newton_step(n: int, x: int, t: int)
    requires
        x >= 1,
        t >= 0,
        t * t <= n,
    ensures
        (x + n / x) / 2 >= t,
{
    let q = n / x;
    assert(n < (q + 1) * x) by (nonlinear_arith)
        requires
            x >= 1,
            q == n / x,
    ;
    if x + q < 2 * t {
        assert((q + 1) * x <= (2 * t - x) * x) by (nonlinear_arith)
            requires
                x >= 1,
                q + 1 <= 2 * t - x,
        ;
        assert((2 * t - x) * x <= t * t) by (nonlinear_arith);
    }
}

/// Ceil of the integer square root, by integer Newton iteration.
pub fn isqrt_ceil(n: usize) -> (r: usize)
    ensures
        is_ceil_sqrt(n as int, r as int),
{
    if n < 2 {
        proof {
            assert(is_ceil_sqrt(n as int, n as int)) by (nonlinear_arith)
                requires
                    0 <= n < 2,
            ;
        }
        return n;
    }
    let mut x = n;
    let mut y = n / 2 + n % 2;
    proof {
        assert forall|t: int| t >= 0 && #[trigger] square(t) <= n implies t <= x && t <= y by {
            assert(t <= t * t || t == 0) by (nonlinear_arith)
                requires
                    t >= 0,
            ;
            assert(2 * t - 1 <= t * t) by (nonlinear_arith);
        }
    }
    while y < x
        invariant
            n >= 2,
            1 <= x <= n,
            y <= n,
            (x == n && y == n / 2 + n % 2) || y == (x + n / x) / 2,
            forall|t: int| t >= 0 && #[trigger] square(t) <= n ==> t <= x && t <= y,
        decreases x,
    {
        x = y;
        proof {
            assert(x >= 1) by {
                assert(square(1) <= n);
            }
        }
        let q = n / x;
        y = x / 2 + q / 2 + (x % 2 + q % 2) / 2;
        proof {
            assert(y == (x + q) / 2) by (nonlinear_arith)
                requires
                    x >= 0,
                    q >= 0,
                    y == x / 2 + q / 2 + (x % 2 + q % 2) / 2,
            ;
            assert(q <= n) by (nonlinear_arith)
                requires
                    x >= 1,
                    q == n / x,
                    n >= 0,
            ;
            assert forall|t: int| t >= 0 && #[trigger] square(t) <= n implies t <= x && t <= y by {
                lemma_newton_step(n as int, x as int, t);
            }
        }
    }
    proof {
        // `x` is the floor of the square root: its square fits, the next does not.
        assert(x * x <= n) by {
            if x * x > n {
                assert(n / x < x) by (nonlinear_arith)
                    requires
                        x >= 1,
                        x * x > n,
                        n >= 0,
                ;
                assert(!(x == n && y == n / 2 + n % 2));
            }
        }
        assert(square(x as int) <= n);
        if square(x + 1) <= n {
            assert(x + 1 <= x);
        }
    }
    if x * x == n {
        proof {
            assert((x - 1) * (x - 1) < x * x) by (nonlinear_arith)
                requires
                    x >= 1,
            ;
        }
        x
    } else {
        proof {
            assert((x + 1) * (x + 1) == square(x + 1));
        }
        x + 1
    }
}

/// The packed capacity is at least one when both capacities are.
proof fn lemma_packed_cap_positive(leaf: nat, branch: nat, h: nat)
    requires
        leaf >= 1,
        branch >= 1,
    ensures
        packed_cap(leaf, branch, h) >= 1,
    decreases h,
{
    if h > 1 {
        lemma_packed_cap_positive(leaf, branch, (h - 1) as nat);
        let c = packed_cap(leaf, branch, (h - 1) as nat);
        assert(c * branch >= 1) by (nonlinear_arith)
            requires
                c >= 1,
                branch >= 1,
        ;
    }
}

/// A batch that fits under a node of height `h` needs at most `branch`
/// children of height `h - 1`, and at least one.
proof fn lemma_child_count(n: int, child_cap: int, branch: int, full_child_cap: int)
    requires
        1 <= n <= full_child_cap * branch,
        branch >= 1,
        full_child_cap >= 1,
        child_cap == (if full_child_cap <= usize::MAX { full_child_cap } else { usize::MAX as int }),
        n <= usize::MAX,
    ensures
        ({
            let count = n / child_cap + (if n % child_cap != 0 { 1int } else { 0 });
            &&& 1 <= count <= branch
            &&& count <= n
            &&& n <= count * child_cap
        }),
{
    let q = n / child_cap;
    let r = n % child_cap;
    assert(n == q * child_cap + r && 0 <= r < child_cap && q >= 0) by (nonlinear_arith)
        requires
            child_cap >= 1,
            n >= 0,
            q == n / child_cap,
            r == n % child_cap,
    ;
    let count = q + (if r != 0 { 1int } else { 0 });
    assert(n <= count * child_cap) by (nonlinear_arith)
        requires
            n == q * child_cap + r,
            0 <= r < child_cap,
            count == q + (if r != 0 { 1int } else { 0 }),
    ;
    assert(count <= n) by (nonlinear_arith)
        requires
            n == q * child_cap + r,
            0 <= r < child_cap,
            child_cap >= 1,
            count == q + (if r != 0 { 1int } else { 0 }),
            n >= 1,
    ;
    assert(count >= 1) by (nonlinear_arith)
        requires
            n == q * child_cap + r,
            n >= 1,
            q >= 0,
            count == q + (if r != 0 { 1int } else { 0 }),
    ;
    if full_child_cap <= usize::MAX {
        assert(count <= branch) by (nonlinear_arith)
            requires
                n == q * child_cap + r,
                0 <= r < child_cap,
                count == q + (if r != 0 { 1int } else { 0 }),
                n <= child_cap * branch,
        ;
    } else {
        assert(q == 0 || (q == 1 && r == 0)) by (nonlinear_arith)
            requires
                n == q * child_cap + r,
                0 <= r < child_cap,
                q >= 0,
                n <= child_cap,
                child_cap >= 1,
        ;
    }
}

/// Pack a non-empty batch into a subtree of exactly `height`, with at
/// most `leaf` values per leaf and `branch` children per branch.
fn str_pack_height<T: Indexable>(keyed: Vec<Keyed<T>>, height: usize, leaf: usize, branch: usize) -> (r: (Bounds, Node<T>))
    requires
        height >= 1,
        leaf >= 1,
        branch >= 2,
        1 <= keyed@.len() <= packed_cap(leaf as nat, branch as nat, height as nat),
    ensures
        child_wf((r.0, r.1), height as nat, leaf as nat, branch as nat),
        node_contents(r.1).to_multiset() == values_of(keyed@).to_multiset(),
    decreases height,
{
    let ghost orig = keyed@;
    if height == 1 {
        let mut rest = keyed;
        let mut values: Vec<T> = Vec::new();
        let n = rest.len();
        let mut i: usize = 0;
        while i < n
            invariant
                n == orig.len(),
                i <= n,
                rest@ == orig.skip(i as int),
                values@ == values_of(orig.take(i as int)),
            decreases n - i,
        {
            let entry = rest.remove(0);
            proof {
                assert(entry == orig[i as int]);
                assert(values_of(orig.take(i + 1)) =~= values_of(orig.take(i as int)).push(entry.1));
                assert(rest@ =~= orig.skip(i + 1));
            }
            values.push(entry.1);
            i = i + 1;
        }
        proof {
            assert(orig.take(n as int) =~= orig);
        }
        let boxes = value_boxes(&values);
        let b = union_all(boxes.as_slice());
        proof {
            assert(node_contents(Node::Leaf(values)) == values@);
        }
        return (b, Node::Leaf(values));
    }
    let ghost total = values_of(orig).to_multiset();
    let n = keyed.len();
    let ghost full = packed_cap(leaf as nat, branch as nat, (height - 1) as nat);
    let child_capacity = packed_subtree_capacity(leaf, branch, height - 1);
    proof {
        lemma_packed_cap_positive(leaf as nat, branch as nat, (height - 1) as nat);
        assert(packed_cap(leaf as nat, branch as nat, height as nat) == full * branch);
        lemma_child_count(n as int, child_capacity as int, branch as int, full as int);
    }
    let child_count = n / child_capacity + (if n % child_capacity != 0 { 1 } else { 0 });
    let root = isqrt_ceil(child_count);
    let column_count = if root > 1 { root } else { 1 };
    let mut children: Vec<(Bounds, Node<T>)> = Vec::new();
    let mut remaining_children = child_count;
    let mut rest = keyed;
    let mut column: usize = 0;
    proof {
        assert(children@ =~= Seq::<(Bounds, Node<T>)>::empty());
        lemma_ms_empty(children_contents(children@));
        assert(children_contents(children@).to_multiset().add(values_of(rest@).to_multiset()) =~= total);
    }
    while column < column_count
        invariant
            height >= 2,
            leaf >= 1,
            branch >= 2,
            column_count >= 1,
            1 <= child_capacity <= packed_cap(leaf as nat, branch as nat, (height - 1) as nat),
            child_count <= branch,
            column <= column_count,
            remaining_children == child_count - (column * (child_count / column_count) + (if column
                <= child_count % column_count { column as int } else { (child_count % column_count) as int })),
            0 <= remaining_children,
            children@.len() + remaining_children == child_count,
            remaining_children <= rest@.len() <= remaining_children * child_capacity,
            forall|j: int| 0 <= j < children@.len() ==> #[trigger] child_wf(children@[j], (height - 1) as nat, leaf as nat, branch as nat),
            children_contents(children@).to_multiset().add(values_of(rest@).to_multiset()) == total,
        decreases column_count - column,
    {
        proof {
            lemma_columns(child_count as int, column_count as int, column as int);
        }
        let children_in_column = child_count / column_count + (if column < child_count % column_count { 1 } else { 0 });
        if children_in_column != 0 {
            let len = rest.len();
            let base = len / remaining_children;
            let extra = len % remaining_children;
            proof {
                lemma_strip_take(len as int, remaining_children as int, children_in_column as int, child_capacity as int);
            }
            let take = base * children_in_column + (if extra <= children_in_column { extra } else { children_in_column });
            let ghost before_rest = rest@;
            let mut strip = take_lowest_by_axis(&mut rest, take, 0);
            proof {
                vstd::seq_lib::lemma_multiset_commutative(strip@, rest@);
                lemma_values_ms(strip@ + rest@, before_rest);
                lemma_values_add(strip@, rest@);
                vstd::seq_lib::lemma_multiset_commutative(values_of(strip@), values_of(rest@));
                assert((strip@ + rest@).to_multiset() =~= before_rest.to_multiset());
            }
            let mut remaining_in_column = children_in_column;
            while remaining_in_column != 0
                invariant
                    height >= 2,
                    leaf >= 1,
                    branch >= 2,
                    1 <= child_capacity <= packed_cap(leaf as nat, branch as nat, (height - 1) as nat),
                    remaining_in_column <= strip@.len() <= remaining_in_column * child_capacity,
                    children@.len() + remaining_in_column + remaining_children - children_in_column == child_count,
                    children_in_column <= remaining_children,
                    child_count <= branch,
                    forall|j: int| 0 <= j < children@.len() ==> #[trigger] child_wf(children@[j], (height - 1) as nat, leaf as nat, branch as nat),
                    children_contents(children@).to_multiset().add(values_of(strip@).to_multiset()).add(
                        values_of(rest@).to_multiset(),
                    ) == total,
                decreases remaining_in_column,
            {
                let slen = strip.len();
                proof {
                    lemma_tile_take(slen as int, remaining_in_column as int, child_capacity as int);
                }
                let tile_len = slen / remaining_in_column + (if slen % remaining_in_column != 0 { 1 } else { 0 });
                let ghost before_strip = strip@;
                let tile = take_lowest_by_axis(&mut strip, tile_len, 1);
                proof {
                    vstd::seq_lib::lemma_multiset_commutative(tile@, strip@);
                    assert((tile@ + strip@).to_multiset() =~= before_strip.to_multiset());
                    lemma_values_ms(tile@ + strip@, before_strip);
                    lemma_values_add(tile@, strip@);
                    vstd::seq_lib::lemma_multiset_commutative(values_of(tile@), values_of(strip@));
                }
                let ghost tile_values = values_of(tile@);
                let child = str_pack_height(tile, height - 1, leaf, branch);
                let ghost before_children = children@;
                children.push(child);
                proof {
                    lemma_children_contents_add(before_children, seq![child]);
                    lemma_children_contents_single(child);
                    assert(before_children + seq![child] =~= children@);
                    vstd::seq_lib::lemma_multiset_commutative(children_contents(before_children), node_contents(child.1));
                    assert(children_contents(children@).to_multiset().add(values_of(strip@).to_multiset()).add(
                        values_of(rest@).to_multiset(),
                    ) =~= total);
                    assert forall|j: int| 0 <= j < children@.len() implies #[trigger] child_wf(children@[j], (height - 1) as nat, leaf as nat, branch as nat) by {
                        if j < before_children.len() {
                            assert(children@[j] == before_children[j]);
                        }
                    }
                }
                remaining_in_column = remaining_in_column - 1;
            }
            proof {
                assert(strip@.len() == 0);
                lemma_ms_empty(values_of(strip@));
                assert(children_contents(children@).to_multiset().add(values_of(rest@).to_multiset()) =~= total);
            }
            remaining_children = remaining_children - children_in_column;
        }
        column = column + 1;
    }
    proof {
        assert(column_count * (child_count / column_count) + child_count % column_count == child_count
            && child_count % column_count < column_count) by (nonlinear_arith)
            requires
                column_count >= 1,
        ;
        assert(remaining_children == 0);
        assert(remaining_children * child_capacity == 0) by (nonlinear_arith)
            requires
                remaining_children == 0,
        ;
        assert(rest@.len() == 0);
        lemma_ms_empty(values_of(rest@));
        assert(children_contents(children@).to_multiset() =~= total);
        lemma_children_wf_all(children@, (height - 1) as nat, leaf as nat, branch as nat);
    }
    let boxes = recorded_boxes(&children);
    let b = union_all(boxes.as_slice());
    proof {
        lemma_tight_children(b, children@, (height - 1) as nat, leaf as nat, branch as nat);
        assert(node_wf(Node::Branch(children), height as nat, leaf as nat, branch as nat));
    }
    (b, Node::Branch(children))
}


/// `h` is the height of a packed tree of `n` values: the least height
/// whose capacity holds them.
pub open spec fn is_packed_height(leaf: nat, branch: nat, n: nat, h: nat) -> bool {
    &&& h >= 1
    &&& packed_cap(leaf, branch, h) >= n
    &&& (h > 1 ==> packed_cap(leaf, branch, (h - 1) as nat) < n)
}

/// Sort-Tile-Recursive packing of a non-empty batch into a balanced tree
/// of the least sufficient height, returned with that height.
pub fn str_pack<T: Indexable>(values: Vec<T>, leaf: usize, branch: usize) -> (r: (Node<T>, usize))
    requires
        leaf >= 1,
        branch >= 2,
        values@.len() >= 1,
    ensures
        node_wf(r.0, r.1 as nat, leaf as nat, branch as nat),
        node_contents(r.0).to_multiset() == values@.to_multiset(),
        is_packed_height(leaf as nat, branch as nat, values@.len(), r.1 as nat),
{
    let ghost orig = values@;
    let n = values.len();
    let mut rest = values;
    let mut keyed: Vec<Keyed<T>> = Vec::new();
    proof {
        lemma_ms_empty(values_of(keyed@));
        assert(values_of(keyed@).to_multiset().add(rest@.to_multiset()) =~= orig.to_multiset());
    }
    while rest.len() > 0
        invariant
            values_of(keyed@).to_multiset().add(rest@.to_multiset()) == orig.to_multiset(),
            keyed@.len() + rest@.len() == n,
        decreases rest@.len(),
    {
        let ghost before = rest@;
        let v = rest.pop().unwrap();
        let key = v.bounds().doubled_center();
        let ghost old_keyed = keyed@;
        keyed.push((key, v));
        proof {
            assert(before =~= rest@.push(v));
            vstd::seq_lib::to_multiset_build(rest@, v);
            assert(values_of(keyed@) =~= values_of(old_keyed).push(v));
            vstd::seq_lib::to_multiset_build(values_of(old_keyed), v);
            assert(values_of(keyed@).to_multiset().add(rest@.to_multiset()) =~= orig.to_multiset());
        }
    }
    proof {
        lemma_ms_empty(rest@);
        assert(values_of(keyed@).to_multiset() =~= orig.to_multiset());
    }
    let mut height: usize = 1;
    let mut capacity = leaf;
    while capacity < n
        invariant
            leaf >= 1,
            branch >= 2,
            n == orig.len(),
            1 <= height <= capacity,
            capacity == clamped(packed_cap(leaf as nat, branch as nat, height as nat)),
            height > 1 ==> packed_cap(leaf as nat, branch as nat, (height - 1) as nat) < n,
        decreases (if capacity < n { n - capacity } else { 0 }),
    {
        proof {
            lemma_clamped_step(leaf as nat, branch as nat, height as nat);
            assert(capacity * branch >= capacity + 1) by (nonlinear_arith)
                requires
                    capacity >= 1,
                    branch >= 2,
            ;
        }
        let ghost previous = capacity;
        capacity = match capacity.checked_mul(branch) {
            Some(c) => c,
            None => usize::MAX,
        };
        assert(capacity > previous);
        height = height + 1;
    }
    let (b, root) = str_pack_height(keyed, height, leaf, branch);
    proof {
        assert(child_wf((b, root), height as nat, leaf as nat, branch as nat));
    }
    (root, height)
}

} // verus!
