//! Cartesian equality of points, segments and polygons.
//!
//! Polygons compare by vertex sequence: two rings are equal when their
//! distinct loop vertices (a closing vertex that repeats the first is
//! dropped) agree up to the starting vertex and the direction of travel,
//! and two polygons are equal when their exteriors are equal and their
//! holes can be paired off one to one into equal rings. Rings that
//! describe the same region with different collinear vertices are not
//! equal under this comparison.
//!
//! Equality is symmetric; [`lemma_polygons_equal_symmetric`] proves it.

use vstd::prelude::*;

use crate::geometry::{Point, PointTag, Polygon, PolygonTag, Ring, Segment, SegmentTag};
use crate::intersects::points_equal;

verus! {

// ---- The dihedral index maps ------------------------------------------

/// Where the `i`-th vertex of one loop lands in another loop of `n`
/// vertices read from `start`, forwards or backwards.
pub open spec fn cyclic_index(n: int, start: int, i: int, reverse: bool) -> int {
    if reverse {
        (start - i) % n
    } else {
        (start + i) % n
    }
}

/// The start of the composition of two index maps.
pub open spec fn composed_start(n: int, s1: int, s2: int, r2: bool) -> int {
    if r2 {
        (s2 - s1) % n
    } else {
        (s2 + s1) % n
    }
}

/// The start of the inverse of an index map.
pub open spec fn inverse_start(n: int, s: int, reverse: bool) -> int {
    if reverse {
        s
    } else {
        (-s) % n
    }
}

proof fn lemma_mod_plus(x: int, y: int, n: int)
    requires
        n > 0,
    ensures
        (x + y % n) % n == (x + y) % n,
        (x - y % n) % n == (x - y) % n,
        (x % n + y) % n == (x + y) % n,
        (x % n - y) % n == (x - y) % n,
{
    vstd::arithmetic::div_mod::lemma_add_mod_noop_right(x, y, n);
    vstd::arithmetic::div_mod::lemma_sub_mod_noop_right(x, y, n);
    vstd::arithmetic::div_mod::lemma_add_mod_noop_right(y, x, n);
    assert(y + x % n == x % n + y);
    assert(y + x == x + y);
    vstd::arithmetic::div_mod::lemma_sub_mod_noop(x, y, n);
    vstd::arithmetic::div_mod::lemma_sub_mod_noop(x % n, y, n);
    vstd::arithmetic::div_mod::lemma_mod_twice(x, n);
}

/// Composing two index maps gives an index map.
proof fn lemma_compose(n: int, s1: int, r1: bool, s2: int, r2: bool, i: int)
    requires
        n > 0,
    ensures
        cyclic_index(n, s2, cyclic_index(n, s1, i, r1), r2) == cyclic_index(n, composed_start(n, s1, s2, r2), i, r1 != r2),
        0 <= composed_start(n, s1, s2, r2) < n,
{
    vstd::arithmetic::div_mod::lemma_mod_bound(s2 - s1, n);
    vstd::arithmetic::div_mod::lemma_mod_bound(s2 + s1, n);
    if r1 {
        lemma_mod_plus(s2, s1 - i, n);
        if r2 {
            assert(s2 - (s1 - i) == (s2 - s1) + i);
            lemma_mod_plus(s2 - s1, i, n);
        } else {
            assert(s2 + (s1 - i) == (s2 + s1) - i);
            lemma_mod_plus(s2 + s1, i, n);
        }
    } else {
        lemma_mod_plus(s2, s1 + i, n);
        if r2 {
            assert(s2 - (s1 + i) == (s2 - s1) - i);
            lemma_mod_plus(s2 - s1, i, n);
        } else {
            assert(s2 + (s1 + i) == (s2 + s1) + i);
            lemma_mod_plus(s2 + s1, i, n);
        }
    }
}

/// An index map undoes its inverse.
proof fn lemma_inverse(n: int, s: int, reverse: bool, j: int)
    requires
        n > 0,
        0 <= j < n,
    ensures
        cyclic_index(n, s, cyclic_index(n, inverse_start(n, s, reverse), j, reverse), reverse) == j,
        0 <= inverse_start(n, s, reverse) < n <== 0 <= s < n,
{
    let t = inverse_start(n, s, reverse);
    lemma_compose(n, t, reverse, s, reverse, j);
    vstd::arithmetic::div_mod::lemma_mod_bound(-s, n);
    if reverse {
        assert(s - t == 0);
    } else {
        lemma_mod_plus(s, -s, n);
        assert(s + (-s) == 0);
    }
    assert(composed_start(n, t, s, reverse) == 0) by {
        vstd::arithmetic::div_mod::lemma_small_mod(0, n as nat);
    }
    vstd::arithmetic::div_mod::lemma_small_mod(j as nat, n as nat);
    assert(0 + j == j);
}

// ---- Loops ------------------------------------------------------------

/// The distinct loop vertices of a ring: a closing vertex that repeats
/// the first is dropped.
pub open spec fn loop_vertices(pts: Seq<Point>) -> Seq<Point> {
    if pts.len() >= 2 && pts[0] == pts.last() {
        pts.drop_last()
    } else {
        pts
    }
}

/// `a` matches `b` read from `start`, forwards or backwards.
pub open spec fn cyclic_matches(a: Seq<Point>, b: Seq<Point>, start: int, reverse: bool) -> bool {
    forall|i: int| 0 <= i < a.len() ==> #[trigger] a[i] == b[cyclic_index(a.len() as int, start, i, reverse)]
}

/// Two loops are equal up to the starting vertex and the direction of
/// travel.
#[verifier::opaque]
pub open spec fn loops_equal(a: Seq<Point>, b: Seq<Point>) -> bool {
    &&& a.len() == b.len()
    &&& (a.len() == 0 || exists|start: int, reverse: bool| 0 <= start < a.len() && #[trigger] cyclic_matches(a, b, start, reverse))
}

/// Two rings describe the same loop of distinct vertices.
pub open spec fn spec_rings_equal(a: Ring, b: Ring) -> bool {
    loops_equal(loop_vertices(a.points@), loop_vertices(b.points@))
}

/// Loop equality is reflexive.
pub proof fn lemma_loops_equal_reflexive(a: Seq<Point>)
    ensures
        loops_equal(a, a),
{
    reveal(loops_equal);
    if a.len() > 0 {
        let n = a.len() as int;
        assert forall|i: int| 0 <= i < a.len() implies #[trigger] a[i] == a[cyclic_index(n, 0, i, false)] by {
            vstd::arithmetic::div_mod::lemma_small_mod(i as nat, n as nat);
        }
        assert(cyclic_matches(a, a, 0, false));
    }
}

/// Loop equality is symmetric.
pub proof fn lemma_loops_equal_symmetric(a: Seq<Point>, b: Seq<Point>)
    requires
        loops_equal(a, b),
    ensures
        loops_equal(b, a),
{
    reveal(loops_equal);
    if a.len() > 0 {
        let n = a.len() as int;
        let (s, r) = choose|start: int, reverse: bool| 0 <= start < a.len() && #[trigger] cyclic_matches(a, b, start, reverse);
        let t = inverse_start(n, s, r);
        lemma_inverse(n, s, r, 0);
        assert forall|j: int| 0 <= j < b.len() implies #[trigger] b[j] == a[cyclic_index(n, t, j, r)] by {
            lemma_inverse(n, s, r, j);
            let i = cyclic_index(n, t, j, r);
            vstd::arithmetic::div_mod::lemma_mod_bound(t - j, n);
            vstd::arithmetic::div_mod::lemma_mod_bound(t + j, n);
            assert(0 <= i < n);
            assert(a[i] == b[cyclic_index(n, s, i, r)]);
        }
        assert(cyclic_matches(b, a, t, r));
    }
}

/// Loop equality is transitive.
pub proof fn lemma_loops_equal_transitive(a: Seq<Point>, b: Seq<Point>, c: Seq<Point>)
    requires
        loops_equal(a, b),
        loops_equal(b, c),
    ensures
        loops_equal(a, c),
{
    reveal(loops_equal);
    if a.len() > 0 {
        let n = a.len() as int;
        let (s1, r1) = choose|start: int, reverse: bool| 0 <= start < a.len() && #[trigger] cyclic_matches(a, b, start, reverse);
        let (s2, r2) = choose|start: int, reverse: bool| 0 <= start < b.len() && #[trigger] cyclic_matches(b, c, start, reverse);
        let s3 = composed_start(n, s1, s2, r2);
        lemma_compose(n, s1, r1, s2, r2, 0);
        assert forall|i: int| 0 <= i < a.len() implies #[trigger] a[i] == c[cyclic_index(n, s3, i, r1 != r2)] by {
            lemma_compose(n, s1, r1, s2, r2, i);
            let k = cyclic_index(n, s1, i, r1);
            vstd::arithmetic::div_mod::lemma_mod_bound(s1 - i, n);
            vstd::arithmetic::div_mod::lemma_mod_bound(s1 + i, n);
            assert(0 <= k < n);
            assert(b[k] == c[cyclic_index(n, s2, k, r2)]);
        }
        assert(cyclic_matches(a, c, s3, r1 != r2));
    }
}

/// Ring equality is symmetric.
pub proof fn lemma_rings_equal_symmetric(a: Ring, b: Ring)
    ensures
        spec_rings_equal(a, b) == spec_rings_equal(b, a),
{
    if spec_rings_equal(a, b) {
        lemma_loops_equal_symmetric(loop_vertices(a.points@), loop_vertices(b.points@));
    }
    if spec_rings_equal(b, a) {
        lemma_loops_equal_symmetric(loop_vertices(b.points@), loop_vertices(a.points@));
    }
}

/// Ring equality is transitive.
pub proof fn lemma_rings_equal_transitive(a: Ring, b: Ring, c: Ring)
    requires
        spec_rings_equal(a, b),
        spec_rings_equal(b, c),
    ensures
        spec_rings_equal(a, c),
{
    lemma_loops_equal_transitive(loop_vertices(a.points@), loop_vertices(b.points@), loop_vertices(c.points@));
}

// ---- Holes ------------------------------------------------------------

/// `sigma` pairs each hole of `a` with a distinct, equal hole of `b`.
pub open spec fn is_hole_matching(a: Seq<Ring>, b: Seq<Ring>, sigma: Seq<int>) -> bool {
    &&& sigma.len() == a.len()
    &&& forall|i: int| 0 <= i < a.len() ==> 0 <= #[trigger] sigma[i] < b.len() && spec_rings_equal(a[i], b[sigma[i]])
    &&& forall|i: int, j: int| 0 <= i < j < a.len() ==> sigma[i] != sigma[j]
}

/// The holes of `a` and `b` pair off one to one into equal rings.
pub open spec fn holes_match(a: Seq<Ring>, b: Seq<Ring>) -> bool {
    a.len() == b.len() && exists|sigma: Seq<int>| #[trigger] is_hole_matching(a, b, sigma)
}

/// Two polygons are equal: equal exteriors, and holes that pair off
/// into equal rings.
pub open spec fn spec_polygons_equal(a: Polygon, b: Polygon) -> bool {
    spec_rings_equal(a.exterior, b.exterior) && holes_match(a.interiors@, b.interiors@)
}

// ---- Executable comparisons -------------------------------------------

/// The distinct loop vertices of a ring.
fn normalise_ring(r: &Ring) -> (v: Vec<Point>)
    ensures
        v@ == loop_vertices(r.points@),
{
    let src = &r.points;
    let mut pts: Vec<Point> = Vec::new();
    let mut i: usize = 0;
    while i < src.len()
        invariant
            i <= src@.len(),
            pts@ == src@.subrange(0, i as int),
        decreases src@.len() - i,
    {
        pts.push(src[i]);
        proof {
            assert(src@.subrange(0, i + 1) =~= src@.subrange(0, i as int).push(src@[i as int]));
        }
        i = i + 1;
    }
    proof {
        assert(src@.subrange(0, src@.len() as int) =~= src@);
    }
    if pts.len() >= 2 && points_equal(&pts[0], &pts[pts.len() - 1]) {
        pts.pop();
        proof {
            assert(pts@ =~= src@.drop_last());
        }
    }
    pts
}

/// Does `a` match `b` read from `start`, forwards or backwards?
fn cyclic_match(a: &Vec<Point>, b: &Vec<Point>, start: usize, reverse: bool) -> (r: bool)
    requires
        a@.len() == b@.len(),
        start < a@.len(),
    ensures
        r == cyclic_matches(a@, b@, start as int, reverse),
{
    let n = a.len();
    let mut i: usize = 0;
    while i < n
        invariant
            i <= n,
            n == a@.len(),
            n == b@.len(),
            start < n,
            forall|k: int| 0 <= k < i ==> #[trigger] a@[k] == b@[cyclic_index(n as int, start as int, k, reverse)],
        decreases n - i,
    {
        let j = if reverse {
            if i <= start {
                start - i
            } else {
                n - (i - start)
            }
        } else {
            if i < n - start {
                start + i
            } else {
                i - (n - start)
            }
        };
        proof {
            let x = if reverse { start - i } else { start + i };
            if 0 <= x < n {
                vstd::arithmetic::div_mod::lemma_small_mod(x as nat, n as nat);
            } else if x < 0 {
                vstd::arithmetic::div_mod::lemma_mod_add_multiples_vanish(x, n as int);
                vstd::arithmetic::div_mod::lemma_small_mod((n + x) as nat, n as nat);
            } else {
                vstd::arithmetic::div_mod::lemma_mod_sub_multiples_vanish(x, n as int);
                vstd::arithmetic::div_mod::lemma_small_mod((x - n) as nat, n as nat);
            }
            assert(j == cyclic_index(n as int, start as int, i as int, reverse));
        }
        if !points_equal(&a[i], &b[j]) {
            return false;
        }
        i = i + 1;
    }
    true
}

/// Are two rings equal as loops of distinct vertices, up to the
/// starting vertex and the direction of travel?
pub fn rings_equal(a: &Ring, b: &Ring) -> (r: bool)
    ensures
        r == spec_rings_equal(*a, *b),
{
    let av = normalise_ring(a);
    let bv = normalise_ring(b);
    proof {
        reveal(loops_equal);
    }
    if av.len() != bv.len() {
        return false;
    }
    let n = av.len();
    if n == 0 {
        return true;
    }
    let mut start: usize = 0;
    while start < n
        invariant
            start <= n,
            n == av@.len(),
            n == bv@.len(),
            av@ == loop_vertices(a.points@),
            bv@ == loop_vertices(b.points@),
            forall|s: int, rv: bool| 0 <= s < start ==> !#[trigger] cyclic_matches(av@, bv@, s, rv),
        decreases n - start,
    {
        if cyclic_match(&av, &bv, start, false) {
            proof {
                reveal(loops_equal);
                assert(0 <= start < av@.len() && cyclic_matches(av@, bv@, start as int, false));
            }
            return true;
        }
        if cyclic_match(&av, &bv, start, true) {
            proof {
                reveal(loops_equal);
                assert(0 <= start < av@.len() && cyclic_matches(av@, bv@, start as int, true));
            }
            return true;
        }
        proof {
            assert forall|s: int, rv: bool| 0 <= s < start + 1 implies !#[trigger] cyclic_matches(av@, bv@, s, rv) by {
                if s == start {
                    if rv {
                    } else {
                    }
                }
            }
        }
        start = start + 1;
    }
    proof {
        reveal(loops_equal);
        assert(!(exists|st: int, rv: bool| 0 <= st < av@.len() && #[trigger] cyclic_matches(av@, bv@, st, rv)));
    }
    false
}

/// A hole of `hb` that is not yet paired and equals `ring`, if any.
fn free_equal_hole(ring: &Ring, hb: &Vec<Ring>, matched: &Vec<bool>) -> (r: Option<usize>)
    requires
        matched@.len() == hb@.len(),
    ensures
        r matches Some(j) ==> j < hb@.len() && !matched@[j as int] && spec_rings_equal(*ring, hb@[j as int]),
        r is None ==> forall|j: int| 0 <= j < hb@.len() ==> matched@[j] || !spec_rings_equal(*ring, #[trigger] hb@[j]),
{
    let mut j: usize = 0;
    while j < hb.len()
        invariant
            j <= hb@.len(),
            matched@.len() == hb@.len(),
            forall|k: int| 0 <= k < j ==> matched@[k] || !spec_rings_equal(*ring, #[trigger] hb@[k]),
        decreases hb@.len() - j,
    {
        if !matched[j] && rings_equal(ring, &hb[j]) {
            return Some(j);
        }
        j = j + 1;
    }
    None
}

/// A pairing that agrees with the greedy choices so far can be changed
/// to agree with the next one: the displaced hole takes over the
/// partner the chosen one gives up (ring equality is an equivalence).
proof fn lemma_repair_matching(a: Seq<Ring>, b: Seq<Ring>, sigma: Seq<int>, g: Seq<int>, jj: int) -> (out: Seq<int>)
    requires
        a.len() == b.len(),
        is_hole_matching(a, b, sigma),
        g.len() < a.len(),
        forall|q: int| 0 <= q < g.len() ==> #[trigger] sigma[q] == g[q],
        !g.contains(jj),
        0 <= jj < b.len(),
        spec_rings_equal(a[g.len() as int], b[jj]),
    ensures
        is_hole_matching(a, b, out),
        forall|q: int| 0 <= q < g.len() ==> #[trigger] out[q] == sigma[q],
        out[g.len() as int] == jj,
{
    let n = a.len() as int;
    let i = g.len() as int;
    let js = sigma[i];
    if js == jj {
        sigma
    } else if exists|m: int| 0 <= m < n && #[trigger] sigma[m] == jj {
        let m = choose|m: int| 0 <= m < n && #[trigger] sigma[m] == jj;
        if m < i {
            assert(g[m] == jj);
            assert(g.contains(jj));
        }
        assert(m != i);
        lemma_rings_equal_symmetric(a[i], b[jj]);
        lemma_rings_equal_transitive(a[m], b[jj], a[i]);
        lemma_rings_equal_transitive(a[m], a[i], b[js]);
        let out = sigma.update(i, jj).update(m, js);
        assert forall|a1: int, a2: int| 0 <= a1 < a2 < n implies out[a1] != out[a2] by {
            assert(sigma[a1] != sigma[a2]);
            if a1 == m || a2 == m {
                assert(sigma[i] != sigma[m]);
            }
        }
        assert forall|a1: int| 0 <= a1 < n implies 0 <= #[trigger] out[a1] < b.len() && spec_rings_equal(a[a1], b[out[a1]]) by {
            if a1 != i && a1 != m {
                assert(out[a1] == sigma[a1]);
            }
        }
        out
    } else {
        let out = sigma.update(i, jj);
        assert forall|a1: int, a2: int| 0 <= a1 < a2 < n implies out[a1] != out[a2] by {
            if a1 != i && a2 != i {
                assert(sigma[a1] != sigma[a2]);
            }
        }
        assert forall|a1: int| 0 <= a1 < n implies 0 <= #[trigger] out[a1] < b.len() && spec_rings_equal(a[a1], b[out[a1]]) by {
            if a1 != i {
                assert(out[a1] == sigma[a1]);
            }
        }
        out
    }
}

/// Pair every hole of `ha` with a distinct equal hole of `hb`, greedily.
/// Ring equality is an equivalence, so the greedy pairing succeeds
/// exactly when some pairing exists.
fn holes_pair_off(ha: &Vec<Ring>, hb: &Vec<Ring>) -> (r: bool)
    ensures
        r == holes_match(ha@, hb@),
{
    if ha.len() != hb.len() {
        return false;
    }
    let n = hb.len();
    let mut matched: Vec<bool> = Vec::new();
    let mut k: usize = 0;
    while k < n
        invariant
            k <= n,
            matched@.len() == k,
            forall|j: int| 0 <= j < k ==> !#[trigger] matched@[j],
        decreases n - k,
    {
        matched.push(false);
        k = k + 1;
    }
    let ghost has = exists|sigma: Seq<int>| #[trigger] is_hole_matching(ha@, hb@, sigma);
    let ghost mut sigma: Seq<int> = if has {
        choose|sigma: Seq<int>| #[trigger] is_hole_matching(ha@, hb@, sigma)
    } else {
        Seq::empty()
    };
    let ghost mut g: Seq<int> = Seq::empty();
    let mut i: usize = 0;
    while i < ha.len()
        invariant
            i <= ha@.len(),
            n == hb@.len(),
            ha@.len() == n,
            g.len() == i,
            matched@.len() == n,
            forall|j: int| 0 <= j < n ==> (#[trigger] matched@[j] <==> g.contains(j)),
            forall|q: int| 0 <= q < i ==> 0 <= #[trigger] g[q] < n && spec_rings_equal(ha@[q], hb@[g[q]]),
            forall|q1: int, q2: int| 0 <= q1 < q2 < i ==> g[q1] != g[q2],
            has ==> is_hole_matching(ha@, hb@, sigma),
            has ==> forall|q: int| 0 <= q < i ==> #[trigger] sigma[q] == g[q],
            has == exists|sg: Seq<int>| #[trigger] is_hole_matching(ha@, hb@, sg),
        decreases ha@.len() - i,
    {
        let pick = free_equal_hole(&ha[i], hb, &matched);
        match pick {
            None => {
                proof {
                    if has {
                        let js = sigma[i as int];
                        assert(0 <= js < n && spec_rings_equal(ha@[i as int], hb@[js]));
                        if g.contains(js) {
                            let q = choose|q: int| 0 <= q < g.len() && g[q] == js;
                            assert(sigma[q] == js);
                        }
                        assert(!matched@[js]);
                    }
                }
                return false;
            },
            Some(j) => {
                let ghost old_g = g;
                let ghost old_matched = matched@;
                matched.set(j, true);
                proof {
                    let jj = j as int;
                    assert(!old_g.contains(jj));
                    g = old_g.push(jj);
                    assert forall|x: int| 0 <= x < n implies (#[trigger] matched@[x] <==> g.contains(x)) by {
                        if x != jj {
                            assert(matched@[x] == old_matched[x]);
                            if old_g.contains(x) {
                                let q = choose|q: int| 0 <= q < old_g.len() && old_g[q] == x;
                                assert(g[q] == x);
                            }
                            if g.contains(x) {
                                let q = choose|q: int| 0 <= q < g.len() && g[q] == x;
                                assert(q < old_g.len());
                                assert(old_g[q] == x);
                            }
                        } else {
                            assert(g[i as int] == x);
                        }
                    }
                    assert forall|q1: int, q2: int| 0 <= q1 < q2 < i + 1 implies g[q1] != g[q2] by {
                        if q2 == i {
                            assert(old_g[q1] == g[q1]);
                            assert(old_g.contains(g[q1]));
                        }
                    }
                    if has {
                        sigma = lemma_repair_matching(ha@, hb@, sigma, old_g, jj);
                        assert forall|q: int| 0 <= q < i + 1 implies #[trigger] sigma[q] == g[q] by {
                            if q < i {
                                assert(old_g[q] == g[q]);
                            }
                        }
                    }
                }
            },
        }
        i = i + 1;
    }
    proof {
        assert(is_hole_matching(ha@, hb@, g));
    }
    true
}

/// A strategy deciding whether two geometries describe the same point
/// set.
pub trait EqualsStrategy<A, B> {
    /// Whether `a` and `b` are equal.
    spec fn spec_equals(&self, a: A, b: B) -> bool;

    /// Whether `a` and `b` are equal.
    fn equals(&self, a: &A, b: &B) -> (r: bool)
        ensures
            r == self.spec_equals(*a, *b),
    ;
}

/// Equality of two points: coordinate-wise.
#[derive(Debug, Default, Clone, Copy)]
pub struct EqPointPoint;

/// Equality of two segments: the same endpoints, in either direction.
#[derive(Debug, Default, Clone, Copy)]
pub struct EqSegmentSegment;

/// Equality of two polygons: equal exteriors and holes that pair off
/// into equal rings.
#[derive(Debug, Default, Clone, Copy)]
pub struct EqPolygonPolygon;

impl EqualsStrategy<Point, Point> for EqPointPoint {
    open spec fn spec_equals(&self, a: Point, b: Point) -> bool {
        a == b
    }

    fn equals(&self, a: &Point, b: &Point) -> (r: bool) {
        points_equal(a, b)
    }
}

impl EqualsStrategy<Segment, Segment> for EqSegmentSegment {
    open spec fn spec_equals(&self, a: Segment, b: Segment) -> bool {
        (a.start == b.start && a.end == b.end) || (a.start == b.end && a.end == b.start)
    }

    fn equals(&self, a: &Segment, b: &Segment) -> (r: bool) {
        (points_equal(&a.start, &b.start) && points_equal(&a.end, &b.end)) || (points_equal(&a.start, &b.end)
            && points_equal(&a.end, &b.start))
    }
}

impl EqualsStrategy<Polygon, Polygon> for EqPolygonPolygon {
    open spec fn spec_equals(&self, a: Polygon, b: Polygon) -> bool {
        spec_polygons_equal(a, b)
    }

    fn equals(&self, a: &Polygon, b: &Polygon) -> (r: bool) {
        if !rings_equal(&a.exterior, &b.exterior) {
            return false;
        }
        holes_pair_off(&a.interiors, &b.interiors)
    }
}

/// Which equality strategy a pair of geometry kinds uses.
pub trait EqualsPairStrategy<K2> {
    /// The strategy for this pair of kinds.
    type S: Default;
}

impl EqualsPairStrategy<PointTag> for PointTag {
    type S = EqPointPoint;
}

impl EqualsPairStrategy<SegmentTag> for SegmentTag {
    type S = EqSegmentSegment;
}

impl EqualsPairStrategy<PolygonTag> for PolygonTag {
    type S = EqPolygonPolygon;
}

/// A one-to-one pairing of two equally many holes covers every hole of
/// the second polygon.
proof fn lemma_matching_onto(a: Seq<Ring>, b: Seq<Ring>, sigma: Seq<int>, j: int)
    requires
        a.len() == b.len(),
        is_hole_matching(a, b, sigma),
        0 <= j < b.len(),
    ensures
        exists|i: int| 0 <= i < a.len() && #[trigger] sigma[i] == j,
{
    let n = a.len() as int;
    assert(sigma.no_duplicates()) by {
        assert forall|x: int, y: int| 0 <= x < sigma.len() && 0 <= y < sigma.len() && x != y implies sigma[x] != sigma[y] by {
            if x < y {
                assert(sigma[x] != sigma[y]);
            } else {
                assert(sigma[y] != sigma[x]);
            }
        }
    }
    sigma.unique_seq_to_set();
    vstd::set_lib::lemma_int_range(0, n);
    let range = vstd::set_lib::set_int_range(0, n);
    assert(sigma.to_set().subset_of(range)) by {
        assert forall|x: int| #[trigger] sigma.to_set().contains(x) implies range.contains(x) by {
            let k = choose|k: int| 0 <= k < sigma.len() && sigma[k] == x;
            assert(0 <= sigma[k] < n);
        }
    }
    vstd::set_lib::lemma_subset_equality(sigma.to_set(), range);
    assert(range.contains(j));
    assert(sigma.to_set().contains(j));
    let k = choose|k: int| 0 <= k < sigma.len() && sigma[k] == j;
    assert(sigma[k] == j);
}

/// Hole pairing is symmetric.
pub proof fn lemma_holes_match_symmetric(a: Seq<Ring>, b: Seq<Ring>)
    ensures
        holes_match(a, b) == holes_match(b, a),
{
    if holes_match(a, b) {
        lemma_holes_match_one_way(a, b);
    }
    if holes_match(b, a) {
        lemma_holes_match_one_way(b, a);
    }
}

proof fn lemma_holes_match_one_way(a: Seq<Ring>, b: Seq<Ring>)
    requires
        holes_match(a, b),
    ensures
        holes_match(b, a),
{
    let sigma = choose|sigma: Seq<int>| #[trigger] is_hole_matching(a, b, sigma);
    let n = a.len() as int;
    let tau = Seq::new(n as nat, |j: int| choose|i: int| 0 <= i < n && #[trigger] sigma[i] == j);
    assert forall|j: int| 0 <= j < n implies 0 <= #[trigger] tau[j] < n && sigma[tau[j]] == j by {
        lemma_matching_onto(a, b, sigma, j);
    }
    assert forall|j: int| 0 <= j < n implies 0 <= #[trigger] tau[j] < a.len() && spec_rings_equal(b[j], a[tau[j]]) by {
        lemma_rings_equal_symmetric(a[tau[j]], b[j]);
    }
    assert forall|j1: int, j2: int| 0 <= j1 < j2 < n implies tau[j1] != tau[j2] by {
        assert(sigma[tau[j1]] == j1);
        assert(sigma[tau[j2]] == j2);
    }
    assert(is_hole_matching(b, a, tau));
}

/// Polygon equality is symmetric.
pub proof fn lemma_polygons_equal_symmetric(a: Polygon, b: Polygon)
    ensures
        spec_polygons_equal(a, b) == spec_polygons_equal(b, a),
{
    lemma_rings_equal_symmetric(a.exterior, b.exterior);
    lemma_holes_match_symmetric(a.interiors@, b.interiors@);
}

/// A polygon equals itself.
pub proof fn lemma_polygons_equal_reflexive(a: Polygon)
    ensures
        spec_polygons_equal(a, a),
{
    lemma_loops_equal_reflexive(loop_vertices(a.exterior.points@));
    let h = a.interiors@;
    let id = Seq::new(h.len(), |i: int| i);
    assert forall|i: int| 0 <= i < h.len() implies 0 <= #[trigger] id[i] < h.len() && spec_rings_equal(h[i], h[id[i]]) by {
        lemma_loops_equal_reflexive(loop_vertices(h[i].points@));
    }
    assert(is_hole_matching(h, h, id));
}

} // verus!
