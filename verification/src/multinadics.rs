//! Multinomial number system.
//!
//! Generalizes the factorial number system to sequences with repeated
//! elements: a rank below `multinomial(xs)` selects one of the distinct
//! orderings of the multiset `xs`.

use crate::count_eq;
use crate::count_lt;
use crate::spec_fact;
use crate::lemma_count_eq_concat;
use crate::lemma_count_eq_one;
use crate::lemma_count_eq_zero;
use crate::lemma_rotate_counts;
use crate::multinomial;
use crate::ordered_multiset;
use crate::spec_multinomial;
use vstd::prelude::*;

verus! {


/// `s` with `v` placed before its first strictly larger entry.
pub open spec fn insert_sorted(v: usize, s: Seq<usize>) -> Seq<usize>
    decreases s.len(),
{
    if s.len() == 0 {
        seq![v]
    } else if v <= s[0] {
        seq![v] + s
    } else {
        seq![s[0]] + insert_sorted(v, s.drop_first())
    }
}

/// The non-decreasing arrangement of the multiset `s`.
pub open spec fn sorted_of(s: Seq<usize>) -> Seq<usize>
    decreases s.len(),
{
    if s.len() == 0 {
        Seq::empty()
    } else {
        insert_sorted(s.last(), sorted_of(s.drop_last()))
    }
}

proof fn lemma_insert_sorted(v: usize, s: Seq<usize>)
    requires
        ordered_multiset(s),
    ensures
        insert_sorted(v, s).len() == s.len() + 1,
        ordered_multiset(insert_sorted(v, s)),
        forall|w: usize| count_eq(insert_sorted(v, s), w) == count_eq(s, w) + (if w == v {
            1int
        } else {
            0int
        }),
        insert_sorted(v, s)[0] == v || (s.len() > 0 && insert_sorted(v, s)[0] == s[0]),
    decreases s.len(),
{
    let r = insert_sorted(v, s);
    if s.len() == 0 {
        assert(r =~= Seq::<usize>::empty().push(v));
        assert(r.drop_last() =~= Seq::<usize>::empty());
        assert forall|w: usize| count_eq(r, w) == count_eq(s, w) + (if w == v {
            1int
        } else {
            0int
        }) by {
            assert(count_eq(Seq::<usize>::empty(), w) == 0);
        }
    } else if v <= s[0] {
        assert forall|w: usize| count_eq(r, w) == count_eq(s, w) + (if w == v {
            1int
        } else {
            0int
        }) by {
            lemma_count_eq_concat(seq![v], s, w);
            lemma_count_eq_one(v, w);
        }
        assert forall|a: int, b: int| 0 <= a < b < r.len() implies r[a] <= r[b] by {
            if a == 0 {
                assert(r[b] == s[b - 1]);
                assert(v <= s[0]);
                if b > 1 {
                    assert(s[0] <= s[b - 1]);
                }
            } else {
                assert(r[a] == s[a - 1] && r[b] == s[b - 1]);
            }
        }
    } else {
        let t = s.drop_first();
        assert(forall|a: int, b: int|
            0 <= a < b < t.len() ==> t[a] == s[a + 1] && t[b] == s[b + 1]);
        assert(ordered_multiset(t));
        lemma_insert_sorted(v, t);
        let rt = insert_sorted(v, t);
        assert forall|w: usize| count_eq(r, w) == count_eq(s, w) + (if w == v {
            1int
        } else {
            0int
        }) by {
            lemma_count_eq_concat(seq![s[0]], rt, w);
            lemma_count_eq_concat(seq![s[0]], t, w);
            lemma_count_eq_one(s[0], w);
            assert(seq![s[0]] + t =~= s);
        }
        assert forall|a: int, b: int| 0 <= a < b < r.len() implies r[a] <= r[b] by {
            if a > 0 {
                assert(r[a] == rt[a - 1] && r[b] == rt[b - 1]);
            } else {
                assert(r[b] == rt[b - 1]);
                assert(rt[0] == v || (t.len() > 0 && rt[0] == t[0]));
                assert(s[0] <= rt[0]);
                if b > 1 {
                    assert(rt[0] <= rt[b - 1]);
                }
            }
        }
    }
}


proof fn lemma_sorted_of(s: Seq<usize>)
    ensures
        sorted_of(s).len() == s.len(),
        ordered_multiset(sorted_of(s)),
        forall|w: usize| count_eq(sorted_of(s), w) == count_eq(s, w),
    decreases s.len(),
{
    if s.len() > 0 {
        lemma_sorted_of(s.drop_last());
        lemma_insert_sorted(s.last(), sorted_of(s.drop_last()));
        assert forall|w: usize| count_eq(sorted_of(s), w) == count_eq(s, w) by {
            assert(count_eq(sorted_of(s), w) == count_eq(sorted_of(s.drop_last()), w)
                + (if w == s.last() { 1int } else { 0int }));
            assert(count_eq(s, w) == count_eq(s.drop_last(), w)
                + (if s.last() == w { 1int } else { 0int }));
        }
    }
}

/// Two sequences with the same contents sort to the same sequence.
proof fn lemma_sorted_of_congruent(a: Seq<usize>, b: Seq<usize>)
    requires
        a.len() == b.len(),
        forall|w: usize| count_eq(a, w) == count_eq(b, w),
    ensures
        sorted_of(a) == sorted_of(b),
{
    lemma_sorted_of(a);
    lemma_sorted_of(b);
    assert forall|w: usize| count_eq(sorted_of(a), w) == count_eq(sorted_of(b), w) by {
        assert(count_eq(sorted_of(a), w) == count_eq(a, w));
        assert(count_eq(sorted_of(b), w) == count_eq(b, w));
    }
    assert(crate::permutes(sorted_of(a), sorted_of(b)));
    crate::lemma_sorted_unique(sorted_of(a), sorted_of(b));
}

/// An already sorted sequence is its own sorted arrangement.
proof fn lemma_sorted_of_sorted(s: Seq<usize>)
    requires
        ordered_multiset(s),
    ensures
        sorted_of(s) == s,
{
    lemma_sorted_of(s);
    crate::lemma_sorted_unique(sorted_of(s), s);
}

/// Sum, over the starts of runs of equal values among the first `e`
/// positions of `s`, of the orderings of `s` with one element of that run
/// taken out.
pub open spec fn run_psum(s: Seq<usize>, e: int) -> nat
    decreases e,
{
    if e <= 0 || e > s.len() {
        0
    } else {
        run_psum(s, e - 1) + if e - 1 == 0 || s[e - 2] != s[e - 1] {
            spec_multinomial(s.remove(e - 1))
        } else {
            0nat
        }
    }
}

/// The same sum, restricted to runs whose value lies below `c`.
pub open spec fn run_psum_below(s: Seq<usize>, e: int, c: usize) -> nat
    decreases e,
{
    if e <= 0 || e > s.len() {
        0
    } else {
        run_psum_below(s, e - 1, c) + if (e - 1 == 0 || s[e - 2] != s[e - 1]) && s[e - 1]
            < c {
            spec_multinomial(s.remove(e - 1))
        } else {
            0nat
        }
    }
}

/// Within one run of equal values only the first position contributes.
proof fn lemma_run_psum_inrun(s: Seq<usize>, a: int, b: int)
    requires
        0 <= a < b <= s.len(),
        a == 0 || s[a - 1] != s[a],
        forall|q: int| a < q < b ==> (#[trigger] s[q]) == s[q - 1],
    ensures
        run_psum(s, b) == run_psum(s, a) + spec_multinomial(s.remove(a)),
    decreases b - a,
{
    if b == a + 1 {
    } else {
        lemma_run_psum_inrun(s, a, b - 1);
        assert(s[b - 2] == s[b - 1]);
    }
}

/// Runs of values below the bound are the same runs.
proof fn lemma_run_psum_below_lo(s: Seq<usize>, e: int, c: usize)
    requires
        e <= s.len(),
        forall|q: int| 0 <= q < e ==> s[q] < c,
    ensures
        run_psum_below(s, e, c) == run_psum(s, e),
    decreases e,
{
    if e > 0 {
        lemma_run_psum_below_lo(s, e - 1, c);
    }
}

/// Runs of values at or above the bound contribute nothing.
proof fn lemma_run_psum_below_hi(s: Seq<usize>, t: int, e: int, c: usize)
    requires
        0 <= t <= e <= s.len(),
        forall|q: int| t <= q < e ==> s[q] >= c,
    ensures
        run_psum_below(s, e, c) == run_psum_below(s, t, c),
    decreases e - t,
{
    if t < e {
        lemma_run_psum_below_hi(s, t, e - 1, c);
    }
}

/// The end of the run of equal values that starts at `t`.
spec fn run_end(s: Seq<usize>, t: int) -> int
    decreases s.len() - t,
{
    if t < 0 || t >= s.len() {
        t
    } else if t + 1 < s.len() && s[t + 1] == s[t] {
        run_end(s, t + 1)
    } else {
        t + 1
    }
}

proof fn lemma_run_end(s: Seq<usize>, t: int)
    requires
        0 <= t < s.len(),
    ensures
        t < run_end(s, t) <= s.len(),
        forall|q: int| t <= q < run_end(s, t) ==> s[q] == s[t],
        run_end(s, t) == s.len() || s[run_end(s, t)] != s[t],
    decreases s.len() - t,
{
    if t + 1 < s.len() && s[t + 1] == s[t] {
        lemma_run_end(s, t + 1);
    }
}

/// In a sorted sequence a run that starts a run holds every occurrence of
/// its value.
proof fn lemma_sorted_run_count(s: Seq<usize>, t: int)
    requires
        ordered_multiset(s),
        0 <= t < s.len(),
        t == 0 || s[t - 1] != s[t],
    ensures
        count_eq(s, s[t]) == run_end(s, t) - t,
{
    let v = s[t];
    let e = run_end(s, t);
    lemma_run_end(s, t);
    let head = s.take(t);
    let mid = s.subrange(t, e);
    let tail = s.skip(e);
    assert(s =~= (head + mid) + tail);
    lemma_count_eq_concat(head + mid, tail, v);
    lemma_count_eq_concat(head, mid, v);
    assert(count_eq(head, v) == 0) by {
        lemma_count_eq_zero(head, v);
        if head.contains(v) {
            let q = choose|q: int| 0 <= q < t && head[q] == v;
            assert(s[q] == v);
            assert(s[t - 1] <= s[t]);
            assert(q < t - 1 ==> s[q] <= s[t - 1]);
            assert(false);
        }
    }
    assert(count_eq(mid, v) == mid.len()) by {
        lemma_count_eq_full(mid, v);
    }
    assert(count_eq(tail, v) == 0) by {
        lemma_count_eq_zero(tail, v);
        if tail.contains(v) {
            let q = choose|q: int| 0 <= q < tail.len() && tail[q] == v;
            assert(s[q + e] == v);
            assert(e < s.len() && s[e] != v);
            assert(s[e] <= s[q + e] && s[t] <= s[e]);
            assert(false);
        }
    }
}

proof fn lemma_count_eq_full(s: Seq<usize>, v: usize)
    requires
        forall|q: int| 0 <= q < s.len() ==> s[q] == v,
    ensures
        count_eq(s, v) == s.len(),
    decreases s.len(),
{
    if s.len() > 0 {
        assert(forall|q: int| 0 <= q < s.len() - 1 ==> s.drop_last()[q] == s[q]);
        lemma_count_eq_full(s.drop_last(), v);
    }
}

/// From any run boundary on, the run sums cover their share of the
/// orderings: `len * (sum of the remaining runs) == (len - t) * M(s)`.
proof fn lemma_run_psum_tail(s: Seq<usize>, t: int)
    requires
        ordered_multiset(s),
        0 <= t <= s.len(),
        t == s.len() || t == 0 || s[t - 1] != s[t],
    ensures
        run_psum(s, t) <= run_psum(s, s.len() as int),
        s.len() * (run_psum(s, s.len() as int) - run_psum(s, t)) == (s.len() - t)
            * spec_multinomial(s),
    decreases s.len() - t,
{
    let n = s.len() as int;
    if t == n {
        assert(n * 0 == 0 * spec_multinomial(s)) by (nonlinear_arith);
    } else {
        let v = s[t];
        let e = run_end(s, t);
        lemma_run_end(s, t);
        lemma_sorted_run_count(s, t);
        lemma_run_psum_inrun(s, t, e);
        assert(e == n || s[e - 1] != s[e]);
        lemma_run_psum_tail(s, e);
        let m = spec_multinomial(s) as int;
        let m2 = spec_multinomial(s.remove(t)) as int;
        assert forall|w: usize| #[trigger] count_eq(s.remove(t), w) == count_eq(s, w)
            - (if s[t] == w { 1int } else { 0int }) by {
            crate::lemma_counts_remove(s, t, w);
        }
        crate::lemma_multinomial_remove_one(s, s.remove(t), v);
        assert(n * m2 == (e - t) * m);
        let hi = run_psum(s, n) as int;
        let mid = run_psum(s, e) as int;
        let lo = run_psum(s, t) as int;
        assert(mid == lo + m2);
        assert(n * (hi - mid) == (n - e) * m);
        assert(n * (hi - lo) == n * (hi - mid) + n * m2) by (nonlinear_arith)
            requires mid == lo + m2;
        assert((n - e) * m + (e - t) * m == (n - t) * m) by (nonlinear_arith);
        crate::lemma_multinomial_pos(s);
        assert((n - t) * m >= 0) by (nonlinear_arith)
            requires n - t >= 0, m >= 0;
        assert(n * (hi - lo) >= 0);
        assert(hi >= lo) by (nonlinear_arith)
            requires n * (hi - lo) >= 0, n >= 1;
    }
}

/// All runs of a sorted sequence together cover every ordering once.
proof fn lemma_run_psum_total(s: Seq<usize>)
    requires
        ordered_multiset(s),
        s.len() >= 1,
    ensures
        run_psum(s, s.len() as int) == spec_multinomial(s),
{
    lemma_run_psum_tail(s, 0);
    let n = s.len() as int;
    assert(run_psum(s, 0) == 0);
    assert(n * (run_psum(s, n) - 0) == n * spec_multinomial(s)) by (nonlinear_arith)
        requires n * (run_psum(s, n) - run_psum(s, 0)) == (n - 0) * spec_multinomial(s),
            run_psum(s, 0) == 0;
    assert(run_psum(s, n) == spec_multinomial(s)) by (nonlinear_arith)
        requires n * (run_psum(s, n) - 0) == n * spec_multinomial(s), n >= 1;
}

/// Rank of a multiset permutation among the distinct orderings of its
/// elements, counted from position `i` on: for each position, one count of
/// orderings for every strictly smaller value still present.
pub open spec fn multi_rank_from(t: Seq<usize>, i: int) -> nat
    decreases t.len() - i,
{
    if i < 0 || i >= t.len() {
        0
    } else {
        run_psum_below(
            sorted_of(t.subrange(i, t.len() as int)),
            t.len() - i,
            t[i],
        ) + multi_rank_from(t, i + 1)
    }
}

/// Rank of a multiset permutation among the distinct orderings of its
/// elements, in lexicographic order.
pub open spec fn multi_rank(t: Seq<usize>) -> nat {
    multi_rank_from(t, 0)
}

/// A sequence whose tail from `i` on is already sorted ranks at zero from
/// `i` on: nothing smaller is ever passed over.
proof fn lemma_multi_rank_from_sorted(t: Seq<usize>, i: int)
    requires
        0 <= i <= t.len(),
        forall|p: int, q: int| i <= p < q < t.len() ==> t[p] <= t[q],
    ensures
        multi_rank_from(t, i) == 0,
    decreases t.len() - i,
{
    if i < t.len() {
        let sub = t.subrange(i, t.len() as int);
        assert(forall|p: int, q: int|
            0 <= p < q < sub.len() ==> sub[p] == t[p + i] && sub[q] == t[q + i]);
        assert(ordered_multiset(sub));
        lemma_sorted_of_sorted(sub);
        assert(forall|q: int| 0 <= q < sub.len() ==> sub[q] >= t[i]) by {
            assert(sub[0] == t[i]);
        }
        lemma_run_psum_below_hi(sub, 0, sub.len() as int, t[i]);
        lemma_multi_rank_from_sorted(t, i + 1);
    }
}

/// Positions from `i` on with equal prefixes and equal contents contribute
/// the same rank between two cut-off points.
proof fn lemma_multi_rank_from_prefix(t1: Seq<usize>, t2: Seq<usize>, j: int, i: int)
    requires
        0 <= j <= i <= t1.len(),
        t1.len() == t2.len(),
        forall|q: int| 0 <= q < i ==> t1[q] == t2[q],
        forall|w: usize| count_eq(t1, w) == count_eq(t2, w),
    ensures
        multi_rank_from(t1, j) - multi_rank_from(t1, i) == multi_rank_from(t2, j)
            - multi_rank_from(t2, i),
    decreases i - j,
{
    if j < i {
        lemma_multi_rank_from_prefix(t1, t2, j + 1, i);
        let n = t1.len() as int;
        let s1 = t1.subrange(j, n);
        let s2 = t2.subrange(j, n);
        assert forall|w: usize| count_eq(s1, w) == count_eq(s2, w) by {
            lemma_count_eq_concat(t1.take(j), s1, w);
            lemma_count_eq_concat(t2.take(j), s2, w);
            assert(t1.take(j) + s1 =~= t1);
            assert(t2.take(j) + s2 =~= t2);
            assert(t1.take(j) =~= t2.take(j));
        }
        lemma_sorted_of_congruent(s1, s2);
        assert(t1[j] == t2[j]);
    }
}

/// The threshold used by the codecs below: taking one element of the run
/// that starts at `cc` out of the sorted multiset `sub` leaves exactly
/// `count * M(sub) / len` orderings, and the division is exact.
proof fn lemma_threshold(sub: Seq<usize>, cc: int)
    requires
        ordered_multiset(sub),
        0 <= cc < sub.len(),
        cc == 0 || sub[cc - 1] != sub[cc],
    ensures
        sub.len() * spec_multinomial(sub.remove(cc)) == count_eq(sub, sub[cc])
            * spec_multinomial(sub),
        (count_eq(sub, sub[cc]) * spec_multinomial(sub)) as int / (sub.len() as int)
            == spec_multinomial(sub.remove(cc)),
{
    let v = sub[cc];
    assert(sub.contains(v));
    crate::lemma_count_eq_zero(sub, v);
    assert forall|w: usize| #[trigger] count_eq(sub.remove(cc), w) == count_eq(sub, w)
        - (if sub[cc] == w { 1int } else { 0int }) by {
        crate::lemma_counts_remove(sub, cc, w);
    }
    crate::lemma_multinomial_remove_one(sub, sub.remove(cc), v);
    let nn = sub.len() as int;
    let m2 = spec_multinomial(sub.remove(cc)) as int;
    vstd::arithmetic::div_mod::lemma_div_by_multiple(m2, nn);
    assert(m2 * nn == nn * m2) by (nonlinear_arith);
}

proof fn lemma_run_psum_mono(s: Seq<usize>, a: int, b: int)
    requires
        a <= b <= s.len(),
    ensures
        run_psum(s, a) <= run_psum(s, b),
    decreases b - a,
{
    if a < b {
        lemma_run_psum_mono(s, a, b - 1);
    }
}

proof fn lemma_count_eq_insert(s: Seq<usize>, idx: int, x: usize, w: usize)
    requires
        0 <= idx <= s.len(),
    ensures
        count_eq(s.insert(idx, x), w) == count_eq(s, w) + if x == w {
            1int
        } else {
            0int
        },
{
    let r = s.insert(idx, x);
    assert((s.take(idx) + seq![x]) + s.skip(idx) =~= r);
    lemma_count_eq_concat(s.take(idx) + seq![x], s.skip(idx), w);
    lemma_count_eq_concat(s.take(idx), seq![x], w);
    lemma_count_eq_concat(s.take(idx), s.skip(idx), w);
    assert(s.take(idx) + s.skip(idx) =~= s);
    lemma_count_eq_one(x, w);
}

/// Returns a non-decreasing copy of `xs`, built by insertion.
fn sort_copy(xs: &Vec<usize>) -> (r: Vec<usize>)
    ensures
        r@.len() == xs@.len(),
        ordered_multiset(r@),
        forall|w: usize| count_eq(r@, w) == count_eq(xs@, w),
{
    let mut r: Vec<usize> = Vec::new();
    let mut i: usize = 0;
    proof {
        assert(xs@.take(0) =~= Seq::<usize>::empty());
    }
    while i < xs.len()
        invariant
            i <= xs@.len(),
            r@.len() == i,
            ordered_multiset(r@),
            forall|w: usize| count_eq(r@, w) == count_eq(xs@.take(i as int), w),
        decreases xs@.len() - i,
    {
        let x: usize = xs[i];
        let mut idx: usize = 0;
        while idx < r.len() && r[idx] <= x
            invariant
                idx <= r@.len(),
                forall|q: int| 0 <= q < idx ==> r@[q] <= x,
            decreases r@.len() - idx,
        {
            idx = idx + 1;
        }
        let ghost pre = r@;
        r.insert(idx, x);
        proof {
            assert(r@ == pre.insert(idx as int, x));
            assert forall|q: int| 0 <= q < r@.len() implies r@[q] == (if q < idx {
                pre[q]
            } else if q == idx {
                x
            } else {
                pre[q - 1]
            }) by {
                assert((pre.take(idx as int) + seq![x]) + pre.skip(idx as int) =~= r@);
            }
            assert forall|a: int, b: int| 0 <= a < b < r@.len() implies r@[a] <= r@[b] by {
                if b < idx {
                } else if b == idx {
                    assert(r@[a] == pre[a] && pre[a] <= x);
                } else if a == idx {
                    assert(r@[b] == pre[b - 1]);
                    assert(idx < pre.len() ==> pre[idx as int] > x);
                    assert(b - 1 > idx ==> pre[idx as int] <= pre[b - 1]);
                } else if a < idx {
                    assert(r@[a] == pre[a] && r@[b] == pre[b - 1]);
                    assert(a < b - 1 ==> pre[a] <= pre[b - 1]);
                    assert(a == b - 1 ==> pre[a] == pre[b - 1]);
                } else {
                    assert(r@[a] == pre[a - 1] && r@[b] == pre[b - 1]);
                }
            }
            let p1 = xs@.take(i as int + 1);
            assert(p1.drop_last() =~= xs@.take(i as int));
            assert(p1.last() == x);
            assert forall|w: usize| count_eq(r@, w) == count_eq(p1, w) by {
                lemma_count_eq_insert(pre, idx as int, x, w);
            }
        }
        i = i + 1;
    }
    proof {
        assert(xs@.take(xs@.len() as int) =~= xs@);
    }
    r
}

/// Index of the first occurrence of `v` in `s`.
spec fn first_eq(s: Seq<usize>, v: usize) -> int
    decreases s.len(),
{
    if s.len() == 0 {
        0
    } else if s[0] == v {
        0
    } else {
        1 + first_eq(s.drop_first(), v)
    }
}

proof fn lemma_first_eq(s: Seq<usize>, v: usize)
    requires
        s.contains(v),
    ensures
        0 <= first_eq(s, v) < s.len(),
        s[first_eq(s, v)] == v,
        forall|q: int| 0 <= q < first_eq(s, v) ==> s[q] != v,
    decreases s.len(),
{
    if s[0] != v {
        let t = s.drop_first();
        assert(t.contains(v)) by {
            let q = choose|q: int| 0 <= q < s.len() && s[q] == v;
            assert(t[q - 1] == v);
        }
        lemma_first_eq(t, v);
        assert(forall|q: int| 0 <= q < t.len() ==> t[q] == s[q + 1]);
        assert forall|q: int| 0 <= q < first_eq(s, v) implies s[q] != v by {
            if q > 0 {
                assert(s[q] == t[q - 1]);
            }
        }
    }
}

/// In a sorted sequence the first occurrence of a present value starts its
/// run, right after all the strictly smaller entries.
proof fn lemma_sorted_first_eq(s: Seq<usize>, v: usize)
    requires
        ordered_multiset(s),
        s.contains(v),
    ensures
        0 <= first_eq(s, v) < s.len(),
        s[first_eq(s, v)] == v,
        forall|q: int| 0 <= q < first_eq(s, v) ==> s[q] < v,
        first_eq(s, v) == 0 || s[first_eq(s, v) - 1] != s[first_eq(s, v)],
{
    lemma_first_eq(s, v);
    let f = first_eq(s, v);
    assert forall|q: int| 0 <= q < f implies s[q] < v by {
        assert(s[q] <= s[f]);
    }
}

/// No rank reaches the number of distinct orderings.
#[verifier::spinoff_prover]
#[verifier::rlimit(100)]
proof fn lemma_multi_rank_bound(t: Seq<usize>, i: int)
    requires
        0 <= i <= t.len(),
    ensures
        multi_rank_from(t, i) < spec_multinomial(sorted_of(t.subrange(i, t.len() as int))),
    decreases t.len() - i,
{
    let n = t.len() as int;
    let suf = t.subrange(i, n);
    let s = sorted_of(suf);
    lemma_sorted_of(suf);
    if i == n {
        assert(s =~= Seq::<usize>::empty());
        crate::lemma_multinomial_pos(s);
    } else {
        let v = t[i];
        assert(suf[0] == v);
        assert(suf.contains(v));
        lemma_count_eq_zero(suf, v);
        lemma_count_eq_zero(s, v);
        assert(s.contains(v));
        lemma_sorted_first_eq(s, v);
        let f = first_eq(s, v);
        let e = run_end(s, f);
        lemma_run_end(s, f);
        assert(s.subrange(0, s.len() as int) =~= s);
        lemma_run_boundary(s, f, e, s, 0);
        // The term at position i is the sum of the runs below v.
        lemma_run_psum_below_hi(s, f, s.len() as int, v);
        lemma_run_psum_below_lo(s, f, v);
        // The tail ranks below the orderings of the remainder.
        lemma_multi_rank_bound(t, i + 1);
        let suf1 = t.subrange(i + 1, n);
        assert(seq![v] + suf1 =~= suf);
        assert forall|w: usize| count_eq(s.remove(f), w) == count_eq(
            sorted_of(suf1),
            w,
        ) by {
            crate::lemma_counts_remove(s, f, w);
            lemma_count_eq_concat(seq![v], suf1, w);
            lemma_count_eq_one(v, w);
            lemma_sorted_of(suf1);
        }
        lemma_sorted_of(suf1);
        crate::lemma_counts_remove(s, f, v);
        crate::lemma_multinomial_permutes(s.remove(f), sorted_of(suf1));
        // Together they stay below the total.
        lemma_run_psum_inrun(s, f, e);
        lemma_run_psum_mono(s, e, s.len() as int);
        lemma_run_psum_total(s);
    }
}

/// No two arrangements of one multiset share a rank: with `decode_mut`'s
/// postcondition, the rank and the starting contents determine every
/// element of the decoded permutation.
pub proof fn lemma_multi_rank_injective(a: Seq<usize>, b: Seq<usize>)
    requires
        crate::permutes(a, b),
        multi_rank(a) == multi_rank(b),
    ensures
        a == b,
    decreases a.len(),
{
    lemma_multi_rank_injective_from(a, b, 0);
    assert(a =~= b);
}

proof fn lemma_multi_rank_injective_from(a: Seq<usize>, b: Seq<usize>, i: int)
    requires
        0 <= i <= a.len(),
        a.len() == b.len(),
        forall|q: int| 0 <= q < i ==> a[q] == b[q],
        forall|w: usize| count_eq(a, w) == count_eq(b, w),
        multi_rank_from(a, i) == multi_rank_from(b, i),
    ensures
        forall|q: int| 0 <= q < a.len() ==> a[q] == b[q],
    decreases a.len() - i,
{
    let n = a.len() as int;
    if i == n {
    } else {
        let sufa = a.subrange(i, n);
        let sufb = b.subrange(i, n);
        assert forall|w: usize| count_eq(sufa, w) == count_eq(sufb, w) by {
            lemma_count_eq_concat(a.take(i), sufa, w);
            lemma_count_eq_concat(b.take(i), sufb, w);
            assert(a.take(i) + sufa =~= a);
            assert(b.take(i) + sufb =~= b);
            assert(a.take(i) =~= b.take(i));
        }
        lemma_sorted_of_congruent(sufa, sufb);
        let s = sorted_of(sufa);
        lemma_sorted_of(sufa);
        if a[i] != b[i] {
            lemma_rank_head_distinct(a, b, i, s);
        }
        assert(a[i] == b[i]);
        // Equal heads leave equal tails with equal remaining ranks.
        let sufa1 = a.subrange(i + 1, n);
        let sufb1 = b.subrange(i + 1, n);
        assert(seq![a[i]] + sufa1 =~= sufa);
        assert(seq![b[i]] + sufb1 =~= sufb);
        lemma_multi_rank_injective_from(a, b, i + 1);
    }
}

/// The rank from position `i` on lies in the half-open interval of the
/// run sums delimited by the run of the value placed at `i`.
#[verifier::spinoff_prover]
#[verifier::rlimit(100)]
proof fn lemma_rank_term(t: Seq<usize>, i: int, s: Seq<usize>)
    requires
        0 <= i < t.len(),
        s == sorted_of(t.subrange(i, t.len() as int)),
    ensures
        s.contains(t[i]),
        multi_rank_from(t, i) >= run_psum(s, first_eq(s, t[i])),
        multi_rank_from(t, i) < run_psum(s, run_end(s, first_eq(s, t[i]))),
{
    let n = t.len() as int;
    let suf = t.subrange(i, n);
    let v = t[i];
    lemma_sorted_of(suf);
    assert(suf[0] == v);
    assert(suf.contains(v));
    lemma_count_eq_zero(suf, v);
    lemma_count_eq_zero(s, v);
    assert(s.contains(v));
    lemma_sorted_first_eq(s, v);
    let f = first_eq(s, v);
    let e = run_end(s, f);
    lemma_run_end(s, f);
    assert(s.subrange(0, s.len() as int) =~= s);
    lemma_run_boundary(s, f, e, s, 0);
    // The head's term is the sum of the runs strictly below v.
    assert(forall|q: int| f <= q < s.len() ==> s[q] >= v);
    lemma_run_psum_below_hi(s, f, s.len() as int, v);
    lemma_run_psum_below_lo(s, f, v);
    // The tail ranks below the orderings of the remainder.
    lemma_multi_rank_bound(t, i + 1);
    let suf1 = t.subrange(i + 1, n);
    assert(seq![v] + suf1 =~= suf);
    assert forall|w: usize| count_eq(s.remove(f), w) == count_eq(sorted_of(suf1), w) by {
        crate::lemma_counts_remove(s, f, w);
        lemma_count_eq_concat(seq![v], suf1, w);
        lemma_count_eq_one(v, w);
        lemma_sorted_of(suf1);
    }
    lemma_sorted_of(suf1);
    crate::lemma_counts_remove(s, f, v);
    crate::lemma_multinomial_permutes(s.remove(f), sorted_of(suf1));
    lemma_run_psum_inrun(s, f, e);
}

/// Different values at the first divergent position force different ranks.
#[verifier::spinoff_prover]
#[verifier::rlimit(100)]
proof fn lemma_rank_head_distinct(a: Seq<usize>, b: Seq<usize>, i: int, s: Seq<usize>)
    requires
        0 <= i < a.len(),
        a.len() == b.len(),
        a[i] != b[i],
        forall|w: usize| count_eq(a.subrange(i, a.len() as int), w) == count_eq(
            b.subrange(i, b.len() as int),
            w,
        ),
        s == sorted_of(a.subrange(i, a.len() as int)),
    ensures
        multi_rank_from(a, i) != multi_rank_from(b, i),
        a[i] < b[i] ==> multi_rank_from(a, i) < multi_rank_from(b, i),
        b[i] < a[i] ==> multi_rank_from(b, i) < multi_rank_from(a, i),
{
    let n = a.len() as int;
    let (lo, hi) = if a[i] < b[i] {
        (a, b)
    } else {
        (b, a)
    };
    let vl = lo[i];
    let vh = hi[i];
    assert(vl < vh);
    lemma_sorted_of_congruent(a.subrange(i, n), b.subrange(i, n));
    lemma_rank_term(lo, i, s);
    lemma_rank_term(hi, i, s);
    lemma_sorted_of(a.subrange(i, n));
    lemma_sorted_first_eq(s, vl);
    lemma_sorted_first_eq(s, vh);
    let fl = first_eq(s, vl);
    let fh = first_eq(s, vh);
    let el = run_end(s, fl);
    lemma_run_end(s, fl);
    // The run of the smaller value ends before the larger one starts.
    assert(el <= fh) by {
        if el > fh {
            assert(s[fh] == s[fl]);
            assert(false);
        }
    }
    lemma_run_psum_mono(s, el, fh);
    assert(multi_rank_from(lo, i) < multi_rank_from(hi, i));
}

/// A lexicographically later arrangement of the same multiset has a
/// strictly larger rank: the iteration order of [`Iter`] is the rank
/// order.
pub proof fn lemma_multi_rank_lex(a: Seq<usize>, b: Seq<usize>)
    requires
        crate::permutes(a, b),
        crate::lex_lt(a, b),
    ensures
        multi_rank(a) < multi_rank(b),
{
    let n = a.len() as int;
    let m = choose|m: int|
        0 <= m < a.len() && a[m] < b[m] && (forall|p: int| 0 <= p < m ==> a[p] == b[p]);
    assert forall|w: usize| count_eq(a.subrange(m, n), w) == count_eq(
        b.subrange(m, n),
        w,
    ) by {
        lemma_count_eq_concat(a.take(m), a.subrange(m, n), w);
        lemma_count_eq_concat(b.take(m), b.subrange(m, n), w);
        assert(a.take(m) + a.subrange(m, n) =~= a);
        assert(b.take(m) + b.subrange(m, n) =~= b);
        assert(a.take(m) =~= b.take(m));
    }
    lemma_rank_head_distinct(a, b, m, sorted_of(a.subrange(m, n)));
    lemma_multi_rank_from_prefix(a, b, 0, m);
}

/// Over distinct sorted elements every run is a single element, so the
/// run sums collapse to a count of smaller elements.
proof fn lemma_psum_below_distinct(s: Seq<usize>, e: int, c: usize)
    requires
        ordered_multiset(s),
        crate::unordered_set(s),
        s.len() >= 1,
        0 <= e <= s.len(),
    ensures
        run_psum_below(s, e, c) == count_lt(s.take(e), c) * spec_fact((s.len() - 1) as nat),
    decreases e,
{
    let f = spec_fact((s.len() - 1) as nat);
    if e == 0 {
        assert(s.take(0) =~= Seq::<usize>::empty());
        assert(count_lt(Seq::<usize>::empty(), c) == 0);
        assert(0 * f == 0) by (nonlinear_arith);
    } else {
        lemma_psum_below_distinct(s, e - 1, c);
        assert(s.take(e).drop_last() =~= s.take(e - 1));
        assert(s.take(e).last() == s[e - 1]);
        assert(e - 1 == 0 || s[e - 2] != s[e - 1]);
        if s[e - 1] < c {
            let r = s.remove(e - 1);
            assert forall|p: int, q: int| 0 <= p < q < r.len() implies r[p] != r[q] by {
                assert(r[p] == (if p < e - 1 {
                    s[p]
                } else {
                    s[p + 1]
                }));
                assert(r[q] == (if q < e - 1 {
                    s[q]
                } else {
                    s[q + 1]
                }));
            }
            crate::lemma_multinomial_distinct(r);
            assert((count_lt(s.take(e - 1), c) + 1) * f == count_lt(s.take(e - 1), c) * f
                + f) by (nonlinear_arith);
        }
    }
}

/// With pairwise distinct elements the multinomial number system is the
/// factorial number system: both rank in the same way.
pub proof fn lemma_multi_rank_is_fact_rank(t: Seq<usize>)
    requires
        crate::unordered_set(t),
    ensures
        multi_rank(t) == crate::factoradics::fact_rank(t),
{
    lemma_multi_fact_rank_from(t, 0);
}

proof fn lemma_multi_fact_rank_from(t: Seq<usize>, i: int)
    requires
        crate::unordered_set(t),
        0 <= i <= t.len(),
    ensures
        multi_rank_from(t, i) == crate::factoradics::fact_rank_from(t, i),
    decreases t.len() - i,
{
    let n = t.len() as int;
    if i < n {
        lemma_multi_fact_rank_from(t, i + 1);
        let suf = t.subrange(i, n);
        let s = sorted_of(suf);
        lemma_sorted_of(suf);
        assert(forall|p: int, q: int|
            0 <= p < q < suf.len() ==> suf[p] == t[p + i] && suf[q] == t[q + i]);
        assert(crate::unordered_set(suf));
        assert forall|p: int, q: int| 0 <= p < q < s.len() implies s[p] != s[q] by {
            if s[p] == s[q] {
                crate::lemma_count_eq_two(s, p, q);
                crate::lemma_unordered_count(suf, s[p]);
            }
        }
        assert(s.take(s.len() as int) =~= s);
        lemma_psum_below_distinct(s, s.len() as int, t[i]);
        // The count of smaller elements is the Lehmer digit.
        let rest = t.subrange(i + 1, n);
        assert(seq![t[i]] + rest =~= suf);
        crate::lemma_count_lt_concat(seq![t[i]], rest, t[i]);
        assert(seq![t[i]].drop_last() =~= Seq::<usize>::empty());
        assert(count_lt(Seq::<usize>::empty(), t[i]) == 0);
        assert(count_lt(seq![t[i]], t[i]) == 0);
        crate::lemma_count_lt_permutes(s, suf, t[i]);
        assert(count_lt(s, t[i]) == crate::factoradics::lehmer_digit(t, i));
    }
}

/// One step of encoding: the run `[c, e)` of the sorted remainder `rem0`
/// holds exactly the occurrences of the value `v` placed at position `i`,
/// the runs before it are the rank term of position `i`, and removing one
/// `v` leaves the remainder of the next position.
#[verifier::spinoff_prover]
#[verifier::rlimit(100)]
proof fn lemma_encode_stage(xs: Seq<usize>, rem0: Seq<usize>, i: int, c: int, e: int, v: usize)
    requires
        0 <= i < xs.len(),
        rem0.len() == xs.len() - i,
        ordered_multiset(rem0),
        forall|w: usize| count_eq(rem0, w) == count_eq(xs.subrange(i, xs.len() as int), w),
        v == xs[i],
        0 <= c < e <= rem0.len(),
        c == 0 || rem0[c - 1] != rem0[c],
        forall|q: int| c <= q < e ==> rem0[q] == rem0[c],
        e == rem0.len() || rem0[e] != rem0[c],
        forall|q: int| 0 <= q < c ==> rem0[q] < v,
        rem0[c] == v || e == rem0.len(),
    ensures
        rem0[c] == v,
        count_eq(rem0, v) == e - c,
        rem0.len() * spec_multinomial(rem0.remove(c)) == count_eq(rem0, v)
            * spec_multinomial(rem0),
        (count_eq(rem0, v) * spec_multinomial(rem0)) as int / (rem0.len() as int)
            == spec_multinomial(rem0.remove(c)),
        forall|w: usize| count_eq(rem0.remove(c), w) == count_eq(
            xs.subrange(i + 1, xs.len() as int),
            w,
        ),
        ordered_multiset(rem0.remove(c)),
        multi_rank_from(xs, i) == run_psum(rem0, c) + multi_rank_from(xs, i + 1),
        run_psum(rem0, c) + spec_multinomial(rem0.remove(c)) <= spec_multinomial(rem0),
{
    let n = xs.len() as int;
    let suf = xs.subrange(i, n);
    // v occurs in the remainder, and only inside the run at c.
    assert(suf[0] == v);
    assert(suf.contains(v));
    lemma_count_eq_zero(suf, v);
    lemma_count_eq_zero(rem0, v);
    assert(rem0.contains(v));
    if rem0[c] != v {
        assert(e == rem0.len());
        let pv = choose|pv: int| 0 <= pv < rem0.len() && rem0[pv] == v;
        assert(rem0[pv] == rem0[c]);
        assert(false);
    }
    assert(rem0.subrange(0, rem0.len() as int) =~= rem0);
    lemma_run_boundary(rem0, c, e, rem0, 0);
    lemma_threshold(rem0, c);
    // What is left after taking one v out matches the next suffix.
    let suf1 = xs.subrange(i + 1, n);
    assert(seq![v] + suf1 =~= suf);
    assert forall|w: usize| count_eq(rem0.remove(c), w) == count_eq(suf1, w) by {
        crate::lemma_counts_remove(rem0, c, w);
        lemma_count_eq_concat(seq![v], suf1, w);
        lemma_count_eq_one(v, w);
    }
    assert forall|a2: int, b2: int|
        0 <= a2 < b2 < rem0.remove(c).len() implies rem0.remove(c)[a2] <= rem0.remove(
        c,
    )[b2] by {
        assert(rem0.remove(c)[a2] == (if a2 < c {
            rem0[a2]
        } else {
            rem0[a2 + 1]
        }));
        assert(rem0.remove(c)[b2] == (if b2 < c {
            rem0[b2]
        } else {
            rem0[b2 + 1]
        }));
    }
    // The consumed runs are exactly the rank term of position i.
    lemma_sorted_of_congruent(suf, rem0);
    lemma_sorted_of_sorted(rem0);
    assert(forall|q: int| c <= q < rem0.len() ==> rem0[q] >= v);
    lemma_run_psum_below_hi(rem0, c, rem0.len() as int, v);
    lemma_run_psum_below_lo(rem0, c, v);
    assert(multi_rank_from(xs, i) == run_psum_below(
        sorted_of(xs.subrange(i, n)),
        n - i,
        xs[i],
    ) + multi_rank_from(xs, i + 1));
    // What was consumed plus what remains never exceeds the whole.
    lemma_run_psum_inrun(rem0, c, e);
    lemma_run_psum_mono(rem0, e, rem0.len() as int);
    lemma_run_psum_total(rem0);
}

/// Returns the rank of a multiset permutation among the distinct orderings
/// of its elements.
///
/// For each position, every strictly smaller value still present in the
/// remainder contributes the count of orderings that would have put it
/// there first; the remainder is kept sorted so that those contributions
/// are read off run by run.
#[verifier::rlimit(100)]
pub fn encode(xs: &Vec<usize>) -> (p: usize)
    requires
        spec_multinomial(xs@) <= usize::MAX,
    ensures
        p == multi_rank(xs@),
{
    let n: usize = xs.len();
    let mut rem: Vec<usize> = sort_copy(xs);
    proof {
        crate::lemma_multinomial_permutes(rem@, xs@);
        assert(xs@.subrange(0, n as int) =~= xs@);
    }
    let mut m: usize = multinomial(&rem);
    let ghost m0 = m as int;
    let mut p: usize = 0;
    let mut i: usize = 0;
    while i < n
        invariant
            i <= n == xs@.len(),
            rem@.len() == n - i,
            ordered_multiset(rem@),
            forall|w: usize| count_eq(rem@, w) == count_eq(
                xs@.subrange(i as int, n as int),
                w,
            ),
            m == spec_multinomial(rem@),
            p + multi_rank_from(xs@, i as int) == multi_rank_from(xs@, 0),
            p + m <= m0,
            m0 == spec_multinomial(xs@) <= usize::MAX,
        decreases n - i,
    {
        let ghost rem0 = rem@;
        let ghost p0 = p as int;
        let v: usize = xs[i];
        proof {
            let suf = xs@.subrange(i as int, n as int);
            assert(suf[0] == v);
            assert(suf.contains(v));
            lemma_count_eq_zero(suf, v);
            assert(count_eq(rem0, v) >= 1);
            lemma_count_eq_zero(rem0, v);
            assert(rem0.contains(v));
        }
        let rlen: usize = n - i;
        let mut c: usize = 0;
        let mut k: usize = 1;
        let mut t: usize = 1;
        let ghost mut scan: int = 1;
        let ghost mut stopped: bool = false;
        while t < rlen
            invariant
                i < n == xs@.len(),
                rlen == n - i,
                rem@ == rem0,
                rem0.len() == rlen,
                ordered_multiset(rem0),
                m == spec_multinomial(rem0),
                rem0.contains(v),
                v == xs@[i as int],
                c < scan <= rlen,
                t <= rlen,
                !stopped ==> t == scan,
                stopped ==> t == rlen && scan < rlen && rem0[scan] != rem0[c as int]
                    && rem0[c as int] == v,
                k == scan - c,
                c == 0 || rem0[c - 1] != rem0[c as int],
                forall|q: int| c <= q < scan ==> rem0[q] == rem0[c as int],
                forall|q: int| 0 <= q < c ==> rem0[q] < v,
                count_eq(rem0.take(c as int), v) == 0,
                p == p0 + run_psum(rem0, c as int),
                p0 + m <= m0,
                m0 == spec_multinomial(xs@) <= usize::MAX,
            decreases rlen - t,
        {
            proof {
                assert(!stopped);
            }
            if rem[t] == rem[t - 1] {
                k = k + 1;
                t = t + 1;
                proof {
                    scan = scan + 1;
                }
            } else {
                if rem[c] == v {
                    t = rlen;
                    proof {
                        stopped = true;
                    }
                } else {
                    proof {
                        // The completed run's value is below v, so it
                        // contributes its threshold to the rank.
                        assert(rem0.subrange(0, rlen as int) =~= rem0);
                        assert(count_eq(rem0.take(c as int), v) == 0);
                        let pv = choose|pv: int|
                            0 <= pv < rlen && rem0[pv] == v;
                        if pv < scan {
                            if pv < c {
                                assert(rem0.take(c as int)[pv] == v);
                                assert(rem0.take(c as int).contains(v));
                                lemma_count_eq_zero(rem0.take(c as int), v);
                                assert(false);
                            }
                            assert(rem0[pv] == rem0[c as int]);
                            assert(false);
                        }
                        assert(rem0[c as int] <= rem0[pv]);
                        assert(rem0[c as int] < v);
                        lemma_run_boundary(
                            rem0,
                            c as int,
                            scan,
                            rem0,
                            0,
                        );
                        lemma_threshold(rem0, c as int);
                        lemma_mul_div_le(m as int, k as int, rlen as int);
                        assert((m as int) * (k as int) == (k as int) * (m as int))
                            by (nonlinear_arith);
                        // Everything consumed so far stays under m.
                        lemma_run_psum_inrun(rem0, c as int, scan);
                        lemma_run_psum_mono(rem0, scan, rlen as int);
                        lemma_run_psum_total(rem0);
                    }
                    let s: usize = ((m as u128) * (k as u128) / (rlen as u128)) as usize;
                    let ghost c_old = c as int;
                    proof {
                        assert(s == spec_multinomial(rem0.remove(c as int)));
                        assert(run_psum(rem0, scan) == run_psum(rem0, c as int) + s);
                        assert(p + s <= p0 + run_psum(rem0, rlen as int));
                        assert(p + s <= p0 + m);
                    }
                    p = p + s;
                    c = t;
                    k = 1;
                    t = t + 1;
                    proof {
                        scan = scan + 1;
                        assert forall|q: int| 0 <= q < c implies rem0[q] < v by {
                            if q >= c_old {
                                assert(rem0[q] == rem0[c_old]);
                            }
                        }
                        assert(count_eq(rem0.take(c as int), v) == 0) by {
                            lemma_count_eq_zero(rem0.take(c as int), v);
                            if rem0.take(c as int).contains(v) {
                                let q = choose|q: int|
                                    0 <= q < c && rem0.take(c as int)[q] == v;
                                assert(rem0[q] < v);
                                assert(false);
                            }
                        }
                    }
                }
            }
        }
        // The candidate run is v's own run, and it is complete.
        let ghost e = if stopped {
            scan
        } else {
            rlen as int
        };
        proof {
            lemma_encode_stage(xs@, rem0, i as int, c as int, e, v);
            lemma_mul_div_le(m as int, k as int, rlen as int);
            assert(k == e - c);
            assert(k == count_eq(rem0, v));
            assert((m as int) * (k as int) == (k as int) * (m as int))
                by (nonlinear_arith);
        }
        m = ((m as u128) * (k as u128) / (rlen as u128)) as usize;
        proof {
            assert(m == spec_multinomial(rem0.remove(c as int)));
        }
        let _removed: usize = rem.remove(c);
        proof {
            assert(rem@ == rem0.remove(c as int));
            assert(p + m <= p0 + spec_multinomial(rem0));
            assert(multi_rank_from(xs@, i as int) == run_psum(rem0, c as int)
                + multi_rank_from(xs@, i as int + 1));
        }
        i = i + 1;
    }
    p
}

/// Applies the multiset permutation of the rank `p` to the slice `xs`.
///
/// `xs` must be non-decreasing and `p` below `multinomial(xs)`. Afterwards
/// `xs` holds the same elements, rearranged into the unique ordering whose
/// rank among all distinct orderings is `p`: each position receives the
/// head of one of the remaining runs of equal values, chosen by consuming
/// `p` against the count of orderings that start with each candidate run.
#[verifier::rlimit(80)]
pub fn decode_mut(xs: &mut Vec<usize>, p: usize)
    requires
        ordered_multiset(old(xs)@),
        spec_multinomial(old(xs)@) <= usize::MAX,
        p < spec_multinomial(old(xs)@),
    ensures
        final(xs)@.len() == old(xs)@.len(),
        crate::permutes(final(xs)@, old(xs)@),
        multi_rank(final(xs)@) == p,
{
    let mut m: usize = multinomial(xs);
    let mut pp: usize = p;
    let n: usize = xs.len();
    let mut i: usize = 0;
    proof {
        assert(xs@.subrange(0, n as int) =~= xs@);
        lemma_multi_rank_from_sorted(xs@, 0);
    }
    while i < n
        invariant
            i <= n == xs@.len(),
            forall|v: usize| count_eq(xs@, v) == count_eq(old(xs)@, v),
            forall|p2: int, q2: int| i <= p2 < q2 < n ==> xs@[p2] <= xs@[q2],
            m == spec_multinomial(xs@.subrange(i as int, n as int)),
            pp < m,
            p == pp + multi_rank_from(xs@, 0),
        decreases n - i,
    {
        let ghost t1 = xs@;
        let ghost sub = xs@.subrange(i as int, n as int);
        let ghost pp0 = pp;
        proof {
            assert(forall|p2: int, q2: int|
                0 <= p2 < q2 < sub.len() ==> sub[p2] == xs@[p2 + i] && sub[q2] == xs@[q2
                    + i]);
            assert(ordered_multiset(sub));
        }
        let mut c: usize = i;
        let mut k: usize = 1;
        let mut j: usize = i + 1;
        let ghost mut scan: int = i as int + 1;
        let ghost mut stopped: bool = false;
        while j < n
            invariant
                i < n == xs@.len(),
                xs@ == t1,
                sub == xs@.subrange(i as int, n as int),
                ordered_multiset(sub),
                m == spec_multinomial(sub),
                i <= c,
                c < scan <= n,
                j <= n,
                !stopped ==> j == scan,
                stopped ==> j == n && scan < n && xs@[scan] != xs@[c as int],
                stopped ==> pp < spec_multinomial(sub.remove(c - i)),
                k == scan - c,
                forall|q: int| c <= q < scan ==> xs@[q] == xs@[c as int],
                forall|q: int| i <= q < c ==> xs@[q] < xs@[c as int],
                pp0 == pp + run_psum(sub, c - i),
                pp <= pp0 < m,
            decreases n - j,
        {
            proof {
                assert(!stopped);
            }
            if xs[j] == xs[j - 1] {
                k = k + 1;
                j = j + 1;
                proof {
                    scan = scan + 1;
                }
            } else {
                proof {
                    // The candidate run is complete: xs[c .. j) holds every
                    // occurrence of its value in the suffix.
                    lemma_run_boundary(sub, (c - i) as int, (j - i) as int, xs@, i as int);
                    lemma_threshold(sub, c - i);
                    lemma_mul_div_le(m as int, k as int, (n - i) as int);
                    assert(k == count_eq(sub, sub[c - i]));
                    assert((m as int) * (k as int) == (k as int) * (m as int))
                        by (nonlinear_arith);
                }
                let s: usize = ((m as u128) * (k as u128) / ((n - i) as u128)) as usize;
                proof {
                    assert(s == spec_multinomial(sub.remove(c - i)));
                }
                if pp < s {
                    // This run is the one: stop scanning.
                    j = n;
                    proof {
                        stopped = true;
                    }
                } else {
                    proof {
                        lemma_run_psum_inrun(sub, c - i, j - i);
                        assert(xs@[j - 1] == xs@[c as int]);
                        assert(sub[j - 1 - i] <= sub[j - i]);
                        assert(xs@[c as int] < xs@[j as int]);
                        assert forall|q: int| i <= q < j implies xs@[q]
                            < xs@[j as int] by {
                            if q < c {
                                assert(xs@[q] < xs@[c as int]);
                            } else {
                                assert(xs@[q] == xs@[c as int]);
                            }
                        }
                    }
                    pp = pp - s;
                    c = j;
                    k = 1;
                    j = j + 1;
                    proof {
                        scan = scan + 1;
                    }
                }
            }
        }
        proof {
            if !stopped {
                // The scan ran off the end: the candidate is the last run,
                // and what is left of the rank fits under its threshold.
                assert(scan == n);
                lemma_run_boundary(sub, (c - i) as int, (n - i) as int, xs@, i as int);
                lemma_threshold(sub, c - i);
                lemma_run_psum_inrun(sub, c - i, n - i);
                lemma_run_psum_total(sub);
                assert(pp < spec_multinomial(sub.remove(c - i)));
            } else {
                lemma_run_boundary(sub, (c - i) as int, (scan - i) as int, xs@, i as int);
                lemma_threshold(sub, c - i);
            }
            lemma_mul_div_le(m as int, k as int, (n - i) as int);
            assert(k == count_eq(sub, sub[c - i]));
            assert((m as int) * (k as int) == (k as int) * (m as int))
                by (nonlinear_arith);
        }
        m = ((m as u128) * (k as u128) / ((n - i) as u128)) as usize;
        proof {
            assert(m == spec_multinomial(sub.remove(c - i)));
        }
        let ghost a = xs@;
        crate::rotate_right_once(xs, i, c);
        proof {
            lemma_rotate_counts(a, xs@, i as int, c as int);
            let t2 = xs@;
            let cc = c - i;
            // The new suffix behind position i is the old one less the
            // chosen element, still sorted.
            assert(t2.subrange(i as int + 1, n as int) =~= sub.remove(cc)) by {
                assert(sub.remove(cc) =~= a.subrange(i as int, c as int) + a.subrange(
                    c as int + 1,
                    n as int,
                ));
            }
            assert(forall|p2: int, q2: int|
                0 <= p2 < q2 < sub.remove(cc).len() ==> sub.remove(cc)[p2] == (if p2 < cc {
                    sub[p2]
                } else {
                    sub[p2 + 1]
                }) && sub.remove(cc)[q2] == (if q2 < cc {
                    sub[q2]
                } else {
                    sub[q2 + 1]
                }));
            assert(ordered_multiset(sub.remove(cc)));
            assert(forall|p2: int, q2: int|
                i + 1 <= p2 < q2 < n ==> t2[p2] == sub.remove(cc)[p2 - i - 1] && t2[q2]
                    == sub.remove(cc)[q2 - i - 1]);
            // The rank accounted for so far grows by what this stage
            // consumed.
            assert(t2[i as int] == sub[cc]);
            let s2 = t2.subrange(i as int, n as int);
            assert forall|w: usize| count_eq(s2, w) == count_eq(sub, w) by {
                assert(s2 =~= seq![sub[cc]] + sub.remove(cc));
                lemma_count_eq_concat(seq![sub[cc]], sub.remove(cc), w);
                lemma_count_eq_one(sub[cc], w);
                crate::lemma_counts_remove(sub, cc, w);
            }
            lemma_sorted_of_congruent(s2, sub);
            lemma_sorted_of_sorted(sub);
            lemma_run_psum_below_hi(sub, cc, (n - i) as int, sub[cc]);
            lemma_run_psum_below_lo(sub, cc, sub[cc]);
            assert(run_psum_below(sub, (n - i) as int, sub[cc]) == run_psum(sub, cc));
            lemma_multi_rank_from_sorted(t2, i as int + 1);
            assert(multi_rank_from(t2, i as int) == run_psum(sub, cc));
            lemma_multi_rank_from_sorted(t1, i as int);
            assert forall|w: usize| count_eq(t1, w) == count_eq(t2, w) by {
                assert(count_eq(t2, w) == count_eq(old(xs)@, w));
            }
            lemma_multi_rank_from_prefix(t1, t2, 0, i as int);
            assert(multi_rank_from(t2, 0) == multi_rank_from(t1, 0) + run_psum(sub, cc));
        }
        i = i + 1;
    }
    proof {
        assert(xs@.subrange(n as int, n as int) =~= Seq::<usize>::empty());
        assert(m == 1);
        assert(pp == 0);
    }
}

/// Inside the scan, `xs[c .. e)` is one complete run of the suffix that
/// starts at `i`: it holds every occurrence of its value.
proof fn lemma_run_boundary(sub: Seq<usize>, cc: int, ee: int, t: Seq<usize>, i: int)
    requires
        ordered_multiset(sub),
        0 <= i,
        i + sub.len() <= t.len(),
        sub == t.subrange(i, i + sub.len()),
        0 <= cc < ee <= sub.len(),
        forall|q: int| i + cc <= q < i + ee ==> (#[trigger] t[q]) == t[i + cc],
        cc == 0 || t[i + cc - 1] < t[i + cc],
        ee == sub.len() || t[i + ee] != t[i + cc],
    ensures
        count_eq(sub, sub[cc]) == ee - cc,
        run_end(sub, cc) == ee,
        cc == 0 || sub[cc - 1] != sub[cc],
{
    assert(forall|q: int| 0 <= q < sub.len() ==> sub[q] == t[i + q]);
    lemma_run_end(sub, cc);
    let re = run_end(sub, cc);
    if re < ee {
        assert(sub[re] == t[i + re]);
        assert(t[i + re] == t[i + cc]);
        assert(false);
    }
    if re > ee {
        assert(ee < sub.len());
        assert(sub[ee] == sub[cc]);
        assert(t[i + ee] == t[i + cc]);
        assert(false);
    }
    lemma_sorted_run_count(sub, cc);
}

/// For `0 <= k <= d`, the quotient `m * k / d` never exceeds `m`; the
/// double-width product also stays far below its type's limit.
proof fn lemma_mul_div_le(m: int, k: int, d: int)
    requires
        0 <= m <= usize::MAX,
        0 <= k <= d,
        1 <= d <= usize::MAX,
    ensures
        m * k / d <= m,
        0 <= m * k <= usize::MAX * usize::MAX,
        usize::MAX * usize::MAX < u128::MAX,
{
    assert(m * k <= m * d) by (nonlinear_arith)
        requires 0 <= m, k <= d;
    assert(0 <= m * k) by (nonlinear_arith)
        requires 0 <= m, 0 <= k;
    vstd::arithmetic::div_mod::lemma_div_is_ordered(m * k, m * d, d);
    vstd::arithmetic::div_mod::lemma_div_by_multiple(m, d);
    assert(m * k <= usize::MAX * usize::MAX) by (nonlinear_arith)
        requires 0 <= m <= usize::MAX, 0 <= k <= usize::MAX, m * k <= m * d, d <= usize::MAX;
    assert(usize::MAX * usize::MAX < u128::MAX) by (nonlinear_arith)
        requires usize::MAX <= u64::MAX;
}

/// Returns the multiset permutation of the rank `p` applied to `xs`: the
/// unique ordering of the elements of `xs` whose rank among all distinct
/// orderings is `p`.
pub fn decode(xs: &Vec<usize>, p: usize) -> (r: Vec<usize>)
    requires
        ordered_multiset(xs@),
        spec_multinomial(xs@) <= usize::MAX,
        p < spec_multinomial(xs@),
    ensures
        r@.len() == xs@.len(),
        crate::permutes(r@, xs@),
        multi_rank(r@) == p,
{
    let mut r: Vec<usize> = Vec::new();
    let n: usize = xs.len();
    let mut i: usize = 0;
    while i < n
        invariant
            i <= n == xs@.len(),
            r@ =~= xs@.take(i as int),
        decreases n - i,
    {
        let x: usize = xs[i];
        r.push(x);
        proof {
            assert(r@ =~= xs@.take(i as int + 1));
        }
        i = i + 1;
    }
    proof {
        assert(xs@.take(n as int) =~= xs@);
    }
    decode_mut(&mut r, p);
    r
}

enum IterState {
    New,
    Running,
    Done,
}

/// Iterates over all distinct orderings of a caller-owned buffer, in rank
/// order.
///
/// Works like the factorial-number-system iterator, but on a multiset: the
/// successor search treats equal neighbours as part of one run. When the
/// iteration is exhausted the buffer is back in its initial, non-decreasing
/// order.
pub struct Iter {
    state: IterState,
    cur: Ghost<Seq<usize>>,
    init: Ghost<Seq<usize>>,
}

impl Iter {
    /// The buffer contents the iterator expects to be handed.
    pub closed spec fn current(self) -> Seq<usize> {
        self.cur@
    }

    /// The non-decreasing contents the iteration started from.
    pub closed spec fn initial(self) -> Seq<usize> {
        self.init@
    }

    /// No call to [`next`](Iter::next) has been made yet.
    pub closed spec fn fresh(self) -> bool {
        self.state is New
    }

    /// The iteration is exhausted.
    pub closed spec fn done(self) -> bool {
        self.state is Done
    }

    /// What every constructor establishes and every step preserves.
    pub open spec fn inv(self) -> bool {
        &&& ordered_multiset(self.initial())
        &&& crate::permutes(self.current(), self.initial())
        &&& (self.fresh() || self.done() ==> self.current() == self.initial())
    }

    /// Constructs an iterator over the multiset permutations of `xs`.
    pub fn new(xs: &Vec<usize>) -> (it: Iter)
        requires
            ordered_multiset(xs@),
        ensures
            it.inv(),
            it.fresh(),
            !it.done(),
            it.current() == xs@,
            it.initial() == xs@,
    {
        Iter { state: IterState::New, cur: Ghost(xs@), init: Ghost(xs@) }
    }

    /// Steps the iteration. The first call leaves the buffer on the initial
    /// arrangement; later calls move it to a lexicographically later
    /// arrangement of the same multiset, until the iteration is exhausted
    /// and the buffer returns to its initial order.
    pub fn next(&mut self, xs: &mut Vec<usize>) -> (more: bool)
        requires
            old(self).inv(),
            old(xs)@ == old(self).current(),
        ensures
            final(self).inv(),
            final(self).initial() == old(self).initial(),
            final(self).current() == final(xs)@,
            final(xs)@.len() == old(xs)@.len(),
            crate::permutes(final(xs)@, old(xs)@),
            more == !final(self).done(),
            old(self).fresh() ==> more && final(xs)@ == old(xs)@,
            old(self).done() ==> !more && final(xs)@ == old(xs)@,
            !old(self).fresh() && !old(self).done() ==> {
                &&& (more ==> crate::lex_lt(old(xs)@, final(xs)@))
                &&& (more ==> multi_rank(old(xs)@) < multi_rank(final(xs)@))
                &&& (!more ==> final(xs)@ == old(self).initial())
            },
    {
        match self.state {
            IterState::New => {
                self.state = IterState::Running;
                true
            },
            IterState::Running => {
                let wrapped: bool = Self::advance(xs);
                self.cur = Ghost(xs@);
                if wrapped {
                    proof {
                        crate::lemma_sorted_unique(xs@, self.init@);
                    }
                    self.state = IterState::Done;
                    false
                } else {
                    proof {
                        lemma_multi_rank_lex(old(xs)@, xs@);
                    }
                    true
                }
            },
            IterState::Done => false,
        }
    }

    /// Replaces the buffer's arrangement with the lexicographically next
    /// one, or restores non-decreasing order and reports the wrap-around.
    fn advance(xs: &mut Vec<usize>) -> (wrapped: bool)
        ensures
            final(xs)@.len() == old(xs)@.len(),
            forall|v: usize| count_eq(final(xs)@, v) == count_eq(old(xs)@, v),
            wrapped ==> ordered_multiset(final(xs)@),
            !wrapped ==> crate::lex_lt(old(xs)@, final(xs)@),
    {
        let k: usize = xs.len();
        if k == 0 {
            return true;
        }
        // Find the longest non-increasing suffix.
        let mut i: usize = k - 1;
        while i > 0 && xs[i - 1] >= xs[i]
            invariant
                i <= k - 1,
                k == xs@.len(),
                xs@ == old(xs)@,
                forall|t: int| i <= t < k - 1 ==> (#[trigger] xs@[t]) >= xs@[t + 1],
            decreases i,
        {
            i = i - 1;
        }
        if i == 0 {
            // The whole buffer is the last arrangement: wrap around.
            crate::reverse_range(xs, 0, k - 1);
            proof {
                assert(forall|t: int| 0 <= t < k - 1 ==> (#[trigger] xs@[t]) <= xs@[t + 1]);
                assert forall|p: int, q: int| 0 <= p < q < k implies xs@[p] <= xs@[q] by {
                    crate::lemma_adjacent_chain_le(xs@, p, q);
                }
            }
            return true;
        }
        // Reverse the suffix, then swap in the successor of the pivot.
        let pivot: usize = xs[i - 1];
        crate::reverse_range(xs, i, k - 1);
        let ghost mid = xs@;
        proof {
            assert(mid[k - 1] == old(xs)@[i as int]);
            assert(mid[k - 1] > pivot);
        }
        let mut j: usize = i;
        while j < k && xs[j] <= pivot
            invariant
                i <= j <= k,
                k == xs@.len(),
                xs@ == mid,
                mid[k - 1] > pivot,
                forall|t: int| i <= t < j ==> (#[trigger] mid[t]) <= pivot,
            decreases k - j,
        {
            j = j + 1;
        }
        proof {
            assert(j < k);
        }
        let b: usize = xs[j];
        xs.set(j, pivot);
        xs.set(i - 1, b);
        proof {
            let fin = xs@;
            let upd = mid.update(j as int, pivot);
            assert(fin =~= upd.update(i - 1, b));
            assert forall|v: usize| count_eq(fin, v) == count_eq(old(xs)@, v) by {
                crate::lemma_count_eq_update(mid, j as int, pivot, v);
                crate::lemma_count_eq_update(upd, i - 1, b, v);
                assert(upd[i - 1] == mid[i - 1]);
                assert(mid[i - 1] == pivot);
            }
            assert(fin[i - 1] == b > pivot == old(xs)@[i - 1]);
            assert(forall|p: int| 0 <= p < i - 1 ==> old(xs)@[p] == fin[p]);
            assert(crate::lex_lt(old(xs)@, fin));
        }
        false
    }
}

} // verus!
