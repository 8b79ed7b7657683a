//! Factorial number system.
//!
//! Bijection between a rank below `n!` and a permutation of `n` distinct
//! ordered elements. The rank is read off the permutation's Lehmer code:
//! digit `i` counts the later elements smaller than the one at position `i`
//! and weighs `(n - 1 - i)!`.

use crate::count_eq;
use crate::count_lt;
use crate::lemma_count_lt_all;
use crate::lemma_count_lt_concat;
use crate::lemma_count_lt_le_len;
use crate::lemma_count_lt_none;
use crate::lemma_fact_pos;
use crate::ordered_set;
use crate::spec_fact;
use vstd::prelude::*;

verus! {

/// The Lehmer digit at position `i`: how many later entries are smaller
/// than the entry at `i`.
pub open spec fn lehmer_digit(s: Seq<usize>, i: int) -> nat {
    count_lt(s.subrange(i + 1, s.len() as int), s[i])
}

/// The rank contributed by the positions from `t` up.
pub open spec fn fact_rank_from(s: Seq<usize>, t: int) -> nat
    decreases s.len() - t,
{
    if t < 0 || t >= s.len() {
        0
    } else {
        lehmer_digit(s, t) * spec_fact((s.len() - 1 - t) as nat) + fact_rank_from(s, t + 1)
    }
}

/// Rank of a permutation: its Lehmer code read in the factorial base.
pub open spec fn fact_rank(s: Seq<usize>) -> nat {
    fact_rank_from(s, 0)
}

/// Value of a digit string in the factorial base, where digit `ds[j]`
/// weighs `j!`.
pub open spec fn fact_digits_val(ds: Seq<usize>) -> nat
    decreases ds.len(),
{
    if ds.len() == 0 {
        0
    } else {
        fact_digits_val(ds.drop_last()) + ds.last() as nat * spec_fact((ds.len() - 1) as nat)
    }
}

/// Digits below their radix never reach the next factorial.
pub proof fn lemma_fact_digits_val_bound(ds: Seq<usize>)
    requires
        forall|j: int| 0 <= j < ds.len() ==> ds[j] <= j,
    ensures
        fact_digits_val(ds) < spec_fact(ds.len()),
    decreases ds.len(),
{
    if ds.len() == 0 {
    } else {
        let m = (ds.len() - 1) as nat;
        assert(forall|j: int| 0 <= j < ds.len() - 1 ==> ds.drop_last()[j] == ds[j]);
        lemma_fact_digits_val_bound(ds.drop_last());
        lemma_fact_pos(m);
        assert(ds.last() * spec_fact(m) <= m * spec_fact(m)) by (nonlinear_arith)
            requires 0 <= ds.last() <= m, spec_fact(m) >= 0;
        assert(spec_fact(m) + m * spec_fact(m) == (m + 1) * spec_fact(m))
            by (nonlinear_arith);
        assert(spec_fact((m + 1) as nat) == (m + 1) * spec_fact(m));
    }
}

/// The rank of the positions from `t` up stays below `(len - t)!`.
pub proof fn lemma_fact_rank_from_bound(s: Seq<usize>, t: int)
    requires
        0 <= t <= s.len(),
    ensures
        fact_rank_from(s, t) < spec_fact((s.len() - t) as nat),
    decreases s.len() - t,
{
    if t == s.len() {
    } else {
        let f = spec_fact((s.len() - 1 - t) as nat);
        let d = lehmer_digit(s, t);
        lemma_fact_rank_from_bound(s, t + 1);
        lemma_count_lt_le_len(s.subrange(t + 1, s.len() as int), s[t]);
        assert(d <= s.len() - 1 - t);
        lemma_fact_pos((s.len() - 1 - t) as nat);
        assert(d * f <= (s.len() - 1 - t) * f) by (nonlinear_arith)
            requires 0 <= d <= s.len() - 1 - t, f >= 0;
        assert(f + (s.len() - 1 - t) * f == (s.len() - t) * f) by (nonlinear_arith);
        assert(spec_fact((s.len() - t) as nat) == (s.len() - t) * f);
    }
}

/// A sequence whose Lehmer digits, read from the last position backwards,
/// are the digit string `ds` ranks at the value of `ds`.
pub proof fn lemma_fact_rank_digits(s: Seq<usize>, ds: Seq<usize>, t: int)
    requires
        ds.len() == s.len(),
        0 <= t <= s.len(),
        forall|i: int| t <= i < s.len() ==> lehmer_digit(s, i) == ds[s.len() - 1 - i],
    ensures
        fact_rank_from(s, t) == fact_digits_val(ds.take(s.len() - t)),
    decreases s.len() - t,
{
    let n = s.len() as int;
    if t == n {
        assert(ds.take(0) =~= Seq::<usize>::empty());
    } else {
        lemma_fact_rank_digits(s, ds, t + 1);
        let w = ds.take(n - t);
        assert(w.drop_last() =~= ds.take(n - t - 1));
        assert(w.last() == ds[n - 1 - t]);
        assert(fact_digits_val(w) == fact_digits_val(ds.take(n - t - 1)) + ds[n - 1 - t]
            * spec_fact((n - t - 1) as nat));
    }
}

/// Dropping the first position shifts the remaining digits down by one.
proof fn lemma_fact_rank_shift(s: Seq<usize>, t: int)
    requires
        s.len() > 0,
        1 <= t <= s.len(),
    ensures
        fact_rank_from(s, t) == fact_rank_from(s.drop_first(), t - 1),
    decreases s.len() - t,
{
    let r = s.drop_first();
    if t == s.len() {
    } else {
        lemma_fact_rank_shift(s, t + 1);
        assert(r.subrange(t, r.len() as int) =~= s.subrange(t + 1, s.len() as int));
        assert(r[t - 1] == s[t]);
        assert(lehmer_digit(r, t - 1) == lehmer_digit(s, t));
    }
}

/// The first Lehmer digit counts all smaller elements of the sequence.
proof fn lemma_lehmer_first(s: Seq<usize>)
    requires
        s.len() > 0,
    ensures
        lehmer_digit(s, 0) == count_lt(s, s[0]),
{
    let one = seq![s[0]];
    let rest = s.subrange(1, s.len() as int);
    assert(s =~= one + rest);
    lemma_count_lt_concat(one, rest, s[0]);
    assert(one.drop_last() =~= Seq::<usize>::empty());
    assert(count_lt(Seq::<usize>::empty(), s[0]) == 0);
    assert(count_lt(one, s[0]) == 0);
}

/// No two arrangements of one multiset share a rank: with `decode_mut`'s
/// postcondition, the rank and the starting contents determine every
/// element of the decoded permutation.
pub proof fn lemma_fact_rank_injective(a: Seq<usize>, b: Seq<usize>)
    requires
        crate::permutes(a, b),
        fact_rank(a) == fact_rank(b),
    ensures
        a == b,
    decreases a.len(),
{
    if a.len() == 0 {
        assert(a =~= b);
    } else {
        let n = a.len() as int;
        let f = spec_fact((n - 1) as nat) as int;
        let da = lehmer_digit(a, 0) as int;
        let db = lehmer_digit(b, 0) as int;
        let ra = fact_rank_from(a, 1) as int;
        let rb = fact_rank_from(b, 1) as int;
        lemma_fact_rank_from_bound(a, 1);
        lemma_fact_rank_from_bound(b, 1);
        lemma_fact_pos((n - 1) as nat);
        assert(fact_rank(a) == da * f + ra);
        assert(fact_rank(b) == db * f + rb);
        vstd::arithmetic::div_mod::lemma_fundamental_div_mod_converse(
            fact_rank(a) as int,
            f,
            da,
            ra,
        );
        vstd::arithmetic::div_mod::lemma_fundamental_div_mod_converse(
            fact_rank(b) as int,
            f,
            db,
            rb,
        );
        assert(da == db && ra == rb);
        // Equal first digits name equal first elements.
        lemma_lehmer_first(a);
        lemma_lehmer_first(b);
        assert(a[0] == a.first() && a.contains(a.first()));
        assert(b[0] == b.first() && b.contains(b.first()));
        crate::lemma_count_eq_zero(a, a[0]);
        crate::lemma_count_eq_zero(b, b[0]);
        if a[0] < b[0] {
            crate::lemma_count_lt_permutes(a, b, a[0]);
            crate::lemma_count_lt_strict(b, a[0], b[0]);
            crate::lemma_count_eq_zero(b, a[0]);
            assert(count_eq(b, a[0]) == count_eq(a, a[0]));
            assert(false);
        }
        if b[0] < a[0] {
            crate::lemma_count_lt_permutes(a, b, b[0]);
            crate::lemma_count_lt_strict(a, b[0], a[0]);
            crate::lemma_count_eq_zero(a, b[0]);
            assert(count_eq(a, b[0]) == count_eq(b, b[0]));
            assert(false);
        }
        assert(a[0] == b[0]);
        // The tails agree too.
        let a2 = a.drop_first();
        let b2 = b.drop_first();
        assert(a2 =~= a.remove(0));
        assert(b2 =~= b.remove(0));
        assert forall|v: usize| count_eq(a2, v) == count_eq(b2, v) by {
            crate::lemma_counts_remove(a, 0, v);
            crate::lemma_counts_remove(b, 0, v);
        }
        lemma_fact_rank_shift(a, 1);
        lemma_fact_rank_shift(b, 1);
        lemma_fact_rank_injective(a2, b2);
        assert forall|q: int| 0 <= q < n implies a[q] == b[q] by {
            if q > 0 {
                assert(a2[q - 1] == b2[q - 1]);
            }
        }
        assert(a =~= b);
    }
}

/// Positions before `i` with equal prefixes and equal contents contribute
/// the same rank between two cut-off points.
proof fn lemma_fact_rank_from_prefix(a: Seq<usize>, b: Seq<usize>, j: int, i: int)
    requires
        0 <= j <= i <= a.len(),
        a.len() == b.len(),
        forall|q: int| 0 <= q < i ==> a[q] == b[q],
        forall|w: usize| count_eq(a, w) == count_eq(b, w),
    ensures
        fact_rank_from(a, j) - fact_rank_from(a, i) == fact_rank_from(b, j)
            - fact_rank_from(b, i),
    decreases i - j,
{
    if j < i {
        lemma_fact_rank_from_prefix(a, b, j + 1, i);
        let n = a.len() as int;
        let sa = a.subrange(j + 1, n);
        let sb = b.subrange(j + 1, n);
        assert forall|w: usize| count_eq(sa, w) == count_eq(sb, w) by {
            crate::lemma_count_eq_concat(a.take(j + 1), sa, w);
            crate::lemma_count_eq_concat(b.take(j + 1), sb, w);
            assert(a.take(j + 1) + sa =~= a);
            assert(b.take(j + 1) + sb =~= b);
            assert(a.take(j + 1) =~= b.take(j + 1));
        }
        crate::lemma_count_lt_permutes(sa, sb, a[j]);
        assert(a[j] == b[j]);
        assert(lehmer_digit(a, j) == lehmer_digit(b, j));
    }
}

/// A lexicographically later arrangement of the same distinct elements has
/// a strictly larger rank: the iteration order of [`Iter`] is the rank
/// order.
pub proof fn lemma_fact_rank_lex(a: Seq<usize>, b: Seq<usize>)
    requires
        crate::permutes(a, b),
        crate::unordered_set(a),
        crate::lex_lt(a, b),
    ensures
        fact_rank(a) < fact_rank(b),
{
    let n = a.len() as int;
    let m = choose|m: int|
        0 <= m < a.len() && a[m] < b[m] && (forall|p: int| 0 <= p < m ==> a[p] == b[p]);
    assert(crate::permutes(b, a));
    crate::lemma_permutes_distinct(b, a);
    let sa = a.subrange(m + 1, n);
    let sb = b.subrange(m + 1, n);
    // The whole sequences split identically around position m.
    assert((a.take(m) + seq![a[m]]) + sa =~= a);
    assert((b.take(m) + seq![b[m]]) + sb =~= b);
    assert(a.take(m) =~= b.take(m));
    assert forall|w: usize| count_eq(sa, w) + (if a[m] == w {
        1int
    } else {
        0int
    }) == count_eq(sb, w) + (if b[m] == w {
        1int
    } else {
        0int
    }) by {
        crate::lemma_count_eq_concat(a.take(m) + seq![a[m]], sa, w);
        crate::lemma_count_eq_concat(a.take(m), seq![a[m]], w);
        crate::lemma_count_eq_concat(b.take(m) + seq![b[m]], sb, w);
        crate::lemma_count_eq_concat(b.take(m), seq![b[m]], w);
        crate::lemma_count_eq_one(a[m], w);
        crate::lemma_count_eq_one(b[m], w);
    }
    // Each head occurs once more in the other suffix.
    assert(count_eq(sb, a[m]) >= 1);
    crate::lemma_count_eq_zero(sb, a[m]);
    assert(sb.contains(a[m]));
    let qa = choose|qa: int| 0 <= qa < sb.len() && sb[qa] == a[m];
    assert(count_eq(sa, b[m]) >= 1) by {
        assert(b.contains(b[m]));
        crate::lemma_count_eq_zero(b, b[m]);
        crate::lemma_count_eq_zero(a, b[m]);
        assert(a.contains(b[m]));
        if count_eq(sa, b[m]) == 0 {
            crate::lemma_count_eq_zero(sa, b[m]);
            let q = choose|q: int| 0 <= q < a.len() && a[q] == b[m];
            assert(q != m);
            assert(q > m ==> sa[q - m - 1] == b[m] && sa.contains(b[m]));
            assert(q < m);
            assert(a[q] == b[q]);
            assert(b[q] == b[m] && q != m);
            assert(false);
        }
    }
    crate::lemma_count_eq_zero(sa, b[m]);
    assert(sa.contains(b[m]));
    let qb = choose|qb: int| 0 <= qb < sa.len() && sa[qb] == b[m];
    // Taking those occurrences out leaves two arrangements of one multiset.
    let sa2 = sa.remove(qb);
    let sb2 = sb.remove(qa);
    assert forall|w: usize| count_eq(sa2, w) == count_eq(sb2, w) by {
        crate::lemma_counts_remove(sa, qb, w);
        crate::lemma_counts_remove(sb, qa, w);
    }
    // The digit at the divergence is strictly larger in b.
    crate::lemma_counts_remove(sa, qb, a[m]);
    crate::lemma_counts_remove(sb, qa, b[m]);
    crate::lemma_count_lt_strict(sa2, a[m], b[m]);
    crate::lemma_count_lt_permutes(sa2, sb2, b[m]);
    assert(lehmer_digit(a, m) == count_lt(sa, a[m]));
    assert(lehmer_digit(b, m) == count_lt(sb, b[m]));
    assert(count_lt(sa, a[m]) == count_lt(sa2, a[m]));
    assert(count_lt(sb, b[m]) == count_lt(sb2, b[m]) + 1);
    let da = lehmer_digit(a, m) as int;
    let db = lehmer_digit(b, m) as int;
    assert(da < db);
    // A larger digit outweighs any smaller tail.
    let f = spec_fact((n - 1 - m) as nat);
    lemma_fact_rank_from_bound(a, m + 1);
    lemma_fact_pos((n - 1 - m) as nat);
    assert(fact_rank_from(a, m) == da * f + fact_rank_from(a, m + 1));
    assert(fact_rank_from(b, m) == db * f + fact_rank_from(b, m + 1));
    assert(da * f + f <= db * f) by (nonlinear_arith)
        requires da + 1 <= db, f >= 0;
    assert(fact_rank_from(a, m) < fact_rank_from(b, m));
    lemma_fact_rank_from_prefix(a, b, 0, m);
}


/// Rotating the sorted range `[i, i + d]` of `a` right by one yields a
/// sequence with the same contents, digit `d` at position `i`, unchanged
/// digits below `i`, and a still-sorted remainder.
proof fn lemma_rotate_step(a: Seq<usize>, b: Seq<usize>, i: int, d: int)
    requires
        0 <= i,
        0 <= d,
        i + d < a.len(),
        b.len() == a.len(),
        forall|p: int, q: int| i <= p < q < a.len() ==> a[p] < a[q],
        b == a.take(i) + seq![a[i + d]] + a.subrange(i, i + d) + a.skip(i + d + 1),
    ensures
        forall|v: usize| count_eq(b, v) == count_eq(a, v),
        forall|p: int, q: int| i + 1 <= p < q < b.len() ==> b[p] < b[q],
        lehmer_digit(b, i) == d,
        forall|t: int| 0 <= t < i ==> lehmer_digit(b, t) == lehmer_digit(a, t),
        forall|t: int| 0 <= t <= i ==> b[t] == a[if t == i { i + d } else { t }],
{
    let n = a.len() as int;
    let head = a.take(i);
    let mid = a.subrange(i, i + d);
    let pivot = seq![a[i + d]];
    let tail = a.skip(i + d + 1);
    assert(a =~= head + mid + pivot + tail);
    assert(b =~= head + pivot + mid + tail);
    // Same contents.
    assert forall|v: usize| count_eq(b, v) == count_eq(a, v) by {
        crate::lemma_count_eq_concat(head + pivot + mid, tail, v);
        crate::lemma_count_eq_concat(head + pivot, mid, v);
        crate::lemma_count_eq_concat(head, pivot, v);
        crate::lemma_count_eq_concat(head + mid + pivot, tail, v);
        crate::lemma_count_eq_concat(head + mid, pivot, v);
        crate::lemma_count_eq_concat(head, mid, v);
        assert((head + pivot + mid) + tail =~= b);
        assert((head + mid + pivot) + tail =~= a);
        assert((head + pivot) + mid =~= head + pivot + mid);
        assert((head + mid) + pivot =~= head + mid + pivot);
    }
    // The part after position i is still sorted.
    assert forall|p: int, q: int| i + 1 <= p < q < n implies b[p] < b[q] by {
        if q <= i + d {
            assert(b[p] == a[p - 1] && b[q] == a[q - 1]);
        } else if p <= i + d {
            assert(b[p] == a[p - 1] && b[q] == a[q]);
            assert(a[p - 1] < a[q]);
        } else {
            assert(b[p] == a[p] && b[q] == a[q]);
        }
    }
    // The digit at position i is d.
    assert(b.subrange(i + 1, n) =~= mid + tail);
    assert(b[i] == a[i + d]);
    lemma_count_lt_concat(mid, tail, a[i + d]);
    assert(forall|q: int| 0 <= q < mid.len() ==> mid[q] == a[i + q]);
    lemma_count_lt_all(mid, a[i + d]);
    assert(forall|q: int| 0 <= q < tail.len() ==> tail[q] == a[i + d + 1 + q]);
    lemma_count_lt_none(tail, a[i + d]);
    assert(lehmer_digit(b, i) == d);
    // The digits before position i are untouched.
    assert forall|t: int| 0 <= t < i implies lehmer_digit(b, t) == lehmer_digit(a, t) by {
        let u = b[t];
        assert(u == a[t]);
        assert(b.subrange(t + 1, n) =~= b.subrange(t + 1, i) + b.subrange(i, n));
        assert(a.subrange(t + 1, n) =~= a.subrange(t + 1, i) + a.subrange(i, n));
        assert(b.subrange(t + 1, i) =~= a.subrange(t + 1, i));
        lemma_count_lt_concat(b.subrange(t + 1, i), b.subrange(i, n), u);
        lemma_count_lt_concat(a.subrange(t + 1, i), a.subrange(i, n), u);
        assert(b.subrange(i, n) =~= pivot + mid + tail);
        assert(a.subrange(i, n) =~= mid + pivot + tail);
        lemma_count_lt_concat(pivot + mid, tail, u);
        lemma_count_lt_concat(pivot, mid, u);
        lemma_count_lt_concat(mid + pivot, tail, u);
        lemma_count_lt_concat(mid, pivot, u);
        assert((pivot + mid) + tail =~= pivot + mid + tail);
        assert((mid + pivot) + tail =~= mid + pivot + tail);
    }
}

/// Applies the permutation of the rank `p` to the slice `xs`.
///
/// `xs` must be strictly increasing and `p` below `xs.len()!`. Afterwards
/// `xs` holds the same elements rearranged so that its Lehmer rank is
/// exactly `p`: the digits of `p` in the factorial base, applied from the
/// highest radix down, each rotate one more element to the front.
pub fn decode_mut(xs: &mut Vec<usize>, p: usize)
    requires
        ordered_set(old(xs)@),
        p < spec_fact(old(xs)@.len()),
    ensures
        final(xs)@.len() == old(xs)@.len(),
        crate::permutes(final(xs)@, old(xs)@),
        fact_rank(final(xs)@) == p,
{
    let n: usize = xs.len();
    // Extract the mixed-radix digits of p, least significant first.
    let mut ds: Vec<usize> = Vec::new();
    let mut pp: usize = p;
    let mut i: usize = 0;
    proof {
        assert(fact_digits_val(ds@) == 0);
        assert(spec_fact(0) == 1);
        assert(p == pp * spec_fact(0) + fact_digits_val(ds@)) by (nonlinear_arith)
            requires pp == p, spec_fact(0) == 1, fact_digits_val(ds@) == 0;
    }
    while i < n
        invariant
            i <= n,
            ds@.len() == i,
            forall|j: int| 0 <= j < i ==> ds@[j] <= j,
            p == pp * spec_fact(i as nat) + fact_digits_val(ds@),
        decreases n - i,
    {
        let d: usize = pp % (i + 1);
        let ghost ds0 = ds@;
        let ghost pp0 = pp as int;
        ds.push(d);
        pp = pp / (i + 1);
        proof {
            vstd::arithmetic::div_mod::lemma_fundamental_div_mod(pp0, i as int + 1);
            assert(ds@.drop_last() =~= ds0);
            assert(ds@.last() == d);
            assert(fact_digits_val(ds@) == fact_digits_val(ds0) + d * spec_fact(i as nat));
            assert(spec_fact((i + 1) as nat) == (i + 1) * spec_fact(i as nat));
            assert(pp0 * spec_fact(i as nat) == pp * spec_fact((i + 1) as nat) + d
                * spec_fact(i as nat)) by (nonlinear_arith)
                requires
                    pp0 == (i + 1) * pp + d,
                    spec_fact((i + 1) as nat) == (i + 1) * spec_fact(i as nat),
            ;
        }
        i = i + 1;
    }
    proof {
        lemma_fact_digits_val_bound(ds@);
        if pp >= 1 {
            lemma_fact_pos(n as nat);
            assert(pp * spec_fact(n as nat) >= 1 * spec_fact(n as nat))
                by (nonlinear_arith)
                requires pp >= 1, spec_fact(n as nat) >= 0;
            assert(false);
        }
        assert(p == fact_digits_val(ds@));
    }
    // Apply the digits, highest radix first: digit ds[n - 1 - i] rotates
    // the range [i, i + d] right by one.
    let ghost orig = xs@;
    let mut i: usize = 0;
    while i < n
        invariant
            i <= n == xs@.len(),
            orig.len() == n,
            ds@.len() == n,
            forall|j: int| 0 <= j < n ==> ds@[j] <= j,
            forall|v: usize| count_eq(xs@, v) == count_eq(orig, v),
            forall|p2: int, q2: int| i <= p2 < q2 < n ==> xs@[p2] < xs@[q2],
            forall|t: int| 0 <= t < i ==> lehmer_digit(xs@, t) == ds@[n - 1 - t],
        decreases n - i,
    {
        let d: usize = ds[n - 1 - i];
        let ghost a = xs@;
        crate::rotate_right_once(xs, i, i + d);
        proof {
            lemma_rotate_step(a, xs@, i as int, d as int);
            assert forall|t: int| 0 <= t < i + 1 implies lehmer_digit(xs@, t)
                == ds@[n - 1 - t] by {
                if t < i {
                    assert(lehmer_digit(xs@, t) == lehmer_digit(a, t));
                }
            }
        }
        i = i + 1;
    }
    proof {
        lemma_fact_rank_digits(xs@, ds@, 0);
        assert(ds@.take(n as int) =~= ds@);
    }
}

/// Returns the permutation of the rank `p` applied to the template `xs`.
pub fn decode(xs: &Vec<usize>, p: usize) -> (r: Vec<usize>)
    requires
        ordered_set(xs@),
        p < spec_fact(xs@.len()),
    ensures
        r@.len() == xs@.len(),
        crate::permutes(r@, xs@),
        fact_rank(r@) == p,
{
    let mut r: Vec<usize> = Vec::new();
    let n: usize = xs.len();
    let mut i: usize = 0;
    while i < n
        invariant
            i <= n == xs@.len(),
            r@ =~= xs@.take(i as int),
        decreases n - i,
    {
        let x: usize = xs[i];
        r.push(x);
        proof {
            assert(r@ =~= xs@.take(i as int + 1));
        }
        i = i + 1;
    }
    proof {
        assert(xs@.take(n as int) =~= xs@);
    }
    decode_mut(&mut r, p);
    r
}

/// Returns the rank of a permutation of distinct elements: the value of
/// its Lehmer code in the factorial base.
pub fn encode(xs: &Vec<usize>) -> (p: usize)
    requires
        crate::unordered_set(xs@),
        spec_fact(xs@.len()) <= usize::MAX,
    ensures
        p == fact_rank(xs@),
{
    let n: usize = xs.len();
    // The Lehmer digits: count the smaller later elements.
    let mut ds: Vec<usize> = Vec::new();
    let mut i: usize = 0;
    while i < n
        invariant
            i <= n == xs@.len(),
            ds@.len() == i,
            forall|t: int| 0 <= t < i ==> ds@[t] == lehmer_digit(xs@, t),
        decreases n - i,
    {
        let mut c: usize = 0;
        let mut j: usize = i + 1;
        proof {
            assert(xs@.subrange(i as int + 1, i as int + 1) =~= Seq::<usize>::empty());
        }
        while j < n
            invariant
                i < j <= n == xs@.len(),
                c == count_lt(xs@.subrange(i as int + 1, j as int), xs@[i as int]),
                c <= j - i - 1,
            decreases n - j,
        {
            proof {
                let sub = xs@.subrange(i as int + 1, j as int);
                let sub1 = xs@.subrange(i as int + 1, j as int + 1);
                assert(sub1.drop_last() =~= sub);
                assert(sub1.last() == xs@[j as int]);
            }
            if xs[j] < xs[i] {
                c = c + 1;
            }
            j = j + 1;
        }
        ds.push(c);
        i = i + 1;
    }
    // Combine the digits, least significant first.
    let mut p: usize = 0;
    let mut k: usize = 1;
    let mut t: usize = 0;
    proof {
        lemma_fact_rank_from_bound(xs@, 0);
        crate::lemma_fact_mono(n as nat, xs@.len());
    }
    while t < n
        invariant
            t <= n == xs@.len(),
            ds@.len() == n,
            forall|q: int| 0 <= q < n ==> ds@[q] == lehmer_digit(xs@, q),
            k == spec_fact(t as nat),
            p == fact_rank_from(xs@, n - t),
            spec_fact(n as nat) <= usize::MAX,
        decreases n - t,
    {
        let d: usize = ds[n - 1 - t];
        proof {
            let tt = t as int;
            assert(fact_rank_from(xs@, n - tt - 1) == lehmer_digit(xs@, n - 1 - tt)
                * spec_fact(tt as nat) + fact_rank_from(xs@, n - tt));
            lemma_count_lt_le_len(
                xs@.subrange(n - tt, n as int),
                xs@[n - 1 - tt],
            );
            assert(d <= tt);
            lemma_fact_rank_from_bound(xs@, n - tt - 1);
            crate::lemma_fact_mono((tt + 1) as nat, n as nat);
            assert(spec_fact((tt + 1) as nat) == (tt + 1) * spec_fact(tt as nat));
            lemma_fact_pos(tt as nat);
            assert(spec_fact((tt + 1) as nat) == tt * spec_fact(tt as nat) + spec_fact(
                tt as nat,
            )) by (nonlinear_arith)
                requires spec_fact((tt + 1) as nat) == (tt + 1) * spec_fact(tt as nat);
        }
        p = p + d * k;
        t = t + 1;
        proof {
            assert(k * t == spec_fact(t as nat)) by (nonlinear_arith)
                requires
                    t >= 1,
                    k == spec_fact((t - 1) as nat),
                    spec_fact(t as nat) == t * spec_fact((t - 1) as nat),
            ;
            crate::lemma_fact_mono(t as nat, n as nat);
        }
        k = k * t;
    }
    proof {
        assert(fact_rank_from(xs@, 0) == fact_rank(xs@));
    }
    p
}

enum IterState {
    New,
    Running,
    Done,
}

/// Iterates over all permutations of a caller-owned buffer, in rank order.
///
/// The iterator keeps only the enumeration state; the buffer stays with the
/// caller and is handed to [`next`](Iter::next) on every step, so no second
/// iterator can advance the same buffer concurrently. When the iteration is
/// exhausted the buffer is back in its initial, strictly increasing order.
pub struct Iter {
    state: IterState,
    cur: Ghost<Seq<usize>>,
    init: Ghost<Seq<usize>>,
}

impl Iter {
    /// The buffer contents the iterator expects to be handed.
    pub closed spec fn current(self) -> Seq<usize> {
        self.cur@
    }

    /// The strictly increasing contents the iteration started from.
    pub closed spec fn initial(self) -> Seq<usize> {
        self.init@
    }

    /// No call to [`next`](Iter::next) has been made yet.
    pub closed spec fn fresh(self) -> bool {
        self.state is New
    }

    /// The iteration is exhausted.
    pub closed spec fn done(self) -> bool {
        self.state is Done
    }

    /// What every constructor establishes and every step preserves.
    pub open spec fn inv(self) -> bool {
        &&& ordered_set(self.initial())
        &&& crate::permutes(self.current(), self.initial())
        &&& (self.fresh() || self.done() ==> self.current() == self.initial())
    }

    /// Constructs an iterator over the permutations of `xs`.
    pub fn new(xs: &Vec<usize>) -> (it: Iter)
        requires
            ordered_set(xs@),
        ensures
            it.inv(),
            it.fresh(),
            !it.done(),
            it.current() == xs@,
            it.initial() == xs@,
    {
        Iter { state: IterState::New, cur: Ghost(xs@), init: Ghost(xs@) }
    }

    /// Steps the iteration. The first call leaves the buffer on the initial
    /// permutation; later calls move it to a lexicographically later
    /// arrangement of the same elements, until the iteration is exhausted
    /// and the buffer returns to its initial order.
    pub fn next(&mut self, xs: &mut Vec<usize>) -> (more: bool)
        requires
            old(self).inv(),
            old(xs)@ == old(self).current(),
        ensures
            final(self).inv(),
            final(self).initial() == old(self).initial(),
            final(self).current() == final(xs)@,
            final(xs)@.len() == old(xs)@.len(),
            crate::permutes(final(xs)@, old(xs)@),
            more == !final(self).done(),
            old(self).fresh() ==> more && final(xs)@ == old(xs)@,
            old(self).done() ==> !more && final(xs)@ == old(xs)@,
            !old(self).fresh() && !old(self).done() ==> {
                &&& (more ==> crate::lex_lt(old(xs)@, final(xs)@))
                &&& (more ==> fact_rank(old(xs)@) < fact_rank(final(xs)@))
                &&& (!more ==> final(xs)@ == old(self).initial())
            },
    {
        match self.state {
            IterState::New => {
                self.state = IterState::Running;
                true
            },
            IterState::Running => {
                proof {
                    let cur = self.cur@;
                    let init = self.init@;
                    assert forall|p: int, q: int| 0 <= p < q < cur.len() implies cur[p]
                        != cur[q] by {
                        if cur[p] == cur[q] {
                            crate::lemma_count_eq_two(cur, p, q);
                            crate::lemma_unordered_count(init, cur[p]);
                        }
                    }
                }
                let wrapped: bool = Self::advance(xs);
                self.cur = Ghost(xs@);
                if wrapped {
                    proof {
                        crate::lemma_sorted_unique(xs@, self.init@);
                    }
                    self.state = IterState::Done;
                    false
                } else {
                    proof {
                        lemma_fact_rank_lex(old(xs)@, xs@);
                    }
                    true
                }
            },
            IterState::Done => false,
        }
    }

    /// Replaces the buffer's arrangement with the lexicographically next
    /// one, or restores increasing order and reports the wrap-around.
    fn advance(xs: &mut Vec<usize>) -> (wrapped: bool)
        requires
            crate::unordered_set(old(xs)@),
        ensures
            final(xs)@.len() == old(xs)@.len(),
            forall|v: usize| count_eq(final(xs)@, v) == count_eq(old(xs)@, v),
            wrapped ==> ordered_set(final(xs)@),
            !wrapped ==> crate::lex_lt(old(xs)@, final(xs)@),
    {
        let k: usize = xs.len();
        if k == 0 {
            return true;
        }
        // Find the longest strictly decreasing suffix.
        let mut i: usize = k - 1;
        while i > 0 && xs[i - 1] > xs[i]
            invariant
                i <= k - 1,
                k == xs@.len(),
                xs@ == old(xs)@,
                forall|t: int| i <= t < k - 1 ==> (#[trigger] xs@[t]) > xs@[t + 1],
            decreases i,
        {
            i = i - 1;
        }
        if i == 0 {
            // The whole buffer is the last permutation: wrap around.
            crate::reverse_range(xs, 0, k - 1);
            proof {
                assert(forall|t: int| 0 <= t < k - 1 ==> (#[trigger] xs@[t]) < xs@[t + 1]);
                assert forall|p: int, q: int| 0 <= p < q < k implies xs@[p] < xs@[q] by {
                    crate::lemma_adjacent_chain(xs@, p, q);
                }
            }
            return true;
        }
        // Reverse the suffix, then swap in the successor of the pivot.
        let pivot: usize = xs[i - 1];
        let ghost mid0 = xs@;
        crate::reverse_range(xs, i, k - 1);
        let ghost mid = xs@;
        proof {
            assert(mid[k - 1] == mid0[i as int]);
            assert(mid0[i - 1] != mid0[i as int]);
            assert(mid[k - 1] > pivot);
        }
        let mut j: usize = i;
        while j < k && xs[j] <= pivot
            invariant
                i <= j <= k,
                k == xs@.len(),
                xs@ == mid,
                mid[k - 1] > pivot,
                forall|t: int| i <= t < j ==> (#[trigger] mid[t]) <= pivot,
            decreases k - j,
        {
            j = j + 1;
        }
        proof {
            assert(j < k);
        }
        let b: usize = xs[j];
        xs.set(j, pivot);
        xs.set(i - 1, b);
        proof {
            let fin = xs@;
            let upd = mid.update(j as int, pivot);
            assert(fin =~= upd.update(i - 1, b));
            assert forall|v: usize| count_eq(fin, v) == count_eq(old(xs)@, v) by {
                crate::lemma_count_eq_update(mid, j as int, pivot, v);
                crate::lemma_count_eq_update(upd, i - 1, b, v);
                assert(upd[i - 1] == mid[i - 1]);
                assert(mid[i - 1] == pivot);
            }
            // Strictly later in lexicographic order, first change at i - 1.
            assert(fin[i - 1] == b > pivot == old(xs)@[i - 1]);
            assert(forall|p: int| 0 <= p < i - 1 ==> old(xs)@[p] == fin[p]);
            assert(crate::lex_lt(old(xs)@, fin));
        }
        false
    }
}

} // verus!
