//! Combinatorial number system.
//!
//! Bijection between a rank and a strictly increasing k-element sequence of
//! non-negative integers: the rank of a combination is the sum of the
//! binomial coefficients `C(xs[i], i + 1)`.

use crate::combination;
use crate::lemma_comb_ge_n;
use crate::lemma_comb_mono_n;
use crate::lemma_comb_pos;
use crate::lemma_comb_shift;
use crate::lemma_comb_zero;
use crate::lemma_mul_cancel_le;
use crate::ordered_set;
use crate::spec_comb;
use vstd::prelude::*;

verus! {

/// Rank of a combination in the combinatorial number system: the sum of
/// `C(xs[i], i + 1)` over all positions.
pub open spec fn comb_rank(xs: Seq<usize>) -> nat
    decreases xs.len(),
{
    if xs.len() == 0 {
        0
    } else {
        comb_rank(xs.drop_last()) + spec_comb(xs.last() as nat, xs.len())
    }
}

/// Partial rank: the sum of `C(xs[i], i + 1)` over the positions from `t` up.
pub open spec fn comb_rank_above(xs: Seq<usize>, t: int) -> nat
    decreases xs.len() - t,
{
    if t < 0 || t >= xs.len() {
        0
    } else {
        spec_comb(xs[t] as nat, (t + 1) as nat) + comb_rank_above(xs, t + 1)
    }
}

/// The rank splits at any position into the rank of the prefix and the
/// partial rank of the rest.
pub proof fn lemma_comb_rank_split(xs: Seq<usize>, t: int)
    requires
        0 <= t <= xs.len(),
    ensures
        comb_rank(xs) == comb_rank(xs.take(t)) + comb_rank_above(xs, t),
    decreases xs.len() - t,
{
    if t == xs.len() {
        assert(xs.take(t) =~= xs);
    } else {
        lemma_comb_rank_split(xs, t + 1);
        let p = xs.take(t + 1);
        assert(p.drop_last() =~= xs.take(t));
        assert(p.last() == xs[t]);
        assert(comb_rank(p) == comb_rank(xs.take(t)) + spec_comb(xs[t] as nat, (t + 1) as nat));
    }
}

/// The partial rank only reads the positions from `t` up.
pub proof fn lemma_comb_rank_above_agree(a: Seq<usize>, b: Seq<usize>, t: int)
    requires
        a.len() == b.len(),
        forall|p: int| t <= p < a.len() ==> a[p] == b[p],
    ensures
        comb_rank_above(a, t) == comb_rank_above(b, t),
    decreases a.len() - t,
{
    if 0 <= t < a.len() {
        lemma_comb_rank_above_agree(a, b, t + 1);
    }
}

/// A strictly increasing sequence ranks below `C(last + 1, len)`.
pub proof fn lemma_comb_rank_upper(xs: Seq<usize>)
    requires
        ordered_set(xs),
        xs.len() > 0,
    ensures
        comb_rank(xs) < spec_comb((xs.last() + 1) as nat, xs.len()),
    decreases xs.len(),
{
    let k = xs.len();
    let x = xs.last() as nat;
    assert(spec_comb((x + 1) as nat, k) == spec_comb(x, (k - 1) as nat) + spec_comb(x, k));
    assert(comb_rank(xs) == comb_rank(xs.drop_last()) + spec_comb(x, k));
    if k == 1 {
        assert(xs.drop_last().len() == 0);
        assert(comb_rank(xs.drop_last()) == 0);
        crate::lemma_comb_pos(x, 0);
    } else {
        let pre = xs.drop_last();
        assert(ordered_set(pre)) by {
            assert(forall|i: int, j: int|
                0 <= i < j < pre.len() ==> pre[i] == xs[i] && pre[j] == xs[j]);
        }
        lemma_comb_rank_upper(pre);
        assert(pre.last() == xs[k - 2]);
        assert(xs[k - 2] < xs[k - 1]);
        lemma_comb_mono_n((xs[k - 2] + 1) as nat, x, (k - 1) as nat);
    }
}

/// No two strictly increasing sequences of one length share a rank: with
/// `decode_mut`'s postcondition, the rank and the length determine every
/// element of the decoded combination.
pub proof fn lemma_comb_rank_injective(a: Seq<usize>, b: Seq<usize>)
    requires
        ordered_set(a),
        ordered_set(b),
        a.len() == b.len(),
        comb_rank(a) == comb_rank(b),
    ensures
        a == b,
    decreases a.len(),
{
    if a.len() == 0 {
        assert(a =~= b);
    } else {
        let k = a.len();
        assert(forall|i: int, j: int|
            0 <= i < j < k - 1 ==> a.drop_last()[i] == a[i] && a.drop_last()[j] == a[j]);
        assert(forall|i: int, j: int|
            0 <= i < j < k - 1 ==> b.drop_last()[i] == b[i] && b.drop_last()[j] == b[j]);
        assert(ordered_set(a.drop_last()));
        assert(ordered_set(b.drop_last()));
        if a.last() < b.last() {
            lemma_comb_rank_upper(a);
            lemma_comb_mono_n((a.last() + 1) as nat, b.last() as nat, k);
            assert(comb_rank(a) < spec_comb(b.last() as nat, k));
            assert(false);
        }
        if b.last() < a.last() {
            lemma_comb_rank_upper(b);
            lemma_comb_mono_n((b.last() + 1) as nat, a.last() as nat, k);
            assert(false);
        }
        assert(a.last() == b.last());
        lemma_comb_rank_injective(a.drop_last(), b.drop_last());
        assert(a =~= a.drop_last().push(a.last()));
        assert(b =~= b.drop_last().push(b.last()));
    }
}

/// Writes the combination of the rank `n` to `r`, using all of `r`.
///
/// Position `kk - 1` receives the largest index `i` with `C(i, kk) <= n`,
/// the rank is reduced by `C(i, kk)`, and the remaining positions follow in
/// the same way. The result is the unique strictly increasing sequence of
/// length `k` whose rank is `n`.
pub fn decode_mut(n: usize, k: usize, r: &mut Vec<usize>)
    requires
        old(r).len() == k,
        k == 0 ==> n == 0,
    ensures
        final(r).len() == k,
        ordered_set(final(r)@),
        comb_rank(final(r)@) == n,
{
    let mut rem: usize = n;
    let mut kk: usize = k;
    while kk > 0
        invariant
            kk <= k == r@.len(),
            forall|p: int, q: int| kk <= p < q < k ==> r@[p] < r@[q],
            n == rem + comb_rank_above(r@, kk as int),
            kk < k ==> rem < spec_comb(r@[kk as int] as nat, kk as nat),
        decreases kk,
    {
        // Find the largest index i with C(i, kk) <= rem.
        let mut i: usize = kk - 1;
        let mut x: usize = 0;
        proof {
            lemma_comb_zero((kk - 1) as nat, kk as nat);
        }
        loop
            invariant_except_break
                1 <= kk,
                kk - 1 <= i,
                x == spec_comb(i as nat, kk as nat),
                x <= rem,
                i <= kk || i <= rem,
            ensures
                kk as int - 1 <= i,
                x == spec_comb(i as nat, kk as nat),
                x <= rem,
                rem < spec_comb(i as nat + 1, kk as nat),
                i <= kk || i <= rem,
            decreases rem - x,
        {
            if i == kk - 1 {
                proof {
                    crate::lemma_comb_self(kk as nat);
                    lemma_comb_zero((kk - 1) as nat, kk as nat);
                }
                if rem >= 1 {
                    x = 1;
                    i = kk;
                } else {
                    break;
                }
            } else {
                // Here kk <= i, so the candidate index is i + 1 and
                // (i + 1 - kk) * C(i + 1, kk) == (i + 1) * C(i, kk).
                let xu: u128 = x as u128;
                let iu: u128 = i as u128;
                let nu: u128 = rem as u128;
                let ku: u128 = kk as u128;
                proof {
                    lemma_comb_shift((i + 1) as nat, kk as nat);
                    assert(usize::MAX * usize::MAX < u128::MAX - usize::MAX)
                        by (nonlinear_arith)
                        requires usize::MAX <= u64::MAX;
                    assert(xu * (iu + 1) <= usize::MAX * (usize::MAX + 1))
                        by (nonlinear_arith)
                        requires 0 <= xu <= usize::MAX, 0 <= iu <= usize::MAX;
                    assert(nu * (iu + 1 - ku) <= usize::MAX * (usize::MAX + 1))
                        by (nonlinear_arith)
                        requires 0 <= nu <= usize::MAX, 0 <= iu + 1 - ku <= usize::MAX + 1;
                    assert(usize::MAX * (usize::MAX + 1) == usize::MAX * usize::MAX
                        + usize::MAX) by (nonlinear_arith);
                }
                let ghost c1 = spec_comb((i + 1) as nat, kk as nat);
                let ghost w = (i + 1 - kk) as int;
                proof {
                    assert(w * c1 == (i + 1) * x);
                    assert(xu == x && iu == i && nu == rem && ku == kk);
                }
                if xu * (iu + 1) <= nu * (iu + 1 - ku) {
                    proof {
                        assert(x * (i + 1) <= rem * w);
                        // The candidate fits: C(i + 1, kk) <= rem.
                        assert(c1 * w <= rem * w) by (nonlinear_arith)
                            requires
                                w * c1 == (i + 1) * x,
                                x * (i + 1) <= rem * w,
                                w >= 1,
                        ;
                        lemma_mul_cancel_le(c1, rem as nat, w as nat);
                        // The division is exact and recovers C(i + 1, kk).
                        assert(c1 * w == x * (i + 1)) by (nonlinear_arith)
                            requires w * c1 == (i + 1) * x;
                        vstd::arithmetic::div_mod::lemma_div_by_multiple(c1 as int, w);
                        assert((x * (i + 1)) as int / w == c1);
                        // The search strictly advances.
                        assert(c1 == spec_comb(i as nat, (kk - 1) as nat)
                            + spec_comb(i as nat, kk as nat));
                        crate::lemma_comb_pos(i as nat, (kk - 1) as nat);
                        // The next index still fits in a word.
                        lemma_comb_ge_n((i + 1) as nat, kk as nat);
                        assert(i + 1 <= rem);
                    }
                    x = ((xu * (iu + 1)) / (iu + 1 - ku)) as usize;
                    i = i + 1;
                } else {
                    proof {
                        // The candidate is too big: rem < C(i + 1, kk).
                        if c1 <= rem {
                            assert(x * (i + 1) <= rem * w) by (nonlinear_arith)
                                requires w * c1 == (i + 1) * x, c1 <= rem, w >= 0;
                            assert(false);
                        }
                    }
                    break;
                }
            }
        }
        // Place the index and reduce the rank.
        proof {
            if kk < k {
                if i >= r@[kk as int] {
                    lemma_comb_mono_n(r@[kk as int] as nat, i as nat, kk as nat);
                    assert(false);
                }
            }
            assert(spec_comb(i as nat + 1, kk as nat) == spec_comb(i as nat, (kk - 1) as nat)
                + spec_comb(i as nat, kk as nat));
        }
        let ghost pre = r@;
        let ghost kk0 = kk as int;
        r.set(kk - 1, i);
        rem = rem - x;
        kk = kk - 1;
        proof {
            lemma_comb_rank_above_agree(r@, pre, kk0);
            assert(comb_rank_above(r@, kk0 - 1) == spec_comb(i as nat, kk0 as nat)
                + comb_rank_above(r@, kk0));
        }
    }
    proof {
        if k > 0 {
            assert(rem < spec_comb(r@[0] as nat, 0));
        }
        assert(rem == 0);
        lemma_comb_rank_split(r@, 0);
        assert(r@.take(0) =~= Seq::<usize>::empty());
    }
}

/// Returns the combination of the rank `n`: the unique strictly increasing
/// sequence of length `k` whose rank is `n`.
pub fn decode(n: usize, k: usize) -> (r: Vec<usize>)
    requires
        k == 0 ==> n == 0,
    ensures
        r@.len() == k,
        ordered_set(r@),
        comb_rank(r@) == n,
{
    let mut r: Vec<usize> = Vec::new();
    while r.len() < k
        invariant
            r@.len() <= k,
        decreases k - r.len(),
    {
        r.push(0);
    }
    decode_mut(n, k, &mut r);
    r
}

/// Returns the rank of a combination.
///
/// The rank can be decoded with [`decode`] to get back `xs`.
pub fn encode(xs: &Vec<usize>) -> (r: usize)
    requires
        ordered_set(xs@),
        comb_rank(xs@) <= usize::MAX,
    ensures
        r == comb_rank(xs@),
{
    let n: usize = xs.len();
    let mut r: usize = 0;
    let mut i: usize = 0;
    proof {
        assert(xs@.take(0) =~= Seq::<usize>::empty());
    }
    while i < n
        invariant
            i <= n == xs@.len(),
            ordered_set(xs@),
            comb_rank(xs@) <= usize::MAX,
            r == comb_rank(xs@.take(i as int)),
        decreases n - i,
    {
        proof {
            lemma_comb_rank_split(xs@, i as int);
            lemma_comb_rank_split(xs@, i as int + 1);
            let p = xs@.take(i as int + 1);
            assert(p.drop_last() =~= xs@.take(i as int));
            assert(p.last() == xs@[i as int]);
            assert(comb_rank_above(xs@, i as int) == spec_comb(xs@[i as int] as nat, i as nat + 1)
                + comb_rank_above(xs@, i as int + 1));
        }
        let c: usize = combination(xs[i], i + 1);
        r = r + c;
        i = i + 1;
    }
    proof {
        assert(xs@.take(n as int) =~= xs@);
    }
    r
}

/// The identity combination `0, 1, ..., k - 1` has rank zero.
pub proof fn lemma_comb_rank_identity(s: Seq<usize>)
    requires
        forall|j: int| 0 <= j < s.len() ==> s[j] == j,
    ensures
        comb_rank(s) == 0,
        ordered_set(s),
    decreases s.len(),
{
    if s.len() > 0 {
        assert(forall|j: int| 0 <= j < s.len() - 1 ==> s.drop_last()[j] == j);
        lemma_comb_rank_identity(s.drop_last());
        lemma_comb_zero((s.len() - 1) as nat, s.len());
    }
}

/// A run of consecutive values `d, d + 1, ..., d + len - 1` has the rank
/// `C(d + len, len) - 1`, one below the first combination with a larger
/// last element.
proof fn lemma_comb_rank_run(s: Seq<usize>)
    requires
        s.len() >= 1,
        forall|p: int| 0 <= p < s.len() - 1 ==> (#[trigger] s[p]) + 1 == s[p + 1],
        s.last() < usize::MAX,
    ensures
        comb_rank(s) + 1 == spec_comb((s.last() + 1) as nat, s.len()),
    decreases s.len(),
{
    let k = s.len();
    let x = s.last() as nat;
    assert(spec_comb((x + 1) as nat, k) == spec_comb(x, (k - 1) as nat) + spec_comb(x, k));
    assert(comb_rank(s) == comb_rank(s.drop_last()) + spec_comb(x, k));
    if k == 1 {
        assert(comb_rank(s.drop_last()) == 0);
        crate::lemma_comb_pos(x, 0);
    } else {
        let pre = s.drop_last();
        assert(forall|p: int| 0 <= p < pre.len() - 1 ==> (#[trigger] pre[p]) + 1 == pre[p + 1]);
        assert(pre.last() == s[k - 2]);
        assert(s[k - 2] + 1 == s[k - 1]);
        lemma_comb_rank_run(pre);
        assert(comb_rank(pre) + 1 == spec_comb(x, (k - 1) as nat));
    }
}

/// Consecutive values advance by exactly their count.
proof fn lemma_chain_offset(s: Seq<usize>, j: int)
    requires
        0 <= j < s.len(),
        forall|p: int| 0 <= p < j ==> (#[trigger] s[p]) + 1 == s[p + 1],
    ensures
        s[j] == s[0] + j,
    decreases j,
{
    if j > 0 {
        lemma_chain_offset(s, j - 1);
    }
}

/// Iterates over all k-combinations, in rank order.
///
/// [`advance`](Iter::advance) turns the held combination into its rank
/// successor, so starting from the combination of rank `r`, `i` advances
/// reach the combination of rank `r + i` — by
/// [`lemma_comb_rank_injective`], exactly the one that
/// [`decode`] returns for `r + i`.
pub struct Iter {
    data: Vec<usize>,
}

impl View for Iter {
    type V = Seq<usize>;

    closed spec fn view(&self) -> Seq<usize> {
        self.data@
    }
}

impl Iter {
    /// Constructs an iterator holding the rank-zero combination
    /// `0, 1, ..., k - 1`.
    pub fn new(k: usize) -> (it: Iter)
        ensures
            it@.len() == k,
            forall|j: int| 0 <= j < k ==> it@[j] == j,
            ordered_set(it@),
            comb_rank(it@) == 0,
    {
        let mut data: Vec<usize> = Vec::new();
        let mut i: usize = 0;
        while i < k
            invariant
                i == data@.len() <= k,
                forall|j: int| 0 <= j < i ==> data@[j] == j,
            decreases k - i,
        {
            data.push(i);
            i = i + 1;
        }
        proof {
            lemma_comb_rank_identity(data@);
        }
        Iter { data }
    }

    /// Constructs an iterator from a caller-supplied buffer, overwriting it
    /// with the rank-zero combination of its length.
    pub fn new_with_buffer(buffer: Vec<usize>) -> (it: Iter)
        ensures
            it@.len() == buffer@.len(),
            forall|j: int| 0 <= j < buffer@.len() ==> it@[j] == j,
            ordered_set(it@),
            comb_rank(it@) == 0,
    {
        let mut data: Vec<usize> = buffer;
        let n: usize = data.len();
        let mut i: usize = 0;
        while i < n
            invariant
                i <= n == data@.len(),
                forall|j: int| 0 <= j < i ==> data@[j] == j,
            decreases n - i,
        {
            data.set(i, i);
            i = i + 1;
        }
        proof {
            lemma_comb_rank_identity(data@);
        }
        Iter { data }
    }

    /// Constructs an iterator starting from a given k-combination.
    pub fn new_from(xs: Vec<usize>) -> (it: Iter)
        requires
            ordered_set(xs@),
        ensures
            it@ == xs@,
    {
        Iter { data: xs }
    }

    /// Returns the current combination.
    pub fn get(&self) -> (r: &Vec<usize>)
        ensures
            r@ == self@,
    {
        &self.data
    }

    /// Advances to the next combination: the held combination keeps its
    /// length and its rank grows by exactly one.
    pub fn advance(&mut self)
        requires
            ordered_set(old(self)@),
            old(self)@.len() > 0 ==> old(self)@.last() < usize::MAX,
        ensures
            final(self)@.len() == old(self)@.len(),
            ordered_set(final(self)@),
            old(self)@.len() > 0 ==> comb_rank(final(self)@) == comb_rank(old(self)@) + 1,
            old(self)@.len() == 0 ==> final(self)@ == old(self)@,
    {
        let k: usize = self.data.len();
        if k == 0 {
            return;
        }
        let ghost orig = self.data@;
        // Find the first position that does not collide with its successor.
        let mut j: usize = 0;
        while j < k - 1 && (self.data[j] as u128) + 1 == self.data[j + 1] as u128
            invariant
                j <= k - 1,
                k == self.data@.len(),
                self.data@ == orig,
                ordered_set(orig),
                forall|p: int| 0 <= p < j ==> (#[trigger] orig[p]) + 1 == orig[p + 1],
            decreases k - j,
        {
            j = j + 1;
        }
        proof {
            assert(j == k - 1 || orig[j as int] + 1 != orig[j as int + 1]);
        }
        // Reset the carried positions to the identity.
        let mut p: usize = 0;
        while p < j
            invariant
                p <= j < k == self.data@.len(),
                orig == old(self)@,
                orig.len() == k,
                ordered_set(orig),
                forall|q: int| 0 <= q < j ==> (#[trigger] orig[q]) + 1 == orig[q + 1],
                j == k - 1 || orig[j as int] + 1 != orig[j as int + 1],
                forall|q: int| 0 <= q < p ==> self.data@[q] == q,
                forall|q: int| p <= q < k ==> self.data@[q] == orig[q],
            decreases j - p,
        {
            self.data.set(p, p);
            p = p + 1;
        }
        // Move position j up by one.
        let v: usize = self.data[j];
        proof {
            if j < k - 1 {
                assert(orig[j as int] < orig[j as int + 1]);
            }
        }
        self.data.set(j, v + 1);
        proof {
            lemma_next_combination(orig, self.data@, j as int);
        }
    }
}

/// Turning the positions below `j` into the identity and moving position
/// `j` up by one yields the next combination: still strictly increasing,
/// with a rank exactly one higher.
proof fn lemma_next_combination(orig: Seq<usize>, s2: Seq<usize>, j: int)
    requires
        orig.len() == s2.len(),
        0 <= j < orig.len(),
        ordered_set(orig),
        forall|p: int| 0 <= p < j ==> (#[trigger] orig[p]) + 1 == orig[p + 1],
        j + 1 < orig.len() ==> orig[j] + 1 < orig[j + 1],
        orig[j] < usize::MAX,
        forall|q: int| 0 <= q < j ==> s2[q] == q,
        s2[j] == orig[j] + 1,
        forall|q: int| j < q < s2.len() ==> s2[q] == orig[q],
    ensures
        ordered_set(s2),
        comb_rank(s2) == comb_rank(orig) + 1,
{
    let k = s2.len();
    if j > 0 {
        lemma_chain_offset(orig, j);
    }
    assert(orig[j] >= j);
    // The new sequence is strictly increasing.
    assert forall|a: int, b: int| 0 <= a < b < k implies s2[a] < s2[b] by {
        if b < j {
            assert(s2[a] == a && s2[b] == b);
            assert(s2[a] < s2[b]);
        } else if b == j {
            assert(s2[a] == a);
            assert(s2[b] == orig[j] + 1);
            assert(a < j <= orig[j]);
            assert(s2[a] < s2[b]);
        } else {
            assert(s2[b] == orig[b]);
            assert(orig[j] < orig[b]);
            if a == j {
                assert(s2[a] == orig[j] + 1);
                assert(orig[j] + 1 < orig[b] || b == j + 1);
                assert(s2[a] < s2[b]);
            } else if a < j {
                assert(s2[a] == a);
                assert(a < j <= orig[j] < orig[b]);
                assert(s2[a] < s2[b]);
            } else {
                assert(s2[a] == orig[a]);
                assert(orig[a] < orig[b]);
                assert(s2[a] < s2[b]);
            }
        }
    }
    // The rank grows by exactly one.
    lemma_comb_rank_split(s2, j + 1);
    lemma_comb_rank_split(orig, j + 1);
    lemma_comb_rank_above_agree(s2, orig, j + 1);
    let p2 = s2.take(j + 1);
    let p1 = orig.take(j + 1);
    assert(p2.drop_last() =~= s2.take(j));
    assert(p1.drop_last() =~= orig.take(j));
    assert(p2.last() == orig[j] + 1);
    assert(p1.last() == orig[j]);
    assert(comb_rank(p2) == comb_rank(s2.take(j)) + spec_comb((orig[j] + 1) as nat, (j + 1) as nat));
    assert(comb_rank(p1) == comb_rank(orig.take(j)) + spec_comb(orig[j] as nat, (j + 1) as nat));
    assert(forall|q: int| 0 <= q < j ==> s2.take(j)[q] == q);
    lemma_comb_rank_identity(s2.take(j));
    assert(spec_comb((orig[j] + 1) as nat, (j + 1) as nat) == spec_comb(orig[j] as nat, j as nat)
        + spec_comb(orig[j] as nat, (j + 1) as nat));
    if j == 0 {
        assert(comb_rank(orig.take(0)) == 0) by {
            assert(orig.take(0) =~= Seq::<usize>::empty());
        }
        assert(spec_comb(orig[0] as nat, 0) == 1);
    } else {
        let run = orig.take(j);
        assert(forall|q: int| 0 <= q < j - 1 ==> (#[trigger] run[q]) + 1 == run[q + 1]);
        assert(run.last() == orig[j - 1]);
        assert(orig[j - 1] + 1 == orig[j]);
        assert(run.last() < usize::MAX);
        lemma_comb_rank_run(run);
        assert(comb_rank(run) + 1 == spec_comb(orig[j] as nat, j as nat));
    }
}

} // verus!
