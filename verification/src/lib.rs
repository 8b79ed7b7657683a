//! Number systems for combinatorial objects.
//!
//! Bijective correspondences between a dense integer rank and a structured
//! combinatorial object: a k-combination, a permutation, a multiset
//! permutation, or a variable-length bit sequence.

pub mod combinadics;
pub mod factoradics;
pub mod multinadics;
pub mod sequences;

use vstd::prelude::*;

verus! {

/// Factorial of `n`.
pub open spec fn spec_fact(n: nat) -> nat
    decreases n,
{
    if n == 0 {
        1
    } else {
        n * spec_fact((n - 1) as nat)
    }
}

/// Returns the factorial of `n`.
pub fn factorial(n: usize) -> (r: usize)
    requires
        spec_fact(n as nat) <= usize::MAX,
    ensures
        r == spec_fact(n as nat),
{
    let mut m: usize = n;
    let mut r: usize = 1;
    while m > 0
        invariant
            m <= n,
            spec_fact(n as nat) <= usize::MAX,
            r * spec_fact(m as nat) == spec_fact(n as nat),
        decreases m,
    {
        proof {
            lemma_fact_pos(m as nat);
            assert(r * spec_fact(m as nat) == (r * m) * spec_fact((m - 1) as nat))
                by (nonlinear_arith)
                requires m >= 1, spec_fact(m as nat) == m * spec_fact((m - 1) as nat);
            assert(r * m <= r * spec_fact(m as nat)) by (nonlinear_arith)
                requires r >= 0, m >= 1, spec_fact((m - 1) as nat) >= 1;
        }
        r = r * m;
        m = m - 1;
    }
    proof {
        assert(m == 0);
        assert(spec_fact(0) == 1);
        assert(r * spec_fact(0) == r);
    }
    r
}

/// The factorial is always positive.
pub proof fn lemma_fact_pos(n: nat)
    ensures
        spec_fact(n) >= 1,
    decreases n,
{
    if n > 0 {
        lemma_fact_pos((n - 1) as nat);
        assert(n * spec_fact((n - 1) as nat) >= n * 1) by (nonlinear_arith)
            requires n >= 1, spec_fact((n - 1) as nat) >= 1;
    }
}

/// Number of `k`-element subsets of an `n`-element set, by Pascal's rule.
pub open spec fn spec_comb(n: nat, k: nat) -> nat
    decreases n,
{
    if k == 0 {
        1
    } else if n == 0 {
        0
    } else {
        spec_comb((n - 1) as nat, (k - 1) as nat) + spec_comb((n - 1) as nat, k)
    }
}

/// Choosing more elements than the set has is impossible.
pub proof fn lemma_comb_zero(n: nat, k: nat)
    requires
        k > n,
    ensures
        spec_comb(n, k) == 0,
    decreases n,
{
    if n > 0 {
        lemma_comb_zero((n - 1) as nat, (k - 1) as nat);
        lemma_comb_zero((n - 1) as nat, k);
    }
}

/// There is exactly one way to choose the whole set.
pub proof fn lemma_comb_self(n: nat)
    ensures
        spec_comb(n, n) == 1,
    decreases n,
{
    if n > 0 {
        lemma_comb_self((n - 1) as nat);
        lemma_comb_zero((n - 1) as nat, n);
    }
}

/// Choosing at most as many elements as the set has is always possible.
pub proof fn lemma_comb_pos(n: nat, k: nat)
    requires
        k <= n,
    ensures
        spec_comb(n, k) >= 1,
    decreases n,
{
    if k > 0 && n > 0 {
        lemma_comb_pos((n - 1) as nat, (k - 1) as nat);
    }
}

pub(crate) proof fn lemma_mul_cancel(a: nat, b: nat, c: nat)
    requires
        c >= 1,
        a * c == b * c,
    ensures
        a == b,
{
    assert(a == b) by (nonlinear_arith)
        requires c >= 1, a * c == b * c, a >= 0, b >= 0;
}

pub(crate) proof fn lemma_mul_cancel_le(a: nat, b: nat, c: nat)
    requires
        c >= 1,
        a * c <= b * c,
    ensures
        a <= b,
{
    assert(a <= b) by (nonlinear_arith)
        requires c >= 1, a * c <= b * c, a >= 0, b >= 0;
}

/// The product formula: `C(n, k) * k! * (n - k)! == n!`.
pub proof fn lemma_comb_fact(n: nat, k: nat)
    requires
        k <= n,
    ensures
        spec_comb(n, k) * spec_fact(k) * spec_fact((n - k) as nat) == spec_fact(n),
    decreases n,
{
    if k == 0 {
        assert(spec_fact(0) == 1);
        assert(1 * 1 * spec_fact(n) == spec_fact(n));
    } else if k == n {
        lemma_comb_self(n);
        assert(1 * spec_fact(n) * 1 == spec_fact(n));
    } else {
        // 1 <= k <= n - 1, so n >= 2.
        let a = spec_comb((n - 1) as nat, (k - 1) as nat);
        let b = spec_comb((n - 1) as nat, k);
        let p = spec_fact((k - 1) as nat);
        let q = spec_fact((n - k - 1) as nat);
        let f1 = spec_fact((n - 1) as nat);
        lemma_comb_fact((n - 1) as nat, (k - 1) as nat);
        lemma_comb_fact((n - 1) as nat, k);
        assert(a * p * spec_fact((n - k) as nat) == f1);
        assert(b * spec_fact(k) * q == f1);
        assert(spec_fact(k) == k * p);
        assert(spec_fact((n - k) as nat) == (n - k) * q);
        assert((a + b) * (k * p) * ((n - k) * q) == n * f1) by (nonlinear_arith)
            requires
                1 <= k < n,
                a * p * ((n - k) * q) == f1,
                b * (k * p) * q == f1;
        assert(spec_fact(n) == n * f1);
    }
}

/// Absorption: `k * C(n, k) == n * C(n - 1, k - 1)`.
pub proof fn lemma_comb_absorb(n: nat, k: nat)
    requires
        1 <= k <= n,
    ensures
        k * spec_comb(n, k) == n * spec_comb((n - 1) as nat, (k - 1) as nat),
{
    let a = spec_comb(n, k);
    let b = spec_comb((n - 1) as nat, (k - 1) as nat);
    let p = spec_fact((k - 1) as nat);
    let q = spec_fact((n - k) as nat);
    lemma_comb_fact(n, k);
    lemma_comb_fact((n - 1) as nat, (k - 1) as nat);
    lemma_fact_pos((k - 1) as nat);
    lemma_fact_pos((n - k) as nat);
    assert(a * (k * p) * q == spec_fact(n));
    assert(b * p * q == spec_fact((n - 1) as nat));
    assert(spec_fact(n) == n * spec_fact((n - 1) as nat));
    assert((k * a) * (p * q) == (n * b) * (p * q)) by (nonlinear_arith)
        requires
            a * (k * p) * q == n * (b * p * q),
    ;
    assert(p * q >= 1) by (nonlinear_arith)
        requires p >= 1, q >= 1;
    lemma_mul_cancel(k * a, n * b, p * q);
}

/// Complementary absorption: `(n - k) * C(n, k) == n * C(n - 1, k)`.
pub proof fn lemma_comb_shift(n: nat, k: nat)
    requires
        1 <= n,
        k <= n,
    ensures
        (n - k) * spec_comb(n, k) == n * spec_comb((n - 1) as nat, k),
{
    if k == n {
        lemma_comb_zero((n - 1) as nat, k);
        assert((n - k) * spec_comb(n, k) == 0) by (nonlinear_arith)
            requires n == k;
        assert(n * spec_comb((n - 1) as nat, k) == 0) by (nonlinear_arith)
            requires spec_comb((n - 1) as nat, k) == 0;
    } else {
        let a = spec_comb(n, k);
        let b = spec_comb((n - 1) as nat, k);
        let p = spec_fact(k);
        let q = spec_fact((n - k - 1) as nat);
        lemma_comb_fact(n, k);
        lemma_comb_fact((n - 1) as nat, k);
        lemma_fact_pos(k);
        lemma_fact_pos((n - k - 1) as nat);
        assert(spec_fact((n - k) as nat) == (n - k) * q);
        assert(a * p * ((n - k) * q) == spec_fact(n));
        assert(b * p * q == spec_fact((n - 1) as nat));
        assert(spec_fact(n) == n * spec_fact((n - 1) as nat));
        assert(((n - k) * a) * (p * q) == (n * b) * (p * q)) by (nonlinear_arith)
            requires
                a * p * ((n - k) * q) == n * (b * p * q),
                k < n,
        ;
        assert(p * q >= 1) by (nonlinear_arith)
            requires p >= 1, q >= 1;
        lemma_mul_cancel(((n - k) * a) as nat, (n * b) as nat, p * q);
    }
}

/// Choosing a single element: `C(n, 1) == n`.
pub proof fn lemma_comb_one(n: nat)
    ensures
        spec_comb(n, 1) == n,
    decreases n,
{
    if n > 0 {
        lemma_comb_one((n - 1) as nat);
        assert(spec_comb(n, 1) == spec_comb((n - 1) as nat, 0) + spec_comb((n - 1) as nat, 1));
    }
}

/// Leaving out a single element: `C(n, n - 1) == n`.
pub proof fn lemma_comb_penult(n: nat)
    requires
        n >= 1,
    ensures
        spec_comb(n, (n - 1) as nat) == n,
    decreases n,
{
    if n == 1 {
    } else {
        lemma_comb_penult((n - 1) as nat);
        lemma_comb_self((n - 1) as nat);
    }
}

/// Away from the edges of a row, the binomial coefficient is at least `n`.
pub proof fn lemma_comb_ge_n(n: nat, k: nat)
    requires
        1 <= k <= n - 1,
    ensures
        spec_comb(n, k) >= n,
    decreases n,
{
    if k == 1 {
        lemma_comb_one(n);
    } else if k == n - 1 {
        lemma_comb_penult(n);
    } else {
        lemma_comb_ge_n((n - 1) as nat, k);
        lemma_comb_pos((n - 1) as nat, (k - 1) as nat);
    }
}

/// Within a column the binomial coefficient never decreases.
pub proof fn lemma_comb_mono_n(n1: nat, n2: nat, k: nat)
    requires
        n1 <= n2,
    ensures
        spec_comb(n1, k) <= spec_comb(n2, k),
    decreases n2 - n1,
{
    if n1 < n2 {
        lemma_comb_mono_n(n1, (n2 - 1) as nat, k);
        if k > 0 {
            assert(spec_comb(n2, k) == spec_comb((n2 - 1) as nat, (k - 1) as nat)
                + spec_comb((n2 - 1) as nat, k));
        }
    }
}

/// Along a diagonal the binomial coefficient never decreases:
/// `C(n, k) <= C(n + 1, k + 1)`.
pub proof fn lemma_comb_diag_step(n: nat, k: nat)
    ensures
        spec_comb(n, k) <= spec_comb(n + 1, k + 1),
{
    if k > n {
        lemma_comb_zero(n, k);
    } else {
        let a = spec_comb(n, k);
        let b = spec_comb(n + 1, k + 1);
        lemma_comb_absorb(n + 1, k + 1);
        assert((k + 1) * b == (n + 1) * a);
        assert((k + 1) * a <= (n + 1) * a) by (nonlinear_arith)
            requires k <= n, a >= 0;
        lemma_mul_cancel_le(a, b, k + 1);
    }
}

/// `C(d + j, j) <= C(d + m, m)` whenever `j <= m`.
pub proof fn lemma_comb_diag_chain(d: nat, j: nat, m: nat)
    requires
        j <= m,
    ensures
        spec_comb(d + j, j) <= spec_comb(d + m, m),
    decreases m - j,
{
    if j < m {
        lemma_comb_diag_step(d + j, j);
        lemma_comb_diag_chain(d, j + 1, m);
    }
}

/// Returns the number of `k`-combinations of a set of `n` elements.
///
/// Computed by the multiplicative rule `C(m, i) = C(m - 1, i - 1) * m / i`,
/// whose divisions are exact and whose intermediate values never exceed the
/// final result, so a double-width product is all that is needed.
pub fn combination(n: usize, k: usize) -> (r: usize)
    requires
        k <= n ==> spec_comb(n as nat, k as nat) <= usize::MAX,
    ensures
        r == spec_comb(n as nat, k as nat),
{
    if n < k {
        proof {
            lemma_comb_zero(n as nat, k as nat);
        }
        return 0;
    }
    proof {
        lemma_comb_pos(n as nat, k as nat);
    }
    let mut r: u128 = 1;
    let mut i: usize = 0;
    while i < k
        invariant
            i <= k <= n <= usize::MAX,
            spec_comb(n as nat, k as nat) <= usize::MAX,
            r == spec_comb((n - k + i) as nat, i as nat),
            r <= spec_comb(n as nat, k as nat),
        decreases k - i,
    {
        let m: usize = n - k + i + 1;
        proof {
            let a = spec_comb((m - 1) as nat, i as nat) as int;
            let b = spec_comb(m as nat, (i + 1) as nat) as int;
            let ii = (i + 1) as int;
            let mm = m as int;
            lemma_comb_absorb(m as nat, (i + 1) as nat);
            assert(ii * b == mm * a);
            assert(r == a);
            assert(r * mm == ii * b) by (nonlinear_arith)
                requires r == a, ii * b == mm * a;
            assert(r * mm <= usize::MAX * usize::MAX) by (nonlinear_arith)
                requires 0 <= r <= usize::MAX, 0 < mm <= usize::MAX;
            assert(usize::MAX * usize::MAX < u128::MAX) by (nonlinear_arith)
                requires usize::MAX <= u64::MAX;
            assert((ii * b) / ii == b) by {
                vstd::arithmetic::div_mod::lemma_div_by_multiple(b, ii);
                assert(b * ii == ii * b) by (nonlinear_arith);
            }
            lemma_comb_diag_chain((n - k) as nat, (i + 1) as nat, k as nat);
            assert(spec_comb(((n - k) + (i + 1)) as nat, (i + 1) as nat)
                == spec_comb(m as nat, (i + 1) as nat));
        }
        r = r * (m as u128) / ((i + 1) as u128);
        i = i + 1;
    }
    r as usize
}

/// Sum of the first `j` entries of row `n` of Pascal's triangle.
pub open spec fn comb_row_sum(n: nat, j: nat) -> nat
    decreases j,
{
    if j == 0 {
        0
    } else {
        comb_row_sum(n, (j - 1) as nat) + spec_comb(n, (j - 1) as nat)
    }
}

proof fn lemma_pascal_row_sum(n: nat, j: nat)
    ensures
        comb_row_sum(n + 1, j + 1) == comb_row_sum(n, j) + comb_row_sum(n, j + 1),
    decreases j,
{
    if j == 0 {
        assert(comb_row_sum(n + 1, 1) == comb_row_sum(n + 1, 0) + spec_comb(n + 1, 0));
        assert(comb_row_sum(n, 1) == comb_row_sum(n, 0) + spec_comb(n, 0));
    } else {
        lemma_pascal_row_sum(n, (j - 1) as nat);
        assert(comb_row_sum(n + 1, j + 1) == comb_row_sum(n + 1, j) + spec_comb(n + 1, j));
        assert(spec_comb(n + 1, j) == spec_comb(n, (j - 1) as nat) + spec_comb(n, j));
        assert(comb_row_sum(n, j + 1) == comb_row_sum(n, j) + spec_comb(n, j));
        assert(comb_row_sum(n, j) == comb_row_sum(n, (j - 1) as nat)
            + spec_comb(n, (j - 1) as nat));
    }
}

/// The binomial coefficients `C(n, k)` summed over `k = 0 ..= n` equal `2^n`.
pub proof fn lemma_comb_sum_pow2(n: nat)
    ensures
        comb_row_sum(n, n + 1) == vstd::arithmetic::power2::pow2(n),
    decreases n,
{
    if n == 0 {
        assert(vstd::arithmetic::power2::pow2(0) == 1) by {
            vstd::arithmetic::power2::lemma2_to64();
        }
        assert(comb_row_sum(0, 1) == comb_row_sum(0, 0) + spec_comb(0, 0));
        assert(comb_row_sum(0, 1) == 1);
    } else {
        let m = (n - 1) as nat;
        lemma_comb_sum_pow2(m);
        lemma_pascal_row_sum(m, m + 1);
        lemma_comb_zero(m, m + 1);
        assert(comb_row_sum(m, m + 2) == comb_row_sum(m, m + 1) + spec_comb(m, m + 1));
        assert(comb_row_sum(n, n + 1) == comb_row_sum(m + 1, m + 2));
        assert(comb_row_sum(m + 1, m + 2) == 2 * comb_row_sum(m, m + 1));
        assert(vstd::arithmetic::power2::pow2(n) == 2 * vstd::arithmetic::power2::pow2(m))
            by {
            vstd::arithmetic::power2::lemma_pow2_unfold(n);
        }
    }
}

/// Greatest common divisor by Euclid's rule.
pub open spec fn spec_gcd(a: nat, b: nat) -> nat
    decreases b,
{
    if b == 0 {
        a
    } else {
        spec_gcd(b, a % b)
    }
}

/// What Euclid's rule computes is a common divisor of both arguments.
pub proof fn lemma_gcd_divides(a: nat, b: nat)
    requires
        a > 0 || b > 0,
    ensures
        spec_gcd(a, b) > 0,
        a % spec_gcd(a, b) == 0,
        b % spec_gcd(a, b) == 0,
    decreases b,
{
    if b == 0 {
        vstd::arithmetic::div_mod::lemma_mod_self_0(a as int);
        vstd::arithmetic::div_mod::lemma_small_mod(0, a);
    } else {
        lemma_gcd_divides(b, a % b);
        let g = spec_gcd(b, a % b) as int;
        let q = a as int / b as int;
        vstd::arithmetic::div_mod::lemma_fundamental_div_mod(a as int, b as int);
        vstd::arithmetic::div_mod::lemma_fundamental_div_mod(b as int, g);
        assert(q * (b as int) == (q * (b as int / g)) * g) by (nonlinear_arith)
            requires b as int == (b as int / g) * g + 0;
        vstd::arithmetic::div_mod::lemma_mod_multiples_basic(q * (b as int / g), g);
        assert((q * (b as int)) % g == 0);
        vstd::arithmetic::div_mod::lemma_add_mod_noop(
            q * (b as int),
            (a % b) as int,
            g,
        );
        vstd::arithmetic::div_mod::lemma_small_mod(0, g as nat);
        assert(a as int == q * (b as int) + (a % b) as int);
        assert(a as int % g == 0);
    }
}

/// Every common divisor of `a` and `b` divides what Euclid's rule computes:
/// together with [`lemma_gcd_divides`] this makes it the greatest one.
pub proof fn lemma_gcd_greatest(a: nat, b: nat, d: nat)
    requires
        d > 0,
        a % d == 0,
        b % d == 0,
    ensures
        spec_gcd(a, b) % d == 0,
    decreases b,
{
    if b == 0 {
    } else {
        let q = a as int / b as int;
        vstd::arithmetic::div_mod::lemma_fundamental_div_mod(a as int, b as int);
        vstd::arithmetic::div_mod::lemma_fundamental_div_mod(a as int, d as int);
        vstd::arithmetic::div_mod::lemma_fundamental_div_mod(b as int, d as int);
        let k = a as int / d as int - q * (b as int / d as int);
        assert((a % b) as int == k * d) by (nonlinear_arith)
            requires
                a as int == q * (b as int) + (a % b) as int,
                a as int == d * (a as int / d as int) + 0,
                b as int == d * (b as int / d as int) + 0,
                k == a as int / d as int - q * (b as int / d as int),
        ;
        vstd::arithmetic::div_mod::lemma_mod_multiples_basic(k, d as int);
        lemma_gcd_greatest(b, a % b, d);
    }
}

/// Returns the greatest common divisor of `a` and `b`.
pub fn greatest_common_divisor(a: usize, b: usize) -> (r: usize)
    requires
        a > 0 || b > 0,
    ensures
        r == spec_gcd(a as nat, b as nat),
{
    let mut x: usize = a;
    let mut y: usize = b;
    while y > 0
        invariant
            spec_gcd(x as nat, y as nat) == spec_gcd(a as nat, b as nat),
        decreases y,
    {
        let t: usize = x % y;
        x = y;
        y = t;
    }
    x
}

/// How many entries of `s` equal `v`.
pub open spec fn count_eq(s: Seq<usize>, v: usize) -> nat
    decreases s.len(),
{
    if s.len() == 0 {
        0
    } else {
        count_eq(s.drop_last(), v) + if s.last() == v {
            1nat
        } else {
            0nat
        }
    }
}

/// How many entries of `s` are smaller than `v`.
pub open spec fn count_lt(s: Seq<usize>, v: usize) -> nat
    decreases s.len(),
{
    if s.len() == 0 {
        0
    } else {
        count_lt(s.drop_last(), v) + if s.last() < v {
            1nat
        } else {
            0nat
        }
    }
}

/// The factorial never decreases.
pub proof fn lemma_fact_mono(a: nat, b: nat)
    requires
        a <= b,
    ensures
        spec_fact(a) <= spec_fact(b),
    decreases b - a,
{
    if a < b {
        lemma_fact_mono(a, (b - 1) as nat);
        lemma_fact_pos((b - 1) as nat);
        assert(spec_fact((b - 1) as nat) <= b * spec_fact((b - 1) as nat))
            by (nonlinear_arith)
            requires b >= 1, spec_fact((b - 1) as nat) >= 0;
    }
}

/// `b` holds the same values as `a`, each the same number of times.
pub open spec fn permutes(a: Seq<usize>, b: Seq<usize>) -> bool {
    a.len() == b.len() && forall|v: usize| count_eq(a, v) == count_eq(b, v)
}

pub(crate) proof fn lemma_count_lt_le_len(s: Seq<usize>, v: usize)
    ensures
        count_lt(s, v) <= s.len(),
    decreases s.len(),
{
    if s.len() > 0 {
        lemma_count_lt_le_len(s.drop_last(), v);
    }
}

pub(crate) proof fn lemma_count_lt_concat(a: Seq<usize>, b: Seq<usize>, v: usize)
    ensures
        count_lt(a + b, v) == count_lt(a, v) + count_lt(b, v),
    decreases b.len(),
{
    if b.len() == 0 {
        assert(a + b =~= a);
    } else {
        lemma_count_lt_concat(a, b.drop_last(), v);
        assert((a + b).drop_last() =~= a + b.drop_last());
    }
}

/// When every entry is below `v` the count is the whole length.
pub(crate) proof fn lemma_count_lt_all(s: Seq<usize>, v: usize)
    requires
        forall|q: int| 0 <= q < s.len() ==> s[q] < v,
    ensures
        count_lt(s, v) == s.len(),
    decreases s.len(),
{
    if s.len() > 0 {
        assert(forall|q: int| 0 <= q < s.len() - 1 ==> s.drop_last()[q] == s[q]);
        lemma_count_lt_all(s.drop_last(), v);
    }
}

/// When no entry is below `v` the count is zero.
pub(crate) proof fn lemma_count_lt_none(s: Seq<usize>, v: usize)
    requires
        forall|q: int| 0 <= q < s.len() ==> s[q] >= v,
    ensures
        count_lt(s, v) == 0,
    decreases s.len(),
{
    if s.len() > 0 {
        assert(forall|q: int| 0 <= q < s.len() - 1 ==> s.drop_last()[q] == s[q]);
        lemma_count_lt_none(s.drop_last(), v);
    }
}

/// Rotates `xs[lo ..= hi]` right by one position: the last element of the
/// range moves to its front and the rest shift up.
pub(crate) fn rotate_right_once(xs: &mut Vec<usize>, lo: usize, hi: usize)
    requires
        lo <= hi < old(xs).len(),
    ensures
        final(xs)@.len() == old(xs)@.len(),
        final(xs)@ == old(xs)@.take(lo as int) + seq![old(xs)@[hi as int]]
            + old(xs)@.subrange(lo as int, hi as int) + old(xs)@.skip(hi as int + 1),
{
    let saved: usize = xs[hi];
    let mut j: usize = hi;
    while j > lo
        invariant
            lo <= j <= hi < xs@.len() == old(xs)@.len(),
            forall|q: int| 0 <= q < lo ==> xs@[q] == old(xs)@[q],
            forall|q: int| lo <= q <= j ==> xs@[q] == old(xs)@[q],
            forall|q: int| j < q <= hi ==> xs@[q] == old(xs)@[q - 1],
            forall|q: int| hi < q < xs@.len() ==> xs@[q] == old(xs)@[q],
        decreases j,
    {
        let w: usize = xs[j - 1];
        xs.set(j, w);
        j = j - 1;
    }
    xs.set(lo, saved);
    proof {
        let a = old(xs)@;
        let r = a.take(lo as int) + seq![a[hi as int]] + a.subrange(lo as int, hi as int)
            + a.skip(hi as int + 1);
        assert(xs@ =~= r);
    }
}

/// `b` comes strictly after `a` in lexicographic order.
pub open spec fn lex_lt(a: Seq<usize>, b: Seq<usize>) -> bool {
    a.len() == b.len() && exists|m: int|
        0 <= m < a.len() && a[m] < b[m] && (forall|p: int| 0 <= p < m ==> a[p] == b[p])
}

/// Overwriting one position changes the counts by one in and one out.
pub(crate) proof fn lemma_count_eq_update(s: Seq<usize>, j: int, w: usize, v: usize)
    requires
        0 <= j < s.len(),
    ensures
        count_eq(s.update(j, w), v) == count_eq(s, v) + (if w == v {
            1int
        } else {
            0int
        }) - (if s[j] == v {
            1int
        } else {
            0int
        }),
    decreases s.len(),
{
    let s2 = s.update(j, w);
    if j == s.len() - 1 {
        assert(s2.drop_last() =~= s.drop_last());
        assert(s2.last() == w);
    } else {
        lemma_count_eq_update(s.drop_last(), j, w, v);
        assert(s2.drop_last() =~= s.drop_last().update(j, w));
        assert(s2.last() == s.last());
    }
}

/// In a sequence of pairwise distinct elements no value occurs twice.
pub(crate) proof fn lemma_unordered_count(s: Seq<usize>, v: usize)
    requires
        unordered_set(s),
    ensures
        count_eq(s, v) <= 1,
    decreases s.len(),
{
    if s.len() > 0 {
        assert(forall|p: int, q: int|
            0 <= p < q < s.len() - 1 ==> s.drop_last()[p] == s[p] && s.drop_last()[q] == s[q]);
        lemma_unordered_count(s.drop_last(), v);
        if s.last() == v {
            lemma_count_eq_zero(s.drop_last(), v);
            if s.drop_last().contains(v) {
                let p = choose|p: int| 0 <= p < s.len() - 1 && s.drop_last()[p] == v;
                assert(s[p] == v && s[s.len() - 1] == v);
                assert(false);
            }
        }
    }
}

/// Two occurrences of one value put its count at two or more.
pub(crate) proof fn lemma_count_eq_two(s: Seq<usize>, p: int, q: int)
    requires
        0 <= p < q < s.len(),
        s[p] == s[q],
    ensures
        count_eq(s, s[p]) >= 2,
    decreases s.len(),
{
    let v = s[p];
    if q == s.len() - 1 {
        assert(s.drop_last()[p] == v);
        assert(s.drop_last().contains(v));
        lemma_count_eq_zero(s.drop_last(), v);
    } else {
        assert(s.drop_last()[p] == v && s.drop_last()[q] == v);
        lemma_count_eq_two(s.drop_last(), p, q);
    }
}

pub(crate) proof fn lemma_count_eq_one(v: usize, w: usize)
    ensures
        count_eq(seq![v], w) == if w == v {
            1int
        } else {
            0int
        },
{
    assert(seq![v].drop_last() =~= Seq::<usize>::empty());
    assert(seq![v].last() == v);
    assert(count_eq(Seq::<usize>::empty(), w) == 0);
}

/// Rearranging a sequence of pairwise distinct elements keeps them
/// pairwise distinct.
pub proof fn lemma_permutes_distinct(a: Seq<usize>, b: Seq<usize>)
    requires
        permutes(a, b),
        unordered_set(b),
    ensures
        unordered_set(a),
{
    assert forall|p: int, q: int| 0 <= p < q < a.len() implies a[p] != a[q] by {
        if a[p] == a[q] {
            lemma_count_eq_two(a, p, q);
            lemma_unordered_count(b, a[p]);
        }
    }
}

/// A chain of adjacent strict increases orders any two positions.
pub(crate) proof fn lemma_adjacent_chain(s: Seq<usize>, p: int, q: int)
    requires
        forall|t: int| 0 <= t < s.len() - 1 ==> (#[trigger] s[t]) < s[t + 1],
        0 <= p < q < s.len(),
    ensures
        s[p] < s[q],
    decreases q - p,
{
    if p + 1 < q {
        lemma_adjacent_chain(s, p + 1, q);
    }
}

/// A chain of adjacent non-strict increases orders any two positions.
pub(crate) proof fn lemma_adjacent_chain_le(s: Seq<usize>, p: int, q: int)
    requires
        forall|t: int| 0 <= t < s.len() - 1 ==> (#[trigger] s[t]) <= s[t + 1],
        0 <= p < q < s.len(),
    ensures
        s[p] <= s[q],
    decreases q - p,
{
    if p + 1 < q {
        lemma_adjacent_chain_le(s, p + 1, q);
    }
}

/// A multiset has exactly one non-decreasing arrangement.
pub proof fn lemma_sorted_unique(a: Seq<usize>, b: Seq<usize>)
    requires
        permutes(a, b),
        ordered_multiset(a),
        ordered_multiset(b),
    ensures
        a == b,
    decreases a.len(),
{
    if a.len() == 0 {
        assert(a =~= b);
    } else {
        let n = a.len();
        if a.last() != b.last() {
            let (lo, hi) = if a.last() < b.last() {
                (a, b)
            } else {
                (b, a)
            };
            let v = hi.last();
            assert(count_eq(hi, v) >= 1) by {
                lemma_count_eq_zero(hi, v);
                assert(hi[n - 1] == v);
                assert(hi.contains(v));
            }
            assert(count_eq(lo, v) == 0) by {
                lemma_count_eq_zero(lo, v);
                if lo.contains(v) {
                    let p = choose|p: int| 0 <= p < n && lo[p] == v;
                    if p < n - 1 {
                        assert(lo[p] <= lo[n - 1]);
                    }
                    assert(false);
                }
            }
            assert(false);
        }
        assert(forall|p: int, q: int|
            0 <= p < q < n - 1 ==> a.drop_last()[p] == a[p] && a.drop_last()[q] == a[q]);
        assert(forall|p: int, q: int|
            0 <= p < q < n - 1 ==> b.drop_last()[p] == b[p] && b.drop_last()[q] == b[q]);
        assert forall|v: usize| count_eq(a.drop_last(), v) == count_eq(
            b.drop_last(),
            v,
        ) by {
            assert(count_eq(a, v) == count_eq(b, v));
        }
        lemma_sorted_unique(a.drop_last(), b.drop_last());
        assert(a =~= a.drop_last().push(a.last()));
        assert(b =~= b.drop_last().push(b.last()));
    }
}

/// Reverses `xs[lo ..= hi]` in place.
pub(crate) fn reverse_range(xs: &mut Vec<usize>, lo: usize, hi: usize)
    requires
        lo <= hi < old(xs).len(),
    ensures
        final(xs)@.len() == old(xs)@.len(),
        forall|q: int| 0 <= q < old(xs)@.len() && !(lo <= q <= hi) ==> final(xs)@[q]
            == old(xs)@[q],
        forall|q: int| lo <= q <= hi ==> final(xs)@[q] == old(xs)@[lo + hi - q],
        forall|v: usize| count_eq(final(xs)@, v) == count_eq(old(xs)@, v),
{
    let mut a: usize = lo;
    let mut b: usize = hi;
    while a < b
        invariant
            lo <= a,
            b <= hi < xs@.len() == old(xs)@.len(),
            a + b == lo + hi,
            forall|q: int| 0 <= q < old(xs)@.len() && !(lo <= q <= hi) ==> xs@[q]
                == old(xs)@[q],
            forall|q: int| lo <= q < a || b < q <= hi ==> xs@[q] == old(xs)@[lo + hi - q],
            forall|q: int| a <= q <= b ==> xs@[q] == old(xs)@[q],
            forall|v: usize| count_eq(xs@, v) == count_eq(old(xs)@, v),
        decreases hi - a,
    {
        let ghost pre = xs@;
        let w1: usize = xs[a];
        let w2: usize = xs[b];
        xs.set(a, w2);
        xs.set(b, w1);
        proof {
            let mid = pre.update(a as int, w2);
            assert(xs@ =~= mid.update(b as int, w1));
            assert forall|v: usize| count_eq(xs@, v) == count_eq(pre, v) by {
                lemma_count_eq_update(pre, a as int, w2, v);
                lemma_count_eq_update(mid, b as int, w1, v);
                assert(mid[b as int] == pre[b as int]);
            }
        }
        a = a + 1;
        b = b - 1;
    }
}

/// Removing one entry lowers the counts it took part in by one.
pub(crate) proof fn lemma_counts_remove(s: Seq<usize>, i: int, v: usize)
    requires
        0 <= i < s.len(),
    ensures
        count_eq(s.remove(i), v) == count_eq(s, v) - (if s[i] == v {
            1int
        } else {
            0int
        }),
        count_lt(s.remove(i), v) == count_lt(s, v) - (if s[i] < v {
            1int
        } else {
            0int
        }),
{
    let head = s.take(i);
    let one = seq![s[i]];
    let tail = s.skip(i + 1);
    assert(s =~= (head + one) + tail);
    assert(s.remove(i) =~= head + tail);
    lemma_count_eq_concat(head + one, tail, v);
    lemma_count_eq_concat(head, one, v);
    lemma_count_eq_concat(head, tail, v);
    lemma_count_lt_concat(head + one, tail, v);
    lemma_count_lt_concat(head, one, v);
    lemma_count_lt_concat(head, tail, v);
    assert(one.drop_last() =~= Seq::<usize>::empty());
    assert(one.last() == s[i]);
    assert(count_eq(Seq::<usize>::empty(), v) == 0);
    assert(count_lt(Seq::<usize>::empty(), v) == 0);
    assert(count_eq(one, v) == if s[i] == v { 1int } else { 0int });
    assert(count_lt(one, v) == if s[i] < v { 1int } else { 0int });
}

/// Sequences with the same contents agree on every smaller-than count.
pub(crate) proof fn lemma_count_lt_permutes(a: Seq<usize>, b: Seq<usize>, w: usize)
    requires
        permutes(a, b),
    ensures
        count_lt(a, w) == count_lt(b, w),
    decreases a.len(),
{
    if a.len() > 0 {
        let x = a.last();
        assert(a[a.len() - 1] == x);
        assert(a.contains(x));
        lemma_count_eq_zero(a, x);
        lemma_count_eq_zero(b, x);
        assert(b.contains(x));
        let ix = choose|ix: int| 0 <= ix < b.len() && b[ix] == x;
        let a2 = a.drop_last();
        let b2 = b.remove(ix);
        assert(a2 =~= a.remove(a.len() - 1));
        assert forall|v: usize| count_eq(a2, v) == count_eq(b2, v) by {
            lemma_counts_remove(a, a.len() - 1, v);
            lemma_counts_remove(b, ix, v);
        }
        lemma_count_lt_permutes(a2, b2, w);
        lemma_counts_remove(a, a.len() - 1, w);
        lemma_counts_remove(b, ix, w);
    } else {
        assert(b.len() == 0);
    }
}

/// Counting below a larger bound picks up at least the occurrences of the
/// smaller one.
pub(crate) proof fn lemma_count_lt_strict(s: Seq<usize>, v: usize, w: usize)
    requires
        v < w,
    ensures
        count_lt(s, w) >= count_lt(s, v) + count_eq(s, v),
    decreases s.len(),
{
    if s.len() > 0 {
        lemma_count_lt_strict(s.drop_last(), v, w);
    }
}




/// Rotating a range right by one does not change what the sequence holds.
pub(crate) proof fn lemma_rotate_counts(a: Seq<usize>, b: Seq<usize>, lo: int, hi: int)
    requires
        0 <= lo <= hi < a.len(),
        b.len() == a.len(),
        b == a.take(lo) + seq![a[hi]] + a.subrange(lo, hi) + a.skip(hi + 1),
    ensures
        forall|v: usize| count_eq(b, v) == count_eq(a, v),
{
    let head = a.take(lo);
    let mid = a.subrange(lo, hi);
    let pivot = seq![a[hi]];
    let tail = a.skip(hi + 1);
    assert forall|v: usize| count_eq(b, v) == count_eq(a, v) by {
        lemma_count_eq_concat(head + pivot + mid, tail, v);
        lemma_count_eq_concat(head + pivot, mid, v);
        lemma_count_eq_concat(head, pivot, v);
        lemma_count_eq_concat(head + mid + pivot, tail, v);
        lemma_count_eq_concat(head + mid, pivot, v);
        lemma_count_eq_concat(head, mid, v);
        assert((head + pivot + mid) + tail =~= b);
        assert((head + mid + pivot) + tail =~= a);
        assert((head + pivot) + mid =~= head + pivot + mid);
        assert((head + mid) + pivot =~= head + mid + pivot);
    }
}

/// `s` with every occurrence of `v` removed.
pub open spec fn remove_all(s: Seq<usize>, v: usize) -> Seq<usize>
    decreases s.len(),
{
    if s.len() == 0 {
        Seq::empty()
    } else if s.last() == v {
        remove_all(s.drop_last(), v)
    } else {
        remove_all(s.drop_last(), v).push(s.last())
    }
}

/// `s` restricted to the entries whose value does not occur in `seen`.
pub open spec fn keep_unseen(s: Seq<usize>, seen: Seq<usize>) -> Seq<usize>
    decreases s.len(),
{
    if s.len() == 0 {
        Seq::empty()
    } else if seen.contains(s.last()) {
        keep_unseen(s.drop_last(), seen)
    } else {
        keep_unseen(s.drop_last(), seen).push(s.last())
    }
}

pub(crate) proof fn lemma_count_eq_le_len(s: Seq<usize>, v: usize)
    ensures
        count_eq(s, v) <= s.len(),
    decreases s.len(),
{
    if s.len() > 0 {
        lemma_count_eq_le_len(s.drop_last(), v);
    }
}

pub(crate) proof fn lemma_count_eq_zero(s: Seq<usize>, v: usize)
    ensures
        (count_eq(s, v) == 0) <==> !s.contains(v),
    decreases s.len(),
{
    if s.len() > 0 {
        lemma_count_eq_zero(s.drop_last(), v);
        if s.contains(v) && s.last() != v {
            let i = choose|i: int| 0 <= i < s.len() && s[i] == v;
            assert(s.drop_last()[i] == v);
            assert(s.drop_last().contains(v));
        }
        if s.drop_last().contains(v) {
            let i = choose|i: int| 0 <= i < s.len() - 1 && s.drop_last()[i] == v;
            assert(s[i] == v);
        }
    }
}

pub(crate) proof fn lemma_count_eq_concat(a: Seq<usize>, b: Seq<usize>, v: usize)
    ensures
        count_eq(a + b, v) == count_eq(a, v) + count_eq(b, v),
    decreases b.len(),
{
    if b.len() == 0 {
        assert(a + b =~= a);
    } else {
        lemma_count_eq_concat(a, b.drop_last(), v);
        assert((a + b).drop_last() =~= a + b.drop_last());
    }
}

pub(crate) proof fn lemma_remove_all_len(s: Seq<usize>, v: usize)
    ensures
        remove_all(s, v).len() == s.len() - count_eq(s, v),
    decreases s.len(),
{
    if s.len() > 0 {
        lemma_remove_all_len(s.drop_last(), v);
        lemma_count_eq_le_len(s.drop_last(), v);
    }
}

proof fn lemma_keep_unseen_all(s: Seq<usize>, seen: Seq<usize>)
    requires
        forall|j: int| 0 <= j < s.len() ==> seen.contains(s[j]),
    ensures
        keep_unseen(s, seen).len() == 0,
    decreases s.len(),
{
    if s.len() > 0 {
        assert forall|j: int| 0 <= j < s.len() - 1 implies seen.contains(s.drop_last()[j]) by {
            assert(s.drop_last()[j] == s[j]);
        }
        lemma_keep_unseen_all(s.drop_last(), seen);
    }
}

proof fn lemma_keep_unseen_front(s: Seq<usize>, seen: Seq<usize>, i: int)
    requires
        0 <= i < s.len(),
        forall|j: int| 0 <= j < i ==> seen.contains(s[j]),
        !seen.contains(s[i]),
    ensures
        keep_unseen(s, seen).len() > 0,
        keep_unseen(s, seen)[0] == s[i],
    decreases s.len(),
{
    if i == s.len() - 1 {
        assert forall|j: int| 0 <= j < s.len() - 1 implies seen.contains(s.drop_last()[j]) by {
            assert(s.drop_last()[j] == s[j]);
        }
        lemma_keep_unseen_all(s.drop_last(), seen);
    } else {
        assert forall|j: int| 0 <= j < i implies seen.contains(s.drop_last()[j]) by {
            assert(s.drop_last()[j] == s[j]);
        }
        assert(s.drop_last()[i] == s[i]);
        lemma_keep_unseen_front(s.drop_last(), seen, i);
    }
}

proof fn lemma_keep_unseen_push(s: Seq<usize>, seen: Seq<usize>, v: usize)
    ensures
        keep_unseen(s, seen.push(v)) =~= remove_all(keep_unseen(s, seen), v),
    decreases s.len(),
{
    if s.len() > 0 {
        lemma_keep_unseen_push(s.drop_last(), seen, v);
        let x = keep_unseen(s.drop_last(), seen);
        assert(x.push(s.last()).drop_last() =~= x);
        if seen.contains(s.last()) {
            assert(seen.push(v).contains(s.last())) by {
                let i = choose|i: int| 0 <= i < seen.len() && seen[i] == s.last();
                assert(seen.push(v)[i] == s.last());
            }
        } else if s.last() == v {
            assert(seen.push(v)[seen.len() as int] == v);
            assert(seen.push(v).contains(s.last()));
        } else {
            assert(!seen.push(v).contains(s.last())) by {
                if seen.push(v).contains(s.last()) {
                    let i = choose|i: int|
                        0 <= i < seen.len() + 1 && seen.push(v)[i] == s.last();
                    assert(seen[i] == s.last());
                }
            }
        }
    }
}

proof fn lemma_keep_unseen_count(s: Seq<usize>, seen: Seq<usize>, v: usize)
    requires
        !seen.contains(v),
    ensures
        count_eq(keep_unseen(s, seen), v) == count_eq(s, v),
    decreases s.len(),
{
    if s.len() > 0 {
        lemma_keep_unseen_count(s.drop_last(), seen, v);
        if !seen.contains(s.last()) {
            assert(keep_unseen(s, seen).drop_last() =~= keep_unseen(s.drop_last(), seen));
        }
    }
}

proof fn lemma_keep_unseen_empty(s: Seq<usize>)
    ensures
        keep_unseen(s, Seq::empty()) =~= s,
    decreases s.len(),
{
    if s.len() > 0 {
        lemma_keep_unseen_empty(s.drop_last());
    }
}

pub(crate) proof fn lemma_remove_all_counts(s: Seq<usize>, v: usize, w: usize)
    ensures
        count_eq(remove_all(s, v), w) == if w == v {
            0nat
        } else {
            count_eq(s, w)
        },
    decreases s.len(),
{
    if s.len() > 0 {
        lemma_remove_all_counts(s.drop_last(), v, w);
        if s.last() != v {
            assert(remove_all(s, v).drop_last() =~= remove_all(s.drop_last(), v));
        }
    }
}

pub(crate) proof fn lemma_remove_all_absent(s: Seq<usize>, v: usize)
    requires
        count_eq(s, v) == 0,
    ensures
        remove_all(s, v) == s,
    decreases s.len(),
{
    if s.len() > 0 {
        lemma_remove_all_absent(s.drop_last(), v);
        assert(remove_all(s.drop_last(), v).push(s.last()) =~= s);
    } else {
        assert(remove_all(s, v) =~= s);
    }
}

pub(crate) proof fn lemma_remove_all_front(s: Seq<usize>, v: usize)
    requires
        s.len() > 0,
        s[0] != v,
    ensures
        remove_all(s, v).len() > 0,
        remove_all(s, v)[0] == s[0],
    decreases s.len(),
{
    if s.len() == 1 {
        assert(s.drop_last().len() == 0);
        assert(remove_all(s.drop_last(), v) =~= Seq::<usize>::empty());
    } else {
        assert(s.drop_last()[0] == s[0]);
        lemma_remove_all_front(s.drop_last(), v);
    }
}

pub(crate) proof fn lemma_remove_all_comm(s: Seq<usize>, v: usize, w: usize)
    ensures
        remove_all(remove_all(s, v), w) == remove_all(remove_all(s, w), v),
    decreases s.len(),
{
    if s.len() == 0 {
    } else {
        let x = s.last();
        let b = s.drop_last();
        lemma_remove_all_comm(b, v, w);
        if x != v {
            assert(remove_all(b, v).push(x).drop_last() =~= remove_all(b, v));
        }
        if x != w {
            assert(remove_all(b, w).push(x).drop_last() =~= remove_all(b, w));
        }
        if x != v && x != w {
            assert(remove_all(remove_all(b, v), w).push(x).drop_last() =~= remove_all(
                remove_all(b, v),
                w,
            ));
            assert(remove_all(remove_all(b, w), v).push(x).drop_last() =~= remove_all(
                remove_all(b, w),
                v,
            ));
            assert(remove_all(remove_all(s, v), w) =~= remove_all(remove_all(s, w), v));
        }
    }
}

/// Number of distinct orderings of the multiset `s`: repeatedly choose the
/// positions of the value that occurs first, within what is left.
pub open spec fn spec_multinomial(s: Seq<usize>) -> nat
    decreases s.len(),
    via spec_multinomial_decreases
{
    if s.len() == 0 {
        1
    } else {
        spec_comb(s.len(), count_eq(s, s[0])) * spec_multinomial(remove_all(s, s[0]))
    }
}

#[via_fn]
proof fn spec_multinomial_decreases(s: Seq<usize>) {
    if s.len() > 0 {
        lemma_remove_all_len(s, s[0]);
        lemma_count_eq_zero(s, s[0]);
        assert(s.contains(s[0]));
    }
}

/// Product of the factorials of the multiplicities in `s`: the number of
/// orderings of `s` that are indistinguishable from one another.
pub open spec fn fact_of_counts(s: Seq<usize>) -> nat
    decreases s.len(),
    via fact_of_counts_decreases
{
    if s.len() == 0 {
        1
    } else {
        spec_fact(count_eq(s, s[0])) * fact_of_counts(remove_all(s, s[0]))
    }
}

#[via_fn]
proof fn fact_of_counts_decreases(s: Seq<usize>) {
    if s.len() > 0 {
        lemma_remove_all_len(s, s[0]);
        lemma_count_eq_zero(s, s[0]);
        assert(s.contains(s[0]));
    }
}

pub proof fn lemma_fact_of_counts_pos(s: Seq<usize>)
    ensures
        fact_of_counts(s) >= 1,
    decreases s.len(),
{
    if s.len() > 0 {
        lemma_remove_all_len(s, s[0]);
        lemma_count_eq_zero(s, s[0]);
        assert(s.contains(s[0]));
        lemma_fact_of_counts_pos(remove_all(s, s[0]));
        lemma_fact_pos(count_eq(s, s[0]));
        let a = spec_fact(count_eq(s, s[0]));
        let b = fact_of_counts(remove_all(s, s[0]));
        assert(a * b >= 1) by (nonlinear_arith)
            requires a >= 1, b >= 1;
    }
}

/// The multiplicity product can be split off at any value, not only at the
/// first one.
pub(crate) proof fn lemma_fact_of_counts_any(s: Seq<usize>, v: usize)
    ensures
        fact_of_counts(s) == spec_fact(count_eq(s, v)) * fact_of_counts(remove_all(s, v)),
    decreases s.len(),
{
    if s.len() == 0 {
        assert(remove_all(s, v) =~= s);
    } else {
        let u = s[0];
        if v == u {
        } else if count_eq(s, v) == 0 {
            lemma_remove_all_absent(s, v);
            assert(spec_fact(0) == 1);
            assert(1 * fact_of_counts(s) == fact_of_counts(s)) by (nonlinear_arith);
        } else {
            let cu = count_eq(s, u);
            let cv = count_eq(s, v);
            let ru = remove_all(s, u);
            let rv = remove_all(s, v);
            assert(s.contains(u));
            lemma_count_eq_zero(s, u);
            lemma_remove_all_len(s, u);
            lemma_fact_of_counts_any(ru, v);
            lemma_remove_all_counts(s, u, v);
            assert(count_eq(ru, v) == cv);
            // The other branch unfolds at its own first element, which is u.
            lemma_remove_all_front(s, v);
            assert(rv[0] == u);
            assert(fact_of_counts(rv) == spec_fact(count_eq(rv, u)) * fact_of_counts(
                remove_all(rv, u),
            ));
            lemma_remove_all_counts(s, v, u);
            assert(count_eq(rv, u) == cu);
            lemma_remove_all_comm(s, v, u);
            let rr = remove_all(ru, v);
            assert(remove_all(rv, u) == rr);
            assert(spec_fact(cu) * (spec_fact(cv) * fact_of_counts(rr)) == spec_fact(cv)
                * (spec_fact(cu) * fact_of_counts(rr))) by (nonlinear_arith);
        }
    }
}

/// The product formula for multiset orderings:
/// `M(s) * (c_1! * c_2! * ...) == len!`, with one `c` for each distinct
/// value of `s`.
pub proof fn lemma_multinomial_fact(s: Seq<usize>)
    ensures
        spec_multinomial(s) * fact_of_counts(s) == spec_fact(s.len()),
    decreases s.len(),
{
    if s.len() == 0 {
        assert(spec_multinomial(s) == 1 && fact_of_counts(s) == 1);
        assert(spec_fact(0) == 1);
    } else {
        let n = s.len();
        let c = count_eq(s, s[0]);
        let r = remove_all(s, s[0]);
        assert(s.contains(s[0]));
        lemma_count_eq_zero(s, s[0]);
        lemma_count_eq_le_len(s, s[0]);
        lemma_remove_all_len(s, s[0]);
        lemma_multinomial_fact(r);
        lemma_comb_fact(n, c);
        let cm = spec_comb(n, c);
        let mr = spec_multinomial(r);
        let fr = fact_of_counts(r);
        assert(spec_multinomial(s) == cm * mr);
        assert(fact_of_counts(s) == spec_fact(c) * fr);
        assert((cm * mr) * (spec_fact(c) * fr) == spec_fact(n)) by (nonlinear_arith)
            requires
                mr * fr == spec_fact((n - c) as nat),
                cm * spec_fact(c) * spec_fact((n - c) as nat) == spec_fact(n),
        ;
    }
}

/// How many distinct orderings a multiset has does not depend on the
/// arrangement it is presented in.
pub proof fn lemma_multinomial_permutes(a: Seq<usize>, b: Seq<usize>)
    requires
        permutes(a, b),
    ensures
        spec_multinomial(a) == spec_multinomial(b),
{
    lemma_fact_of_counts_permutes(a, b);
    lemma_multinomial_fact(a);
    lemma_multinomial_fact(b);
    lemma_fact_of_counts_pos(a);
    lemma_mul_cancel(spec_multinomial(a), spec_multinomial(b), fact_of_counts(a));
}

pub(crate) proof fn lemma_fact_of_counts_permutes(a: Seq<usize>, b: Seq<usize>)
    requires
        permutes(a, b),
    ensures
        fact_of_counts(a) == fact_of_counts(b),
    decreases a.len(),
{
    if a.len() == 0 {
        assert(b.len() == 0);
    } else {
        let u = a[0];
        assert(a.contains(u));
        lemma_count_eq_zero(a, u);
        lemma_count_eq_zero(b, u);
        lemma_fact_of_counts_any(b, u);
        let ra = remove_all(a, u);
        let rb = remove_all(b, u);
        assert forall|w: usize| count_eq(ra, w) == count_eq(rb, w) by {
            lemma_remove_all_counts(a, u, w);
            lemma_remove_all_counts(b, u, w);
        }
        lemma_remove_all_len(a, u);
        lemma_remove_all_len(b, u);
        lemma_fact_of_counts_permutes(ra, rb);
    }
}

/// Taking one occurrence of `v` out of a multiset divides its ordering
/// count by the length and multiplies it by the multiplicity of `v`:
/// `len * M(s without one v) == count(v) * M(s)`.
///
/// This is the fact behind the multinomial number system's thresholds:
/// `m * k / n` orderings of an `n`-element multiset with `m` orderings
/// begin with a chosen value of multiplicity `k`, and the division is
/// exact.
pub proof fn lemma_multinomial_remove_one(s: Seq<usize>, s2: Seq<usize>, v: usize)
    requires
        count_eq(s, v) >= 1,
        s2.len() == s.len() - 1,
        count_eq(s2, v) == count_eq(s, v) - 1,
        forall|w: usize| w != v ==> count_eq(s2, w) == count_eq(s, w),
    ensures
        s.len() * spec_multinomial(s2) == count_eq(s, v) * spec_multinomial(s),
{
    let n = s.len();
    let cv = count_eq(s, v);
    lemma_multinomial_fact(s);
    lemma_multinomial_fact(s2);
    // The multiplicity products differ exactly by the factor c_v.
    lemma_fact_of_counts_any(s, v);
    lemma_fact_of_counts_any(s2, v);
    assert forall|w: usize| count_eq(remove_all(s, v), w) == count_eq(
        remove_all(s2, v),
        w,
    ) by {
        lemma_remove_all_counts(s, v, w);
        lemma_remove_all_counts(s2, v, w);
    }
    lemma_remove_all_len(s, v);
    lemma_remove_all_len(s2, v);
    lemma_fact_of_counts_permutes(remove_all(s, v), remove_all(s2, v));
    let g = fact_of_counts(remove_all(s, v));
    assert(spec_fact(cv) == cv * spec_fact((cv - 1) as nat));
    assert(fact_of_counts(s) == cv * fact_of_counts(s2)) by (nonlinear_arith)
        requires
            fact_of_counts(s) == spec_fact(cv) * g,
            fact_of_counts(s2) == spec_fact((cv - 1) as nat) * g,
            spec_fact(cv) == cv * spec_fact((cv - 1) as nat),
    ;
    // Multiply both sides by the common multiplicity product and cancel.
    let m = spec_multinomial(s);
    let m2 = spec_multinomial(s2);
    let f2 = fact_of_counts(s2);
    lemma_fact_of_counts_pos(s2);
    assert(spec_fact(n) == n * spec_fact((n - 1) as nat));
    assert((n * m2) * f2 == (cv * m) * f2) by (nonlinear_arith)
        requires
            m2 * f2 == spec_fact((n - 1) as nat),
            m * (cv * f2) == spec_fact(n),
            spec_fact(n) == n * spec_fact((n - 1) as nat),
            n >= 1,
    ;
    lemma_mul_cancel((n * m2) as nat, (cv * m) as nat, f2);
}

/// With pairwise distinct elements every multiplicity is one, so the
/// multiplicity product collapses.
pub(crate) proof fn lemma_fact_of_counts_distinct(s: Seq<usize>)
    requires
        unordered_set(s),
    ensures
        fact_of_counts(s) == 1,
    decreases s.len(),
{
    if s.len() > 0 {
        let u = s[0];
        assert(s.contains(u));
        lemma_count_eq_zero(s, u);
        lemma_unordered_count(s, u);
        assert(count_eq(s, u) == 1);
        let r = remove_all(s, u);
        lemma_remove_all_len(s, u);
        assert forall|p: int, q: int| 0 <= p < q < r.len() implies r[p] != r[q] by {
            if r[p] == r[q] {
                lemma_count_eq_two(r, p, q);
                lemma_remove_all_counts(s, u, r[p]);
                lemma_unordered_count(s, r[p]);
            }
        }
        lemma_fact_of_counts_distinct(r);
        assert(spec_fact(0) == 1);
        assert(spec_fact(1) == 1 * spec_fact(0));
    }
}

/// A set of distinct elements has one ordering for every permutation:
/// the multinomial collapses to the factorial.
pub proof fn lemma_multinomial_distinct(s: Seq<usize>)
    requires
        unordered_set(s),
    ensures
        spec_multinomial(s) == spec_fact(s.len()),
{
    lemma_multinomial_fact(s);
    lemma_fact_of_counts_distinct(s);
    assert(spec_multinomial(s) * 1 == spec_multinomial(s)) by (nonlinear_arith);
}

pub proof fn lemma_multinomial_pos(s: Seq<usize>)
    ensures
        spec_multinomial(s) >= 1,
    decreases s.len(),
{
    if s.len() > 0 {
        lemma_remove_all_len(s, s[0]);
        lemma_count_eq_zero(s, s[0]);
        assert(s.contains(s[0]));
        lemma_multinomial_pos(remove_all(s, s[0]));
        lemma_count_eq_le_len(s, s[0]);
        lemma_comb_pos(s.len(), count_eq(s, s[0]));
        let c = spec_comb(s.len(), count_eq(s, s[0]));
        let m = spec_multinomial(remove_all(s, s[0]));
        assert(c * m >= 1) by (nonlinear_arith)
            requires c >= 1, m >= 1;
    }
}

/// Returns the number of permutations of a multiset.
pub fn multinomial(xs: &Vec<usize>) -> (r: usize)
    requires
        spec_multinomial(xs@) <= usize::MAX,
    ensures
        r == spec_multinomial(xs@),
{
    let n: usize = xs.len();
    let mut r: usize = 1;
    let mut rem_len: usize = n;
    let ghost mut seen: Seq<usize> = Seq::empty();
    let ghost mut rem: Seq<usize> = xs@;
    proof {
        lemma_keep_unseen_empty(xs@);
    }
    let mut i: usize = 0;
    while i < n
        invariant
            i <= n == xs@.len(),
            rem == keep_unseen(xs@, seen),
            rem.len() == rem_len,
            r >= 1,
            r * spec_multinomial(rem) == spec_multinomial(xs@),
            spec_multinomial(xs@) <= usize::MAX,
            forall|v: usize| seen.contains(v) <==> xs@.take(i as int).contains(v),
        decreases n - i,
    {
        let ghost v = xs@[i as int];
        let mut dup: bool = false;
        let mut j: usize = 0;
        while j < i
            invariant
                j <= i < xs@.len(),
                dup <==> exists|t: int| 0 <= t < j && xs@[t] == xs@[i as int],
            decreases i - j,
        {
            if xs[j] == xs[i] {
                dup = true;
            }
            j = j + 1;
        }
        if !dup {
            proof {
                assert(!xs@.take(i as int).contains(v));
                assert(!seen.contains(v));
                assert forall|t: int| 0 <= t < i implies seen.contains(xs@[t]) by {
                    assert(xs@.take(i as int)[t] == xs@[t]);
                    assert(xs@.take(i as int).contains(xs@[t]));
                }
                lemma_keep_unseen_front(xs@, seen, i as int);
                assert(rem[0] == v);
            }
            // Count the occurrences of `xs[i]`; none precede position `i`.
            let mut k: usize = 0;
            let mut t: usize = i;
            while t < n
                invariant
                    i <= t <= n == xs@.len(),
                    k == count_eq(xs@.subrange(i as int, t as int), xs@[i as int]),
                    k <= t - i,
                decreases n - t,
            {
                proof {
                    let sub = xs@.subrange(i as int, t as int);
                    let sub1 = xs@.subrange(i as int, t as int + 1);
                    assert(sub1.drop_last() =~= sub);
                    assert(sub1.last() == xs@[t as int]);
                }
                if xs[t] == xs[i] {
                    k = k + 1;
                }
                t = t + 1;
            }
            proof {
                // The counted occurrences are exactly those in `rem`.
                lemma_count_eq_concat(
                    xs@.take(i as int),
                    xs@.subrange(i as int, n as int),
                    v,
                );
                assert(xs@.take(i as int) + xs@.subrange(i as int, n as int) =~= xs@);
                lemma_count_eq_zero(xs@.take(i as int), v);
                assert(count_eq(xs@, v) == k);
                lemma_keep_unseen_count(xs@, seen, v);
                assert(count_eq(rem, v) == k);
                // One layer of the recursion.
                let c = spec_comb(rem.len(), count_eq(rem, rem[0]));
                let m2 = spec_multinomial(remove_all(rem, rem[0]));
                assert(spec_multinomial(rem) == c * m2);
                lemma_multinomial_pos(remove_all(rem, rem[0]));
                lemma_count_eq_le_len(rem, v);
                assert(c <= c * m2) by (nonlinear_arith)
                    requires c >= 0, m2 >= 1;
                assert(spec_multinomial(rem) <= r * spec_multinomial(rem))
                    by (nonlinear_arith)
                    requires r >= 1, spec_multinomial(rem) >= 0;
            }
            let c: usize = combination(rem_len, k);
            proof {
                lemma_comb_pos(rem.len(), count_eq(rem, v));
                assert(r * c >= 1) by (nonlinear_arith)
                    requires r >= 1, c >= 1;
                let m2 = spec_multinomial(remove_all(rem, v));
                assert(r * (c * m2) == spec_multinomial(xs@));
                assert(r * c * m2 == r * (c * m2)) by (nonlinear_arith);
                assert(r * c <= r * c * m2) by (nonlinear_arith)
                    requires r * c >= 0, m2 >= 1;
                lemma_remove_all_len(rem, v);
                lemma_keep_unseen_push(xs@, seen, v);
            }
            r = r * c;
            rem_len = rem_len - k;
            proof {
                let old_seen = seen;
                seen = seen.push(v);
                rem = remove_all(rem, v);
                let pre = xs@.take(i as int);
                let pre1 = xs@.take(i as int + 1);
                assert(pre1[i as int] == v);
                assert forall|w: usize| seen.contains(w) <==> pre1.contains(w) by {
                    if seen.contains(w) {
                        let t = choose|t: int| 0 <= t < seen.len() && seen[t] == w;
                        if t < old_seen.len() {
                            assert(old_seen[t] == w);
                            assert(old_seen.contains(w));
                            let u = choose|u: int| 0 <= u < i && pre[u] == w;
                            assert(pre1[u] == w);
                        } else {
                            assert(w == v);
                        }
                        assert(pre1.contains(w));
                    }
                    if pre1.contains(w) {
                        let t = choose|t: int| 0 <= t <= i && pre1[t] == w;
                        if t < i {
                            assert(pre[t] == w);
                            assert(pre.contains(w));
                            let u = choose|u: int|
                                0 <= u < old_seen.len() && old_seen[u] == w;
                            assert(seen[u] == w);
                        } else {
                            assert(w == v);
                            assert(seen[old_seen.len() as int] == v);
                        }
                        assert(seen.contains(w));
                    }
                }
            }
        } else {
            proof {
                let pre = xs@.take(i as int);
                let pre1 = xs@.take(i as int + 1);
                assert(pre1[i as int] == v);
                let d = choose|t: int| 0 <= t < i && xs@[t] == v;
                assert(pre[d] == v);
                assert(pre.contains(v));
                assert forall|w: usize| seen.contains(w) <==> pre1.contains(w) by {
                    if seen.contains(w) {
                        let u = choose|u: int| 0 <= u < i && pre[u] == w;
                        assert(pre1[u] == w);
                        assert(pre1.contains(w));
                    }
                    if pre1.contains(w) {
                        let t = choose|t: int| 0 <= t <= i && pre1[t] == w;
                        if t < i {
                            assert(pre[t] == w);
                            assert(pre.contains(w));
                        } else {
                            assert(w == v);
                        }
                    }
                }
            }
        }
        i = i + 1;
    }
    proof {
        assert(xs@.take(n as int) =~= xs@);
        assert forall|j: int| 0 <= j < xs@.len() implies seen.contains(xs@[j]) by {
            assert(xs@.take(n as int).contains(xs@[j]));
        }
        lemma_keep_unseen_all(xs@, seen);
        assert(rem.len() == 0);
        assert(spec_multinomial(rem) == 1);
        assert(r * spec_multinomial(rem) == r) by (nonlinear_arith)
            requires spec_multinomial(rem) == 1;
    }
    r
}

/// The elements are strictly increasing.
pub open spec fn ordered_set(s: Seq<usize>) -> bool {
    forall|i: int, j: int| 0 <= i < j < s.len() ==> s[i] < s[j]
}

/// The elements are non-decreasing.
pub open spec fn ordered_multiset(s: Seq<usize>) -> bool {
    forall|i: int, j: int| 0 <= i < j < s.len() ==> s[i] <= s[j]
}

/// The elements are pairwise distinct.
pub open spec fn unordered_set(s: Seq<usize>) -> bool {
    forall|i: int, j: int| 0 <= i < j < s.len() ==> s[i] != s[j]
}

/// Returns whether the elements of `xs` are strictly increasing.
pub fn is_ordered_set(xs: &Vec<usize>) -> (r: bool)
    ensures
        r == ordered_set(xs@),
{
    let mut i: usize = 1;
    while i < xs.len()
        invariant
            1 <= i,
            forall|p: int, q: int| 0 <= p < q < i && q < xs@.len() ==> xs@[p] < xs@[q],
        decreases xs.len() - i,
    {
        if xs[i - 1] >= xs[i] {
            return false;
        }
        i = i + 1;
    }
    true
}

/// Returns whether the elements of `xs` are non-decreasing.
pub fn is_ordered_multiset(xs: &Vec<usize>) -> (r: bool)
    ensures
        r == ordered_multiset(xs@),
{
    let mut i: usize = 1;
    while i < xs.len()
        invariant
            1 <= i,
            forall|p: int, q: int| 0 <= p < q < i && q < xs@.len() ==> xs@[p] <= xs@[q],
        decreases xs.len() - i,
    {
        if xs[i - 1] > xs[i] {
            return false;
        }
        i = i + 1;
    }
    true
}

/// Returns whether the elements of `xs` are pairwise distinct.
pub fn is_unordered_set(xs: &Vec<usize>) -> (r: bool)
    ensures
        r == unordered_set(xs@),
{
    let mut i: usize = 0;
    while i < xs.len()
        invariant
            forall|p: int, q: int| 0 <= p < q < xs@.len() && p < i ==> xs@[p] != xs@[q],
        decreases xs.len() - i,
    {
        let mut j: usize = i + 1;
        while j < xs.len()
            invariant
                i < j,
                i < xs@.len(),
                forall|q: int| i < q < j ==> xs@[i as int] != xs@[q],
            decreases xs.len() - j,
        {
            if xs[i] == xs[j] {
                return false;
            }
            j = j + 1;
        }
        i = i + 1;
    }
    true
}

} // verus!
