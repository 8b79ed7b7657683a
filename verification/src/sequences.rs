//! Bit sequence number system.
//!
//! Converts between variable-length bit sequences and machine words, using a
//! bijective base-2 numeration: every rank names exactly one finite sequence
//! and every sequence has exactly one rank, with no leading-zero ambiguity.

use vstd::arithmetic::power2::lemma2_to64;
use vstd::arithmetic::power2::lemma_pow2_strictly_increases;
use vstd::arithmetic::power2::lemma_pow2_unfold;
use vstd::arithmetic::power2::pow2;
use vstd::prelude::*;

verus! {

/// Maximum sequence length.
pub const MAX_LENGTH: usize = usize::BITS as usize - 1;

/// Maximum sequence value.
///
/// Sequences above this value are invalid.
pub const MAX_SEQUENCE: usize = usize::MAX - 1;

/// Rank of a bit sequence: each bit appends a digit (one or two) in the
/// bijective binary system, as if the sequence carried an implicit leading
/// one bit.
pub open spec fn seq_rank(xs: Seq<bool>) -> nat
    decreases xs.len(),
{
    if xs.len() == 0 {
        0
    } else {
        2 * seq_rank(xs.drop_last()) + if xs.last() {
            2nat
        } else {
            1nat
        }
    }
}

/// A sequence of length `n` has its rank in `[2^n - 1, 2^(n+1) - 2]`.
pub proof fn lemma_seq_rank_bounds(xs: Seq<bool>)
    ensures
        pow2(xs.len()) <= seq_rank(xs) + 1 < pow2(xs.len() + 1),
    decreases xs.len(),
{
    if xs.len() == 0 {
        lemma2_to64();
    } else {
        let m = (xs.len() - 1) as nat;
        lemma_seq_rank_bounds(xs.drop_last());
        lemma_pow2_unfold(xs.len());
        lemma_pow2_unfold(xs.len() + 1);
        assert(pow2(xs.len()) == 2 * pow2(m));
        assert(pow2(xs.len() + 1) == 2 * pow2(xs.len()));
        let r = seq_rank(xs.drop_last());
        assert(seq_rank(xs) + 1 == 2 * (r + 1) + (if xs.last() { 1int } else { 0int }));
    }
}

/// No two bit sequences share a rank: the numeration is injective, so
/// together with `decode_mut`'s postcondition the rank determines both the
/// length and every bit of the decoded sequence.
pub proof fn lemma_seq_rank_injective(a: Seq<bool>, b: Seq<bool>)
    requires
        seq_rank(a) == seq_rank(b),
    ensures
        a == b,
    decreases a.len(),
{
    lemma_seq_rank_bounds(a);
    lemma_seq_rank_bounds(b);
    if a.len() < b.len() {
        if a.len() + 1 < b.len() {
            lemma_pow2_strictly_increases(a.len() + 1, b.len());
        }
        assert(pow2(a.len() + 1) <= pow2(b.len()));
        assert(false);
    } else if b.len() < a.len() {
        if b.len() + 1 < a.len() {
            lemma_pow2_strictly_increases(b.len() + 1, a.len());
        }
        assert(pow2(b.len() + 1) <= pow2(a.len()));
        assert(false);
    }
    assert(a.len() == b.len());
    if a.len() == 0 {
        assert(a =~= b);
    } else {
        let ra = seq_rank(a.drop_last());
        let rb = seq_rank(b.drop_last());
        let da: int = if a.last() { 2 } else { 1 };
        let db: int = if b.last() { 2 } else { 1 };
        assert(2 * ra + da == 2 * rb + db);
        assert(ra == rb && da == db);
        lemma_seq_rank_injective(a.drop_last(), b.drop_last());
        assert(a =~= a.drop_last().push(a.last()));
        assert(b =~= b.drop_last().push(b.last()));
    }
}

/// On this machine a word holds `2^BITS - 1`, one more than `MAX_SEQUENCE`.
proof fn lemma_pow2_word()
    ensures
        pow2(usize::BITS as nat) == usize::MAX + 1,
        MAX_SEQUENCE + 2 == pow2(usize::BITS as nat),
        MAX_LENGTH + 1 == usize::BITS,
{
    lemma2_to64();
    assert(usize::BITS == 32 || usize::BITS == 64);
}

/// Returns the sequence length of the rank `s`.
///
/// The length is the only `n` with `2^n <= s + 1 < 2^(n+1)`.
pub fn decode_len(s: usize) -> (n: usize)
    requires
        s <= MAX_SEQUENCE,
    ensures
        n <= MAX_LENGTH,
        pow2(n as nat) <= s + 1 < pow2(n as nat + 1),
{
    let mut t: usize = s + 1;
    let mut n: usize = 0;
    proof {
        lemma2_to64();
    }
    while t > 1
        invariant
            1 <= t <= s + 1 <= usize::MAX,
            pow2(n as nat) * t <= s + 1,
            s + 1 < pow2(n as nat) * (t + 1),
            n < usize::BITS,
        decreases t,
    {
        proof {
            let p = pow2(n as nat) as int;
            let h = (t / 2) as int;
            vstd::arithmetic::power2::lemma_pow2_pos(n as nat);
            lemma_pow2_unfold(n as nat + 1);
            assert(pow2(n as nat + 1) == 2 * pow2(n as nat));
            assert(t == 2 * h + (t % 2)) by {
                vstd::arithmetic::div_mod::lemma_fundamental_div_mod(t as int, 2);
            }
            assert((2 * p) * h <= p * t) by (nonlinear_arith)
                requires p >= 1, t == 2 * h + (t % 2), t % 2 >= 0;
            assert(p * (t + 1) <= (2 * p) * (h + 1)) by (nonlinear_arith)
                requires p >= 1, t == 2 * h + (t % 2), t % 2 <= 1;
            // The next exponent stays below the word size.
            lemma_pow2_word();
            assert(pow2(n as nat + 1) * (t / 2) as nat <= s + 1);
            if t / 2 >= 1 && n + 1 >= usize::BITS {
                if n as nat + 1 > usize::BITS as nat {
                    lemma_pow2_strictly_increases(usize::BITS as nat, n as nat + 1);
                }
                assert(pow2(n as nat + 1) >= pow2(usize::BITS as nat));
                assert(pow2(n as nat + 1) * (t / 2) as nat >= pow2(n as nat + 1) * 1)
                    by (nonlinear_arith)
                    requires (t / 2) as nat >= 1, pow2(n as nat + 1) >= 0;
                assert(false);
            }
        }
        t = t / 2;
        n = n + 1;
    }
    proof {
        lemma_pow2_unfold(n as nat + 1);
        lemma_pow2_word();
        assert(t == 1);
        assert(pow2(n as nat) * 1 == pow2(n as nat)) by (nonlinear_arith);
        assert(pow2(n as nat) * (t + 1) == 2 * pow2(n as nat)) by (nonlinear_arith)
            requires t == 1;
        if n + 1 > usize::BITS {
            lemma_pow2_strictly_increases(usize::BITS as nat, n as nat);
            assert(false);
        }
        if n + 1 == usize::BITS {
        } else {
            assert(n + 1 < usize::BITS);
        }
        if n > MAX_LENGTH {
            assert(n as nat >= usize::BITS as nat);
            if n as nat > usize::BITS as nat {
                lemma_pow2_strictly_increases(usize::BITS as nat, n as nat);
            }
            assert(pow2(n as nat) >= usize::MAX + 1);
            assert(false);
        }
    }
    n
}

/// The bits of `m` written in binary below its leading one bit, as a
/// sequence of length `n`, most significant first.
spec fn low_bits(m: nat, n: nat) -> Seq<bool>
    decreases n,
{
    if n == 0 {
        Seq::empty()
    } else {
        low_bits(m / 2, (n - 1) as nat).push(m % 2 == 1)
    }
}

/// For `2^n <= m < 2^(n+1)`, the low bits of `m` are the sequence whose
/// rank is `m - 1`.
proof fn lemma_low_bits_rank(m: nat, n: nat)
    requires
        pow2(n) <= m < pow2(n + 1),
    ensures
        low_bits(m, n).len() == n,
        seq_rank(low_bits(m, n)) + 1 == m,
    decreases n,
{
    if n == 0 {
        lemma2_to64();
    } else {
        let h = m / 2;
        lemma_pow2_unfold(n);
        lemma_pow2_unfold(n + 1);
        assert(m == 2 * h + (m % 2)) by {
            vstd::arithmetic::div_mod::lemma_fundamental_div_mod(m as int, 2);
        }
        assert(pow2((n - 1) as nat) <= h < pow2(n));
        lemma_low_bits_rank(h, (n - 1) as nat);
        let s = low_bits(h, (n - 1) as nat);
        assert(low_bits(m, n) == s.push(m % 2 == 1));
        assert(s.push(m % 2 == 1).drop_last() =~= s);
        assert(s.push(m % 2 == 1).last() == (m % 2 == 1));
        assert(seq_rank(low_bits(m, n)) == 2 * seq_rank(s) + if m % 2 == 1 {
            2nat
        } else {
            1nat
        });
    }
}

/// Writes the sequence of the rank `s` to `xs`, most significant bit first.
///
/// `xs` must already have the length that [`decode_len`] reports for `s`.
/// The written sequence is the unique one whose rank is `s`.
pub fn decode_mut(s: usize, xs: &mut Vec<bool>)
    requires
        s <= MAX_SEQUENCE,
        pow2(old(xs).len() as nat) <= s + 1 < pow2(old(xs).len() as nat + 1),
    ensures
        final(xs).len() == old(xs).len(),
        seq_rank(final(xs)@) == s,
{
    let n: usize = xs.len();
    let mut t: usize = s + 1;
    let mut j: usize = n;
    proof {
        lemma_low_bits_rank((s + 1) as nat, n as nat);
        assert(low_bits(t as nat, j as nat) + xs@.subrange(j as int, n as int)
            =~= low_bits((s + 1) as nat, n as nat));
    }
    while j > 0
        invariant
            j <= n == xs@.len(),
            low_bits(t as nat, j as nat) + xs@.subrange(j as int, n as int)
                =~= low_bits((s + 1) as nat, n as nat),
        decreases j,
    {
        let ghost pre = xs@;
        let ghost t0 = t as nat;
        let b: bool = t % 2 == 1;
        j = j - 1;
        xs.set(j, b);
        t = t / 2;
        proof {
            let lb = low_bits(t as nat, j as nat);
            assert(t0 / 2 == t as nat);
            assert(low_bits(t0, j as nat + 1) == lb.push(b));
            assert(xs@.subrange(j as int, n as int) =~= seq![b]
                + pre.subrange(j as int + 1, n as int));
            assert(lb.push(b) + pre.subrange(j as int + 1, n as int) =~= lb + (seq![b]
                + pre.subrange(j as int + 1, n as int)));
        }
    }
    proof {
        assert(xs@.subrange(0, n as int) =~= xs@);
        assert(low_bits(t as nat, 0) =~= Seq::<bool>::empty());
        assert(Seq::<bool>::empty() + xs@ =~= xs@);
        lemma_low_bits_rank((s + 1) as nat, n as nat);
    }
}

/// Returns the sequence of the rank `s`.
///
/// The returned sequence is the unique one whose rank is `s`; its length is
/// the one [`decode_len`] reports.
pub fn decode(s: usize) -> (xs: Vec<bool>)
    requires
        s <= MAX_SEQUENCE,
    ensures
        seq_rank(xs@) == s,
        pow2(xs@.len() as nat) <= s + 1 < pow2(xs@.len() as nat + 1),
{
    let n: usize = decode_len(s);
    let mut xs: Vec<bool> = Vec::new();
    while xs.len() < n
        invariant
            xs@.len() <= n,
        decreases n - xs.len(),
    {
        xs.push(false);
    }
    decode_mut(s, &mut xs);
    xs
}

/// Returns the rank of a sequence.
///
/// The rank folds the bits from the most significant end: each bit appends a
/// digit in the bijective binary system.
pub fn encode(xs: &Vec<bool>) -> (s: usize)
    requires
        xs@.len() <= MAX_LENGTH,
    ensures
        s == seq_rank(xs@),
        s <= MAX_SEQUENCE,
{
    let n: usize = xs.len();
    let mut s: usize = 0;
    let mut i: usize = 0;
    proof {
        assert(xs@.subrange(0, 0) =~= Seq::<bool>::empty());
    }
    while i < n
        invariant
            i <= n == xs@.len(),
            n <= MAX_LENGTH,
            s == seq_rank(xs@.subrange(0, i as int)),
        decreases n - i,
    {
        proof {
            let pre = xs@.subrange(0, i as int);
            let pre1 = xs@.subrange(0, i as int + 1);
            assert(pre1.drop_last() =~= pre);
            assert(pre1.last() == xs@[i as int]);
            lemma_seq_rank_bounds(pre);
            lemma_pow2_word();
            lemma_pow2_unfold(i as nat + 2);
            assert(pow2(i as nat + 2) <= pow2(usize::BITS as nat)) by {
                if i as nat + 2 < usize::BITS as nat {
                    lemma_pow2_strictly_increases(i as nat + 2, usize::BITS as nat);
                }
            }
        }
        let b: usize = if xs[i] {
            1
        } else {
            0
        };
        s = 2 * s + 1 + b;
        i = i + 1;
    }
    proof {
        assert(xs@.subrange(0, n as int) =~= xs@);
        lemma_seq_rank_bounds(xs@);
        lemma_pow2_word();
        assert(pow2(xs@.len() + 1) <= pow2(usize::BITS as nat)) by {
            if xs@.len() + 1 < usize::BITS as nat {
                lemma_pow2_strictly_increases(xs@.len() + 1, usize::BITS as nat);
            }
        }
    }
    s
}

} // verus!
