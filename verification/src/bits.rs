//! Bit-sequence utilities for natural indices.
//!
//! A natural index is carried as a sequence of bits, least significant
//! first; folding strips low bits, and coset layout uses bit reversal.

use vstd::arithmetic::power2::{lemma_pow2_pos, lemma_pow2_unfold, pow2};
use vstd::prelude::*;

verus! {

/// The number encoded by a bit sequence, least significant bit first.
pub open spec fn bits_to_nat(s: Seq<bool>) -> nat
    decreases s.len(),
{
    if s.len() == 0 {
        0
    } else {
        (if s[0] {
            1nat
        } else {
            0nat
        }) + 2 * bits_to_nat(s.drop_first())
    }
}

/// The `k`-bit reversal of `i`.
pub open spec fn bitrev(i: nat, k: nat) -> nat
    decreases k,
{
    if k == 0 {
        0
    } else {
        (i % 2) * pow2((k - 1) as nat) + bitrev(i / 2, (k - 1) as nat)
    }
}

pub proof fn lemma_bits_to_nat_bound(s: Seq<bool>)
    ensures
        bits_to_nat(s) < pow2(s.len()),
    decreases s.len(),
{
    if s.len() == 0 {
        lemma_pow2_pos(0);
        vstd::arithmetic::power2::lemma2_to64();
    } else {
        lemma_bits_to_nat_bound(s.drop_first());
        lemma_pow2_unfold(s.len());
    }
}

pub proof fn lemma_bits_to_nat_step(s: Seq<bool>, i: int)
    requires
        0 <= i < s.len(),
    ensures
        bits_to_nat(s.subrange(i, s.len() as int)) == (if s[i] {
            1nat
        } else {
            0nat
        }) + 2 * bits_to_nat(s.subrange(i + 1, s.len() as int)),
{
    let tail = s.subrange(i, s.len() as int);
    assert(tail.drop_first() =~= s.subrange(i + 1, s.len() as int));
}

pub proof fn lemma_bitrev_bound(i: nat, k: nat)
    ensures
        bitrev(i, k) < pow2(k),
    decreases k,
{
    if k == 0 {
        vstd::arithmetic::power2::lemma2_to64();
    } else {
        lemma_bitrev_bound(i / 2, (k - 1) as nat);
        lemma_pow2_unfold(k);
        if i % 2 == 0 {
            assert((i % 2) * pow2((k - 1) as nat) == 0);
        } else {
            assert((i % 2) * pow2((k - 1) as nat) == pow2((k - 1) as nat));
        }
    }
}

/// The number held by a short bit sequence, least significant bit first.
pub fn bits_to_usize(bits: &Vec<bool>) -> (r: usize)
    requires
        bits.len() <= 31,
    ensures
        r == bits_to_nat(bits@),
        r < pow2(bits@.len()),
{
    let n = bits.len();
    let mut acc: usize = 0;
    let mut i: usize = n;
    proof {
        assert(bits@.subrange(n as int, n as int) =~= Seq::<bool>::empty());
        lemma_bits_to_nat_bound(bits@);
        vstd::arithmetic::power2::lemma2_to64();
    }
    while i > 0
        invariant
            i <= n,
            n == bits@.len() <= 31,
            acc == bits_to_nat(bits@.subrange(i as int, n as int)),
            acc < pow2((n - i) as nat),
        decreases i,
    {
        i = i - 1;
        proof {
            lemma_bits_to_nat_step(bits@, i as int);
            lemma_pow2_unfold((n - i) as nat);
            if (n - i) < 32 {
                vstd::arithmetic::power2::lemma_pow2_strictly_increases((n - i) as nat, 32);
            }
            vstd::arithmetic::power2::lemma2_to64();
        }
        acc = 2 * acc + (if bits[i] {
            1
        } else {
            0
        });
    }
    proof {
        assert(bits@.subrange(0, n as int) =~= bits@);
    }
    acc
}

/// The `k`-bit reversal of `i`, for small widths.
pub fn bit_reverse(i: usize, k: usize) -> (r: usize)
    requires
        k <= 31,
    ensures
        r == bitrev(i as nat, k as nat),
        r < pow2(k as nat),
{
    let mut r: usize = 0;
    let mut m: usize = i;
    let mut t: usize = 0;
    proof {
        lemma_bitrev_bound(i as nat, k as nat);
        vstd::arithmetic::power2::lemma2_to64();
        assert(r * pow2(k as nat) == 0);
    }
    while t < k
        invariant
            t <= k <= 31,
            r < pow2(t as nat),
            bitrev(i as nat, k as nat) == r * pow2((k - t) as nat) + bitrev(
                m as nat,
                (k - t) as nat,
            ),
        decreases k - t,
    {
        proof {
            lemma_pow2_unfold((k - t) as nat);
            lemma_pow2_unfold((t + 1) as nat);
            let kk = (k - t - 1) as nat;
            assert(bitrev(m as nat, (k - t) as nat) == (m as nat % 2) * pow2(kk) + bitrev(
                (m / 2) as nat,
                kk,
            ));
            let b = (m % 2) as int;
            assert(r * (2 * pow2(kk)) + b * pow2(kk) == (2 * r + b) * pow2(kk))
                by (nonlinear_arith);
            vstd::arithmetic::power2::lemma_pow2_strictly_increases(t as nat, 32);
            vstd::arithmetic::power2::lemma2_to64();
        }
        r = 2 * r + m % 2;
        m = m / 2;
        t = t + 1;
    }
    proof {
        vstd::arithmetic::power2::lemma2_to64();
        assert(bitrev(m as nat, (k - t) as nat) == 0);
        assert((r as int) * pow2((k - t) as nat) == r as int) by (nonlinear_arith)
            requires
                pow2((k - t) as nat) == 1,
        ;
    }
    r
}

/// The floor of the base-two logarithm.
pub open spec fn log2i(n: nat) -> nat
    decreases n,
{
    if n <= 1 {
        0
    } else {
        1 + log2i(n / 2)
    }
}

pub proof fn lemma_log2i_le(n: nat)
    ensures
        log2i(n) <= n,
    decreases n,
{
    if n > 1 {
        lemma_log2i_le(n / 2);
    }
}

/// The exact base-two logarithm of a power of two.
pub fn log2_exact(n: usize) -> (r: usize)
    requires
        n >= 1,
        pow2(log2i(n as nat)) == n,
    ensures
        r == log2i(n as nat),
        pow2(r as nat) == n,
{
    let mut m: usize = n;
    let mut l: usize = 0;
    while m > 1
        invariant
            1 <= m <= n,
            pow2(log2i(m as nat)) == m,
            log2i(n as nat) == l + log2i(m as nat),
            l <= log2i(n as nat),
        decreases m,
    {
        proof {
            lemma_log2i_le(n as nat);
            let e = log2i(m as nat);
            assert(e >= 1);
            lemma_pow2_unfold(e);
            assert(m % 2 == 0);
            assert(log2i(m as nat) == 1 + log2i((m / 2) as nat));
        }
        m = m / 2;
        l = l + 1;
    }
    proof {
        assert(log2i(m as nat) == 0);
    }
    l
}

/// `2^k` as a machine integer, the size of a coset.
pub fn pow2_usize(k: usize) -> (r: usize)
    requires
        k <= 31,
    ensures
        r == pow2(k as nat),
        r >= 1,
{
    let mut s: usize = 1;
    let mut t: usize = 0;
    proof {
        vstd::arithmetic::power2::lemma2_to64();
    }
    while t < k
        invariant
            t <= k <= 31,
            s == pow2(t as nat),
        decreases k - t,
    {
        proof {
            lemma_pow2_unfold((t + 1) as nat);
            vstd::arithmetic::power2::lemma_pow2_strictly_increases(t as nat, 31);
            vstd::arithmetic::power2::lemma2_to64();
        }
        s = 2 * s;
        t = t + 1;
    }
    s
}

/// Drops the `k` low bits of a natural index, as folding one layer does.
pub fn drop_low_bits(bits: &Vec<bool>, k: usize) -> (r: Vec<bool>)
    requires
        k <= bits.len(),
    ensures
        r@ == bits@.subrange(k as int, bits@.len() as int),
{
    let mut r: Vec<bool> = Vec::new();
    let mut i: usize = k;
    while i < bits.len()
        invariant
            k <= i <= bits@.len(),
            r@ =~= bits@.subrange(k as int, i as int),
        decreases bits@.len() - i,
    {
        r.push(bits[i]);
        i = i + 1;
    }
    proof {
        assert(r@ =~= bits@.subrange(k as int, bits@.len() as int));
    }
    r
}

} // verus!
