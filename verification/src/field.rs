//! Arithmetic in the prime field used for all circuit values.
//!
//! The modulus is the 64-bit FRI-friendly prime `2^64 - 2^32 + 1`, whose
//! multiplicative group contains a subgroup of order `2^32`, so every
//! power-of-two evaluation domain up to that size has a generator.

use vstd::arithmetic::div_mod::{
    lemma_mul_mod_noop_general, lemma_small_mod,
};
use vstd::arithmetic::power2::{lemma_pow2_adds, lemma_pow2_unfold, pow2};
use vstd::prelude::*;

verus! {

/// The field modulus `2^64 - 2^32 + 1`.
pub const P: u64 = 0xFFFF_FFFF_0000_0001;

/// A generator of the multiplicative subgroup of order `2^32`.
pub const ROOT_OF_UNITY_2_32: u64 = 1753635133440165772;

/// Field addition.
pub open spec fn fadd(a: u64, b: u64) -> u64 {
    (((a + b) % (P as int))) as u64
}

/// Field subtraction.
pub open spec fn fsub(a: u64, b: u64) -> u64 {
    (((a + P - b) % (P as int))) as u64
}

/// Field multiplication.
pub open spec fn fmul(a: u64, b: u64) -> u64 {
    (((a * b) % (P as int))) as u64
}

/// Field exponentiation by a natural exponent.
pub open spec fn fpow(b: u64, e: nat) -> u64
    decreases e,
{
    if e == 0 {
        1u64
    } else {
        fmul(b, fpow(b, (e - 1) as nat))
    }
}

/// The multiplicative inverse as computed by Fermat exponentiation; the
/// inverse of zero does not exist, and callers must test for zero first.
pub open spec fn finv(a: u64) -> u64 {
    fpow(a, (P - 2) as nat)
}

/// Every element of a sequence is a reduced field element.
pub open spec fn all_fe(s: Seq<u64>) -> bool {
    forall|i: int| 0 <= i < s.len() ==> s[i] < P
}

pub proof fn lemma_fmul_bound(a: u64, b: u64)
    ensures
        fmul(a, b) < P,
{
}

pub proof fn lemma_fmul_one(a: u64)
    requires
        a < P,
    ensures
        fmul(a, 1) == a,
        fmul(1, a) == a,
{
    lemma_small_mod(a as nat, P as nat);
}

pub proof fn lemma_fmul_comm(a: u64, b: u64)
    ensures
        fmul(a, b) == fmul(b, a),
{
}

pub proof fn lemma_fmul_assoc(a: u64, b: u64, c: u64)
    ensures
        fmul(fmul(a, b), c) == fmul(a, fmul(b, c)),
{
    let p = P as int;
    lemma_mul_mod_noop_general(a as int, b as int, p);
    lemma_mul_mod_noop_general((a * b) as int, c as int, p);
    lemma_mul_mod_noop_general(b as int, c as int, p);
    lemma_mul_mod_noop_general(a as int, (b * c) as int, p);
    assert((a * b) * c == a * (b * c)) by (nonlinear_arith);
    assert(((a * b) % p * c) % p == ((a * b) * c) % p);
    assert((a * ((b * c) % p)) % p == (a * (b * c)) % p);
}

pub proof fn lemma_fpow_bound(b: u64, e: nat)
    requires
        b < P,
    ensures
        fpow(b, e) < P,
    decreases e,
{
    if e > 0 {
        lemma_fpow_bound(b, (e - 1) as nat);
        lemma_fmul_bound(b, fpow(b, (e - 1) as nat));
    }
}

pub proof fn lemma_fpow_add(b: u64, e1: nat, e2: nat)
    requires
        b < P,
    ensures
        fpow(b, e1 + e2) == fmul(fpow(b, e1), fpow(b, e2)),
    decreases e1,
{
    lemma_fpow_bound(b, e2);
    if e1 == 0 {
        lemma_fmul_one(fpow(b, e2));
    } else {
        lemma_fpow_add(b, (e1 - 1) as nat, e2);
        lemma_fmul_assoc(b, fpow(b, (e1 - 1) as nat), fpow(b, e2));
        assert(fpow(b, e1 + e2) == fmul(b, fpow(b, (e1 + e2 - 1) as nat)));
    }
}

pub proof fn lemma_fpow_square(b: u64, e: nat)
    requires
        b < P,
    ensures
        fpow(fmul(b, b), e) == fpow(b, 2 * e),
    decreases e,
{
    if e > 0 {
        lemma_fpow_square(b, (e - 1) as nat);
        lemma_fpow_add(b, 1, 1);
        assert(fpow(b, 0) == 1);
        assert(fpow(b, 1) == fmul(b, 1));
        lemma_fmul_one(b);
        lemma_fmul_bound(b, b);
        lemma_fpow_add(b, 2, (2 * e - 2) as nat);
        lemma_fpow_bound(b, (2 * e - 2) as nat);
        lemma_fmul_assoc(b, b, fpow(b, (2 * e - 2) as nat));
    }
}

pub proof fn lemma_fpow_fpow(b: u64, e1: nat, e2: nat)
    requires
        b < P,
    ensures
        fpow(fpow(b, e1), e2) == fpow(b, e1 * e2),
    decreases e2,
{
    lemma_fpow_bound(b, e1);
    if e2 == 0 {
    } else {
        lemma_fpow_fpow(b, e1, (e2 - 1) as nat);
        lemma_fpow_add(b, e1, e1 * (e2 - 1) as nat);
        assert(e1 + e1 * (e2 - 1) == e1 * e2) by (nonlinear_arith);
    }
}

/// Field addition of reduced elements.
pub fn fe_add(a: u64, b: u64) -> (r: u64)
    requires
        a < P,
        b < P,
    ensures
        r == fadd(a, b),
        r < P,
{
    let s: u128 = a as u128 + b as u128;
    let m: u128 = s % (P as u128);
    m as u64
}

/// Field subtraction of reduced elements.
pub fn fe_sub(a: u64, b: u64) -> (r: u64)
    requires
        a < P,
        b < P,
    ensures
        r == fsub(a, b),
        r < P,
{
    let s: u128 = a as u128 + P as u128 - b as u128;
    let m: u128 = s % (P as u128);
    m as u64
}

/// Field multiplication of reduced elements.
pub fn fe_mul(a: u64, b: u64) -> (r: u64)
    requires
        a < P,
        b < P,
    ensures
        r == fmul(a, b),
        r < P,
{
    proof {
        assert((a as int) * (b as int) <= (0xFFFF_FFFF_FFFF_FFFF as int) * (
        0xFFFF_FFFF_FFFF_FFFF as int)) by (nonlinear_arith)
            requires
                a <= 0xFFFF_FFFF_FFFF_FFFFu64,
                b <= 0xFFFF_FFFF_FFFF_FFFFu64,
        ;
    }
    let s: u128 = a as u128 * b as u128;
    let m: u128 = s % (P as u128);
    m as u64
}

/// Field exponentiation by square-and-multiply.
pub fn fe_pow(b: u64, e: u64) -> (r: u64)
    requires
        b < P,
    ensures
        r == fpow(b, e as nat),
        r < P,
{
    let mut acc: u64 = 1;
    let mut base: u64 = b;
    let mut rem: u64 = e;
    proof {
        lemma_fmul_one(fpow(b, e as nat));
        lemma_fpow_bound(b, e as nat);
    }
    while rem > 0
        invariant
            acc < P,
            base < P,
            fmul(acc, fpow(base, rem as nat)) == fpow(b, e as nat),
        decreases rem,
    {
        proof {
            lemma_fpow_even_odd(base, rem as nat);
            lemma_fpow_bound(base, (rem / 2) as nat);
            lemma_fpow_bound(fmul(base, base), (rem / 2) as nat);
            if rem % 2 == 1 {
                lemma_fmul_assoc(acc, base, fpow(fmul(base, base), (rem / 2) as nat));
            }
        }
        if rem % 2 == 1 {
            acc = fe_mul(acc, base);
        }
        base = fe_mul(base, base);
        rem = rem / 2;
    }
    proof {
        lemma_fmul_one(acc);
    }
    acc
}

proof fn lemma_fpow_even_odd(b: u64, e: nat)
    requires
        b < P,
        e > 0,
    ensures
        e % 2 == 0 ==> fpow(b, e) == fpow(fmul(b, b), e / 2),
        e % 2 == 1 ==> fpow(b, e) == fmul(b, fpow(fmul(b, b), e / 2)),
{
    lemma_fpow_square(b, e / 2);
    if e % 2 == 1 {
        assert(e == 2 * (e / 2) + 1);
        assert(fpow(b, (2 * (e / 2) + 1) as nat) == fmul(b, fpow(b, 2 * (e / 2))));
    }
}

/// Field exponentiation by an exponent given as bits, least significant
/// first, as a constrained natural index is.
pub fn fe_pow_bits(b: u64, bits: &Vec<bool>) -> (r: u64)
    requires
        b < P,
    ensures
        r == fpow(b, crate::bits::bits_to_nat(bits@)),
        r < P,
{
    let n = bits.len();
    let mut acc: u64 = 1;
    let mut i: usize = n;
    proof {
        assert(bits@.subrange(n as int, n as int) =~= Seq::<bool>::empty());
        assert(crate::bits::bits_to_nat(Seq::<bool>::empty()) == 0);
        assert(fpow(b, 0) == 1);
    }
    while i > 0
        invariant
            i <= n,
            n == bits@.len(),
            b < P,
            acc < P,
            acc == fpow(b, crate::bits::bits_to_nat(bits@.subrange(i as int, n as int))),
        decreases i,
    {
        i = i - 1;
        proof {
            crate::bits::lemma_bits_to_nat_step(bits@, i as int);
            let m = crate::bits::bits_to_nat(bits@.subrange(i + 1, n as int));
            lemma_fpow_add(b, m, m);
            lemma_fpow_add(b, 2 * m, 1);
            assert(fpow(b, 1) == fmul(b, fpow(b, 0)));
            assert(fpow(b, 0) == 1);
            lemma_fmul_one(b);
            lemma_fpow_bound(b, 2 * m);
            lemma_fmul_comm(fpow(b, 2 * m), b);
        }
        acc = fe_mul(acc, acc);
        if bits[i] {
            acc = fe_mul(acc, b);
        }
    }
    proof {
        assert(bits@.subrange(0, n as int) =~= bits@);
    }
    acc
}

/// The multiplicative inverse by Fermat exponentiation.  The caller must
/// rule out zero, whose inverse does not exist.
pub fn fe_inv(a: u64) -> (r: u64)
    requires
        a < P,
    ensures
        r == finv(a),
        r < P,
{
    fe_pow(a, P - 2)
}

/// `2^t` raised in the exponent: squares `b` a total of `t` times.
pub fn fe_pow_pow2(b: u64, t: usize) -> (r: u64)
    requires
        b < P,
    ensures
        r == fpow(b, pow2(t as nat)),
        r < P,
{
    let mut cur: u64 = b;
    let mut i: usize = 0;
    proof {
        lemma_fmul_one(b);
        vstd::arithmetic::power2::lemma2_to64();
        assert(fpow(b, 1) == fmul(b, fpow(b, 0)));
    }
    while i < t
        invariant
            b < P,
            cur < P,
            i <= t,
            cur == fpow(b, pow2(i as nat)),
        decreases t - i,
    {
        proof {
            lemma_fpow_add(b, pow2(i as nat), pow2(i as nat));
            lemma_pow2_unfold((i + 1) as nat);
            lemma_pow2_adds(i as nat, 1);
            vstd::arithmetic::power2::lemma2_to64();
        }
        cur = fe_mul(cur, cur);
        i = i + 1;
    }
    cur
}

/// The generator of the evaluation domain of size `2^log_size`, obtained
/// from the fixed order-`2^32` root of unity.
pub fn domain_generator(log_size: usize) -> (r: u64)
    requires
        log_size <= 32,
    ensures
        r == fpow(ROOT_OF_UNITY_2_32, pow2((32 - log_size) as nat)),
        r < P,
{
    fe_pow_pow2(ROOT_OF_UNITY_2_32, 32 - log_size)
}

} // verus!
