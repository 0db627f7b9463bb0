//! Domain and coset utility for the FRI folding rounds.
//!
//! Tracks the active evaluation domain (its log-size and generator) while
//! the verifier folds layer by layer, derives coset indices and offsets
//! from a natural index, computes the combiner evaluation points of a
//! coset, and interpolates opened coset values at a random challenge.

use crate::bits::{bit_reverse, bits_to_nat, bits_to_usize, pow2_usize};
use crate::errors::FriError;
use crate::field::{
    fadd, fe_add, fe_inv, fe_mul, fe_pow, fe_pow_bits, fe_pow_pow2, fe_sub, finv, fmul, fpow,
    fsub, P,
};
use vstd::arithmetic::power2::pow2;
use vstd::prelude::*;

verus! {

/// The common factor of a coset's evaluation points: the domain generator
/// raised to the coset index.
pub open spec fn coset_omega(omega: u64, coset_idx: Seq<bool>) -> u64 {
    fpow(omega, bits_to_nat(coset_idx))
}

/// The generator of the subgroup of coset constants: the domain generator
/// raised to `2^(log_domain_size - collapsing_factor)`.
pub open spec fn coset_constants_base(omega: u64, log: nat, k: nat) -> u64 {
    fpow(omega, pow2((log - k) as nat))
}

/// The evaluation point of position `i` in a coset: domain points are laid
/// out in bit-reversed order, so position `i` sits at the coset's common
/// factor times the constants base raised to the bit-reversal of `i`.
pub open spec fn eval_point(omega: u64, log: nat, k: nat, coset_idx: Seq<bool>, i: int) -> u64 {
    fmul(coset_omega(omega, coset_idx), fpow(coset_constants_base(omega, log, k), bitrev_at(i, k)))
}

/// The bit-reversal of a coset position, as a natural number.
pub open spec fn bitrev_at(i: int, k: nat) -> nat {
    crate::bits::bitrev(i as nat, k)
}

/// All `2^k` evaluation points of a coset.
pub open spec fn eval_points(omega: u64, log: nat, k: nat, coset_idx: Seq<bool>) -> Seq<u64> {
    Seq::new(pow2(k), |i: int| eval_point(omega, log, k, coset_idx, i))
}

/// Product of `(z - x_j)` over positions `j >= j0` other than `i`.
pub open spec fn lag_num(points: Seq<u64>, i: int, z: u64, j: int) -> u64
    decreases points.len() - j,
{
    if j < 0 || j >= points.len() {
        1u64
    } else if j == i {
        lag_num(points, i, z, j + 1)
    } else {
        fmul(fsub(z, points[j]), lag_num(points, i, z, j + 1))
    }
}

/// Product of `(x_i - x_j)` over positions `j >= j0` other than `i`.
pub open spec fn lag_den(points: Seq<u64>, i: int, j: int) -> u64
    decreases points.len() - j,
{
    if j < 0 || j >= points.len() {
        1u64
    } else if j == i {
        lag_den(points, i, j + 1)
    } else {
        fmul(fsub(points[i], points[j]), lag_den(points, i, j + 1))
    }
}

/// Point `i` differs from every other point, so its Lagrange denominator
/// has an inverse.
pub open spec fn lag_den_nonzero(points: Seq<u64>, i: int) -> bool {
    forall|j: int| 0 <= j < points.len() && j != i ==> fsub(points[i], points[j]) != 0
}

/// All points are pairwise distinct: interpolation is defined.
pub open spec fn lag_defined(points: Seq<u64>) -> bool {
    forall|i: int| 0 <= i < points.len() ==> lag_den_nonzero(points, i)
}

/// One Lagrange term: `v_i * num_i * den_i^(-1)`.
pub open spec fn lag_term(points: Seq<u64>, values: Seq<u64>, z: u64, i: int) -> u64 {
    fmul(values[i], fmul(lag_num(points, i, z, 0), finv(lag_den(points, i, 0))))
}

/// Sum of the Lagrange terms from position `i` on.
pub open spec fn lag_sum(points: Seq<u64>, values: Seq<u64>, z: u64, i: int) -> u64
    decreases points.len() - i,
{
    if i < 0 || i >= points.len() {
        0u64
    } else {
        fadd(lag_term(points, values, z, i), lag_sum(points, values, z, i + 1))
    }
}

/// The unique interpolant of `values` over `points`, evaluated at `z`,
/// written out as the Lagrange sum.
pub open spec fn lagrange(points: Seq<u64>, values: Seq<u64>, z: u64) -> u64 {
    lag_sum(points, values, z, 0)
}

/// Tracks the active evaluation domain across folding rounds.  One
/// instance serves exactly one query round and is freshly initialized for
/// the next; rounds never share an instance.
pub struct FriUtilsGadget {
    /// Log2 of the current domain size; strictly shrinks as layers fold.
    pub log_domain_size: usize,
    /// Bits folded per round; the coset size is `2^collapsing_factor`.
    pub collapsing_factor: usize,
    /// Generator of the current domain.
    pub omega: u64,
}

impl FriUtilsGadget {
    /// Structural bounds that every domain state keeps.
    pub open spec fn wf(self) -> bool {
        self.omega < P && self.collapsing_factor <= 20 && self.log_domain_size <= 32
    }

    /// The size of one opened coset.
    pub open spec fn coset_size(self) -> nat {
        pow2(self.collapsing_factor as nat)
    }

    pub fn new(log_domain_size: usize, collapsing_factor: usize, omega: u64) -> (r: Self)
        requires
            omega < P,
            collapsing_factor <= 20,
            collapsing_factor <= log_domain_size,
            log_domain_size <= 32,
        ensures
            r.log_domain_size == log_domain_size,
            r.collapsing_factor == collapsing_factor,
            r.omega == omega,
            r.wf(),
    {
        FriUtilsGadget { log_domain_size, collapsing_factor, omega }
    }

    pub fn get_log_domain_size(&self) -> (r: usize)
        ensures
            r == self.log_domain_size,
    {
        self.log_domain_size
    }

    pub fn get_coset_size(&self) -> (r: usize)
        requires
            self.wf(),
        ensures
            r == self.coset_size(),
            r >= 1,
    {
        pow2_usize(self.collapsing_factor)
    }

    /// The coset index for a natural index under the current domain: all
    /// but the lowest `collapsing_factor` bits.
    pub fn get_coset_idx_for_natural_index(&self, natural_index: &Vec<bool>) -> (r: Vec<bool>)
        requires
            self.collapsing_factor <= natural_index.len(),
            natural_index.len() == self.log_domain_size,
        ensures
            r@ == natural_index@.subrange(
                self.collapsing_factor as int,
                self.log_domain_size as int,
            ),
    {
        crate::bits::drop_low_bits(natural_index, self.collapsing_factor)
    }

    /// The position within the coset for a natural index: the lowest
    /// `collapsing_factor` bits.
    pub fn get_coset_offset_for_natural_index(&self, natural_index: &Vec<bool>) -> (r: Vec<bool>)
        requires
            self.collapsing_factor <= natural_index.len(),
        ensures
            r@ == natural_index@.subrange(0, self.collapsing_factor as int),
    {
        let mut r: Vec<bool> = Vec::new();
        let mut i: usize = 0;
        while i < self.collapsing_factor
            invariant
                i <= self.collapsing_factor <= natural_index@.len(),
                r@ =~= natural_index@.subrange(0, i as int),
            decreases self.collapsing_factor - i,
        {
            r.push(natural_index[i]);
            i = i + 1;
        }
        proof {
            assert(r@ =~= natural_index@.subrange(0, self.collapsing_factor as int));
        }
        r
    }

    /// Shrinks the domain by one folding step: the log-size drops by the
    /// collapsing factor and the generator is raised to the coset size.
    pub fn next_domain(&mut self)
        requires
            old(self).wf(),
            old(self).collapsing_factor <= old(self).log_domain_size,
        ensures
            final(self).wf(),
            final(self).collapsing_factor == old(self).collapsing_factor,
            final(self).log_domain_size == old(self).log_domain_size - old(
                self,
            ).collapsing_factor,
            final(self).omega == fpow(old(self).omega, pow2(old(self).collapsing_factor as nat)),
    {
        let om = fe_pow_pow2(self.omega, self.collapsing_factor);
        self.omega = om;
        self.log_domain_size = self.log_domain_size - self.collapsing_factor;
    }

    /// The generator used to evaluate the final polynomial, once the
    /// domain has shrunk to the bottom layer.
    pub fn get_bottom_layer_omega(&self) -> (r: u64)
        ensures
            r == self.omega,
    {
        self.omega
    }

    /// The evaluation points of the coset picked by `coset_idx`: only the
    /// common factor needs a constrained exponentiation, each position
    /// then multiplies it by a constant derived from the bit-reversal of
    /// the position.
    pub fn get_combiner_eval_points(&self, coset_idx: &Vec<bool>) -> (r: Vec<u64>)
        requires
            self.wf(),
            self.collapsing_factor <= self.log_domain_size,
            coset_idx.len() == self.log_domain_size - self.collapsing_factor,
        ensures
            r@ == eval_points(
                self.omega,
                self.log_domain_size as nat,
                self.collapsing_factor as nat,
                coset_idx@,
            ),
            r@.len() == self.coset_size(),
            crate::field::all_fe(r@),
    {
        let k = self.collapsing_factor;
        let n = pow2_usize(k);
        let comega = fe_pow_bits(self.omega, coset_idx);
        let base = fe_pow_pow2(self.omega, self.log_domain_size - k);
        let ghost pts = eval_points(
            self.omega,
            self.log_domain_size as nat,
            self.collapsing_factor as nat,
            coset_idx@,
        );
        let mut r: Vec<u64> = Vec::new();
        let mut i: usize = 0;
        while i < n
            invariant
                i <= n,
                n == pow2(k as nat),
                k <= 31,
                comega == coset_omega(self.omega, coset_idx@),
                comega < P,
                base == coset_constants_base(
                    self.omega,
                    self.log_domain_size as nat,
                    self.collapsing_factor as nat,
                ),
                base < P,
                pts == eval_points(
                    self.omega,
                    self.log_domain_size as nat,
                    self.collapsing_factor as nat,
                    coset_idx@,
                ),
                k == self.collapsing_factor,
                r@.len() == i,
                forall|j: int| 0 <= j < i ==> r@[j] == pts[j] && r@[j] < P,
            decreases n - i,
        {
            let rev = bit_reverse(i, k);
            let c = fe_pow(base, rev as u64);
            let x = fe_mul(comega, c);
            r.push(x);
            i = i + 1;
        }
        proof {
            assert(r@ =~= pts);
        }
        r
    }

    /// Returns the single value at the coset position named by the offset
    /// bits: a multiplexer over the opened coset.
    pub fn choose_element_in_coset(&self, values: &Vec<u64>, offset: &Vec<bool>) -> (r: u64)
        requires
            offset.len() <= 31,
            values.len() == pow2(offset@.len()),
        ensures
            r == values@[bits_to_nat(offset@) as int],
    {
        let idx = bits_to_usize(offset);
        values[idx]
    }

    /// Evaluates the unique interpolant of the opened coset values at the
    /// first challenge of this fold step's chunk.  Fails only when two
    /// coset points coincide, which no valid domain produces.
    #[verifier::loop_isolation(false)]
    pub fn coset_interpolation_value(
        &self,
        values: &Vec<u64>,
        coset_idx: &Vec<bool>,
        challenges: &Vec<u64>,
    ) -> (r: Result<u64, FriError>)
        requires
            self.wf(),
            self.collapsing_factor <= self.log_domain_size,
            coset_idx.len() == self.log_domain_size - self.collapsing_factor,
            values.len() == self.coset_size(),
            crate::field::all_fe(values@),
            challenges.len() == self.coset_size(),
            crate::field::all_fe(challenges@),
        ensures
            ({
                let pts = eval_points(
                    self.omega,
                    self.log_domain_size as nat,
                    self.collapsing_factor as nat,
                    coset_idx@,
                );
                match r {
                    Ok(v) => lag_defined(pts) && v == lagrange(pts, values@, challenges@[0])
                        && v < P,
                    Err(e) => e == FriError::InversionError && !lag_defined(pts),
                }
            }),
    {
        proof {
            vstd::arithmetic::power2::lemma_pow2_pos(self.collapsing_factor as nat);
        }
        let pts = self.get_combiner_eval_points(coset_idx);
        let z = challenges[0];
        let n = values.len();
        let mut sum: u64 = 0;
        let mut i: usize = n;
        proof {
            assert(lag_sum(pts@, values@, z, n as int) == 0);
        }
        while i > 0
            invariant
                i <= n,
                sum < P,
                sum == lag_sum(pts@, values@, z, i as int),
                forall|t: int| i <= t < n ==> lag_den_nonzero(pts@, t),
            decreases i,
        {
            i = i - 1;
            let mut num: u64 = 1;
            let mut j: usize = n;
            proof {
                assert(lag_num(pts@, i as int, z, n as int) == 1);
            }
            while j > 0
                invariant
                    j <= n,
                    num < P,
                    num == lag_num(pts@, i as int, z, j as int),
                decreases j,
            {
                j = j - 1;
                if j != i {
                    num = fe_mul(fe_sub(z, pts[j]), num);
                }
            }
            let mut den: u64 = 1;
            let mut j2: usize = n;
            proof {
                assert(lag_den(pts@, i as int, n as int) == 1);
            }
            while j2 > 0
                invariant
                    j2 <= n,
                    den < P,
                    den == lag_den(pts@, i as int, j2 as int),
                    forall|t: int|
                        j2 <= t < n && t != i ==> fsub(pts@[i as int], pts@[t]) != 0,
                decreases j2,
            {
                j2 = j2 - 1;
                if j2 != i {
                    let d = fe_sub(pts[i], pts[j2]);
                    if d == 0 {
                        proof {
                            assert(!lag_den_nonzero(pts@, i as int));
                        }
                        return Err(FriError::InversionError);
                    }
                    den = fe_mul(d, den);
                }
            }
            proof {
                assert(lag_den_nonzero(pts@, i as int));
            }
            let term = fe_mul(values[i], fe_mul(num, fe_inv(den)));
            sum = fe_add(term, sum);
        }
        Ok(sum)
    }
}

} // verus!
