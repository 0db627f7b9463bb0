//! The oracle verification capability.
//!
//! The verifier consumes commitments through this abstract interface: any
//! scheme that can check an opening proof of a coset of values against a
//! commitment, for a given domain size and coset index, is pluggable.

use crate::bits::bits_to_nat;
use crate::field::{fadd, fe_add, fe_mul, fmul, P};
use vstd::prelude::*;

verus! {

/// A set of opened values for one coset together with the opening proof
/// binding them to a layer commitment.
pub struct Query<I: OracleGadget> {
    /// The opened coset contents, one field element per position.
    pub values: Vec<u64>,
    /// The opening proof for those values.
    pub proof: I::Proof,
}

/// An opening-proof checker for one commitment scheme.
///
/// `validate_spec` is the scheme's mathematical acceptance relation; the
/// executable `validate` must decide exactly it, so that verification is
/// deterministic and the verifier's own contract can speak about it.
pub trait OracleGadget: Sized {
    /// Static scheme parameters.
    type Params;
    /// The binding value published for one layer.
    type Commitment;
    /// An opening proof for one coset.
    type Proof;

    /// The oracle an instantiation with these parameters yields.
    spec fn from_params_spec(params: &Self::Params) -> Self;

    /// The acceptance relation of the scheme.
    spec fn validate_spec(
        &self,
        log_domain_size: nat,
        values: Seq<u64>,
        coset_idx: Seq<bool>,
        commitment: Self::Commitment,
        proof: Self::Proof,
    ) -> bool;

    /// Instantiates the scheme from its parameters.
    fn new(params: &Self::Params) -> (r: Self)
        ensures
            r == Self::from_params_spec(params),
    ;

    /// Checks an opening proof of `values` as the contents of the coset
    /// named by `coset_idx` under `commitment`, for the given domain
    /// size.  Non-membership is a `false` result, never an abort.
    fn validate(
        &self,
        log_domain_size: usize,
        values: &Vec<u64>,
        coset_idx: &Vec<bool>,
        commitment: &Self::Commitment,
        proof: &Self::Proof,
    ) -> (r: bool)
        requires
            log_domain_size <= 31,
            coset_idx@.len() <= 31,
        ensures
            r == self.validate_spec(
                log_domain_size as nat,
                values@,
                coset_idx@,
                *commitment,
                *proof,
            ),
    ;
}

/// The mixing base of the plain digest below.
pub const DIGEST_BASE: u64 = 0x1_0000_001B;

/// One absorption step of the plain digest.
pub open spec fn digest_step(acc: u64, x: u64) -> u64 {
    fadd(fmul(acc, DIGEST_BASE), x)
}

/// The plain digest of a value sequence, absorbed left to right.
pub open spec fn digest_values(s: Seq<u64>, acc: u64) -> u64
    decreases s.len(),
{
    if s.len() == 0 {
        acc
    } else {
        digest_values(s.drop_first(), digest_step(acc, s[0]))
    }
}

/// The commitment a [`PlainOracle`] expects for coset `coset_idx` of a
/// domain of size `2^log_domain_size` holding `values`.
pub open spec fn plain_digest(log_domain_size: nat, values: Seq<u64>, coset_idx: Seq<bool>) -> u64 {
    digest_step(
        digest_step(digest_values(values, 0), (bits_to_nat(coset_idx) % (P as nat)) as u64),
        (log_domain_size % (P as nat)) as u64,
    )
}

/// A structural oracle: the commitment is a field digest of the opened
/// coset, its index and the domain size, and the opening proof is empty.
/// It exercises the full verification pipeline but is not hiding or
/// binding; production deployments plug in a real commitment scheme.
pub struct PlainOracle {
    /// No state beyond the scheme itself.
    pub marker: bool,
}

impl OracleGadget for PlainOracle {
    type Params = bool;

    type Commitment = u64;

    type Proof = bool;

    open spec fn from_params_spec(params: &bool) -> Self {
        PlainOracle { marker: true }
    }

    open spec fn validate_spec(
        &self,
        log_domain_size: nat,
        values: Seq<u64>,
        coset_idx: Seq<bool>,
        commitment: u64,
        proof: bool,
    ) -> bool {
        commitment == plain_digest(log_domain_size, values, coset_idx)
    }

    fn new(params: &bool) -> (r: Self) {
        PlainOracle { marker: true }
    }

    fn validate(
        &self,
        log_domain_size: usize,
        values: &Vec<u64>,
        coset_idx: &Vec<bool>,
        commitment: &u64,
        proof: &bool,
    ) -> (r: bool) {
        let d = plain_commit(log_domain_size, values, coset_idx);
        *commitment == d
    }
}

/// Computes the commitment a [`PlainOracle`] accepts; provers and tests
/// build layer commitments with it.
pub fn plain_commit(log_domain_size: usize, values: &Vec<u64>, coset_idx: &Vec<bool>) -> (r: u64)
    requires
        log_domain_size <= 31,
        coset_idx.len() <= 31,
    ensures
        r == plain_digest(log_domain_size as nat, values@, coset_idx@),
        r < P,
{
    let n = values.len();
    let mut acc: u64 = 0;
    let mut i: usize = 0;
    proof {
        assert(values@.subrange(0, n as int) =~= values@);
    }
    while i < n
        invariant
            i <= n,
            n == values@.len(),
            acc < P,
            digest_values(values@.subrange(i as int, n as int), acc) == digest_values(values@, 0),
        decreases n - i,
    {
        proof {
            let tail = values@.subrange(i as int, n as int);
            assert(tail.drop_first() =~= values@.subrange(i + 1, n as int));
            assert(tail[0] == values@[i as int]);
        }
        let x = values[i];
        let xr = if x >= P {
            x % P
        } else {
            x
        };
        let m = fe_mul(acc, DIGEST_BASE);
        proof {
            vstd::arithmetic::div_mod::lemma_add_mod_noop(m as int, x as int, P as int);
            vstd::arithmetic::div_mod::lemma_small_mod(m as nat, P as nat);
            if x < P {
                vstd::arithmetic::div_mod::lemma_small_mod(x as nat, P as nat);
            }
            assert(fadd(m, xr) == fadd(m, x));
        }
        acc = fe_add(m, xr);
        i = i + 1;
    }
    let idx = crate::bits::bits_to_usize(coset_idx);
    proof {
        if coset_idx@.len() < 32 {
            vstd::arithmetic::power2::lemma_pow2_strictly_increases(coset_idx@.len(), 32);
        }
        vstd::arithmetic::power2::lemma2_to64();
        vstd::arithmetic::div_mod::lemma_small_mod(idx as nat, P as nat);
        vstd::arithmetic::div_mod::lemma_small_mod(log_domain_size as nat, P as nat);
    }
    let acc2 = fe_add(fe_mul(acc, DIGEST_BASE), idx as u64);
    let acc3 = fe_add(fe_mul(acc2, DIGEST_BASE), log_domain_size as u64);
    acc3
}

} // verus!
