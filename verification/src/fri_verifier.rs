//! The FRI verifier: one query round and the full proof.
//!
//! A round validates the oracle openings of every layer, batches the
//! topmost committed polynomials through the caller-supplied combiner,
//! folds layer by layer via coset interpolation at the round challenges,
//! and compares the last folded value with the published final polynomial.
//! The full proof is the conjunction of all query rounds.

use crate::bits::bits_to_nat;
use crate::errors::FriError;
use crate::field::{all_fe, fadd, fe_add, fe_mul, fe_pow_bits, fmul, fpow, P};
use crate::fri_utils::{eval_points, lag_defined, lagrange, FriUtilsGadget};
use crate::oracles::{OracleGadget, Query};
use vstd::arithmetic::power2::pow2;
use vstd::prelude::*;

verus! {

/// Identifies which committed polynomial a value or commitment belongs to.
pub type Label = u64;

/// The label reserved for the evaluation-point argument handed to the
/// combiner; no committed polynomial may use it.
pub const EV_P_LABEL: Label = 0x6576_5F70;

/// A value paired with the label of the committed polynomial it belongs
/// to.
pub struct Labeled<T> {
    /// Which committed polynomial this belongs to.
    pub label: Label,
    /// The payload.
    pub data: T,
}

/// The first entry of `s` carrying label `l`, if any.
pub open spec fn find_labeled<T>(s: Seq<Labeled<T>>, l: Label) -> Option<T>
    decreases s.len(),
{
    if s.len() == 0 {
        None
    } else if s[0].label == l {
        Some(s[0].data)
    } else {
        find_labeled(s.drop_first(), l)
    }
}

proof fn lemma_find_labeled_step<T>(s: Seq<Labeled<T>>, l: Label, j: int)
    requires
        0 <= j < s.len(),
    ensures
        s[j].label == l ==> find_labeled(s.subrange(j, s.len() as int), l) == Some(s[j].data),
        s[j].label != l ==> find_labeled(s.subrange(j, s.len() as int), l) == find_labeled(
            s.subrange(j + 1, s.len() as int),
            l,
        ),
{
    let tail = s.subrange(j, s.len() as int);
    assert(tail.drop_first() =~= s.subrange(j + 1, s.len() as int));
    assert(tail[0] == s[j]);
}

/// Finds the index of the first entry of `s` carrying label `l`.
pub fn find_labeled_index<T>(s: &Vec<Labeled<T>>, l: Label) -> (r: Option<usize>)
    ensures
        (match r {
            Some(i) => 0 <= i < s@.len() && s@[i as int].label == l && find_labeled(s@, l)
                == Some(s@[i as int].data),
            None => find_labeled(s@, l) is None,
        }),
{
    let n = s.len();
    let mut j: usize = 0;
    proof {
        assert(s@.subrange(0, n as int) =~= s@);
    }
    while j < n
        invariant
            j <= n,
            n == s@.len(),
            find_labeled(s@, l) == find_labeled(s@.subrange(j as int, n as int), l),
        decreases n - j,
    {
        proof {
            lemma_find_labeled_step(s@, l, j as int);
        }
        if s[j].label == l {
            return Some(j);
        }
        j = j + 1;
    }
    proof {
        assert(s@.subrange(n as int, n as int) =~= Seq::<Labeled<T>>::empty());
    }
    None
}

/// Folds several labeled polynomial evaluations, plus the evaluation
/// point under [`EV_P_LABEL`], into one evaluation.  The strategy must be
/// a pure function of its argument list, which `combine_spec` pins down;
/// it is used only at the transition from the upper layer to the first
/// folding layer.
pub trait CombinerFunction: Sized {
    /// The mathematical combining function; `None` is a rejection of the
    /// argument list.
    spec fn combine_spec(&self, args: Seq<Labeled<u64>>) -> Option<u64>;

    /// Combines one coset position's labeled values.
    fn combine(&self, args: Vec<Labeled<u64>>) -> (r: Result<u64, FriError>)
        ensures
            (match r {
                Ok(v) => self.combine_spec(args@) == Some(v),
                Err(e) => self.combine_spec(args@) is None && e == FriError::CombinerFailure,
            }),
            ((forall|j: int| 0 <= j < args@.len() ==> args@[j].data < P) && r is Ok) ==> r->Ok_0
                < P,
    ;
}

/// A combiner that passes through the value of one chosen label: the
/// batching strategy for a proof over a single committed polynomial.
pub struct SelectCombiner {
    /// The label whose value is handed on.
    pub label: Label,
}

impl CombinerFunction for SelectCombiner {
    open spec fn combine_spec(&self, args: Seq<Labeled<u64>>) -> Option<u64> {
        find_labeled(args, self.label)
    }

    fn combine(&self, args: Vec<Labeled<u64>>) -> (r: Result<u64, FriError>) {
        let found = find_labeled_index(&args, self.label);
        match found {
            Some(i) => Ok(args[i].data),
            None => Err(FriError::CombinerFailure),
        }
    }
}

/// One query round's proof data: the labeled openings of the committed
/// input polynomials, one opening per folding layer, and the natural
/// index (a bit sequence, least significant bit first) the round is
/// anchored to.  Rounds are independent; none shares state with another.
pub struct FriSingleQueryRoundData<I: OracleGadget> {
    /// One labeled opening per committed input polynomial.
    pub upper_layer_queries: Vec<Labeled<Query<I>>>,
    /// One opening per folding layer, outermost first.
    pub queries: Vec<Query<I>>,
    /// The initial-domain position this round queries, as bits.
    pub natural_first_element_index: Vec<bool>,
}

/// Log-size of the domain after `t` fold steps.
pub open spec fn layer_log(log0: nat, k: nat, t: nat) -> nat {
    (log0 - t * k) as nat
}

/// Generator of the domain after `t` fold steps.
pub open spec fn layer_omega(omega0: u64, k: nat, t: nat) -> u64 {
    if t == 0 {
        omega0
    } else {
        fpow(omega0, pow2(t * k))
    }
}

/// The natural index after `t` fold steps: the low `t * k` bits are
/// consumed.
pub open spec fn layer_nat_index(nat0: Seq<bool>, k: nat, t: nat) -> Seq<bool> {
    nat0.subrange((t * k) as int, nat0.len() as int)
}

/// The coset index at layer `t`: all but the lowest `k` bits of the
/// layer's natural index.
pub open spec fn layer_coset_idx(nat0: Seq<bool>, k: nat, t: nat) -> Seq<bool> {
    nat0.subrange((t * k + k) as int, nat0.len() as int)
}

/// The coset offset at layer `t`: the lowest `k` bits of the layer's
/// natural index.
pub open spec fn layer_offset(nat0: Seq<bool>, k: nat, t: nat) -> Seq<bool> {
    nat0.subrange((t * k) as int, (t * k + k) as int)
}

/// The evaluation points of the coset opened at layer `t`.
pub open spec fn layer_points(omega0: u64, log0: nat, k: nat, nat0: Seq<bool>, t: nat) -> Seq<
    u64,
> {
    eval_points(layer_omega(omega0, k, t), layer_log(log0, k, t), k, layer_coset_idx(nat0, k, t))
}

/// The argument list handed to the combiner for coset position `i`: one
/// labeled value per upper-layer query, then the evaluation point.
pub open spec fn combiner_args<I: OracleGadget>(
    uq: Seq<Labeled<Query<I>>>,
    x: u64,
    i: int,
) -> Seq<Labeled<u64>> {
    uq.map(
        |j: int, q: Labeled<Query<I>>| Labeled { label: q.label, data: q.data.values@[i] },
    ).push(Labeled { label: EV_P_LABEL, data: x })
}

/// The combiner accepts every coset position's argument list.
pub open spec fn combiner_ok<I: OracleGadget, C: CombinerFunction>(
    c: C,
    uq: Seq<Labeled<Query<I>>>,
    pts: Seq<u64>,
) -> bool {
    forall|i: int| 0 <= i < pts.len() ==> c.combine_spec(combiner_args(uq, pts[i], i)) is Some
}

/// The batched values of the topmost coset, one per position.
pub open spec fn combined_values<I: OracleGadget, C: CombinerFunction>(
    c: C,
    uq: Seq<Labeled<Query<I>>>,
    pts: Seq<u64>,
) -> Seq<u64> {
    Seq::new(pts.len(), |i: int| c.combine_spec(combiner_args(uq, pts[i], i))->Some_0)
}

/// The folded value entering layer `t + 1`: for `t == 0` the interpolant
/// of the combined upper-layer values, afterwards the interpolant of
/// layer `t`'s opened coset, each taken at the first challenge of the
/// step's chunk.
pub open spec fn folded_value_at<I: OracleGadget, C: CombinerFunction>(
    c: C,
    uq: Seq<Labeled<Query<I>>>,
    queries: Seq<Query<I>>,
    omega0: u64,
    log0: nat,
    k: nat,
    nat0: Seq<bool>,
    challenges: Seq<u64>,
    t: nat,
) -> u64 {
    let pts = layer_points(omega0, log0, k, nat0, t);
    if t == 0 {
        lagrange(pts, combined_values(c, uq, pts), challenges[0])
    } else {
        lagrange(pts, queries[t - 1].values@, challenges[(t * pow2(k)) as int])
    }
}

/// Every upper-layer opening checks out against the commitment found
/// under its label.
pub open spec fn upper_layer_ok<I: OracleGadget>(
    o: I,
    log0: nat,
    k: nat,
    nat0: Seq<bool>,
    uq: Seq<Labeled<Query<I>>>,
    uc: Seq<Labeled<I::Commitment>>,
    m: int,
) -> bool {
    forall|j: int| 0 <= j < m ==> o.validate_spec(
        log0,
        uq[j].data.values@,
        layer_coset_idx(nat0, k, 0),
        find_labeled(uc, uq[j].label)->Some_0,
        uq[j].data.proof,
    )
}

/// The conjunction of all oracle and round-consistency checks through
/// layer `t`.
pub open spec fn layers_ok<I: OracleGadget, C: CombinerFunction>(
    o: I,
    c: C,
    uq: Seq<Labeled<Query<I>>>,
    uc: Seq<Labeled<I::Commitment>>,
    queries: Seq<Query<I>>,
    commitments: Seq<I::Commitment>,
    omega0: u64,
    log0: nat,
    k: nat,
    nat0: Seq<bool>,
    challenges: Seq<u64>,
    t: nat,
) -> bool
    decreases t,
{
    if t == 0 {
        upper_layer_ok(o, log0, k, nat0, uq, uc, uq.len() as int)
    } else {
        layers_ok(o, c, uq, uc, queries, commitments, omega0, log0, k, nat0, challenges, (t - 1) as nat)
            && o.validate_spec(
            layer_log(log0, k, t),
            queries[t - 1].values@,
            layer_coset_idx(nat0, k, t),
            commitments[t - 1],
            queries[t - 1].proof,
        ) && folded_value_at(c, uq, queries, omega0, log0, k, nat0, challenges, (t - 1) as nat)
            == queries[t - 1].values@[bits_to_nat(layer_offset(nat0, k, t)) as int]
    }
}

/// The published final polynomial, evaluated by Horner's rule.
pub open spec fn poly_eval(c: Seq<u64>, x: u64) -> u64
    decreases c.len(),
{
    if c.len() == 0 {
        0u64
    } else {
        fadd(c[0], fmul(x, poly_eval(c.drop_first(), x)))
    }
}

/// The value the last folded element must equal: a single coefficient is
/// compared directly, with no exponentiation; otherwise the final
/// polynomial is evaluated at the bottom generator raised to the
/// remaining natural index.
pub open spec fn final_value(
    omega0: u64,
    log0: nat,
    k: nat,
    nat0: Seq<bool>,
    fc: Seq<u64>,
    num_layers: nat,
) -> u64 {
    if fc.len() == 1 {
        fc[0]
    } else {
        let ev_p = fpow(
            layer_omega(omega0, k, num_layers + 1),
            bits_to_nat(layer_nat_index(nat0, k, num_layers + 1)),
        );
        poly_eval(fc, ev_p)
    }
}

/// The whole round checks out: every oracle opening, every
/// round-consistency check, and the final consistency check.
pub open spec fn round_valid<I: OracleGadget, C: CombinerFunction>(
    o: I,
    c: C,
    uq: Seq<Labeled<Query<I>>>,
    uc: Seq<Labeled<I::Commitment>>,
    queries: Seq<Query<I>>,
    commitments: Seq<I::Commitment>,
    fc: Seq<u64>,
    nat0: Seq<bool>,
    challenges: Seq<u64>,
    omega0: u64,
    log0: nat,
    k: nat,
) -> bool {
    layers_ok(o, c, uq, uc, queries, commitments, omega0, log0, k, nat0, challenges, queries.len())
        && folded_value_at(c, uq, queries, omega0, log0, k, nat0, challenges, queries.len())
        == final_value(omega0, log0, k, nat0, fc, queries.len())
}

/// No fatal construction error arises in the round: every upper-layer
/// label resolves to a commitment, the combiner accepts every position,
/// and every layer's coset points are distinct.
pub open spec fn round_fatal_free<I: OracleGadget, C: CombinerFunction>(
    c: C,
    uq: Seq<Labeled<Query<I>>>,
    uc: Seq<Labeled<I::Commitment>>,
    queries: Seq<Query<I>>,
    nat0: Seq<bool>,
    omega0: u64,
    log0: nat,
    k: nat,
) -> bool {
    (forall|j: int| 0 <= j < uq.len() ==> find_labeled(uc, uq[j].label) is Some) && combiner_ok(
        c,
        uq,
        layer_points(omega0, log0, k, nat0, 0),
    ) && (forall|t: int| 0 <= t <= queries.len() ==> #[trigger] lag_defined(
        layer_points(omega0, log0, k, nat0, t as nat),
    ))
}

/// The shape every query round's data must have for the configured
/// collapsing factor and initial domain; violating it is a caller
/// contract violation, not adversarial proof data.
pub open spec fn round_shape_wf<I: OracleGadget>(
    uq: Seq<Labeled<Query<I>>>,
    queries: Seq<Query<I>>,
    nat0: Seq<bool>,
    n_commitments: nat,
    n_challenges: nat,
    log0: nat,
    k: nat,
) -> bool {
    nat0.len() == log0 && n_commitments == queries.len() && n_challenges == (queries.len() + 1)
        * pow2(k) && (queries.len() + 1) * k <= log0 && (forall|j: int|
        0 <= j < uq.len() ==> uq[j].data.values@.len() == pow2(k) && all_fe(uq[j].data.values@))
        && (forall|t: int| 0 <= t < queries.len() ==> queries[t].values@.len() == pow2(k)
        && all_fe(queries[t].values@))
}

pub proof fn lemma_layer_omega_step(omega0: u64, k: nat, t: nat)
    requires
        omega0 < P,
    ensures
        layer_omega(omega0, k, t + 1) == fpow(layer_omega(omega0, k, t), pow2(k)),
{
    assert((t + 1) * k == t * k + k) by (nonlinear_arith);
    if t == 0 {
    } else {
        crate::field::lemma_fpow_fpow(omega0, pow2(t * k), pow2(k));
        vstd::arithmetic::power2::lemma_pow2_adds(t * k, k);
    }
}

/// Copies `v[start .. start + len]` out as a fresh vector.
fn copy_range(v: &Vec<u64>, start: usize, len: usize) -> (r: Vec<u64>)
    requires
        start + len <= v.len(),
    ensures
        r@ == v@.subrange(start as int, start + len),
{
    let vlen = v.len();
    let mut r: Vec<u64> = Vec::new();
    let mut i: usize = 0;
    while i < len
        invariant
            i <= len,
            start + len <= vlen,
            vlen == v@.len(),
            r@ =~= v@.subrange(start as int, start + i),
        decreases len - i,
    {
        r.push(v[start + i]);
        i = i + 1;
    }
    proof {
        assert(r@ =~= v@.subrange(start as int, start + len));
    }
    r
}

/// The FRI verifier's static configuration.
pub struct FriVerifierGadget<I: OracleGadget> {
    /// Bits folded per round; the coset size is `2^collapsing_factor`.
    pub collapsing_factor: usize,
    /// Number of iterations done during the FRI query phase.
    pub num_query_rounds: usize,
    /// One more than the degree bound of the committed polynomials.
    pub initial_degree_plus_one: usize,
    /// Blow-up factor of the evaluation domain over the degree bound.
    pub lde_factor: usize,
    /// One more than the degree of the final, bottom-layer polynomial.
    pub final_degree_plus_one: usize,
    /// Ties the configuration to its oracle scheme.
    pub _oracle_marker: core::marker::PhantomData<I>,
}

impl<I: OracleGadget> FriVerifierGadget<I> {
    /// Verifies one query round.  The result is the round's validity
    /// flag: adversarial mismatches make it `false`, while malformed
    /// caller input (an unresolvable label, a rejected combiner argument
    /// list, coinciding coset points) is a fatal error.
    #[verifier::loop_isolation(false)]
    #[verifier::rlimit(60)]
    pub fn verify_single_proof_round<C: CombinerFunction>(
        upper_layer_queries: &Vec<Labeled<Query<I>>>,
        upper_layer_commitments: &Vec<Labeled<I::Commitment>>,
        upper_layer_combiner: &C,
        fri_helper: &mut FriUtilsGadget,
        queries: &Vec<Query<I>>,
        commitments: &Vec<I::Commitment>,
        final_coefficients: &Vec<u64>,
        natural_first_element_index: &Vec<bool>,
        fri_challenges: &Vec<u64>,
        oracle_params: &I::Params,
    ) -> (r: Result<bool, FriError>)
        requires
            old(fri_helper).wf(),
            old(fri_helper).log_domain_size <= 31,
            round_shape_wf::<I>(
                upper_layer_queries@,
                queries@,
                natural_first_element_index@,
                commitments@.len(),
                fri_challenges@.len(),
                old(fri_helper).log_domain_size as nat,
                old(fri_helper).collapsing_factor as nat,
            ),
            all_fe(fri_challenges@),
            all_fe(final_coefficients@),
            final_coefficients@.len() >= 1,
        ensures
            final(fri_helper).collapsing_factor == old(fri_helper).collapsing_factor,
            final(fri_helper).wf(),
            r is Ok ==> round_fatal_free(
                *upper_layer_combiner,
                upper_layer_queries@,
                upper_layer_commitments@,
                queries@,
                natural_first_element_index@,
                old(fri_helper).omega,
                old(fri_helper).log_domain_size as nat,
                old(fri_helper).collapsing_factor as nat,
            ) && r->Ok_0 == round_valid(
                I::from_params_spec(oracle_params),
                *upper_layer_combiner,
                upper_layer_queries@,
                upper_layer_commitments@,
                queries@,
                commitments@,
                final_coefficients@,
                natural_first_element_index@,
                fri_challenges@,
                old(fri_helper).omega,
                old(fri_helper).log_domain_size as nat,
                old(fri_helper).collapsing_factor as nat,
            ),
            r is Ok ==> ({
                let steps = queries@.len() + (if final_coefficients@.len() > 1 {
                    1nat
                } else {
                    0nat
                });
                final(fri_helper).log_domain_size == old(fri_helper).log_domain_size - steps
                    * old(fri_helper).collapsing_factor && final(fri_helper).omega == layer_omega(
                    old(fri_helper).omega,
                    old(fri_helper).collapsing_factor as nat,
                    steps,
                )
            }),
            r is Err ==> !round_fatal_free(
                *upper_layer_combiner,
                upper_layer_queries@,
                upper_layer_commitments@,
                queries@,
                natural_first_element_index@,
                old(fri_helper).omega,
                old(fri_helper).log_domain_size as nat,
                old(fri_helper).collapsing_factor as nat,
            ),
            r == Err::<bool, FriError>(FriError::LabelNotFound) ==> !(forall|j: int|
                0 <= j < upper_layer_queries@.len() ==> find_labeled(
                    upper_layer_commitments@,
                    upper_layer_queries@[j].label,
                ) is Some),
            r is Err ==> (r->Err_0 == FriError::LabelNotFound || r->Err_0
                == FriError::CombinerFailure || r->Err_0 == FriError::InversionError),
    {
        let k = fri_helper.collapsing_factor;
        let log0 = fri_helper.get_log_domain_size();
        let n = fri_helper.get_coset_size();
        let total_challenges = fri_challenges.len();
        let ghost omega0 = fri_helper.omega;
        let ghost nat0 = natural_first_element_index@;
        let ghost uq = upper_layer_queries@;
        let ghost uc = upper_layer_commitments@;
        let ghost comb = *upper_layer_combiner;

        proof {
            assert(k as nat <= (queries@.len() + 1) * (k as nat)) by (nonlinear_arith);
        }
        let coset_idx = fri_helper.get_coset_idx_for_natural_index(natural_first_element_index);
        proof {
            assert(0 * k as nat + k as nat == k as nat);
            assert(coset_idx@ =~= layer_coset_idx(nat0, k as nat, 0));
        }
        let oracle = I::new(oracle_params);
        let mut final_result = true;

        // upper layer: locate each labeled commitment and check its opening
        let mut j: usize = 0;
        while j < upper_layer_queries.len()
            invariant
                j <= uq.len(),
                final_result == upper_layer_ok(oracle, log0 as nat, k as nat, nat0, uq, uc, j as int),
                forall|m: int| 0 <= m < j ==> find_labeled(uc, uq[m].label) is Some,
            decreases uq.len() - j,
        {
            let lq = &upper_layer_queries[j];
            let found = find_labeled_index(upper_layer_commitments, lq.label);
            match found {
                Some(ci) => {
                    let ok = oracle.validate(
                        log0,
                        &lq.data.values,
                        &coset_idx,
                        &upper_layer_commitments[ci].data,
                        &lq.data.proof,
                    );
                    proof {
                        assert(find_labeled(uc, uq[j as int].label)->Some_0 == uc[ci as int].data);
                        let oj = oracle.validate_spec(
                            log0 as nat,
                            uq[j as int].data.values@,
                            layer_coset_idx(nat0, k as nat, 0),
                            find_labeled(uc, uq[j as int].label)->Some_0,
                            uq[j as int].data.proof,
                        );
                        assert(upper_layer_ok(oracle, log0 as nat, k as nat, nat0, uq, uc, (j + 1) as int)
                            == (upper_layer_ok(oracle, log0 as nat, k as nat, nat0, uq, uc, j as int)
                            && oj)) by {
                            if upper_layer_ok(oracle, log0 as nat, k as nat, nat0, uq, uc, j as int)
                                && oj {
                                assert forall|m: int| 0 <= m < j + 1 implies oracle.validate_spec(
                                    log0 as nat,
                                    uq[m].data.values@,
                                    layer_coset_idx(nat0, k as nat, 0),
                                    find_labeled(uc, uq[m].label)->Some_0,
                                    uq[m].data.proof,
                                ) by {
                                    if m == j {
                                        assert(oj);
                                    }
                                }
                            }
                            if upper_layer_ok(oracle, log0 as nat, k as nat, nat0, uq, uc, (j + 1) as int) {
                                assert(oracle.validate_spec(
                                    log0 as nat,
                                    uq[j as int].data.values@,
                                    layer_coset_idx(nat0, k as nat, 0),
                                    find_labeled(uc, uq[j as int].label)->Some_0,
                                    uq[j as int].data.proof,
                                ));
                            }
                        }
                    }
                    final_result = final_result && ok;
                },
                None => {
                    return Err(FriError::LabelNotFound);
                },
            }
            j = j + 1;
        }

        // batch the upper layer through the combiner at each coset position
        let evaluation_points = fri_helper.get_combiner_eval_points(&coset_idx);
        let ghost pts0 = layer_points(omega0, log0 as nat, k as nat, nat0, 0);
        proof {
            assert(0 * k as nat == 0);
            assert(evaluation_points@ == pts0);
        }
        let mut values: Vec<u64> = Vec::new();
        let mut i: usize = 0;
        while i < n
            invariant
                i <= n,
                values@.len() == i,
                forall|m: int| 0 <= m < i ==> values@[m] == combined_values(comb, uq, pts0)[m]
                    && values@[m] < P,
                forall|m: int| 0 <= m < i ==> #[trigger] comb.combine_spec(
                    combiner_args(uq, pts0[m], m),
                ) is Some,
            decreases n - i,
        {
            let mut args: Vec<Labeled<u64>> = Vec::new();
            let mut q: usize = 0;
            while q < upper_layer_queries.len()
                invariant
                    q <= uq.len(),
                    i < n,
                    args@.len() == q,
                    forall|m: int| 0 <= m < q ==> args@[m].label == uq[m].label && args@[m].data
                        == uq[m].data.values@[i as int] && args@[m].data < P,
                decreases uq.len() - q,
            {
                let entry = &upper_layer_queries[q];
                args.push(Labeled { label: entry.label, data: entry.data.values[i] });
                q = q + 1;
            }
            args.push(Labeled { label: EV_P_LABEL, data: evaluation_points[i] });
            proof {
                assert(args@ =~= combiner_args(uq, pts0[i as int], i as int));
            }
            let res = upper_layer_combiner.combine(args);
            match res {
                Ok(v) => {
                    values.push(v);
                },
                Err(e) => {
                    proof {
                        assert(!combiner_ok(comb, uq, pts0));
                    }
                    return Err(e);
                },
            }
            i = i + 1;
        }
        proof {
            assert(values@ =~= combined_values(comb, uq, pts0));
            assert(combiner_ok(comb, uq, pts0));
        }

        // fold the combined upper layer into the first layer element
        proof {
            assert((1int) * (n as int) <= ((queries@.len() + 1) as int) * (n as int))
                by (nonlinear_arith)
                requires
                    n >= 0,
                    queries@.len() >= 0,
            ;
            assert(fri_challenges@.len() == (queries@.len() + 1) * pow2(k as nat));
        }
        let chunk0 = copy_range(fri_challenges, 0, n);
        proof {
            assert(all_fe(chunk0@));
        }
        let mut previous_layer_element = match fri_helper.coset_interpolation_value(
            &values,
            &coset_idx,
            &chunk0,
        ) {
            Ok(v) => v,
            Err(e) => {
                proof {
                    assert(!lag_defined(layer_points(omega0, log0 as nat, k as nat, nat0, 0)));
                }
                return Err(e);
            },
        };
        let ghost gqueries = queries@;
        let ghost gcommitments = commitments@;
        let ghost challenges = fri_challenges@;
        proof {
            assert(chunk0@[0] == challenges[0]);
            assert(previous_layer_element == folded_value_at(
                comb,
                uq,
                gqueries,
                omega0,
                log0 as nat,
                k as nat,
                nat0,
                challenges,
                0,
            ));
        }

        // fold layer by layer
        let num_layers = queries.len();
        let mut nat_cur: Vec<bool> = copy_bits(natural_first_element_index);
        let mut chunk_start: usize = n;
        let mut t: usize = 0;
        while t < num_layers
            invariant
                t <= num_layers,
                num_layers == gqueries.len(),
                chunk_start == (t + 1) * n,
                fri_helper.collapsing_factor == k,
                fri_helper.wf(),
                fri_helper.log_domain_size == log0 - (t * k),
                fri_helper.omega == layer_omega(omega0, k as nat, t as nat),
                nat_cur@ == layer_nat_index(nat0, k as nat, t as nat),
                previous_layer_element == folded_value_at(
                    comb,
                    uq,
                    gqueries,
                    omega0,
                    log0 as nat,
                    k as nat,
                    nat0,
                    challenges,
                    t as nat,
                ),
                previous_layer_element < P,
                final_result == layers_ok(
                    oracle,
                    comb,
                    uq,
                    uc,
                    gqueries,
                    gcommitments,
                    omega0,
                    log0 as nat,
                    k as nat,
                    nat0,
                    challenges,
                    t as nat,
                ),
                forall|s: int| 0 <= s <= t ==> #[trigger] lag_defined(
                    layer_points(omega0, log0 as nat, k as nat, nat0, s as nat),
                ),
            decreases num_layers - t,
        {
            proof {
                assert((t + 1) * k <= (num_layers + 1) * k) by (nonlinear_arith)
                    requires
                        0 <= t < num_layers,
                        k >= 0,
                ;
                assert(t * k + k == (t + 1) * k) by (nonlinear_arith);
                lemma_layer_omega_step(omega0, k as nat, t as nat);
            }
            fri_helper.next_domain();
            let stripped = crate::bits::drop_low_bits(&nat_cur, k);
            nat_cur = stripped;
            proof {
                assert(nat_cur@ =~= layer_nat_index(nat0, k as nat, (t + 1) as nat));
            }
            proof {
                assert((t + 2) * k <= (num_layers + 1) * k) by (nonlinear_arith)
                    requires
                        0 <= t < num_layers,
                        k >= 0,
                ;
                assert((t + 1) * k + k == (t + 2) * k) by (nonlinear_arith);
            }
            let layer_coset = fri_helper.get_coset_idx_for_natural_index(&nat_cur);
            let offset = fri_helper.get_coset_offset_for_natural_index(&nat_cur);
            proof {
                assert((t + 1) * k + k == t * k + k + k) by (nonlinear_arith);
                assert(layer_coset@ =~= layer_coset_idx(nat0, k as nat, (t + 1) as nat));
                assert(offset@ =~= layer_offset(nat0, k as nat, (t + 1) as nat));
                assert(gqueries[t as int].values@.len() == pow2(k as nat) && all_fe(
                    gqueries[t as int].values@,
                ));
            }
            let query = &queries[t];
            let oracle_check = oracle.validate(
                fri_helper.get_log_domain_size(),
                &query.values,
                &layer_coset,
                &commitments[t],
                &query.proof,
            );
            let with_oracle = final_result && oracle_check;
            let cur_layer_element = fri_helper.choose_element_in_coset(&query.values, &offset);
            let rcc_flag = previous_layer_element == cur_layer_element;
            let new_result = with_oracle && rcc_flag;
            proof {
                assert(layers_ok(
                    oracle,
                    comb,
                    uq,
                    uc,
                    gqueries,
                    gcommitments,
                    omega0,
                    log0 as nat,
                    k as nat,
                    nat0,
                    challenges,
                    (t + 1) as nat,
                ) == (layers_ok(
                    oracle,
                    comb,
                    uq,
                    uc,
                    gqueries,
                    gcommitments,
                    omega0,
                    log0 as nat,
                    k as nat,
                    nat0,
                    challenges,
                    t as nat,
                ) && oracle.validate_spec(
                    layer_log(log0 as nat, k as nat, (t + 1) as nat),
                    gqueries[t as int].values@,
                    layer_coset_idx(nat0, k as nat, (t + 1) as nat),
                    gcommitments[t as int],
                    gqueries[t as int].proof,
                ) && folded_value_at(
                    comb,
                    uq,
                    gqueries,
                    omega0,
                    log0 as nat,
                    k as nat,
                    nat0,
                    challenges,
                    t as nat,
                ) == gqueries[t as int].values@[bits_to_nat(
                    layer_offset(nat0, k as nat, (t + 1) as nat),
                ) as int]));
            }
            final_result = new_result;
            // fold this layer's coset for the next comparison
            proof {
                assert((t + 2) * n <= (num_layers + 1) * n) by (nonlinear_arith)
                    requires
                        0 <= t < num_layers,
                        n >= 0,
                ;
                assert((t + 1) * n + n == (t + 2) * n) by (nonlinear_arith);
            }
            let chunk = copy_range(fri_challenges, chunk_start, n);
            let folded = match fri_helper.coset_interpolation_value(
                &query.values,
                &layer_coset,
                &chunk,
            ) {
                Ok(v) => v,
                Err(e) => {
                    proof {
                        assert(!lag_defined(
                            layer_points(omega0, log0 as nat, k as nat, nat0, (t + 1) as nat),
                        ));
                    }
                    return Err(e);
                },
            };
            proof {
                assert(chunk@[0] == challenges[(t + 1) * n]);
                assert(((t + 1) * pow2(k as nat)) as int == ((t + 1) * n) as int);
            }
            previous_layer_element = folded;
            proof {
                assert(chunk_start + n <= total_challenges);
            }
            chunk_start = chunk_start + n;
            t = t + 1;
        }

        // compare the last folded value with the final polynomial
        let val = if final_coefficients.len() == 1 {
            final_coefficients[0]
        } else {
            proof {
                assert((num_layers + 1) * k == num_layers * k + k) by (nonlinear_arith);
                lemma_layer_omega_step(omega0, k as nat, num_layers as nat);
            }
            fri_helper.next_domain();
            let stripped = crate::bits::drop_low_bits(&nat_cur, k);
            nat_cur = stripped;
            proof {
                assert(nat_cur@ =~= layer_nat_index(nat0, k as nat, (num_layers + 1) as nat));
            }
            let omega = fri_helper.get_bottom_layer_omega();
            let ev_p = fe_pow_bits(omega, &nat_cur);
            horner_eval(final_coefficients, ev_p)
        };
        let flag = previous_layer_element == val;
        let result = final_result && flag;
        Ok(result)
    }
}

/// All query rounds up to `m` are valid.
pub open spec fn proof_rounds_valid<I: OracleGadget, C: CombinerFunction>(
    o: I,
    c: C,
    rounds: Seq<FriSingleQueryRoundData<I>>,
    uc: Seq<Labeled<I::Commitment>>,
    commitments: Seq<I::Commitment>,
    fc: Seq<u64>,
    challenges: Seq<u64>,
    omega0: u64,
    log0: nat,
    k: nat,
    m: int,
) -> bool {
    forall|j: int| 0 <= j < m ==> #[trigger] round_valid(
        o,
        c,
        rounds[j].upper_layer_queries@,
        uc,
        rounds[j].queries@,
        commitments,
        fc,
        rounds[j].natural_first_element_index@,
        challenges,
        omega0,
        log0,
        k,
    )
}

/// No query round up to `m` raises a fatal error.
pub open spec fn proof_fatal_free<I: OracleGadget, C: CombinerFunction>(
    c: C,
    rounds: Seq<FriSingleQueryRoundData<I>>,
    uc: Seq<Labeled<I::Commitment>>,
    omega0: u64,
    log0: nat,
    k: nat,
    m: int,
) -> bool {
    forall|j: int| 0 <= j < m ==> #[trigger] round_fatal_free(
        c,
        rounds[j].upper_layer_queries@,
        uc,
        rounds[j].queries@,
        rounds[j].natural_first_element_index@,
        omega0,
        log0,
        k,
    )
}

impl<I: OracleGadget> FriVerifierGadget<I> {
    /// The size of the initial evaluation domain.
    pub open spec fn initial_domain_size(self) -> nat {
        (self.initial_degree_plus_one * self.lde_factor) as nat
    }

    /// Log2 of the initial evaluation domain size.
    pub open spec fn log_initial(self) -> nat {
        crate::bits::log2i(self.initial_domain_size())
    }

    /// The generator of the initial evaluation domain.
    pub open spec fn domain_omega(self) -> u64 {
        fpow(
            crate::field::ROOT_OF_UNITY_2_32,
            pow2((32 - self.log_initial()) as nat),
        )
    }

    /// A usable configuration: the initial domain is a power of two of
    /// workable size, and at least one fold fits into it.
    pub open spec fn cfg_wf(self) -> bool {
        self.collapsing_factor <= 20 && self.initial_domain_size() >= 1 && pow2(
            self.log_initial(),
        ) == self.initial_domain_size() && self.log_initial() <= 31 && self.collapsing_factor
            <= self.log_initial() && self.final_degree_plus_one >= 1
    }

    /// Bundles the configuration of a verifier.
    pub fn new(
        collapsing_factor: usize,
        num_query_rounds: usize,
        initial_degree_plus_one: usize,
        lde_factor: usize,
        final_degree_plus_one: usize,
    ) -> (r: Self)
        ensures
            r.collapsing_factor == collapsing_factor,
            r.num_query_rounds == num_query_rounds,
            r.initial_degree_plus_one == initial_degree_plus_one,
            r.lde_factor == lde_factor,
            r.final_degree_plus_one == final_degree_plus_one,
    {
        FriVerifierGadget {
            collapsing_factor,
            num_query_rounds,
            initial_degree_plus_one,
            lde_factor,
            final_degree_plus_one,
            _oracle_marker: core::marker::PhantomData,
        }
    }

    /// Verifies a full FRI proof: the round count and final-degree bound
    /// are checked against the configuration, then every query round is
    /// verified over a freshly scoped domain state, and the rounds'
    /// validity flags are conjoined.  A `false` result, not an error, is
    /// what rejects an adversarial proof.
    #[verifier::loop_isolation(false)]
    pub fn verify_proof<C: CombinerFunction>(
        &self,
        oracle_params: &I::Params,
        upper_layer_combiner: &C,
        upper_layer_commitments: &Vec<Labeled<I::Commitment>>,
        commitments: &Vec<I::Commitment>,
        final_coefficients: &Vec<u64>,
        fri_challenges: &Vec<u64>,
        query_rounds_data: &Vec<FriSingleQueryRoundData<I>>,
    ) -> (r: Result<bool, FriError>)
        requires
            self.cfg_wf(),
            forall|j: int| 0 <= j < query_rounds_data@.len() ==> #[trigger] round_shape_wf::<I>(
                query_rounds_data@[j].upper_layer_queries@,
                query_rounds_data@[j].queries@,
                query_rounds_data@[j].natural_first_element_index@,
                commitments@.len(),
                fri_challenges@.len(),
                self.log_initial(),
                self.collapsing_factor as nat,
            ),
            all_fe(fri_challenges@),
            all_fe(final_coefficients@),
            final_coefficients@.len() >= 1,
        ensures
            (match r {
                Ok(b) => query_rounds_data@.len() == self.num_query_rounds
                    && final_coefficients@.len() <= self.final_degree_plus_one
                    && proof_fatal_free(
                    *upper_layer_combiner,
                    query_rounds_data@,
                    upper_layer_commitments@,
                    self.domain_omega(),
                    self.log_initial(),
                    self.collapsing_factor as nat,
                    query_rounds_data@.len() as int,
                ) && b == proof_rounds_valid(
                    I::from_params_spec(oracle_params),
                    *upper_layer_combiner,
                    query_rounds_data@,
                    upper_layer_commitments@,
                    commitments@,
                    final_coefficients@,
                    fri_challenges@,
                    self.domain_omega(),
                    self.log_initial(),
                    self.collapsing_factor as nat,
                    query_rounds_data@.len() as int,
                ),
                Err(e) => (match e {
                    FriError::RoundCountMismatch => query_rounds_data@.len()
                        != self.num_query_rounds,
                    FriError::FinalDegreeTooLarge => query_rounds_data@.len()
                        == self.num_query_rounds && final_coefficients@.len()
                        > self.final_degree_plus_one,
                    _ => query_rounds_data@.len() == self.num_query_rounds
                        && final_coefficients@.len() <= self.final_degree_plus_one
                        && !proof_fatal_free(
                        *upper_layer_combiner,
                        query_rounds_data@,
                        upper_layer_commitments@,
                        self.domain_omega(),
                        self.log_initial(),
                        self.collapsing_factor as nat,
                        query_rounds_data@.len() as int,
                    ),
                }),
            }),
    {
        if query_rounds_data.len() != self.num_query_rounds {
            return Err(FriError::RoundCountMismatch);
        }
        if final_coefficients.len() > self.final_degree_plus_one {
            return Err(FriError::FinalDegreeTooLarge);
        }
        proof {
            vstd::arithmetic::power2::lemma_pow2_strictly_increases(self.log_initial(), 32);
            vstd::arithmetic::power2::lemma2_to64();
        }
        let initial_domain_size = self.initial_degree_plus_one * self.lde_factor;
        let log0 = crate::bits::log2_exact(initial_domain_size);
        let omega0 = crate::field::domain_generator(log0);
        let num_rounds = query_rounds_data.len();
        let ghost o = I::from_params_spec(oracle_params);
        let ghost comb = *upper_layer_combiner;
        let ghost rounds = query_rounds_data@;
        let ghost uc = upper_layer_commitments@;
        let mut all_valid = true;
        let mut ri: usize = 0;
        while ri < num_rounds
            invariant
                ri <= num_rounds,
                all_valid == proof_rounds_valid(
                    o,
                    comb,
                    rounds,
                    uc,
                    commitments@,
                    final_coefficients@,
                    fri_challenges@,
                    omega0,
                    log0 as nat,
                    self.collapsing_factor as nat,
                    ri as int,
                ),
                proof_fatal_free(
                    comb,
                    rounds,
                    uc,
                    omega0,
                    log0 as nat,
                    self.collapsing_factor as nat,
                    ri as int,
                ),
            decreases num_rounds - ri,
        {
            let rd = &query_rounds_data[ri];
            let mut fri_helper = FriUtilsGadget::new(log0, self.collapsing_factor, omega0);
            let res = Self::verify_single_proof_round(
                &rd.upper_layer_queries,
                upper_layer_commitments,
                upper_layer_combiner,
                &mut fri_helper,
                &rd.queries,
                commitments,
                final_coefficients,
                &rd.natural_first_element_index,
                fri_challenges,
                oracle_params,
            );
            match res {
                Ok(b) => {
                    let new_valid = all_valid && b;
                    proof {
                        let m = ri as int;
                        assert forall|j: int| 0 <= j < m + 1 && new_valid implies round_valid(
                            o,
                            comb,
                            rounds[j].upper_layer_queries@,
                            uc,
                            rounds[j].queries@,
                            commitments@,
                            final_coefficients@,
                            rounds[j].natural_first_element_index@,
                            fri_challenges@,
                            omega0,
                            log0 as nat,
                            self.collapsing_factor as nat,
                        ) by {}
                        if proof_rounds_valid(
                            o,
                            comb,
                            rounds,
                            uc,
                            commitments@,
                            final_coefficients@,
                            fri_challenges@,
                            omega0,
                            log0 as nat,
                            self.collapsing_factor as nat,
                            m + 1,
                        ) {
                            assert(round_valid(
                                o,
                                comb,
                                rounds[m].upper_layer_queries@,
                                uc,
                                rounds[m].queries@,
                                commitments@,
                                final_coefficients@,
                                rounds[m].natural_first_element_index@,
                                fri_challenges@,
                                omega0,
                                log0 as nat,
                                self.collapsing_factor as nat,
                            ));
                        }
                    }
                    all_valid = new_valid;
                },
                Err(e) => {
                    proof {
                        assert(!round_fatal_free(
                            comb,
                            rounds[ri as int].upper_layer_queries@,
                            uc,
                            rounds[ri as int].queries@,
                            rounds[ri as int].natural_first_element_index@,
                            omega0,
                            log0 as nat,
                            self.collapsing_factor as nat,
                        ));
                    }
                    return Err(e);
                },
            }
            ri = ri + 1;
        }
        Ok(all_valid)
    }
}

/// A polynomial whose coefficients are all zero evaluates to zero.
pub proof fn lemma_zero_poly(c: Seq<u64>, x: u64)
    requires
        forall|i: int| 0 <= i < c.len() ==> c[i] == 0,
    ensures
        poly_eval(c, x) == 0,
    decreases c.len(),
{
    if c.len() > 0 {
        lemma_zero_poly(c.drop_first(), x);
        assert(fmul(x, 0) == 0);
        assert(fadd(0, 0) == 0);
    }
}

/// Degenerate final layer law: whenever every final coefficient after
/// the first is zero — in particular when there is only one, where the
/// comparison is direct and involves no exponentiation — the final check
/// compares the last folded value against that first coefficient.
pub proof fn lemma_degenerate_final_layer(
    omega0: u64,
    log0: nat,
    k: nat,
    nat0: Seq<bool>,
    fc: Seq<u64>,
    num_layers: nat,
)
    requires
        fc.len() >= 1,
        fc[0] < P,
        forall|i: int| 1 <= i < fc.len() ==> fc[i] == 0,
    ensures
        final_value(omega0, log0, k, nat0, fc, num_layers) == fc[0],
{
    if fc.len() > 1 {
        let ev_p = fpow(
            layer_omega(omega0, k, num_layers + 1),
            bits_to_nat(layer_nat_index(nat0, k, num_layers + 1)),
        );
        lemma_zero_poly(fc.drop_first(), ev_p);
        assert(fmul(ev_p, 0) == 0);
        vstd::arithmetic::div_mod::lemma_small_mod(fc[0] as nat, P as nat);
    }
}

/// Domain shrink law: after `t` fold steps from a domain of size
/// `2^log0`, the tracked domain has size `2^(log0 - t * k)`.
pub proof fn lemma_domain_shrink(log0: nat, k: nat, t: nat)
    requires
        t * k <= log0,
    ensures
        layer_log(log0, k, t) == log0 - t * k,
        pow2(layer_log(log0, k, t)) * pow2(t * k) == pow2(log0),
{
    vstd::arithmetic::power2::lemma_pow2_adds(layer_log(log0, k, t), t * k);
}

proof fn lemma_layers_ok_all<I: OracleGadget, C: CombinerFunction>(
    o: I,
    c: C,
    uq: Seq<Labeled<Query<I>>>,
    uc: Seq<Labeled<I::Commitment>>,
    queries: Seq<Query<I>>,
    commitments: Seq<I::Commitment>,
    nat0: Seq<bool>,
    challenges: Seq<u64>,
    omega0: u64,
    log0: nat,
    k: nat,
    t: nat,
)
    requires
        t <= queries.len(),
        upper_layer_ok(o, log0, k, nat0, uq, uc, uq.len() as int),
        forall|s: int| 1 <= s <= queries.len() ==> o.validate_spec(
            layer_log(log0, k, s as nat),
            queries[s - 1].values@,
            #[trigger] layer_coset_idx(nat0, k, s as nat),
            commitments[s - 1],
            queries[s - 1].proof,
        ),
        forall|s: int| 1 <= s <= queries.len() ==> folded_value_at(
            c,
            uq,
            queries,
            omega0,
            log0,
            k,
            nat0,
            challenges,
            (s - 1) as nat,
        ) == queries[s - 1].values@[bits_to_nat(#[trigger] layer_offset(nat0, k, s as nat)) as int],
    ensures
        layers_ok(o, c, uq, uc, queries, commitments, omega0, log0, k, nat0, challenges, t),
    decreases t,
{
    if t > 0 {
        lemma_layers_ok_all(
            o,
            c,
            uq,
            uc,
            queries,
            commitments,
            nat0,
            challenges,
            omega0,
            log0,
            k,
            (t - 1) as nat,
        );
        let s = t as int;
        assert(o.validate_spec(
            layer_log(log0, k, s as nat),
            queries[s - 1].values@,
            layer_coset_idx(nat0, k, s as nat),
            commitments[s - 1],
            queries[s - 1].proof,
        ));
        assert(folded_value_at(c, uq, queries, omega0, log0, k, nat0, challenges, (s - 1) as nat)
            == queries[s - 1].values@[bits_to_nat(layer_offset(nat0, k, s as nat)) as int]);
        assert(s as nat == t);
    }
}

proof fn lemma_layers_ok_implies_prefix<I: OracleGadget, C: CombinerFunction>(
    o: I,
    c: C,
    uq: Seq<Labeled<Query<I>>>,
    uc: Seq<Labeled<I::Commitment>>,
    queries: Seq<Query<I>>,
    commitments: Seq<I::Commitment>,
    nat0: Seq<bool>,
    challenges: Seq<u64>,
    omega0: u64,
    log0: nat,
    k: nat,
    s: nat,
    t: nat,
)
    requires
        s <= t,
        layers_ok(o, c, uq, uc, queries, commitments, omega0, log0, k, nat0, challenges, t),
    ensures
        layers_ok(o, c, uq, uc, queries, commitments, omega0, log0, k, nat0, challenges, s),
    decreases t,
{
    if s < t {
        lemma_layers_ok_implies_prefix(
            o,
            c,
            uq,
            uc,
            queries,
            commitments,
            nat0,
            challenges,
            omega0,
            log0,
            k,
            s,
            (t - 1) as nat,
        );
    }
}

/// Soundness law for one faulty layer: if any layer's oracle opening is
/// rejected, or the value it opens at the checked coset offset differs
/// from the folded value entering that layer, the round's validity flag
/// is false.
pub proof fn lemma_faulty_layer_rejects<I: OracleGadget, C: CombinerFunction>(
    o: I,
    c: C,
    uq: Seq<Labeled<Query<I>>>,
    uc: Seq<Labeled<I::Commitment>>,
    queries: Seq<Query<I>>,
    commitments: Seq<I::Commitment>,
    fc: Seq<u64>,
    nat0: Seq<bool>,
    challenges: Seq<u64>,
    omega0: u64,
    log0: nat,
    k: nat,
    t: nat,
)
    requires
        1 <= t <= queries.len(),
        !(o.validate_spec(
            layer_log(log0, k, t),
            queries[t - 1].values@,
            layer_coset_idx(nat0, k, t),
            commitments[t - 1],
            queries[t - 1].proof,
        ) && folded_value_at(c, uq, queries, omega0, log0, k, nat0, challenges, (t - 1) as nat)
            == queries[t - 1].values@[bits_to_nat(layer_offset(nat0, k, t)) as int]),
    ensures
        !round_valid(o, c, uq, uc, queries, commitments, fc, nat0, challenges, omega0, log0, k),
{
    assert(!layers_ok(o, c, uq, uc, queries, commitments, omega0, log0, k, nat0, challenges, t));
    if layers_ok(
        o,
        c,
        uq,
        uc,
        queries,
        commitments,
        omega0,
        log0,
        k,
        nat0,
        challenges,
        queries.len(),
    ) {
        lemma_layers_ok_implies_prefix(
            o,
            c,
            uq,
            uc,
            queries,
            commitments,
            nat0,
            challenges,
            omega0,
            log0,
            k,
            t,
            queries.len(),
        );
    }
}

/// Completeness law: a round whose oracle openings all validate, whose
/// opened values agree with each fold, and whose last fold matches the
/// final polynomial, carries a true validity flag.
pub proof fn lemma_round_accepts_consistent<I: OracleGadget, C: CombinerFunction>(
    o: I,
    c: C,
    uq: Seq<Labeled<Query<I>>>,
    uc: Seq<Labeled<I::Commitment>>,
    queries: Seq<Query<I>>,
    commitments: Seq<I::Commitment>,
    fc: Seq<u64>,
    nat0: Seq<bool>,
    challenges: Seq<u64>,
    omega0: u64,
    log0: nat,
    k: nat,
)
    requires
        upper_layer_ok(o, log0, k, nat0, uq, uc, uq.len() as int),
        forall|s: int| 1 <= s <= queries.len() ==> o.validate_spec(
            layer_log(log0, k, s as nat),
            queries[s - 1].values@,
            #[trigger] layer_coset_idx(nat0, k, s as nat),
            commitments[s - 1],
            queries[s - 1].proof,
        ),
        forall|s: int| 1 <= s <= queries.len() ==> folded_value_at(
            c,
            uq,
            queries,
            omega0,
            log0,
            k,
            nat0,
            challenges,
            (s - 1) as nat,
        ) == queries[s - 1].values@[bits_to_nat(#[trigger] layer_offset(nat0, k, s as nat)) as int],
        folded_value_at(c, uq, queries, omega0, log0, k, nat0, challenges, queries.len())
            == final_value(omega0, log0, k, nat0, fc, queries.len()),
    ensures
        round_valid(o, c, uq, uc, queries, commitments, fc, nat0, challenges, omega0, log0, k),
{
    lemma_layers_ok_all(
        o,
        c,
        uq,
        uc,
        queries,
        commitments,
        nat0,
        challenges,
        omega0,
        log0,
        k,
        queries.len(),
    );
}

/// Evaluates the polynomial with coefficients `c`, constant term first,
/// at `x` by Horner's rule.
pub fn horner_eval(c: &Vec<u64>, x: u64) -> (r: u64)
    requires
        all_fe(c@),
        x < P,
    ensures
        r == poly_eval(c@, x),
        r < P,
{
    let n = c.len();
    let mut acc: u64 = 0;
    let mut i: usize = n;
    proof {
        assert(c@.subrange(n as int, n as int) =~= Seq::<u64>::empty());
    }
    while i > 0
        invariant
            i <= n,
            n == c@.len(),
            x < P,
            all_fe(c@),
            acc < P,
            acc == poly_eval(c@.subrange(i as int, n as int), x),
        decreases i,
    {
        i = i - 1;
        proof {
            let tail = c@.subrange(i as int, n as int);
            assert(tail.drop_first() =~= c@.subrange(i + 1, n as int));
            assert(tail[0] == c@[i as int]);
        }
        acc = fe_add(c[i], fe_mul(x, acc));
    }
    proof {
        assert(c@.subrange(0, n as int) =~= c@);
    }
    acc
}

/// Copies a bit vector.
fn copy_bits(v: &Vec<bool>) -> (r: Vec<bool>)
    ensures
        r@ == v@,
{
    let mut r: Vec<bool> = Vec::new();
    let mut i: usize = 0;
    while i < v.len()
        invariant
            i <= v@.len(),
            r@ =~= v@.subrange(0, i as int),
        decreases v@.len() - i,
    {
        r.push(v[i]);
        i = i + 1;
    }
    proof {
        assert(r@ =~= v@);
    }
    r
}

} // verus!
