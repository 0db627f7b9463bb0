use fri_verifier::bits::{bit_reverse, bits_to_usize, log2_exact, pow2_usize};
use fri_verifier::errors::FriError;
use fri_verifier::field::{domain_generator, fe_add, fe_inv, fe_mul, fe_pow, fe_sub, P};
use fri_verifier::fri_utils::FriUtilsGadget;
use fri_verifier::fri_verifier::{
    horner_eval, FriSingleQueryRoundData, FriVerifierGadget, Labeled, SelectCombiner, EV_P_LABEL,
};
use fri_verifier::oracles::{plain_commit, OracleGadget, PlainOracle, Query};

const POLY: u64 = 7;

fn omega8() -> u64 {
    domain_generator(3)
}

/// Builds a consistent one-round proof over an 8-point domain with
/// collapsing factor 1 and two fold layers, as a prover would, and
/// returns everything `verify_proof` consumes.
struct Scenario {
    verifier: FriVerifierGadget<PlainOracle>,
    upper_commitments: Vec<Labeled<u64>>,
    commitments: Vec<u64>,
    final_coefficients: Vec<u64>,
    challenges: Vec<u64>,
    round: FriSingleQueryRoundData<PlainOracle>,
}

fn honest_scenario() -> Scenario {
    let omega = omega8();
    let mut helper = FriUtilsGadget::new(3, 1, omega);
    let nat = vec![true, false, true];
    let coset_idx0 = helper.get_coset_idx_for_natural_index(&nat);
    let upper_values = vec![3u64, 9u64];
    let challenges = vec![11u64, 22u64, 33u64, 44u64];
    let prev0 = helper
        .coset_interpolation_value(&upper_values, &coset_idx0, &vec![11u64, 22u64])
        .unwrap();

    helper.next_domain();
    let nat1 = vec![false, true];
    let coset_idx1 = helper.get_coset_idx_for_natural_index(&nat1);
    let offset1 = helper.get_coset_offset_for_natural_index(&nat1);
    assert_eq!(bits_to_usize(&offset1), 0);
    // the round-consistency check reads position 0, so put the fold there
    let layer_values = vec![prev0, 5u64];
    let prev1 = helper
        .coset_interpolation_value(&layer_values, &coset_idx1, &vec![33u64, 44u64])
        .unwrap();

    let upper_commit = plain_commit(3, &upper_values, &coset_idx0);
    let layer_commit = plain_commit(2, &layer_values, &coset_idx1);

    Scenario {
        verifier: FriVerifierGadget::<PlainOracle>::new(1, 1, 2, 4, 2),
        upper_commitments: vec![Labeled { label: POLY, data: upper_commit }],
        commitments: vec![layer_commit],
        final_coefficients: vec![prev1, 0u64],
        challenges,
        round: FriSingleQueryRoundData {
            upper_layer_queries: vec![Labeled {
                label: POLY,
                data: Query { values: upper_values, proof: false },
            }],
            queries: vec![Query { values: layer_values, proof: false }],
            natural_first_element_index: nat,
        },
    }
}

fn run(s: &Scenario) -> Result<bool, FriError> {
    let rounds = vec![FriSingleQueryRoundData {
        upper_layer_queries: s
            .round
            .upper_layer_queries
            .iter()
            .map(|q| Labeled {
                label: q.label,
                data: Query { values: q.data.values.clone(), proof: q.data.proof },
            })
            .collect(),
        queries: s
            .round
            .queries
            .iter()
            .map(|q| Query { values: q.values.clone(), proof: q.proof })
            .collect(),
        natural_first_element_index: s.round.natural_first_element_index.clone(),
    }];
    s.verifier.verify_proof(
        &false,
        &SelectCombiner { label: POLY },
        &s.upper_commitments,
        &s.commitments,
        &s.final_coefficients,
        &s.challenges,
        &rounds,
    )
}

#[test]
fn honest_proof_accepts() {
    let s = honest_scenario();
    assert_eq!(run(&s), Ok(true));
}

#[test]
fn flipped_layer_value_rejects() {
    // flip one opened value in the second layer; the commitment is
    // recomputed so the oracle check passes, and the fold chain breaks
    let mut s = honest_scenario();
    s.round.queries[0].values[0] = fe_add(s.round.queries[0].values[0], 1);
    let omega = omega8();
    let mut helper = FriUtilsGadget::new(3, 1, omega);
    helper.next_domain();
    let coset_idx1 = helper.get_coset_idx_for_natural_index(&vec![false, true]);
    s.commitments[0] = plain_commit(2, &s.round.queries[0].values, &coset_idx1);
    assert_eq!(run(&s), Ok(false));
}

#[test]
fn stale_commitment_rejects() {
    // flip the value but keep the old commitment: the oracle check fails
    let mut s = honest_scenario();
    s.round.queries[0].values[1] = fe_add(s.round.queries[0].values[1], 1);
    assert_eq!(run(&s), Ok(false));
}

#[test]
fn flipped_upper_value_rejects() {
    let mut s = honest_scenario();
    s.round.upper_layer_queries[0].data.values[1] =
        fe_add(s.round.upper_layer_queries[0].data.values[1], 1);
    let omega = omega8();
    let helper = FriUtilsGadget::new(3, 1, omega);
    let coset_idx0 =
        helper.get_coset_idx_for_natural_index(&s.round.natural_first_element_index);
    s.upper_commitments[0].data =
        plain_commit(3, &s.round.upper_layer_queries[0].data.values, &coset_idx0);
    assert_eq!(run(&s), Ok(false));
}

#[test]
fn unknown_label_is_fatal() {
    // a top-layer label that matches no commitment label is a lookup
    // error at construction time, not a false flag
    let mut s = honest_scenario();
    s.upper_commitments[0].label = POLY + 1;
    assert_eq!(run(&s), Err(FriError::LabelNotFound));
}

#[test]
fn rejected_combiner_argument_is_fatal() {
    let s = honest_scenario();
    let rounds = vec![honest_scenario().round];
    let r = s.verifier.verify_proof(
        &false,
        &SelectCombiner { label: POLY + 3 },
        &s.upper_commitments,
        &s.commitments,
        &s.final_coefficients,
        &s.challenges,
        &rounds,
    );
    assert_eq!(r, Err(FriError::CombinerFailure));
}

#[test]
fn round_count_mismatch_is_fatal() {
    let mut s = honest_scenario();
    s.verifier = FriVerifierGadget::<PlainOracle>::new(1, 2, 2, 4, 2);
    assert_eq!(run(&s), Err(FriError::RoundCountMismatch));
}

#[test]
fn final_degree_bound_is_fatal() {
    let mut s = honest_scenario();
    s.final_coefficients = vec![1u64, 2u64, 3u64];
    assert_eq!(run(&s), Err(FriError::FinalDegreeTooLarge));
}

#[test]
fn folding_is_deterministic() {
    // two runs of the single-round algorithm on identical inputs agree
    let s = honest_scenario();
    let combiner = SelectCombiner { label: POLY };
    let mut results = Vec::new();
    for _ in 0..2 {
        let mut helper = FriUtilsGadget::new(3, 1, omega8());
        let r = FriVerifierGadget::<PlainOracle>::verify_single_proof_round(
            &s.round.upper_layer_queries,
            &s.upper_commitments,
            &combiner,
            &mut helper,
            &s.round.queries,
            &s.commitments,
            &s.final_coefficients,
            &s.round.natural_first_element_index,
            &s.challenges,
            &false,
        );
        results.push((r, helper.log_domain_size, helper.omega));
    }
    assert_eq!(results[0], results[1]);
    assert_eq!(results[0].0, Ok(true));
}

#[test]
fn degenerate_final_layer_matches_constant_polynomial() {
    // a proof with no deeper layers: the last folded value is the first
    // interpolant; [v] and [v, 0] describe the same constant polynomial
    // and both must accept it
    let omega = omega8();
    let nat = vec![true, true, false];
    let combiner = SelectCombiner { label: POLY };
    let mut accepted = Vec::new();
    for extra_zero in [false, true] {
        let mut helper = FriUtilsGadget::new(3, 1, omega);
        let coset_idx0 = helper.get_coset_idx_for_natural_index(&nat);
        let upper_values = vec![12u64, 800u64];
        let folded = helper
            .coset_interpolation_value(&upper_values, &coset_idx0, &vec![55u64, 66u64])
            .unwrap();
        let upper_commit = plain_commit(3, &upper_values, &coset_idx0);
        let fc = if extra_zero { vec![folded, 0u64] } else { vec![folded] };
        let r = FriVerifierGadget::<PlainOracle>::verify_single_proof_round(
            &vec![Labeled { label: POLY, data: Query { values: upper_values, proof: false } }],
            &vec![Labeled { label: POLY, data: upper_commit }],
            &combiner,
            &mut helper,
            &Vec::new(),
            &Vec::new(),
            &fc,
            &nat,
            &vec![55u64, 66u64],
            &false,
        );
        accepted.push(r);
    }
    assert_eq!(accepted[0], Ok(true));
    assert_eq!(accepted[1], Ok(true));
}

#[test]
fn domain_shrinks_by_collapsing_factor_each_step() {
    let omega = domain_generator(10);
    let mut helper = FriUtilsGadget::new(10, 2, omega);
    for step in 1..=3usize {
        helper.next_domain();
        assert_eq!(helper.log_domain_size, 10 - 2 * step);
    }
    // the generator of the shrunken domain squares accordingly: after
    // one step on the 8-point domain it generates the 2-point domain
    let mut h2 = FriUtilsGadget::new(2, 1, domain_generator(2));
    h2.next_domain();
    assert_eq!(h2.omega, domain_generator(1));
}

#[test]
fn field_operations_match_known_values() {
    assert_eq!(fe_add(P - 1, 1), 0);
    assert_eq!(fe_sub(3, 5), P - 2);
    assert_eq!(fe_mul(3, 5), 15);
    assert_eq!(fe_pow(2, 10), 1024);
    assert_eq!(fe_pow(5, 0), 1);
    let x = 123456789u64;
    assert_eq!(fe_mul(x, fe_inv(x)), 1);
}

#[test]
fn domain_generator_has_expected_order() {
    // the 2-point domain generator is -1
    assert_eq!(domain_generator(1), P - 1);
    let g = domain_generator(3);
    assert_eq!(fe_pow(g, 4), P - 1);
    assert_eq!(fe_pow(g, 8), 1);
    assert_ne!(fe_pow(g, 2), 1);
}

#[test]
fn bit_helpers_match_known_values() {
    assert_eq!(bits_to_usize(&vec![true, false, true]), 5);
    assert_eq!(bits_to_usize(&Vec::new()), 0);
    assert_eq!(bit_reverse(1, 3), 4);
    assert_eq!(bit_reverse(6, 3), 3);
    assert_eq!(bit_reverse(0, 4), 0);
    assert_eq!(pow2_usize(5), 32);
    assert_eq!(log2_exact(8), 3);
    assert_eq!(log2_exact(1), 0);
}

#[test]
fn interpolation_at_a_coset_point_returns_its_value() {
    // evaluating the interpolant at the first coset point yields the
    // value opened at that point
    let omega = omega8();
    let helper = FriUtilsGadget::new(3, 1, omega);
    let coset_idx = vec![true, false];
    let pts = helper.get_combiner_eval_points(&coset_idx);
    let values = vec![77u64, 1234u64];
    let z = vec![pts[0], 0u64];
    let r = helper.coset_interpolation_value(&values, &coset_idx, &z).unwrap();
    assert_eq!(r, 77);
    let z1 = vec![pts[1], 0u64];
    let r1 = helper.coset_interpolation_value(&values, &coset_idx, &z1).unwrap();
    assert_eq!(r1, 1234);
}

#[test]
fn interpolation_with_coset_size_one_is_identity() {
    let omega = omega8();
    let helper = FriUtilsGadget::new(3, 0, omega);
    let nat = vec![true, true, false];
    let coset_idx = helper.get_coset_idx_for_natural_index(&nat);
    assert_eq!(coset_idx.len(), 3);
    let r = helper
        .coset_interpolation_value(&vec![42u64], &coset_idx, &vec![99u64])
        .unwrap();
    assert_eq!(r, 42);
}

#[test]
fn choose_element_selects_by_offset_bits() {
    let helper = FriUtilsGadget::new(3, 1, omega8());
    let values = vec![10u64, 20u64];
    assert_eq!(helper.choose_element_in_coset(&values, &vec![false]), 10);
    assert_eq!(helper.choose_element_in_coset(&values, &vec![true]), 20);
}

#[test]
fn horner_evaluates_exactly() {
    assert_eq!(horner_eval(&vec![2u64, 3u64, 4u64], 5), 117);
    assert_eq!(horner_eval(&vec![9u64], 1000), 9);
}

#[test]
fn plain_oracle_accepts_only_its_digest() {
    let oracle = PlainOracle::new(&false);
    let values = vec![1u64, 2u64];
    let idx = vec![true, false];
    let c = plain_commit(3, &values, &idx);
    assert!(oracle.validate(3, &values, &idx, &c, &false));
    assert!(!oracle.validate(3, &values, &idx, &fe_add(c, 1), &false));
    assert!(!oracle.validate(2, &values, &idx, &c, &false));
}

#[test]
fn combiner_can_select_the_evaluation_point() {
    let s = honest_scenario();
    let rounds = vec![honest_scenario().round];
    // a combiner keyed on the reserved label folds the evaluation
    // points themselves; the proof above was not built for that, so the
    // result is a clean rejection, never an error
    let r = s.verifier.verify_proof(
        &false,
        &SelectCombiner { label: EV_P_LABEL },
        &s.upper_commitments,
        &s.commitments,
        &s.final_coefficients,
        &s.challenges,
        &rounds,
    );
    assert_eq!(r, Ok(false));
}
