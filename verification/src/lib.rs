//! In-circuit style FRI (Fast Reed-Solomon IOP) low-degree proof verifier.
//!
//! The library checks a FRI proof layer by layer: it validates oracle
//! openings of cosets, batches the topmost committed polynomials through a
//! caller-supplied combiner, folds each layer by interpolating the opened
//! coset at a random challenge, and finally compares the last folded value
//! against the published final polynomial.  Adversarial mismatches surface
//! as a `false` validity flag; malformed caller input surfaces as an error.

pub mod bits;
pub mod errors;
pub mod field;
pub mod fri_utils;
pub mod fri_verifier;
pub mod oracles;
