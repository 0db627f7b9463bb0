//! Fatal construction errors.
//!
//! These signal malformed caller input and abort verification; adversarial
//! proof data never raises them — it only turns the validity flag false.

use vstd::prelude::*;

verus! {

/// A fatal error while building the verification circuit.
#[derive(Clone, Copy, Debug, PartialEq, Eq, Structural)]
pub enum FriError {
    /// A query label matched no commitment label.
    LabelNotFound,
    /// The caller-supplied combiner rejected its argument list.
    CombinerFailure,
    /// A required field inverse does not exist (domain misconfiguration).
    InversionError,
    /// The number of query rounds differs from the configured round count.
    RoundCountMismatch,
    /// More final coefficients than the configured final degree allows.
    FinalDegreeTooLarge,
}

} // verus!
