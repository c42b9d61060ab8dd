//! The failures the pool can report.
//!
//! Every rejected request raises exactly one of these, strictly before any
//! state is touched, so a failed deposit or withdrawal leaves the
//! accumulator and the nullifier registry as they were.

use vstd::prelude::*;

verus! {

/// One typed error per way a request can fail.
#[derive(Clone, Copy, Debug, PartialEq, Eq, Structural)]
pub enum ContractError {
    /// The tree depth given at pool construction is zero or too large.
    ConstructionError,
    /// The attached payment does not equal the fixed pool denomination.
    WrongAmount,
    /// The accumulator already holds its full `2^depth` leaves.
    TreeFull,
    /// The recipient, or a specified relayer, is not a valid address.
    InvalidAddress,
    /// A withdrawal parameter cannot be encoded as a field element.
    MalformedSignal,
    /// The nullifier hash was already spent: a double-spend attempt.
    DuplicateNullifier,
    /// The named root is not among the recent roots of the accumulator.
    UnknownRoot,
    /// The zero-knowledge proof was rejected by the verifier.
    InvalidProof,
    /// The requested fee exceeds the pool denomination.
    FeeExceedsPrincipal,
}

} // verus!
