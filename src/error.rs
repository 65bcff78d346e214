use vstd::prelude::*;

verus! {

/// Reasons for which an operation on the ledger is rejected as a whole.
#[derive(Clone, Copy, Debug, PartialEq, Eq, Structural)]
pub enum DistributorError {
    /// An identifier failed validation.
    InvalidReference,
    /// Weight changes were submitted by someone other than the membership source.
    Unauthorized,
    /// A distribution was attempted while no participant holds eligible weight.
    ZeroTotalWeight,
    /// Initial weights named a participant that already has a weight.
    DuplicateInitialWeight,
    /// An amount or index would not fit in 128 bits.
    Overflow,
}

} // verus!
