use vstd::prelude::*;

verus! {

/// Why a grid could not be encoded or committed to.
#[derive(Clone, Copy, Debug, PartialEq, Eq, Structural)]
pub enum CodingError {
    /// A share count, row count or scale is not a power of two, a side length
    /// does not fit in `usize`, or the rows do not have the side length.
    InvalidDimension,
    /// The field has no multiplicative subgroup of the order asked for.
    DomainUnavailable,
    /// The public parameters of the commitment scheme could not be set up.
    CommitmentSetupFailure,
    /// Committing to a row or column polynomial failed.
    CommitmentFailure,
    /// A Merkle root could not be built over the leaves.
    MerkleConstructionFailure,
}

} // verus!
