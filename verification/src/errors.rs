//! Error type shared by every fallible operation of the crate.

use vstd::prelude::*;

verus! {

/// Reasons for which an operation on sparse data can be rejected.
#[derive(Clone, Copy, PartialEq, Eq, Debug, Structural)]
pub enum SprsError {
    /// Two operands do not have the same shape.
    IncompatibleDimensions,
    /// The offsets array does not have `outer_dims + 1` entries.
    BadIndptrLength,
    /// The indices and data arrays have different lengths.
    DataIndicesMismatch,
    /// The offsets do not account for exactly the stored entries.
    BadNnzCount,
    /// An offset points past the end of the indices array.
    OutOfBoundsIndptr,
    /// The offsets array is not non-decreasing.
    UnsortedIndptr,
    /// An inner index reaches or exceeds the inner dimension,
    /// or a requested outer range leaves the matrix.
    OutOfBoundsIndex,
    /// A block of zero outer slices was requested.
    EmptyBlock,
    /// The inner indices of one outer slice are not strictly increasing.
    NonSortedIndices,
    /// Two operands do not have the required storage orders.
    IncompatibleStorages,
}

} // verus!
