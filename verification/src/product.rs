//! Selection of the matrix product routine.
//!
//! The product of two matrices proper is computed by routines that each
//! handle one pair of storage orders. This module decides which routine a
//! pair of operands is handed to, and which operand has to be converted
//! first.

use vstd::prelude::*;
use crate::dense::StorageOrder;
use crate::model::CompressedStorage;

verus! {

/// The routines that multiply two sparse matrices.
#[derive(Clone, Copy, PartialEq, Eq, Debug, Structural)]
pub enum SparseProduct {
    /// Both operands in CSR storage.
    CsrMulCsr,
    /// Both operands in CSC storage.
    CscMulCsc,
}

/// How two sparse matrices are multiplied: by which routine, and whether
/// the right operand is converted to the other storage order first.
#[derive(Clone, Copy, PartialEq, Eq, Debug, Structural)]
pub struct SparseProductPlan {
    /// The routine to call.
    pub routine: SparseProduct,
    /// Whether the right operand must be converted before the call.
    pub convert_rhs: bool,
}

/// The routines that multiply a sparse matrix by a dense one.
#[derive(Clone, Copy, PartialEq, Eq, Debug, Structural)]
pub enum DenseProduct {
    /// A CSR matrix by a row major dense matrix.
    CsrMulRowmaj,
    /// A CSR matrix by a column major dense matrix.
    CsrMulColmaj,
    /// A CSC matrix by a row major dense matrix.
    CscMulRowmaj,
    /// A CSC matrix by a column major dense matrix.
    CscMulColmaj,
}

/// Selects the routine for the product of two sparse matrices: the one of
/// the storage order of the left operand, the right operand being
/// converted where its storage order differs.
pub fn sparse_product_plan(lhs: CompressedStorage, rhs: CompressedStorage) -> (plan:
    SparseProductPlan)
    ensures
        plan.routine == match lhs {
            CompressedStorage::CSR => SparseProduct::CsrMulCsr,
            CompressedStorage::CSC => SparseProduct::CscMulCsc,
        },
        plan.convert_rhs == (lhs != rhs),
{
    match (lhs, rhs) {
        (CompressedStorage::CSR, CompressedStorage::CSR) => SparseProductPlan {
            routine: SparseProduct::CsrMulCsr,
            convert_rhs: false,
        },
        (CompressedStorage::CSR, CompressedStorage::CSC) => SparseProductPlan {
            routine: SparseProduct::CsrMulCsr,
            convert_rhs: true,
        },
        (CompressedStorage::CSC, CompressedStorage::CSR) => SparseProductPlan {
            routine: SparseProduct::CscMulCsc,
            convert_rhs: true,
        },
        (CompressedStorage::CSC, CompressedStorage::CSC) => SparseProductPlan {
            routine: SparseProduct::CscMulCsc,
            convert_rhs: false,
        },
    }
}

/// Selects the routine for the product of a sparse matrix by a dense one,
/// and the ordering of the result, which is that of the dense operand.
/// There is none for a dense matrix without ordering.
pub fn dense_product_plan(lhs: CompressedStorage, rhs: StorageOrder) -> (plan: Option<
    (DenseProduct, StorageOrder),
>)
    ensures
        plan == match (lhs, rhs) {
            (CompressedStorage::CSR, StorageOrder::C) => Some(
                (DenseProduct::CsrMulRowmaj, StorageOrder::C),
            ),
            (CompressedStorage::CSR, StorageOrder::F) => Some(
                (DenseProduct::CsrMulColmaj, StorageOrder::F),
            ),
            (CompressedStorage::CSC, StorageOrder::C) => Some(
                (DenseProduct::CscMulRowmaj, StorageOrder::C),
            ),
            (CompressedStorage::CSC, StorageOrder::F) => Some(
                (DenseProduct::CscMulColmaj, StorageOrder::F),
            ),
            (_, StorageOrder::Unordered) => None,
        },
{
    match (lhs, rhs) {
        (CompressedStorage::CSR, StorageOrder::C) => Some(
            (DenseProduct::CsrMulRowmaj, StorageOrder::C),
        ),
        (CompressedStorage::CSR, StorageOrder::F) => Some(
            (DenseProduct::CsrMulColmaj, StorageOrder::F),
        ),
        (CompressedStorage::CSC, StorageOrder::C) => Some(
            (DenseProduct::CscMulRowmaj, StorageOrder::C),
        ),
        (CompressedStorage::CSC, StorageOrder::F) => Some(
            (DenseProduct::CscMulColmaj, StorageOrder::F),
        ),
        (_, StorageOrder::Unordered) => None,
    }
}

} // verus!
