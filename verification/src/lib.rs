//! Sparse matrices in compressed row/column storage, with verified
//! structural validation, format conversion and elementwise algebra.

pub mod binop;
pub mod csmat;
pub mod dense;
pub mod errors;
pub mod model;
pub mod permutation;
pub mod product;
pub mod raw;
pub mod scalar;
pub mod storage;
pub mod symmetric;
pub mod vec;

pub use crate::csmat::CsMat;
pub use crate::csmat::CsMatOwned;
pub use crate::csmat::CsMatVecView;
pub use crate::csmat::CsMatView;
pub use crate::dense::DenseMat;
pub use crate::dense::StorageOrder;
pub use crate::errors::SprsError;
pub use crate::model::CompressedStorage;
pub use crate::model::CompressedStorage::CSC;
pub use crate::model::CompressedStorage::CSR;
pub use crate::scalar::Scalar;
pub use crate::vec::CsVec;
pub use crate::vec::CsVecOwned;
pub use crate::vec::CsVecView;
