//! Arithmetic on matrices whose storage orders may differ: the operand
//! that does not fit is converted first.

use vstd::prelude::*;
use crate::binop::add_dense_mat_same_ordering;
use crate::binop::add_mat_same_storage;
use crate::binop::elementwise;
use crate::binop::linear;
use crate::binop::linear_ok;
use crate::binop::operable;
use crate::binop::or_zero;
use crate::binop::pruned;
use crate::binop::same_ordering;
use crate::binop::same_shape;
use crate::binop::same_shape_dense;
use crate::binop::same_storage_error;
use crate::binop::scalable;
use crate::binop::scalar_mul_mat;
use crate::binop::scaled;
use crate::binop::scaled_entry;
use crate::binop::sub_mat_same_storage;
use crate::csmat::CsMat;
use crate::csmat::CsMatOwned;
use crate::dense::DenseMat;
use crate::dense::StorageOrder;
use crate::model::CompressedStorage;
use crate::model::CsMatModel;
use crate::scalar::Scalar;
use crate::storage::Storage;

verus! {

impl<N, IptrStorage, IndStorage, DataStorage> CsMat<N, IptrStorage, IndStorage, DataStorage> where
    N: Scalar,
    IptrStorage: Storage<usize>,
    IndStorage: Storage<usize>,
    DataStorage: Storage<N>,
 {
    /// The sum of two sparse matrices of the same shape, in the storage
    /// order of this one. Where `rhs` has the other storage order it is
    /// converted first.
    pub fn add<Ip2, I2, D2>(&self, rhs: &CsMat<N, Ip2, I2, D2>) -> (m: CsMatOwned<N>) where
        Ip2: Storage<usize>,
        I2: Storage<usize>,
        D2: Storage<N>,

        requires
            self@.wf(),
            rhs@.wf(),
            same_shape(self@, rhs@),
            self@.nnz + rhs@.nnz <= usize::MAX,
            self@.storage != rhs@.storage ==> rhs@.inner_dims() < usize::MAX,
            operable_at(|a: N, b: N| a.plus_ok(b), self@, rhs@),
        ensures
            m@.valid(),
            m@.storage == self@.storage,
            m@.nnz <= self@.nnz + rhs@.nnz,
            elementwise_at(|a: N, b: N| a.plus_spec(b), self@, rhs@, m@),
    {
        if self.storage() != rhs.storage() {
            let conv = rhs.to_other_storage();
            proof {
                lemma_operable(|a: N, b: N| a.plus_ok(b), self@, rhs@, conv@);
            }
            let res = add_mat_same_storage(self, &conv).unwrap();
            proof {
                lemma_elementwise_at(|a: N, b: N| a.plus_spec(b), self@, rhs@, conv@, res@);
            }
            return res;
        }
        proof {
            lemma_operable(|a: N, b: N| a.plus_ok(b), self@, rhs@, rhs@);
        }
        let res = add_mat_same_storage(self, rhs).unwrap();
        proof {
            lemma_elementwise_at(|a: N, b: N| a.plus_spec(b), self@, rhs@, rhs@, res@);
        }
        res
    }

    /// The difference of two sparse matrices of the same shape, in the
    /// storage order of this one. Where `rhs` has the other storage order it
    /// is converted first.
    pub fn sub<Ip2, I2, D2>(&self, rhs: &CsMat<N, Ip2, I2, D2>) -> (m: CsMatOwned<N>) where
        Ip2: Storage<usize>,
        I2: Storage<usize>,
        D2: Storage<N>,

        requires
            self@.wf(),
            rhs@.wf(),
            same_shape(self@, rhs@),
            self@.nnz + rhs@.nnz <= usize::MAX,
            self@.storage != rhs@.storage ==> rhs@.inner_dims() < usize::MAX,
            operable_at(|a: N, b: N| a.minus_ok(b), self@, rhs@),
        ensures
            m@.valid(),
            m@.storage == self@.storage,
            m@.nnz <= self@.nnz + rhs@.nnz,
            elementwise_at(|a: N, b: N| a.minus_spec(b), self@, rhs@, m@),
    {
        if self.storage() != rhs.storage() {
            let conv = rhs.to_other_storage();
            proof {
                lemma_operable(|a: N, b: N| a.minus_ok(b), self@, rhs@, conv@);
            }
            let res = sub_mat_same_storage(self, &conv).unwrap();
            proof {
                lemma_elementwise_at(|a: N, b: N| a.minus_spec(b), self@, rhs@, conv@, res@);
            }
            return res;
        }
        proof {
            lemma_operable(|a: N, b: N| a.minus_ok(b), self@, rhs@, rhs@);
        }
        let res = sub_mat_same_storage(self, rhs).unwrap();
        proof {
            lemma_elementwise_at(|a: N, b: N| a.minus_spec(b), self@, rhs@, rhs@, res@);
        }
        res
    }

    /// The product of the matrix by a scalar, as a new matrix of the same
    /// structure.
    pub fn mul(&self, rhs: N) -> (m: CsMatOwned<N>)
        requires
            self@.wf(),
            scalable(self@, rhs),
        ensures
            m@.valid(),
            scaled(self@, rhs, m@),
            forall|o: int, i: int|
                0 <= o < self@.outer_dims() ==> #[trigger] m@.entry(o, i) == scaled_entry(
                    self@.entry(o, i),
                    rhs,
                ),
    {
        scalar_mul_mat(self, rhs)
    }

    /// The sum of the matrix and of a dense matrix of the same shape, in
    /// the ordering of the dense one. Where the storage order of the sparse
    /// matrix does not go with that ordering, it is converted first.
    pub fn add_dense(&self, rhs: &DenseMat<N>) -> (m: DenseMat<N>)
        requires
            self@.wf(),
            rhs@.wf(),
            same_shape_dense(self@, rhs@),
            rhs@.order != StorageOrder::Unordered,
            !same_ordering(self@, rhs@) ==> self@.inner_dims() < usize::MAX,
            forall|r: int, c: int|
                0 <= r < self@.nrows && 0 <= c < self@.ncols ==> linear_ok(
                    N::one_spec(),
                    or_zero(#[trigger] self@.at(r, c)),
                    N::one_spec(),
                    rhs@.elem(r, c),
                ),
        ensures
            m@.wf(),
            m@.rows == rhs@.rows,
            m@.cols == rhs@.cols,
            m@.order == rhs@.order,
            forall|r: int, c: int|
                0 <= r < self@.nrows && 0 <= c < self@.ncols ==> m@.elem(r, c) == linear(
                    N::one_spec(),
                    or_zero(#[trigger] self@.at(r, c)),
                    N::one_spec(),
                    rhs@.elem(r, c),
                ),
    {
        let direct = match (self.storage(), rhs.ordering()) {
            (CompressedStorage::CSR, StorageOrder::C) => true,
            (CompressedStorage::CSC, StorageOrder::F) => true,
            (_, _) => false,
        };
        if direct {
            add_dense_mat_same_ordering(self, rhs, N::one(), N::one()).unwrap()
        } else {
            let lhs = self.to_other_storage();
            proof {
                assert forall|r: int, c: int|
                    0 <= r < lhs@.nrows && 0 <= c < lhs@.ncols implies linear_ok(
                    N::one_spec(),
                    or_zero(#[trigger] lhs@.at(r, c)),
                    N::one_spec(),
                    rhs@.elem(r, c),
                ) by {
                    assert(lhs@.at(r, c) == self@.at(r, c));
                }
            }
            let res = add_dense_mat_same_ordering(&lhs, rhs, N::one(), N::one()).unwrap();
            proof {
                assert forall|r: int, c: int|
                    0 <= r < self@.nrows && 0 <= c < self@.ncols implies res@.elem(r, c) == linear(
                    N::one_spec(),
                    or_zero(#[trigger] self@.at(r, c)),
                    N::one_spec(),
                    rhs@.elem(r, c),
                ) by {
                    assert(lhs@.at(r, c) == self@.at(r, c));
                }
            }
            res
        }
    }
}

/// The condition `ok` holds of the two values at every position that one
/// of the matrices stores, whatever their storage orders.
pub open spec fn operable_at<N: Scalar>(
    ok: spec_fn(N, N) -> bool,
    lhs: CsMatModel<N>,
    rhs: CsMatModel<N>,
) -> bool {
    forall|r: int, c: int|
        0 <= r < lhs.nrows && 0 <= c < lhs.ncols && ((#[trigger] lhs.at(r, c)).is_some() || rhs.at(
            r,
            c,
        ).is_some()) ==> ok(or_zero(lhs.at(r, c)), or_zero(rhs.at(r, c)))
}

/// `out` has the shape of `lhs` and holds at every position the pruned
/// value of `f` on the entries of `lhs` and `rhs`, whatever their storage
/// orders.
pub open spec fn elementwise_at<N: Scalar>(
    f: spec_fn(N, N) -> N,
    lhs: CsMatModel<N>,
    rhs: CsMatModel<N>,
    out: CsMatModel<N>,
) -> bool {
    &&& out.nrows == lhs.nrows
    &&& out.ncols == lhs.ncols
    &&& forall|r: int, c: int|
        0 <= r < lhs.nrows && 0 <= c < lhs.ncols ==> #[trigger] out.at(r, c) == pruned(
            f,
            lhs.at(r, c),
            rhs.at(r, c),
        )
}

/// A condition that holds position by position for `lhs` and `rhs` holds
/// slice by slice for `lhs` and the form `conv` of `rhs` that has the
/// storage order of `lhs`.
proof fn lemma_operable<N: Scalar>(
    ok: spec_fn(N, N) -> bool,
    lhs: CsMatModel<N>,
    rhs: CsMatModel<N>,
    conv: CsMatModel<N>,
)
    requires
        lhs.wf(),
        conv.wf(),
        conv.storage == lhs.storage,
        same_shape(lhs, rhs),
        conv.same_entries(rhs),
        operable_at(ok, lhs, rhs),
    ensures
        operable(ok, lhs, conv),
        same_storage_error(lhs, conv).is_none(),
{
    assert forall|o: int, i: int|
        0 <= o < lhs.outer_dims() && (#[trigger] lhs.entry(o, i)).is_some() || (0 <= o
            < lhs.outer_dims() && (#[trigger] conv.entry(o, i)).is_some()) implies ok(
        or_zero(lhs.entry(o, i)),
        or_zero(conv.entry(o, i)),
    ) by {
        if lhs.entry(o, i).is_some() {
            crate::model::lemma_entry_some(lhs, o, i);
        } else {
            crate::model::lemma_entry_some(conv, o, i);
        }
        match lhs.storage {
            CompressedStorage::CSR => {
                assert(conv.at(o, i) == rhs.at(o, i));
                assert(lhs.at(o, i) == lhs.entry(o, i));
            },
            CompressedStorage::CSC => {
                assert(conv.at(i, o) == rhs.at(i, o));
                assert(lhs.at(i, o) == lhs.entry(o, i));
            },
        }
    }
}

/// The slice by slice image of `lhs` and `conv` is the position by
/// position image of `lhs` and `rhs`, where `conv` has the entries of
/// `rhs`.
proof fn lemma_elementwise_at<N: Scalar>(
    f: spec_fn(N, N) -> N,
    lhs: CsMatModel<N>,
    rhs: CsMatModel<N>,
    conv: CsMatModel<N>,
    out: CsMatModel<N>,
)
    requires
        conv.storage == lhs.storage,
        same_shape(lhs, rhs),
        conv.same_entries(rhs),
        elementwise(f, lhs, conv, out),
    ensures
        elementwise_at(f, lhs, rhs, out),
{
    assert forall|r: int, c: int| 0 <= r < lhs.nrows && 0 <= c < lhs.ncols implies #[trigger] out.at(
        r,
        c,
    ) == pruned(f, lhs.at(r, c), rhs.at(r, c)) by {
        assert(conv.at(r, c) == rhs.at(r, c));
        match lhs.storage {
            CompressedStorage::CSR => {
                assert(out.entry(r, c) == pruned(f, lhs.entry(r, c), conv.entry(r, c)));
            },
            CompressedStorage::CSC => {
                assert(out.entry(c, r) == pruned(f, lhs.entry(c, r), conv.entry(c, r)));
            },
        }
    }
}

} // verus!
