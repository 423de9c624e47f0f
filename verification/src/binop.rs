//! Elementwise binary operations on sparse matrices and vectors: addition,
//! subtraction, elementwise product, scaling.
//!
//! Two operands are combined position by position over the union of their
//! stored positions, an absent entry standing for zero, and a result is
//! stored only where it is not zero.
//!
//! This module holds the combination of two sparse operands; the submodules
//! hold the multiplication by a scalar and the combination with a dense
//! matrix.

use vstd::prelude::*;
use crate::csmat::CsMat;
use crate::csmat::CsMatOwned;
use crate::csmat::CsMatView;
use crate::errors::SprsError;
use crate::model::lemma_outer_slice;
use crate::model::lemma_slice_bounds;
use crate::model::CsMatModel;
use crate::scalar::Scalar;
use crate::storage::Storage;
use crate::vec::all_below;
use crate::vec::lemma_lookup_absent;
use crate::vec::lemma_lookup_agree;
use crate::vec::lemma_lookup_found;
use crate::vec::lemma_lookup_skip;
use crate::vec::lookup;
use crate::vec::stored_at;
use crate::vec::strictly_increasing;
use crate::vec::CsVec;
use crate::vec::CsVecOwned;
use crate::vec::CsVecView;
use crate::vec::NnzEither;

pub mod dense;
pub mod scaling;

pub use crate::binop::dense::add_dense_mat_same_ordering;
pub use crate::binop::dense::applicable_dense;
pub use crate::binop::dense::combined_dense;
pub use crate::binop::dense::csmat_binop_dense_same_ordering_raw;
pub use crate::binop::dense::dense_error;
pub use crate::binop::dense::dense_pair_error;
pub use crate::binop::dense::linear;
pub use crate::binop::dense::linear_ok;
pub use crate::binop::dense::mul_dense_mat_same_ordering;
pub use crate::binop::dense::product;
pub use crate::binop::dense::product_ok;
pub use crate::binop::dense::same_ordering;
pub use crate::binop::dense::same_shape_dense;
pub use crate::binop::scaling::cancels;
pub use crate::binop::scaling::lemma_add_negated_is_empty;
pub use crate::binop::scaling::lemma_add_negated_is_empty_i64;
pub use crate::binop::scaling::lemma_scaled;
pub use crate::binop::scaling::scalable;
pub use crate::binop::scaling::scalar_mul_mat;
pub use crate::binop::scaling::scalar_mul_mat_raw;
pub use crate::binop::scaling::scaled;
pub use crate::binop::scaling::scaled_entry;

verus! {

/// The value that an entry stands for: the stored one, or zero where none
/// is stored.
pub open spec fn or_zero<N: Scalar>(v: Option<N>) -> N {
    match v {
        Some(x) => x,
        None => N::zero_spec(),
    }
}

/// The operator can be applied wherever one of the two entries is stored.
pub open spec fn applicable<N: Scalar, F: Fn(N, N) -> N>(
    binop: F,
    l: Option<N>,
    r: Option<N>,
) -> bool {
    (l.is_some() || r.is_some()) ==> call_requires(binop, (or_zero(l), or_zero(r)))
}

/// `out` is what combining the entries `l` and `r` leaves at their
/// position: nothing where neither is stored; else the value that `binop`
/// returned for them, unless that value is zero, in which case nothing is
/// stored.
pub open spec fn combines<N: Scalar, F: Fn(N, N) -> N>(
    binop: F,
    l: Option<N>,
    r: Option<N>,
    out: Option<N>,
) -> bool {
    if l.is_none() && r.is_none() {
        out.is_none()
    } else {
        match out {
            Some(v) => v != N::zero_spec() && call_ensures(binop, (or_zero(l), or_zero(r)), v),
            None => call_ensures(binop, (or_zero(l), or_zero(r)), N::zero_spec()),
        }
    }
}

/// Merges two sparse vectors and appends the combined entries that are not
/// zero to the output arrays, from position `nnz` on. Returns the position
/// behind the last entry written.
fn binop_into<N: Scalar, F: Fn(N, N) -> N>(
    lhs: &CsVecView<'_, N>,
    rhs: &CsVecView<'_, N>,
    binop: &F,
    out_indices: &mut [usize],
    out_data: &mut [N],
    nnz: usize,
) -> (r: usize)
    requires
        lhs@.wf(),
        rhs@.wf(),
        lhs@.dim == rhs@.dim,
        nnz + lhs@.indices.len() + rhs@.indices.len() <= old(out_indices)@.len(),
        nnz + lhs@.indices.len() + rhs@.indices.len() <= old(out_data)@.len(),
        forall|i: int| applicable(*binop, #[trigger] lhs@.get(i), rhs@.get(i)),
    ensures
        final(out_indices)@.len() == old(out_indices)@.len(),
        final(out_data)@.len() == old(out_data)@.len(),
        nnz <= r <= nnz + lhs@.indices.len() + rhs@.indices.len(),
        forall|k: int|
            0 <= k < nnz ==> final(out_indices)@[k] == old(out_indices)@[k] && final(out_data)@[k]
                == old(out_data)@[k],
        forall|k: int|
            r <= k < old(out_indices)@.len() ==> #[trigger] final(out_indices)@[k] == old(
                out_indices,
            )@[k],
        forall|k: int|
            r <= k < old(out_data)@.len() ==> #[trigger] final(out_data)@[k] == old(out_data)@[k],
        strictly_increasing(final(out_indices)@, nnz as int, r as int),
        all_below(final(out_indices)@, nnz as int, r as int, lhs@.dim as int),
        forall|i: int|
            combines(
                *binop,
                #[trigger] lhs@.get(i),
                rhs@.get(i),
                lookup(final(out_indices)@, final(out_data)@, nnz as int, r as int, i),
            ),
{
    let ghost lv = lhs@;
    let ghost rv = rhs@;
    let ghost ln = lv.indices.len() as int;
    let ghost rn = rv.indices.len() as int;
    let mut it = lhs.nnz_or_zip(rhs);
    let mut n: usize = nnz;
    let ghost mut h: int = 0;
    loop
        invariant
            lv == lhs@,
            rv == rhs@,
            lv.wf(),
            rv.wf(),
            lv.dim == rv.dim,
            ln == lv.indices.len(),
            rn == rv.indices.len(),
            it@.wf(),
            it@.left_indices == lv.indices,
            it@.left_data == lv.data,
            it@.right_indices == rv.indices,
            it@.right_data == rv.data,
            forall|i: int| applicable(*binop, #[trigger] lv.get(i), rv.get(i)),
            0 <= h <= lv.dim,
            forall|k: int| 0 <= k < it@.left_pos ==> lv.indices[k] < h,
            forall|k: int| it@.left_pos <= k < ln ==> lv.indices[k] >= h,
            forall|k: int| 0 <= k < it@.right_pos ==> rv.indices[k] < h,
            forall|k: int| it@.right_pos <= k < rn ==> rv.indices[k] >= h,
            nnz <= n <= nnz + it@.left_pos + it@.right_pos,
            out_indices@.len() == old(out_indices)@.len(),
            out_data@.len() == old(out_data)@.len(),
            nnz + ln + rn <= out_indices@.len(),
            nnz + ln + rn <= out_data@.len(),
            forall|k: int|
                0 <= k < nnz ==> out_indices@[k] == old(out_indices)@[k] && out_data@[k] == old(
                    out_data,
                )@[k],
            forall|k: int|
                n <= k < out_indices@.len() ==> #[trigger] out_indices@[k] == old(out_indices)@[k],
            forall|k: int| n <= k < out_data@.len() ==> #[trigger] out_data@[k] == old(out_data)@[k],
            strictly_increasing(out_indices@, nnz as int, n as int),
            all_below(out_indices@, nnz as int, n as int, h),
            forall|i: int|
                0 <= i < h ==> combines(
                    *binop,
                    #[trigger] lv.get(i),
                    rv.get(i),
                    lookup(out_indices@, out_data@, nnz as int, n as int, i),
                ),
        ensures
            it@.left_done(),
            it@.right_done(),
        decreases (ln - it@.left_pos) + (rn - it@.right_pos),
    {
        let ghost before = it@;
        let ghost lp = before.left_pos;
        let ghost rp = before.right_pos;
        let next = it.next();
        if next.is_none() {
            break ;
        }
        let elem = next.unwrap();
        let ghost ind_g: int = match elem {
            NnzEither::Left((ind, _)) => ind as int,
            NnzEither::Right((ind, _)) => ind as int,
            NnzEither::Both((ind, _, _)) => ind as int,
        };
        proof {
            // what the two vectors store at the index of the heads
            if before.takes_left() {
                assert(stored_at(lv.indices, 0, ln, ind_g, lp));
                lemma_lookup_found(lv.indices, lv.data, 0, ln, ind_g, lp);
            } else {
                assert forall|k: int| 0 <= k < ln implies lv.indices[k] != ind_g by {
                    if k > lp {
                        assert(lv.indices[lp] < lv.indices[k]);
                    }
                }
                lemma_lookup_absent(lv.indices, lv.data, 0, ln, ind_g);
            }
            if before.takes_right() {
                assert(stored_at(rv.indices, 0, rn, ind_g, rp));
                lemma_lookup_found(rv.indices, rv.data, 0, rn, ind_g, rp);
            } else {
                assert forall|k: int| 0 <= k < rn implies rv.indices[k] != ind_g by {
                    if k > rp {
                        assert(rv.indices[rp] < rv.indices[k]);
                    }
                }
                lemma_lookup_absent(rv.indices, rv.data, 0, rn, ind_g);
            }
            assert(applicable(*binop, lv.get(ind_g), rv.get(ind_g)));
        }
        let (ind, val) = match elem {
            NnzEither::Left((ind, val)) => (ind, binop(val, N::zero())),
            NnzEither::Right((ind, val)) => (ind, binop(N::zero(), val)),
            NnzEither::Both((ind, lval, rval)) => (ind, binop(lval, rval)),
        };
        assert(ind == ind_g);
        assert(call_ensures(*binop, (or_zero(lv.get(ind_g)), or_zero(rv.get(ind_g))), val));
        let ghost prev_indices = out_indices@;
        let ghost prev_data = out_data@;
        let ghost prev_n = n as int;
        let stored = !val.is_zero();
        if stored {
            out_indices[n] = ind;
            out_data[n] = val;
            n += 1;
        }
        proof {
            let lo = nnz as int;
            assert forall|k: int| lo <= k < prev_n implies out_indices@[k] == prev_indices[k]
                && out_data@[k] == prev_data[k] by {}
            lemma_lookup_agree(prev_indices, prev_data, out_indices@, out_data@, lo, prev_n, 0);
            if stored {
                assert forall|a: int, b: int| lo <= a < b < n implies out_indices@[a]
                    < out_indices@[b] by {
                    if b == prev_n {
                        assert(prev_indices[a] < h);
                    } else {
                        assert(prev_indices[a] < prev_indices[b]);
                    }
                }
            }
            assert forall|k: int| 0 <= k < it@.left_pos implies lv.indices[k] < ind + 1 by {
                if k < lp {
                    assert(lv.indices[k] < h);
                }
            }
            assert forall|k: int| it@.left_pos <= k < ln implies lv.indices[k] >= ind + 1 by {
                if k > lp {
                    assert(lv.indices[lp] < lv.indices[k]);
                }
            }
            assert forall|k: int| 0 <= k < it@.right_pos implies rv.indices[k] < ind + 1 by {
                if k < rp {
                    assert(rv.indices[k] < h);
                }
            }
            assert forall|k: int| it@.right_pos <= k < rn implies rv.indices[k] >= ind + 1 by {
                if k > rp {
                    assert(rv.indices[rp] < rv.indices[k]);
                }
            }
            assert forall|i: int| 0 <= i < ind + 1 implies combines(
                *binop,
                #[trigger] lv.get(i),
                rv.get(i),
                lookup(out_indices@, out_data@, lo, n as int, i),
            ) by {
                lemma_lookup_agree(prev_indices, prev_data, out_indices@, out_data@, lo, prev_n, i);
                if i < ind {
                    if stored {
                        lemma_lookup_skip(out_indices@, out_data@, lo, prev_n, i);
                    }
                    if i >= h {
                        // between the old frontier and the heads nothing is stored
                        assert forall|k: int| 0 <= k < ln implies lv.indices[k] != i by {
                            if k < lp {
                                assert(lv.indices[k] < h);
                            } else if k > lp {
                                assert(lv.indices[lp] < lv.indices[k]);
                            }
                        }
                        lemma_lookup_absent(lv.indices, lv.data, 0, ln, i);
                        assert forall|k: int| 0 <= k < rn implies rv.indices[k] != i by {
                            if k < rp {
                                assert(rv.indices[k] < h);
                            } else if k > rp {
                                assert(rv.indices[rp] < rv.indices[k]);
                            }
                        }
                        lemma_lookup_absent(rv.indices, rv.data, 0, rn, i);
                        assert forall|k: int| lo <= k < prev_n implies prev_indices[k] != i by {
                            assert(prev_indices[k] < h);
                        }
                        lemma_lookup_absent(prev_indices, prev_data, lo, prev_n, i);
                    }
                } else {
                    if stored {
                        assert(stored_at(out_indices@, lo, n as int, i, prev_n));
                        lemma_lookup_found(out_indices@, out_data@, lo, n as int, i, prev_n);
                    } else {
                        assert forall|k: int| lo <= k < prev_n implies prev_indices[k] != i by {
                            assert(prev_indices[k] < h);
                        }
                        lemma_lookup_absent(prev_indices, prev_data, lo, prev_n, i);
                    }
                }
            }
            assert forall|k: int| lo <= k < n implies out_indices@[k] < ind + 1 by {
                if k < prev_n {
                    assert(prev_indices[k] < h);
                }
            }
            h = ind + 1;
        }
    }
    proof {
        let lo = nnz as int;
        assert forall|i: int|
            combines(
                *binop,
                #[trigger] lv.get(i),
                rv.get(i),
                lookup(out_indices@, out_data@, lo, n as int, i),
            ) by {
            if !(0 <= i < h) {
                assert forall|k: int| 0 <= k < ln implies lv.indices[k] != i by {
                    assert(lv.indices[k] < h);
                }
                lemma_lookup_absent(lv.indices, lv.data, 0, ln, i);
                assert forall|k: int| 0 <= k < rn implies rv.indices[k] != i by {
                    assert(rv.indices[k] < h);
                }
                lemma_lookup_absent(rv.indices, rv.data, 0, rn, i);
                assert forall|k: int| lo <= k < n implies out_indices@[k] != i by {
                    assert(out_indices@[k] < h);
                }
                lemma_lookup_absent(out_indices@, out_data@, lo, n as int, i);
            }
        }
        assert forall|k: int| lo <= k < n implies out_indices@[k] < lv.dim by {
            assert(out_indices@[k] < h);
        }
    }
    n
}


/// Binary operation on two sparse vectors of the same length.
///
/// The operands are merged in increasing index order. At each index that
/// one of them stores, `binop` is applied to the two values, zero standing
/// for a missing one, and the result is stored unless it is zero.
pub fn csvec_binop<N: Scalar, F: Fn(N, N) -> N>(
    lhs: CsVecView<'_, N>,
    rhs: CsVecView<'_, N>,
    binop: F,
) -> (r: Result<CsVecOwned<N>, SprsError>)
    requires
        lhs@.wf(),
        rhs@.wf(),
        lhs@.indices.len() + rhs@.indices.len() <= usize::MAX,
        lhs@.dim == rhs@.dim ==> forall|i: int|
            applicable(binop, #[trigger] lhs@.get(i), rhs@.get(i)),
    ensures
        match r {
            Ok(v) => {
                &&& lhs@.dim == rhs@.dim
                &&& v@.wf()
                &&& v@.dim == lhs@.dim
                &&& v@.indices.len() <= lhs@.indices.len() + rhs@.indices.len()
                &&& forall|i: int|
                    combines(binop, #[trigger] lhs@.get(i), rhs@.get(i), v@.get(i))
            },
            Err(e) => e == SprsError::IncompatibleDimensions && lhs@.dim != rhs@.dim,
        },
{
    if lhs.dim() != rhs.dim() {
        return Err(SprsError::IncompatibleDimensions);
    }
    let max_nnz = lhs.nnz() + rhs.nnz();
    let mut indices: Vec<usize> = vec![0usize; max_nnz];
    let mut data: Vec<N> = vec![N::zero(); max_nnz];
    let nnz = binop_into(&lhs, &rhs, &binop, indices.as_mut_slice(), data.as_mut_slice(), 0);
    let ghost full_indices = indices@;
    let ghost full_data = data@;
    indices.truncate(nnz);
    data.truncate(nnz);
    proof {
        assert forall|i: int|
            combines(
                binop,
                #[trigger] lhs@.get(i),
                rhs@.get(i),
                lookup(indices@, data@, 0, nnz as int, i),
            ) by {
            lemma_lookup_agree(full_indices, full_data, indices@, data@, 0, nnz as int, i);
        }
        lemma_lookup_agree(full_indices, full_data, indices@, data@, 0, nnz as int, 0);
        assert forall|k: int| 0 <= k < nnz implies indices@[k] < lhs@.dim by {
            assert(full_indices[k] < lhs@.dim);
        }
    }
    Ok(CsVec::new_owned_raw(lhs.dim(), indices, data))
}

/// The operator can be applied at every position that one of the two
/// matrices stores.
pub open spec fn applicable_everywhere<N: Scalar, F: Fn(N, N) -> N>(
    binop: F,
    lhs: CsMatModel<N>,
    rhs: CsMatModel<N>,
) -> bool {
    forall|o: int, i: int|
        0 <= o < lhs.outer_dims() ==> applicable(binop, #[trigger] lhs.entry(o, i), rhs.entry(o, i))
}

/// `out` is the elementwise combination of `lhs` and `rhs` by `binop`: a
/// valid matrix of their shape and storage order that holds, at each
/// position, what combining the two entries leaves there.
pub open spec fn combined<N: Scalar, F: Fn(N, N) -> N>(
    binop: F,
    lhs: CsMatModel<N>,
    rhs: CsMatModel<N>,
    out: CsMatModel<N>,
) -> bool {
    &&& out.valid()
    &&& out.storage == lhs.storage
    &&& out.nrows == lhs.nrows
    &&& out.ncols == lhs.ncols
    &&& forall|o: int, i: int|
        0 <= o < lhs.outer_dims() ==> combines(
            binop,
            #[trigger] lhs.entry(o, i),
            rhs.entry(o, i),
            out.entry(o, i),
        )
}

/// The matrix that the output arrays of a raw operation stand for: the
/// shape and storage order of `lhs`, the offsets, and the first `nnz`
/// indices and values.
pub open spec fn raw_output<N>(
    lhs: CsMatModel<N>,
    out_indptr: Seq<usize>,
    out_indices: Seq<usize>,
    out_data: Seq<N>,
    nnz: usize,
) -> CsMatModel<N> {
    CsMatModel {
        storage: lhs.storage,
        nrows: lhs.nrows,
        ncols: lhs.ncols,
        nnz,
        indptr: out_indptr,
        indices: out_indices.subrange(0, nnz as int),
        data: out_data.subrange(0, nnz as int),
    }
}

/// The positions `a..b` of the output arrays hold outer slice `p` of the
/// combination of `lhs` and `rhs`: sorted indices inside the inner
/// dimension, and at each index what combining the two entries leaves.
pub open spec fn slice_combined<N: Scalar, F: Fn(N, N) -> N>(
    binop: F,
    lhs: CsMatModel<N>,
    rhs: CsMatModel<N>,
    p: int,
    ind: Seq<usize>,
    data: Seq<N>,
    a: int,
    b: int,
) -> bool {
    &&& 0 <= a <= b
    &&& strictly_increasing(ind, a, b)
    &&& all_below(ind, a, b, lhs.inner_dims())
    &&& forall|i: int|
        combines(binop, #[trigger] lhs.entry(p, i), rhs.entry(p, i), lookup(ind, data, a, b, i))
}

/// Outer slice `p` of the combination stands between the offsets `p` and
/// `p + 1` of the output.
pub open spec fn slice_done<N: Scalar, F: Fn(N, N) -> N>(
    binop: F,
    lhs: CsMatModel<N>,
    rhs: CsMatModel<N>,
    out_indptr: Seq<usize>,
    out_indices: Seq<usize>,
    out_data: Seq<N>,
    p: int,
) -> bool {
    slice_combined(
        binop,
        lhs,
        rhs,
        p,
        out_indices,
        out_data,
        out_indptr[p] as int,
        out_indptr[p + 1] as int,
    )
}

/// A slice of the output stays what it is while the arrays change only
/// outside its positions.
#[verifier::spinoff_prover]
proof fn lemma_slice_frame<N: Scalar, F: Fn(N, N) -> N>(
    binop: F,
    lhs: CsMatModel<N>,
    rhs: CsMatModel<N>,
    p: int,
    ind1: Seq<usize>,
    data1: Seq<N>,
    ind2: Seq<usize>,
    data2: Seq<N>,
    a: int,
    b: int,
)
    requires
        slice_combined(binop, lhs, rhs, p, ind1, data1, a, b),
        forall|k: int| #![trigger ind1[k]] a <= k < b ==> ind1[k] == ind2[k] && data1[k] == data2[k],
    ensures
        slice_combined(binop, lhs, rhs, p, ind2, data2, a, b),
{
    lemma_lookup_agree(ind1, data1, ind2, data2, a, b, 0);
    assert forall|k: int| a <= k < b implies ind2[k] < lhs.inner_dims() by {
        assert(ind1[k] < lhs.inner_dims());
    }
    assert forall|i: int|
        combines(
            binop,
            #[trigger] lhs.entry(p, i),
            rhs.entry(p, i),
            lookup(ind2, data2, a, b, i),
        ) by {
        lemma_lookup_agree(ind1, data1, ind2, data2, a, b, i);
    }
}

/// Offsets that start at zero, never decrease and delimit one combined
/// slice for each outer index make the output the combination of the two
/// matrices.
#[verifier::spinoff_prover]
proof fn lemma_raw_output<N: Scalar, F: Fn(N, N) -> N>(
    binop: F,
    lhs: CsMatModel<N>,
    rhs: CsMatModel<N>,
    out_indptr: Seq<usize>,
    out_indices: Seq<usize>,
    out_data: Seq<N>,
    nnz: usize,
)
    requires
        0 <= lhs.outer_dims(),
        out_indptr.len() == lhs.outer_dims() + 1,
        out_indptr[0] == 0,
        out_indptr[lhs.outer_dims()] == nnz,
        nnz <= out_indices.len(),
        nnz <= out_data.len(),
        forall|a: int, b: int| 0 <= a <= b <= lhs.outer_dims() ==> out_indptr[a] <= out_indptr[b],
        forall|p: int|
            0 <= p < lhs.outer_dims() ==> #[trigger] slice_done(
                binop,
                lhs,
                rhs,
                out_indptr,
                out_indices,
                out_data,
                p,
            ),
    ensures
        combined(binop, lhs, rhs, raw_output(lhs, out_indptr, out_indices, out_data, nnz)),
{
    let out = raw_output(lhs, out_indptr, out_indices, out_data, nnz);
    let outer = lhs.outer_dims();
    assert(out.outer_dims() == outer);
    assert(out.indices.len() == nnz);
    assert(out.data.len() == nnz);
    assert forall|p: int| 0 <= p < outer implies #[trigger] out.slice_ok(p) by {
        let a = out_indptr[p] as int;
        let b = out_indptr[p + 1] as int;
        assert(out_indptr[p + 1] <= out_indptr[outer]);
        assert(slice_done(binop, lhs, rhs, out_indptr, out_indices, out_data, p));
        lemma_slice_frame(binop, lhs, rhs, p, out_indices, out_data, out.indices, out.data, a, b);
    }
    assert forall|p: int, i: int| 0 <= p < outer implies combines(
        binop,
        #[trigger] lhs.entry(p, i),
        rhs.entry(p, i),
        out.entry(p, i),
    ) by {
        let a = out_indptr[p] as int;
        let b = out_indptr[p + 1] as int;
        assert(out_indptr[p + 1] <= out_indptr[outer]);
        assert(slice_done(binop, lhs, rhs, out_indptr, out_indices, out_data, p));
        lemma_slice_frame(binop, lhs, rhs, p, out_indices, out_data, out.indices, out.data, a, b);
        assert(out.entry(p, i) == lookup(out.indices, out.data, a, b, i));
    }
    assert(out.offsets_sorted());
    assert(out.wf());
    assert(out.canonical());
}

/// Raw implementation of scalar binary operation for compressed sparse
/// matrices sharing the same storage. The output arrays must be
/// preallocated: one offset more than outer dimensions, and room for as
/// many entries as both operands store together.
///
/// Returns the number of entries stored in the output.
pub fn csmat_binop_same_storage_raw<N: Scalar, F: Fn(N, N) -> N>(
    lhs: CsMatView<'_, N>,
    rhs: CsMatView<'_, N>,
    binop: F,
    out_indptr: &mut [usize],
    out_indices: &mut [usize],
    out_data: &mut [N],
) -> (nnz: usize)
    requires
        lhs@.wf(),
        rhs@.wf(),
        lhs@.ncols == rhs@.ncols,
        lhs@.nrows == rhs@.nrows,
        lhs@.storage == rhs@.storage,
        old(out_indptr)@.len() == rhs@.outer_dims() + 1,
        old(out_data)@.len() >= lhs@.nnz + rhs@.nnz,
        old(out_indices)@.len() >= lhs@.nnz + rhs@.nnz,
        applicable_everywhere(binop, lhs@, rhs@),
    ensures
        final(out_indptr)@.len() == old(out_indptr)@.len(),
        final(out_indices)@.len() == old(out_indices)@.len(),
        final(out_data)@.len() == old(out_data)@.len(),
        nnz <= lhs@.nnz + rhs@.nnz,
        forall|k: int|
            nnz <= k < old(out_indices)@.len() ==> #[trigger] final(out_indices)@[k] == old(
                out_indices,
            )@[k],
        forall|k: int|
            nnz <= k < old(out_data)@.len() ==> #[trigger] final(out_data)@[k] == old(out_data)@[k],
        combined(
            binop,
            lhs@,
            rhs@,
            raw_output(
                lhs@,
                final(out_indptr)@,
                final(out_indices)@,
                final(out_data)@,
                nnz,
            ),
        ),
{
    let outer = lhs.outer_dims();
    let ghost l = lhs@;
    let ghost r = rhs@;
    proof {
        assert(l.indptr[0] <= l.indptr[l.outer_dims()]);
        assert(r.indptr[0] <= r.indptr[r.outer_dims()]);
    }
    let mut nnz: usize = 0;
    out_indptr[0] = 0;
    let mut o: usize = 0;
    while o < outer
        invariant
            l == lhs@,
            r == rhs@,
            l.wf(),
            r.wf(),
            l.storage == r.storage,
            l.nrows == r.nrows,
            l.ncols == r.ncols,
            outer == l.outer_dims(),
            o <= outer,
            applicable_everywhere(binop, l, r),
            out_indptr@.len() == outer + 1,
            out_indices@.len() == old(out_indices)@.len(),
            out_data@.len() == old(out_data)@.len(),
            out_data@.len() >= l.nnz + r.nnz,
            out_indices@.len() >= l.nnz + r.nnz,
            out_indptr@[0] == 0,
            out_indptr@[o as int] == nnz,
            nnz <= (l.indptr[o as int] - l.indptr[0]) + (r.indptr[o as int] - r.indptr[0]),
            forall|k: int|
                nnz <= k < out_indices@.len() ==> #[trigger] out_indices@[k] == old(out_indices)@[k],
            forall|k: int|
                nnz <= k < out_data@.len() ==> #[trigger] out_data@[k] == old(out_data)@[k],
            forall|a: int, b: int| 0 <= a <= b <= o ==> out_indptr@[a] <= out_indptr@[b],
            forall|p: int|
                0 <= p < o ==> #[trigger] slice_done(
                    binop,
                    l,
                    r,
                    out_indptr@,
                    out_indices@,
                    out_data@,
                    p,
                ),
        decreases outer - o,
    {
        proof {
            lemma_slice_bounds(l, o as int);
            lemma_slice_bounds(r, o as int);
            lemma_outer_slice(l, o as int);
            lemma_outer_slice(r, o as int);
            assert(l.indptr[o + 1] <= l.indptr[l.outer_dims()]);
            assert(r.indptr[o + 1] <= r.indptr[r.outer_dims()]);
        }
        let lv = lhs.outer_view(o).unwrap();
        let rv = rhs.outer_view(o).unwrap();
        proof {
            assert forall|i: int| applicable(binop, #[trigger] lv@.get(i), rv@.get(i)) by {
                assert(applicable(binop, l.entry(o as int, i), r.entry(o as int, i)));
            }
        }
        let ghost prev_indptr = out_indptr@;
        let ghost prev_indices = out_indices@;
        let ghost prev_data = out_data@;
        let ghost prev_nnz = nnz;
        nnz = binop_into(&lv, &rv, &binop, out_indices, out_data, nnz);
        out_indptr[o + 1] = nnz;
        proof {
            assert forall|a: int, b: int| 0 <= a <= b <= o + 1 implies out_indptr@[a]
                <= out_indptr@[b] by {
                if b == o + 1 && a <= o {
                    assert(prev_indptr[a] <= prev_indptr[o as int]);
                } else if b <= o {
                    assert(prev_indptr[a] <= prev_indptr[b]);
                }
            }
            assert forall|p: int| 0 <= p < o + 1 implies #[trigger] slice_done(
                binop,
                l,
                r,
                out_indptr@,
                out_indices@,
                out_data@,
                p,
            ) by {
                if p < o {
                    assert(slice_done(binop, l, r, prev_indptr, prev_indices, prev_data, p));
                    assert(prev_indptr[p + 1] <= prev_indptr[o as int]);
                    lemma_slice_frame(
                        binop,
                        l,
                        r,
                        p,
                        prev_indices,
                        prev_data,
                        out_indices@,
                        out_data@,
                        prev_indptr[p] as int,
                        prev_indptr[p + 1] as int,
                    );
                } else {
                    assert forall|i: int|
                        combines(
                            binop,
                            #[trigger] l.entry(p, i),
                            r.entry(p, i),
                            lookup(out_indices@, out_data@, prev_nnz as int, nnz as int, i),
                        ) by {
                        assert(lv@.get(i) == l.entry(p, i));
                        assert(rv@.get(i) == r.entry(p, i));
                    }
                }
            }
        }
        o += 1;
    }
    proof {
        lemma_raw_output(binop, l, r, out_indptr@, out_indices@, out_data@, nnz);
    }
    nnz
}


/// Allocates the output arrays, runs the raw operation on them and trims
/// them to the entries stored.
fn csmat_binop_same_storage_alloc<N: Scalar, F: Fn(N, N) -> N>(
    lhs: CsMatView<'_, N>,
    rhs: CsMatView<'_, N>,
    binop: F,
) -> (r: Result<CsMatOwned<N>, SprsError>)
    requires
        lhs@.wf(),
        rhs@.wf(),
        lhs@.nnz + rhs@.nnz <= usize::MAX,
        same_shape(lhs@, rhs@) && lhs@.storage == rhs@.storage ==> applicable_everywhere(
            binop,
            lhs@,
            rhs@,
        ),
    ensures
        r == Err::<CsMatOwned<N>, SprsError>(SprsError::IncompatibleDimensions) <==> !same_shape(
            lhs@,
            rhs@,
        ),
        r == Err::<CsMatOwned<N>, SprsError>(SprsError::IncompatibleStorages) <==> same_shape(
            lhs@,
            rhs@,
        ) && lhs@.storage != rhs@.storage,
        r.is_ok() <==> same_shape(lhs@, rhs@) && lhs@.storage == rhs@.storage,
        r matches Ok(m) ==> combined(binop, lhs@, rhs@, m@) && m@.nnz <= lhs@.nnz + rhs@.nnz,
{
    let nrows = lhs.rows();
    let ncols = lhs.cols();
    let storage_type = lhs.storage();
    if nrows != rhs.rows() || ncols != rhs.cols() {
        return Err(SprsError::IncompatibleDimensions);
    }
    if storage_type != rhs.storage() {
        return Err(SprsError::IncompatibleStorages);
    }
    let max_nnz = lhs.nb_nonzero() + rhs.nb_nonzero();
    let outer_len = lhs.indptr().len();
    let mut out_indptr: Vec<usize> = vec![0usize; outer_len];
    let mut out_indices: Vec<usize> = vec![0usize; max_nnz];
    let mut out_data: Vec<N> = vec![N::zero(); max_nnz];
    let nnz = csmat_binop_same_storage_raw(
        lhs,
        rhs,
        binop,
        out_indptr.as_mut_slice(),
        out_indices.as_mut_slice(),
        out_data.as_mut_slice(),
    );
    out_indices.truncate(nnz);
    out_data.truncate(nnz);
    let res = CsMat::new_owned(storage_type, nrows, ncols, out_indptr, out_indices, out_data);
    Ok(res.unwrap())
}

/// The two matrices have the same number of rows and of columns.
pub open spec fn same_shape<N>(lhs: CsMatModel<N>, rhs: CsMatModel<N>) -> bool {
    lhs.nrows == rhs.nrows && lhs.ncols == rhs.ncols
}

/// What an elementwise operation leaves at a position where the operands
/// store `l` and `r`: nothing where neither is stored, else the value of
/// `f` on the two, zero standing for a missing one, unless that value is
/// zero.
pub open spec fn pruned<N: Scalar>(f: spec_fn(N, N) -> N, l: Option<N>, r: Option<N>) -> Option<
    N,
> {
    if l.is_none() && r.is_none() {
        None
    } else if f(or_zero(l), or_zero(r)) == N::zero_spec() {
        None
    } else {
        Some(f(or_zero(l), or_zero(r)))
    }
}

/// `out` is the elementwise image of `lhs` and `rhs` under `f`: a valid
/// matrix of their shape and storage order whose entries are the pruned
/// values of `f`.
pub open spec fn elementwise<N: Scalar>(
    f: spec_fn(N, N) -> N,
    lhs: CsMatModel<N>,
    rhs: CsMatModel<N>,
    out: CsMatModel<N>,
) -> bool {
    &&& out.valid()
    &&& out.storage == lhs.storage
    &&& out.nrows == lhs.nrows
    &&& out.ncols == lhs.ncols
    &&& forall|o: int, i: int|
        0 <= o < lhs.outer_dims() ==> #[trigger] out.entry(o, i) == pruned(
            f,
            lhs.entry(o, i),
            rhs.entry(o, i),
        )
}

/// The condition `ok` holds of the two values at every position that one
/// of the matrices stores.
pub open spec fn operable<N: Scalar>(
    ok: spec_fn(N, N) -> bool,
    lhs: CsMatModel<N>,
    rhs: CsMatModel<N>,
) -> bool {
    forall|o: int, i: int|
        0 <= o < lhs.outer_dims() && (#[trigger] lhs.entry(o, i)).is_some() || (
        0 <= o < lhs.outer_dims() && (#[trigger] rhs.entry(o, i)).is_some()) ==> ok(
            or_zero(lhs.entry(o, i)),
            or_zero(rhs.entry(o, i)),
        )
}

/// The outcome of an operation on two matrices that must agree in shape
/// and storage order: which error is owed, if any.
pub open spec fn same_storage_error<N>(lhs: CsMatModel<N>, rhs: CsMatModel<N>) -> Option<
    SprsError,
> {
    if !same_shape(lhs, rhs) {
        Some(SprsError::IncompatibleDimensions)
    } else if lhs.storage != rhs.storage {
        Some(SprsError::IncompatibleStorages)
    } else {
        None
    }
}

/// Sparse matrix addition, with matrices sharing the same storage type.
pub fn add_mat_same_storage<N, Ip1, I1, D1, Ip2, I2, D2>(
    lhs: &CsMat<N, Ip1, I1, D1>,
    rhs: &CsMat<N, Ip2, I2, D2>,
) -> (r: Result<CsMatOwned<N>, SprsError>) where
    N: Scalar,
    Ip1: Storage<usize>,
    I1: Storage<usize>,
    D1: Storage<N>,
    Ip2: Storage<usize>,
    I2: Storage<usize>,
    D2: Storage<N>,

    requires
        lhs@.wf(),
        rhs@.wf(),
        lhs@.nnz + rhs@.nnz <= usize::MAX,
        same_storage_error(lhs@, rhs@).is_none() ==> operable(
            |a: N, b: N| a.plus_ok(b),
            lhs@,
            rhs@,
        ),
    ensures
        match r {
            Ok(m) => {
                &&& same_storage_error(lhs@, rhs@).is_none()
                &&& elementwise(|a: N, b: N| a.plus_spec(b), lhs@, rhs@, m@)
                &&& m@.nnz <= lhs@.nnz + rhs@.nnz
            },
            Err(e) => same_storage_error(lhs@, rhs@) == Some(e),
        },
{
    let binop = |x: N, y: N| -> (z: N)
        requires
            x.plus_ok(y),
        ensures
            z == x.plus_spec(y),
        { x.plus(y) };
    proof {
        if same_storage_error(lhs@, rhs@).is_none() {
            assert forall|o: int, i: int| 0 <= o < lhs@.outer_dims() implies applicable(
                binop,
                #[trigger] lhs@.entry(o, i),
                rhs@.entry(o, i),
            ) by {}
        }
    }
    let r = csmat_binop_same_storage_alloc(lhs.borrowed(), rhs.borrowed(), binop);
    proof {
        if r is Ok {
            let m = r->Ok_0;
            assert forall|o: int, i: int| 0 <= o < lhs@.outer_dims() implies #[trigger] m@.entry(
                o,
                i,
            ) == pruned(|a: N, b: N| a.plus_spec(b), lhs@.entry(o, i), rhs@.entry(o, i)) by {
                assert(combines(binop, lhs@.entry(o, i), rhs@.entry(o, i), m@.entry(o, i)));
            }
        }
    }
    r
}

/// Sparse matrix subtraction, with same storage type.
pub fn sub_mat_same_storage<N, Ip1, I1, D1, Ip2, I2, D2>(
    lhs: &CsMat<N, Ip1, I1, D1>,
    rhs: &CsMat<N, Ip2, I2, D2>,
) -> (r: Result<CsMatOwned<N>, SprsError>) where
    N: Scalar,
    Ip1: Storage<usize>,
    I1: Storage<usize>,
    D1: Storage<N>,
    Ip2: Storage<usize>,
    I2: Storage<usize>,
    D2: Storage<N>,

    requires
        lhs@.wf(),
        rhs@.wf(),
        lhs@.nnz + rhs@.nnz <= usize::MAX,
        same_storage_error(lhs@, rhs@).is_none() ==> operable(
            |a: N, b: N| a.minus_ok(b),
            lhs@,
            rhs@,
        ),
    ensures
        match r {
            Ok(m) => {
                &&& same_storage_error(lhs@, rhs@).is_none()
                &&& elementwise(|a: N, b: N| a.minus_spec(b), lhs@, rhs@, m@)
                &&& m@.nnz <= lhs@.nnz + rhs@.nnz
            },
            Err(e) => same_storage_error(lhs@, rhs@) == Some(e),
        },
{
    let binop = |x: N, y: N| -> (z: N)
        requires
            x.minus_ok(y),
        ensures
            z == x.minus_spec(y),
        { x.minus(y) };
    proof {
        if same_storage_error(lhs@, rhs@).is_none() {
            assert forall|o: int, i: int| 0 <= o < lhs@.outer_dims() implies applicable(
                binop,
                #[trigger] lhs@.entry(o, i),
                rhs@.entry(o, i),
            ) by {}
        }
    }
    let r = csmat_binop_same_storage_alloc(lhs.borrowed(), rhs.borrowed(), binop);
    proof {
        if r is Ok {
            let m = r->Ok_0;
            assert forall|o: int, i: int| 0 <= o < lhs@.outer_dims() implies #[trigger] m@.entry(
                o,
                i,
            ) == pruned(|a: N, b: N| a.minus_spec(b), lhs@.entry(o, i), rhs@.entry(o, i)) by {
                assert(combines(binop, lhs@.entry(o, i), rhs@.entry(o, i), m@.entry(o, i)));
            }
        }
    }
    r
}

/// Sparse matrix elementwise multiplication, with same storage type.
pub fn mul_mat_same_storage<N, Ip1, I1, D1, Ip2, I2, D2>(
    lhs: &CsMat<N, Ip1, I1, D1>,
    rhs: &CsMat<N, Ip2, I2, D2>,
) -> (r: Result<CsMatOwned<N>, SprsError>) where
    N: Scalar,
    Ip1: Storage<usize>,
    I1: Storage<usize>,
    D1: Storage<N>,
    Ip2: Storage<usize>,
    I2: Storage<usize>,
    D2: Storage<N>,

    requires
        lhs@.wf(),
        rhs@.wf(),
        lhs@.nnz + rhs@.nnz <= usize::MAX,
        same_storage_error(lhs@, rhs@).is_none() ==> operable(
            |a: N, b: N| a.times_ok(b),
            lhs@,
            rhs@,
        ),
    ensures
        match r {
            Ok(m) => {
                &&& same_storage_error(lhs@, rhs@).is_none()
                &&& elementwise(|a: N, b: N| a.times_spec(b), lhs@, rhs@, m@)
                &&& m@.nnz <= lhs@.nnz + rhs@.nnz
            },
            Err(e) => same_storage_error(lhs@, rhs@) == Some(e),
        },
{
    let binop = |x: N, y: N| -> (z: N)
        requires
            x.times_ok(y),
        ensures
            z == x.times_spec(y),
        { x.times(y) };
    proof {
        if same_storage_error(lhs@, rhs@).is_none() {
            assert forall|o: int, i: int| 0 <= o < lhs@.outer_dims() implies applicable(
                binop,
                #[trigger] lhs@.entry(o, i),
                rhs@.entry(o, i),
            ) by {}
        }
    }
    let r = csmat_binop_same_storage_alloc(lhs.borrowed(), rhs.borrowed(), binop);
    proof {
        if r is Ok {
            let m = r->Ok_0;
            assert forall|o: int, i: int| 0 <= o < lhs@.outer_dims() implies #[trigger] m@.entry(
                o,
                i,
            ) == pruned(|a: N, b: N| a.times_spec(b), lhs@.entry(o, i), rhs@.entry(o, i)) by {
                assert(combines(binop, lhs@.entry(o, i), rhs@.entry(o, i), m@.entry(o, i)));
            }
        }
    }
    r
}


/// An operator whose result is a function `f` of its operands makes of a
/// combination the elementwise image under `f`.
pub proof fn lemma_combined_elementwise<N: Scalar, F: Fn(N, N) -> N>(
    binop: F,
    f: spec_fn(N, N) -> N,
    lhs: CsMatModel<N>,
    rhs: CsMatModel<N>,
    out: CsMatModel<N>,
)
    requires
        combined(binop, lhs, rhs, out),
        forall|a: N, b: N, v: N| #[trigger] call_ensures(binop, (a, b), v) ==> v == f(a, b),
    ensures
        elementwise(f, lhs, rhs, out),
{
    assert forall|o: int, i: int| 0 <= o < lhs.outer_dims() implies #[trigger] out.entry(o, i)
        == pruned(f, lhs.entry(o, i), rhs.entry(o, i)) by {
        assert(combines(binop, lhs.entry(o, i), rhs.entry(o, i), out.entry(o, i)));
    }
}

/// Sparsity of an elementwise operation: for an operator `f` that maps two
/// zeros to zero, the result stores a position exactly where the value of
/// `f` on the two operands is not zero, it stores that value there, and
/// every stored position is stored by one of the operands.
pub proof fn lemma_sparsity_union<N: Scalar>(
    f: spec_fn(N, N) -> N,
    lhs: CsMatModel<N>,
    rhs: CsMatModel<N>,
    out: CsMatModel<N>,
)
    requires
        elementwise(f, lhs, rhs, out),
        f(N::zero_spec(), N::zero_spec()) == N::zero_spec(),
    ensures
        forall|o: int, i: int|
            0 <= o < lhs.outer_dims() ==> ((#[trigger] out.entry(o, i)).is_some() <==> f(
                or_zero(lhs.entry(o, i)),
                or_zero(rhs.entry(o, i)),
            ) != N::zero_spec()),
        forall|o: int, i: int|
            0 <= o < lhs.outer_dims() ==> or_zero(#[trigger] out.entry(o, i)) == f(
                or_zero(lhs.entry(o, i)),
                or_zero(rhs.entry(o, i)),
            ),
        forall|o: int, i: int|
            0 <= o < lhs.outer_dims() && (#[trigger] out.entry(o, i)).is_some() ==> lhs.entry(
                o,
                i,
            ).is_some() || rhs.entry(o, i).is_some(),
{
    assert forall|o: int, i: int| 0 <= o < lhs.outer_dims() implies ((#[trigger] out.entry(
        o,
        i,
    )).is_some() <==> f(or_zero(lhs.entry(o, i)), or_zero(rhs.entry(o, i))) != N::zero_spec())
        && or_zero(out.entry(o, i)) == f(or_zero(lhs.entry(o, i)), or_zero(rhs.entry(o, i))) && (
    out.entry(o, i).is_some() ==> lhs.entry(o, i).is_some() || rhs.entry(o, i).is_some()) by {
        assert(out.entry(o, i) == pruned(f, lhs.entry(o, i), rhs.entry(o, i)));
    }
}

/// Sparsity of the combination, read off the arrays: for an operator whose
/// result is a function `f` of its operands and maps two zeros to zero, an
/// inner index occurs among the positions of an outer slice of the result
/// exactly where one of the operands stores it and the value of `f` there
/// is not zero; and each position holds that value of `f`, which is not
/// zero.
pub proof fn lemma_sparsity_union_stored<N: Scalar, F: Fn(N, N) -> N>(
    binop: F,
    f: spec_fn(N, N) -> N,
    lhs: CsMatModel<N>,
    rhs: CsMatModel<N>,
    out: CsMatModel<N>,
)
    requires
        combined(binop, lhs, rhs, out),
        forall|a: N, b: N, v: N| #[trigger] call_ensures(binop, (a, b), v) ==> v == f(a, b),
        f(N::zero_spec(), N::zero_spec()) == N::zero_spec(),
    ensures
        forall|o: int, j: int|
            0 <= o < lhs.outer_dims() ==> ((exists|k: int|
                stored_at(out.indices, out.start(o), out.end(o), j, k)) <==> ((
            #[trigger] lhs.entry(o, j)).is_some() || rhs.entry(o, j).is_some()) && f(
                or_zero(lhs.entry(o, j)),
                or_zero(rhs.entry(o, j)),
            ) != N::zero_spec()),
        forall|o: int, k: int| #[trigger]
            out.in_slice(o, k) ==> out.data[k] != N::zero_spec() && out.data[k] == f(
                or_zero(lhs.entry(o, out.indices[k] as int)),
                or_zero(rhs.entry(o, out.indices[k] as int)),
            ),
{
    lemma_combined_elementwise(binop, f, lhs, rhs, out);
    lemma_sparsity_union(f, lhs, rhs, out);
    assert forall|o: int, j: int| 0 <= o < lhs.outer_dims() implies ((exists|k: int|
        stored_at(out.indices, out.start(o), out.end(o), j, k)) <==> ((#[trigger] lhs.entry(
        o,
        j,
    )).is_some() || rhs.entry(o, j).is_some()) && f(
        or_zero(lhs.entry(o, j)),
        or_zero(rhs.entry(o, j)),
    ) != N::zero_spec()) by {
        assert(out.entry(o, j) == pruned(f, lhs.entry(o, j), rhs.entry(o, j)));
        assert(out.entry(o, j).is_some() <==> exists|k: int|
            stored_at(out.indices, out.start(o), out.end(o), j, k));
    }
    assert forall|o: int, k: int| #[trigger] out.in_slice(o, k) implies out.data[k]
        != N::zero_spec() && out.data[k] == f(
        or_zero(lhs.entry(o, out.indices[k] as int)),
        or_zero(rhs.entry(o, out.indices[k] as int)),
    ) by {
        crate::model::lemma_entry_found(out, o, k);
        let j = out.indices[k] as int;
        assert(out.entry(o, j) == pruned(f, lhs.entry(o, j), rhs.entry(o, j)));
    }
}

} // verus!
