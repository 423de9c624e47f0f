//! Combination of a sparse matrix with a dense one of the same ordering.
//! Every position of the dense result is computed.

use vstd::prelude::*;
use crate::binop::or_zero;
use crate::csmat::CsMat;
use crate::csmat::CsMatView;
use crate::dense::flat;
use crate::dense::lemma_flat;
use crate::dense::DenseMat;
use crate::dense::DenseModel;
use crate::dense::StorageOrder;
use crate::errors::SprsError;
use crate::model::lemma_slice_bounds;
use crate::model::CompressedStorage;
use crate::model::CsMatModel;
use crate::scalar::Scalar;
use crate::storage::Storage;
use crate::vec::lemma_lookup_absent;
use crate::vec::lemma_lookup_found;
use crate::vec::stored_at;

verus! {

/// The sparse matrix and the dense one have the same shape.
pub open spec fn same_shape_dense<N>(lhs: CsMatModel<N>, rhs: DenseModel<N>) -> bool {
    lhs.nrows == rhs.rows && lhs.ncols == rhs.cols
}

/// The storage order of the sparse matrix goes with the memory ordering of
/// the dense one: row major with CSR, column major with CSC.
pub open spec fn same_ordering<N>(lhs: CsMatModel<N>, rhs: DenseModel<N>) -> bool {
    ||| lhs.storage == CompressedStorage::CSR && rhs.order == StorageOrder::C
    ||| lhs.storage == CompressedStorage::CSC && rhs.order == StorageOrder::F
}

/// The outcome of an operation on a sparse matrix and dense operands that
/// must agree with it in shape and ordering: which error is owed, if any.
pub open spec fn dense_error<N>(
    lhs: CsMatModel<N>,
    rhs: DenseModel<N>,
    out: DenseModel<N>,
) -> Option<SprsError> {
    if !same_shape_dense(lhs, rhs) || !same_shape_dense(lhs, out) {
        Some(SprsError::IncompatibleDimensions)
    } else if !same_ordering(lhs, rhs) || !same_ordering(lhs, out) {
        Some(SprsError::IncompatibleStorages)
    } else {
        None
    }
}

/// The operator can be applied at every position, to the value of the
/// sparse matrix and the element of the dense one.
pub open spec fn applicable_dense<N: Scalar, F: Fn(N, N) -> N>(
    binop: F,
    lhs: CsMatModel<N>,
    rhs: DenseModel<N>,
) -> bool {
    forall|r: int, c: int|
        0 <= r < lhs.nrows && 0 <= c < lhs.ncols ==> call_requires(
            binop,
            (or_zero(#[trigger] lhs.at(r, c)), rhs.elem(r, c)),
        )
}

/// Every element of `out` is a value that the operator returned for the
/// value of the sparse matrix and the element of the dense one at its
/// position.
pub open spec fn combined_dense<N: Scalar, F: Fn(N, N) -> N>(
    binop: F,
    lhs: CsMatModel<N>,
    rhs: DenseModel<N>,
    out: DenseModel<N>,
) -> bool {
    forall|r: int, c: int|
        0 <= r < lhs.nrows && 0 <= c < lhs.ncols ==> call_ensures(
            binop,
            (or_zero(#[trigger] lhs.at(r, c)), rhs.elem(r, c)),
            out.elem(r, c),
        )
}

/// The elements before inner index `i` of outer slice `o`, in memory
/// order, have been computed.
pub open spec fn dense_done<N: Scalar, F: Fn(N, N) -> N>(
    binop: F,
    lhs: CsMatModel<N>,
    rhs_data: Seq<N>,
    out_data: Seq<N>,
    o: int,
    i: int,
) -> bool {
    forall|o2: int, i2: int|
        0 <= o2 && 0 <= i2 < lhs.inner_dims() && (o2 < o || (o2 == o && i2 < i)) ==> call_ensures(
            binop,
            (or_zero(#[trigger] lhs.entry(o2, i2)), rhs_data[flat(o2, lhs.inner_dims(), i2)]),
            out_data[flat(o2, lhs.inner_dims(), i2)],
        )
}

/// The operator can be applied to every element, in memory order.
pub open spec fn dense_ready<N: Scalar, F: Fn(N, N) -> N>(
    binop: F,
    lhs: CsMatModel<N>,
    rhs_data: Seq<N>,
) -> bool {
    forall|o2: int, i2: int|
        0 <= o2 < lhs.outer_dims() && 0 <= i2 < lhs.inner_dims() ==> call_requires(
            binop,
            (or_zero(#[trigger] lhs.entry(o2, i2)), rhs_data[flat(o2, lhs.inner_dims(), i2)]),
        )
}

/// Writing one more element, behind those computed, leaves them computed.
#[verifier::spinoff_prover]
proof fn lemma_dense_step<N: Scalar, F: Fn(N, N) -> N>(
    binop: F,
    lhs: CsMatModel<N>,
    rhs_data: Seq<N>,
    before: Seq<N>,
    after: Seq<N>,
    o: int,
    i: int,
    value: N,
)
    requires
        0 <= o,
        0 <= i < lhs.inner_dims(),
        0 <= flat(o, lhs.inner_dims(), i) < before.len(),
        dense_done(binop, lhs, rhs_data, before, o, i),
        after == before.update(flat(o, lhs.inner_dims(), i), value),
        call_ensures(
            binop,
            (or_zero(lhs.entry(o, i)), rhs_data[flat(o, lhs.inner_dims(), i)]),
            value,
        ),
    ensures
        dense_done(binop, lhs, rhs_data, after, o, i + 1),
        i + 1 == lhs.inner_dims() ==> dense_done(binop, lhs, rhs_data, after, o + 1, 0),
{
    let inner = lhs.inner_dims();
    assert forall|o2: int, i2: int|
        0 <= o2 && 0 <= i2 < inner && (o2 < o || (o2 == o && i2 < i + 1)) implies call_ensures(
        binop,
        (or_zero(#[trigger] lhs.entry(o2, i2)), rhs_data[flat(o2, inner, i2)]),
        after[flat(o2, inner, i2)],
    ) by {
        if o2 == o && i2 == i {
        } else {
            crate::dense::lemma_flat_order(inner, o2, i2, o, i);
        }
    }
}

/// Raw implementation of sparse/dense binary operations with the same
/// ordering: computes, for every position, `binop` of the value of the
/// sparse matrix there, zero where it stores none, and of the element of
/// `rhs`, and writes it into `out`.
pub fn csmat_binop_dense_same_ordering_raw<N: Scalar, F: Fn(N, N) -> N>(
    lhs: CsMatView<'_, N>,
    rhs: &DenseMat<N>,
    binop: F,
    out: &mut DenseMat<N>,
) -> (r: Result<(), SprsError>)
    requires
        lhs@.wf(),
        rhs@.wf(),
        old(out)@.wf(),
        dense_error(lhs@, rhs@, old(out)@).is_none() ==> applicable_dense(binop, lhs@, rhs@),
    ensures
        r == match dense_error(lhs@, rhs@, old(out)@) {
            Some(e) => Err::<(), SprsError>(e),
            None => Ok(()),
        },
        final(out)@.rows == old(out)@.rows,
        final(out)@.cols == old(out)@.cols,
        final(out)@.order == old(out)@.order,
        final(out)@.wf(),
        r.is_err() ==> final(out)@ == old(out)@,
        r.is_ok() ==> combined_dense(binop, lhs@, rhs@, final(out)@),
{
    if lhs.cols() != rhs.cols() || lhs.cols() != out.cols() || lhs.rows() != rhs.rows()
        || lhs.rows() != out.rows() {
        return Err(SprsError::IncompatibleDimensions);
    }
    match (lhs.storage(), rhs.ordering(), out.ordering()) {
        (CompressedStorage::CSR, StorageOrder::C, StorageOrder::C) => (),
        (CompressedStorage::CSC, StorageOrder::F, StorageOrder::F) => (),
        (_, _, _) => {
            return Err(SprsError::IncompatibleStorages);
        },
    }
    let outer = lhs.outer_dims();
    let inner = lhs.inner_dims();
    let indptr = lhs.indptr();
    let indices = lhs.indices();
    let data = lhs.data();
    let rhs_data = rhs.data();
    let ghost l = lhs@;
    let ghost rd = rhs@.data;
    proof {
        assert(outer * inner == rhs@.rows * rhs@.cols) by (nonlinear_arith)
            requires
                (outer == rhs@.rows && inner == rhs@.cols) || (outer == rhs@.cols && inner
                    == rhs@.rows),
        ;
        assert(dense_ready(binop, l, rd)) by {
            assert forall|o2: int, i2: int|
                0 <= o2 < l.outer_dims() && 0 <= i2 < l.inner_dims() implies call_requires(
                binop,
                (or_zero(#[trigger] l.entry(o2, i2)), rd[flat(o2, l.inner_dims(), i2)]),
            ) by {
                match l.storage {
                    CompressedStorage::CSR => {
                        assert(l.at(o2, i2) == l.entry(o2, i2));
                        assert(rhs@.elem(o2, i2) == rd[flat(o2, l.inner_dims(), i2)]);
                    },
                    CompressedStorage::CSC => {
                        assert(l.at(i2, o2) == l.entry(o2, i2));
                        assert(rhs@.elem(i2, o2) == rd[flat(o2, l.inner_dims(), i2)]);
                    },
                }
            }
        }
    }
    let mut pos: usize = 0;
    let mut o: usize = 0;
    while o < outer
        invariant
            l == lhs@,
            l.wf(),
            rd == rhs@.data,
            rhs_data@ == rd,
            indptr@ == l.indptr,
            indices@ == l.indices,
            data@ == l.data,
            outer == l.outer_dims(),
            inner == l.inner_dims(),
            o <= outer,
            rd.len() == outer * inner,
            out@.data.len() == outer * inner,
            out@.rows == old(out)@.rows,
            out@.cols == old(out)@.cols,
            out@.order == old(out)@.order,
            pos == flat(o as int, inner as int, 0),
            dense_ready(binop, l, rd),
            dense_done(binop, l, rd, out@.data, o as int, 0),
        decreases outer - o,
    {
        proof {
            lemma_slice_bounds(l, o as int);
        }
        let stop = indptr[o + 1];
        let mut p: usize = indptr[o];
        let mut i: usize = 0;
        while i < inner
            invariant
                l == lhs@,
                l.wf(),
                rd == rhs@.data,
                rhs_data@ == rd,
                indptr@ == l.indptr,
                indices@ == l.indices,
                data@ == l.data,
                outer == l.outer_dims(),
                inner == l.inner_dims(),
                o < outer,
                i <= inner,
                rd.len() == outer * inner,
                out@.data.len() == outer * inner,
                out@.rows == old(out)@.rows,
                out@.cols == old(out)@.cols,
                out@.order == old(out)@.order,
                pos == flat(o as int, inner as int, i as int),
                l.start(o as int) <= p <= stop,
                stop == l.end(o as int),
                stop <= indices@.len(),
                stop <= data@.len(),
                l.slice_ok(o as int),
                forall|k: int| l.start(o as int) <= k < p ==> indices@[k] < i,
                forall|k: int| p <= k < stop ==> indices@[k] >= i,
                dense_ready(binop, l, rd),
                dense_done(binop, l, rd, out@.data, o as int, i as int),
                i == inner ==> dense_done(binop, l, rd, out@.data, o + 1, 0),
            decreases inner - i,
        {
            proof {
                lemma_flat(outer as int, inner as int, o as int, i as int);
            }
            let found = p < stop && indices[p] == i;
            let sval = if found {
                data[p]
            } else {
                N::zero()
            };
            proof {
                if found {
                    assert(stored_at(l.indices, l.start(o as int), l.end(o as int), i as int, p as int));
                    lemma_lookup_found(
                        l.indices,
                        l.data,
                        l.start(o as int),
                        l.end(o as int),
                        i as int,
                        p as int,
                    );
                } else {
                    assert forall|k: int| l.start(o as int) <= k < l.end(o as int) implies l.indices[k]
                        != i by {
                        if k > p {
                            assert(l.indices[p as int] < l.indices[k]);
                        }
                    }
                    lemma_lookup_absent(
                        l.indices,
                        l.data,
                        l.start(o as int),
                        l.end(o as int),
                        i as int,
                    );
                }
                assert(sval == or_zero(l.entry(o as int, i as int)));
                assert(call_requires(
                    binop,
                    (or_zero(l.entry(o as int, i as int)), rd[flat(o as int, inner as int, i as int)]),
                ));
            }
            let value = binop(sval, rhs_data[pos]);
            let ghost before = out@.data;
            out.set_flat(pos, value);
            proof {
                lemma_dense_step(binop, l, rd, before, out@.data, o as int, i as int, value);
                assert forall|k: int| l.start(o as int) <= k < (if found {
                    p + 1
                } else {
                    p as int
                }) implies indices@[k] < i + 1 by {}
                assert forall|k: int|
                    (if found {
                        p + 1
                    } else {
                        p as int
                    }) <= k < stop implies indices@[k] >= i + 1 by {
                    if found && k > p {
                        assert(l.indices[p as int] < l.indices[k]);
                    }
                }
            }
            if found {
                p += 1;
            }
            pos += 1;
            i += 1;
        }
        proof {
            crate::dense::lemma_flat_next(o as int, inner as int);
            if inner == 0 {
                assert(dense_done(binop, l, rd, out@.data, o + 1, 0));
            }
        }
        o += 1;
    }
    proof {
        assert forall|r: int, c: int| 0 <= r < l.nrows && 0 <= c < l.ncols implies call_ensures(
            binop,
            (or_zero(#[trigger] l.at(r, c)), rhs@.elem(r, c)),
            out@.elem(r, c),
        ) by {
            match l.storage {
                CompressedStorage::CSR => {
                    assert(l.at(r, c) == l.entry(r, c));
                },
                CompressedStorage::CSC => {
                    assert(l.at(r, c) == l.entry(c, r));
                },
            }
        }
    }
    Ok(())
}


/// The outcome of an operation on a sparse matrix and a dense one that
/// must agree in shape and ordering: which error is owed, if any.
pub open spec fn dense_pair_error<N>(lhs: CsMatModel<N>, rhs: DenseModel<N>) -> Option<SprsError> {
    if !same_shape_dense(lhs, rhs) {
        Some(SprsError::IncompatibleDimensions)
    } else if !same_ordering(lhs, rhs) {
        Some(SprsError::IncompatibleStorages)
    } else {
        None
    }
}

/// `alpha * x + beta * y` can be computed.
pub open spec fn linear_ok<N: Scalar>(alpha: N, x: N, beta: N, y: N) -> bool {
    alpha.times_ok(x) && beta.times_ok(y) && alpha.times_spec(x).plus_ok(beta.times_spec(y))
}

/// The value of `alpha * x + beta * y`.
pub open spec fn linear<N: Scalar>(alpha: N, x: N, beta: N, y: N) -> N {
    alpha.times_spec(x).plus_spec(beta.times_spec(y))
}

/// `alpha * x * y` can be computed.
pub open spec fn product_ok<N: Scalar>(alpha: N, x: N, y: N) -> bool {
    alpha.times_ok(x) && alpha.times_spec(x).times_ok(y)
}

/// The value of `alpha * x * y`.
pub open spec fn product<N: Scalar>(alpha: N, x: N, y: N) -> N {
    alpha.times_spec(x).times_spec(y)
}

/// An all-zero dense matrix of the shape and ordering of `rhs`; row major
/// where `rhs` has no ordering.
fn zeros_like<N: Scalar>(rhs: &DenseMat<N>) -> (res: DenseMat<N>)
    requires
        rhs@.wf(),
    ensures
        res@.wf(),
        res@.rows == rhs@.rows,
        res@.cols == rhs@.cols,
        rhs@.order != StorageOrder::Unordered ==> res@.order == rhs@.order,
        rhs@.order == StorageOrder::Unordered ==> res@.order == StorageOrder::C,
{
    let len = rhs.data().len();
    match rhs.ordering() {
        StorageOrder::F => DenseMat::zeros_f(rhs.rows(), rhs.cols()),
        _ => DenseMat::zeros(rhs.rows(), rhs.cols()),
    }
}

/// Computes `alpha * lhs + beta * rhs` with `lhs` a sparse matrix, `rhs` a
/// dense one of the same ordering, and `alpha` and `beta` scalars.
pub fn add_dense_mat_same_ordering<N, Ip, I, D>(
    lhs: &CsMat<N, Ip, I, D>,
    rhs: &DenseMat<N>,
    alpha: N,
    beta: N,
) -> (r: Result<DenseMat<N>, SprsError>) where
    N: Scalar,
    Ip: Storage<usize>,
    I: Storage<usize>,
    D: Storage<N>,

    requires
        lhs@.wf(),
        rhs@.wf(),
        dense_pair_error(lhs@, rhs@).is_none() ==> forall|r: int, c: int|
            0 <= r < lhs@.nrows && 0 <= c < lhs@.ncols ==> linear_ok(
                alpha,
                or_zero(#[trigger] lhs@.at(r, c)),
                beta,
                rhs@.elem(r, c),
            ),
    ensures
        match r {
            Ok(m) => {
                &&& dense_pair_error(lhs@, rhs@).is_none()
                &&& m@.wf()
                &&& m@.rows == rhs@.rows
                &&& m@.cols == rhs@.cols
                &&& m@.order == rhs@.order
                &&& forall|r: int, c: int|
                    0 <= r < lhs@.nrows && 0 <= c < lhs@.ncols ==> m@.elem(r, c) == linear(
                        alpha,
                        or_zero(#[trigger] lhs@.at(r, c)),
                        beta,
                        rhs@.elem(r, c),
                    )
            },
            Err(e) => dense_pair_error(lhs@, rhs@) == Some(e),
        },
{
    let binop = |x: N, y: N| -> (z: N)
        requires
            linear_ok(alpha, x, beta, y),
        ensures
            z == linear(alpha, x, beta, y),
        { alpha.times(x).plus(beta.times(y)) };
    let mut res = zeros_like(rhs);
    proof {
        if dense_error(lhs@, rhs@, res@).is_none() {
            assert forall|r: int, c: int|
                0 <= r < lhs@.nrows && 0 <= c < lhs@.ncols implies call_requires(
                binop,
                (or_zero(#[trigger] lhs@.at(r, c)), rhs@.elem(r, c)),
            ) by {}
        }
    }
    match csmat_binop_dense_same_ordering_raw(lhs.borrowed(), rhs, binop, &mut res) {
        Ok(()) => {
            proof {
                assert forall|r: int, c: int|
                    0 <= r < lhs@.nrows && 0 <= c < lhs@.ncols implies res@.elem(r, c) == linear(
                    alpha,
                    or_zero(#[trigger] lhs@.at(r, c)),
                    beta,
                    rhs@.elem(r, c),
                ) by {
                    assert(call_ensures(
                        binop,
                        (or_zero(lhs@.at(r, c)), rhs@.elem(r, c)),
                        res@.elem(r, c),
                    ));
                }
            }
            Ok(res)
        },
        Err(e) => Err(e),
    }
}

/// Computes coefficient-wise `alpha * lhs * rhs` with `lhs` a sparse
/// matrix, `rhs` a dense one of the same ordering, and `alpha` a scalar.
pub fn mul_dense_mat_same_ordering<N, Ip, I, D>(
    lhs: &CsMat<N, Ip, I, D>,
    rhs: &DenseMat<N>,
    alpha: N,
) -> (r: Result<DenseMat<N>, SprsError>) where
    N: Scalar,
    Ip: Storage<usize>,
    I: Storage<usize>,
    D: Storage<N>,

    requires
        lhs@.wf(),
        rhs@.wf(),
        dense_pair_error(lhs@, rhs@).is_none() ==> forall|r: int, c: int|
            0 <= r < lhs@.nrows && 0 <= c < lhs@.ncols ==> product_ok(
                alpha,
                or_zero(#[trigger] lhs@.at(r, c)),
                rhs@.elem(r, c),
            ),
    ensures
        match r {
            Ok(m) => {
                &&& dense_pair_error(lhs@, rhs@).is_none()
                &&& m@.wf()
                &&& m@.rows == rhs@.rows
                &&& m@.cols == rhs@.cols
                &&& m@.order == rhs@.order
                &&& forall|r: int, c: int|
                    0 <= r < lhs@.nrows && 0 <= c < lhs@.ncols ==> m@.elem(r, c) == product(
                        alpha,
                        or_zero(#[trigger] lhs@.at(r, c)),
                        rhs@.elem(r, c),
                    )
            },
            Err(e) => dense_pair_error(lhs@, rhs@) == Some(e),
        },
{
    let binop = |x: N, y: N| -> (z: N)
        requires
            product_ok(alpha, x, y),
        ensures
            z == product(alpha, x, y),
        { alpha.times(x).times(y) };
    let mut res = zeros_like(rhs);
    proof {
        if dense_error(lhs@, rhs@, res@).is_none() {
            assert forall|r: int, c: int|
                0 <= r < lhs@.nrows && 0 <= c < lhs@.ncols implies call_requires(
                binop,
                (or_zero(#[trigger] lhs@.at(r, c)), rhs@.elem(r, c)),
            ) by {}
        }
    }
    match csmat_binop_dense_same_ordering_raw(lhs.borrowed(), rhs, binop, &mut res) {
        Ok(()) => {
            proof {
                assert forall|r: int, c: int|
                    0 <= r < lhs@.nrows && 0 <= c < lhs@.ncols implies res@.elem(r, c) == product(
                    alpha,
                    or_zero(#[trigger] lhs@.at(r, c)),
                    rhs@.elem(r, c),
                ) by {
                    assert(call_ensures(
                        binop,
                        (or_zero(lhs@.at(r, c)), rhs@.elem(r, c)),
                        res@.elem(r, c),
                    ));
                }
            }
            Ok(res)
        },
        Err(e) => Err(e),
    }
}

} // verus!
