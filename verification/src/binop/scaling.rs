//! Multiplication of a sparse matrix by a scalar: a copy of the structure
//! with every value multiplied. Nothing is pruned.

use vstd::prelude::*;
use crate::binop::elementwise;
use crate::binop::pruned;
use crate::binop::raw_output;
use crate::csmat::CsMat;
use crate::csmat::CsMatOwned;
use crate::csmat::CsMatView;
use crate::model::lemma_slice_bounds;
use crate::model::CsMatModel;
use crate::scalar::Scalar;
use crate::storage::Storage;
use crate::vec::lemma_lookup_absent;
use crate::vec::lemma_lookup_found;
use crate::vec::stored_at;

verus! {

/// Every stored value of the matrix can be multiplied by `val`.
pub open spec fn scalable<N: Scalar>(m: CsMatModel<N>, val: N) -> bool {
    forall|k: int| m.indptr[0] <= k < m.indptr[m.outer_dims()] ==> (#[trigger] m.data[k]).times_ok(
        val,
    )
}

/// `out` has the structure of `m`, moved to the front of its arrays, and
/// each value of `m` multiplied by `val`. Values that become zero stay
/// stored.
pub open spec fn scaled<N: Scalar>(m: CsMatModel<N>, val: N, out: CsMatModel<N>) -> bool {
    &&& out.storage == m.storage
    &&& out.nrows == m.nrows
    &&& out.ncols == m.ncols
    &&& out.nnz == m.nnz
    &&& out.indptr.len() == m.indptr.len()
    &&& out.indices.len() == m.nnz
    &&& out.data.len() == m.nnz
    &&& forall|o: int|
        0 <= o < m.indptr.len() ==> #[trigger] out.indptr[o] == m.indptr[o] - m.indptr[0]
    &&& forall|k: int| 0 <= k < m.nnz ==> #[trigger] out.indices[k] == m.indices[m.indptr[0] + k]
    &&& forall|k: int|
        0 <= k < m.nnz ==> #[trigger] out.data[k] == m.data[m.indptr[0] + k].times_spec(val)
}

/// The entry that scaling by `val` makes of an entry.
pub open spec fn scaled_entry<N: Scalar>(e: Option<N>, val: N) -> Option<N> {
    match e {
        Some(v) => Some(v.times_spec(val)),
        None => None,
    }
}

/// The scaled copy of a well-formed matrix is a valid matrix that stores
/// the same positions, each with its value multiplied.
pub proof fn lemma_scaled<N: Scalar>(m: CsMatModel<N>, val: N, out: CsMatModel<N>)
    requires
        m.wf(),
        scaled(m, val, out),
    ensures
        out.valid(),
        forall|o: int, i: int|
            0 <= o < m.outer_dims() ==> #[trigger] out.entry(o, i) == scaled_entry(
                m.entry(o, i),
                val,
            ),
{
    let first = m.indptr[0] as int;
    assert(m.indptr[0] <= m.indptr[m.outer_dims()]);
    assert forall|a: int, b: int| 0 <= a <= b < out.indptr.len() implies out.indptr[a]
        <= out.indptr[b] by {
        assert(m.indptr[a] <= m.indptr[b]);
        assert(m.indptr[0] <= m.indptr[a]);
    }
    assert forall|o: int| 0 <= o < out.outer_dims() implies #[trigger] out.slice_ok(o) by {
        lemma_slice_bounds(m, o);
        assert forall|a: int, b: int| out.start(o) <= a < b < out.end(o) implies out.indices[a]
            < out.indices[b] by {
            assert(m.indices[first + a] < m.indices[first + b]);
        }
        assert forall|k: int| out.start(o) <= k < out.end(o) implies out.indices[k]
            < out.inner_dims() by {
            assert(m.indices[first + k] < m.inner_dims());
        }
    }
    assert(out.wf());
    assert forall|o: int, i: int| 0 <= o < m.outer_dims() implies #[trigger] out.entry(o, i)
        == scaled_entry(m.entry(o, i), val) by {
        lemma_slice_bounds(m, o);
        assert(out.slice_ok(o));
        if m.entry(o, i).is_some() {
            let k = crate::model::lemma_entry_some(m, o, i);
            assert(stored_at(out.indices, out.start(o), out.end(o), i, k - first));
            lemma_lookup_found(out.indices, out.data, out.start(o), out.end(o), i, k - first);
        } else {
            assert forall|k: int| out.start(o) <= k < out.end(o) implies out.indices[k] != i by {
                if out.indices[k] == i {
                    assert(stored_at(m.indices, m.start(o), m.end(o), i, first + k));
                    lemma_lookup_found(m.indices, m.data, m.start(o), m.end(o), i, first + k);
                }
            }
            lemma_lookup_absent(out.indices, out.data, out.start(o), out.end(o), i);
        }
    }
}

/// Sparse matrix multiplication by a scalar, raw version.
///
/// Copies the structure of the matrix into the output arrays and writes
/// each value multiplied by `val`. The output must hold one offset more
/// than outer dimensions and room for every stored entry.
pub fn scalar_mul_mat_raw<N: Scalar>(
    mat: CsMatView<'_, N>,
    val: N,
    out_indptr: &mut [usize],
    out_indices: &mut [usize],
    out_data: &mut [N],
)
    requires
        mat@.wf(),
        scalable(mat@, val),
        old(out_indptr)@.len() == mat@.outer_dims() + 1,
        old(out_data)@.len() >= mat@.nnz,
        old(out_indices)@.len() >= mat@.nnz,
    ensures
        final(out_indptr)@.len() == old(out_indptr)@.len(),
        final(out_indices)@.len() == old(out_indices)@.len(),
        final(out_data)@.len() == old(out_data)@.len(),
        forall|k: int|
            mat@.nnz <= k < old(out_indices)@.len() ==> #[trigger] final(out_indices)@[k] == old(
                out_indices,
            )@[k],
        forall|k: int|
            mat@.nnz <= k < old(out_data)@.len() ==> #[trigger] final(out_data)@[k] == old(
                out_data,
            )@[k],
        scaled(
            mat@,
            val,
            raw_output(
                mat@,
                final(out_indptr)@,
                final(out_indices)@,
                final(out_data)@,
                mat@.nnz,
            ),
        ),
{
    let indptr = mat.indptr();
    let indices = mat.indices();
    let data = mat.data();
    let outer = mat.outer_dims();
    let nnz = mat.nb_nonzero();
    proof {
        assert(indptr@[0] <= indptr@[outer as int]);
    }
    let first = indptr[0];
    let mut o: usize = 0;
    while o < indptr.len()
        invariant
            mat@.wf(),
            indptr@ == mat@.indptr,
            first == indptr@[0],
            o <= indptr@.len(),
            out_indptr@.len() == indptr@.len(),
            forall|p: int| 0 <= p < o ==> #[trigger] out_indptr@[p] == indptr@[p] - first,
        decreases indptr@.len() - o,
    {
        assert(indptr@[0] <= indptr@[o as int]);
        out_indptr[o] = indptr[o] - first;
        o += 1;
    }
    let mut k: usize = 0;
    while k < nnz
        invariant
            mat@.wf(),
            scalable(mat@, val),
            indptr@ == mat@.indptr,
            indices@ == mat@.indices,
            data@ == mat@.data,
            first == indptr@[0],
            outer == mat@.outer_dims(),
            nnz == mat@.nnz,
            first + nnz == indptr@[outer as int],
            first + nnz <= indices@.len(),
            first + nnz <= data@.len(),
            k <= nnz,
            out_indices@.len() == old(out_indices)@.len(),
            out_data@.len() == old(out_data)@.len(),
            out_indices@.len() >= nnz,
            out_data@.len() >= nnz,
            forall|p: int|
                k <= p < out_indices@.len() ==> #[trigger] out_indices@[p] == old(out_indices)@[p],
            forall|p: int| k <= p < out_data@.len() ==> #[trigger] out_data@[p] == old(out_data)@[p],
            forall|p: int| 0 <= p < k ==> #[trigger] out_indices@[p] == indices@[first + p],
            forall|p: int|
                0 <= p < k ==> #[trigger] out_data@[p] == data@[first + p].times_spec(val),
        decreases nnz - k,
    {
        out_indices[k] = indices[first + k];
        assert(data@[first + k].times_ok(val));
        out_data[k] = data[first + k].times(val);
        k += 1;
    }
}

/// Sparse matrix multiplication by a scalar. The result has the structure
/// of the matrix; no entry is dropped, whatever its value becomes.
pub fn scalar_mul_mat<N, Ip, I, D>(mat: &CsMat<N, Ip, I, D>, val: N) -> (r: CsMatOwned<N>) where
    N: Scalar,
    Ip: Storage<usize>,
    I: Storage<usize>,
    D: Storage<N>,

    requires
        mat@.wf(),
        scalable(mat@, val),
    ensures
        r@.valid(),
        scaled(mat@, val, r@),
        forall|o: int, i: int|
            0 <= o < mat@.outer_dims() ==> #[trigger] r@.entry(o, i) == scaled_entry(
                mat@.entry(o, i),
                val,
            ),
{
    let mat = mat.borrowed();
    let nnz = mat.nb_nonzero();
    let mut out_indptr: Vec<usize> = vec![0usize; mat.indptr().len()];
    let mut out_indices: Vec<usize> = vec![0usize; nnz];
    let mut out_data: Vec<N> = vec![N::zero(); nnz];
    let nrows = mat.rows();
    let ncols = mat.cols();
    let storage_type = mat.storage();
    scalar_mul_mat_raw(
        mat,
        val,
        out_indptr.as_mut_slice(),
        out_indices.as_mut_slice(),
        out_data.as_mut_slice(),
    );
    proof {
        let out = raw_output(mat@, out_indptr@, out_indices@, out_data@, nnz);
        assert(out.indices =~= out_indices@);
        assert(out.data =~= out_data@);
        lemma_scaled(mat@, val, out);
    }
    let res = CsMat::new_owned(storage_type, nrows, ncols, out_indptr, out_indices, out_data);
    res.unwrap()
}


/// Every stored value of the matrix, added to its multiple by `neg`, gives
/// zero: `neg` stands for minus one.
pub open spec fn cancels<N: Scalar>(m: CsMatModel<N>, neg: N) -> bool {
    forall|k: int|
        m.indptr[0] <= k < m.indptr[m.outer_dims()] ==> (#[trigger] m.data[k]).plus_spec(
            m.data[k].times_spec(neg),
        ) == N::zero_spec()
}

/// Zero-pruning: a matrix plus its own copy scaled by minus one stores
/// nothing. This holds for every scalar type, of each matrix whose stored
/// values cancel against their multiples by `neg`: the sum has the shape
/// and storage order of the matrix, no index, no value, and offsets that
/// are all zero.
pub proof fn lemma_add_negated_is_empty<N: Scalar>(
    a: CsMatModel<N>,
    neg: N,
    negated: CsMatModel<N>,
    sum: CsMatModel<N>,
)
    requires
        a.wf(),
        cancels(a, neg),
        scaled(a, neg, negated),
        elementwise(|x: N, y: N| x.plus_spec(y), a, negated, sum),
    ensures
        sum.valid(),
        sum.storage == a.storage,
        sum.nrows == a.nrows,
        sum.ncols == a.ncols,
        sum.nnz == 0,
        sum.indices.len() == 0,
        sum.data.len() == 0,
        sum.indptr.len() == a.outer_dims() + 1,
        forall|o: int| 0 <= o <= a.outer_dims() ==> #[trigger] sum.indptr[o] == 0,
{
    lemma_scaled(a, neg, negated);
    assert forall|o: int, i: int| 0 <= o < sum.outer_dims() implies (#[trigger] sum.entry(
        o,
        i,
    )).is_none() by {
        assert(sum.entry(o, i) == pruned(
            |x: N, y: N| x.plus_spec(y),
            a.entry(o, i),
            negated.entry(o, i),
        ));
        assert(negated.entry(o, i) == scaled_entry(a.entry(o, i), neg));
        if a.entry(o, i).is_some() {
            let k = crate::model::lemma_entry_some(a, o, i);
            assert(a.indptr[o + 1] <= a.indptr[a.outer_dims()]);
            assert(a.indptr[0] <= a.indptr[o]);
            assert(a.data[k].plus_spec(a.data[k].times_spec(neg)) == N::zero_spec());
        }
    }
    crate::model::lemma_no_entries_empty(sum);
    assert forall|o: int| 0 <= o <= a.outer_dims() implies #[trigger] sum.indptr[o] == 0 by {
        assert(sum.indptr[o] <= sum.indptr[sum.outer_dims()]);
    }
}

/// Zero-pruning at `i64`: a matrix plus its own copy scaled by `-1` stores
/// nothing, whenever the scaling can be carried out, that is for every
/// matrix that does not store the smallest value.
pub proof fn lemma_add_negated_is_empty_i64(
    a: CsMatModel<i64>,
    negated: CsMatModel<i64>,
    sum: CsMatModel<i64>,
)
    requires
        a.wf(),
        scalable(a, -1i64),
        scaled(a, -1i64, negated),
        elementwise(|x: i64, y: i64| x.plus_spec(y), a, negated, sum),
    ensures
        sum.valid(),
        sum.nnz == 0,
        sum.indices.len() == 0,
        sum.data.len() == 0,
        forall|o: int| 0 <= o <= a.outer_dims() ==> #[trigger] sum.indptr[o] == 0,
{
    assert(cancels(a, -1i64)) by {
        assert forall|k: int| a.indptr[0] <= k < a.indptr[a.outer_dims()] implies (
        #[trigger] a.data[k]).plus_spec(a.data[k].times_spec(-1i64)) == 0i64 by {
            assert(a.data[k].times_ok(-1i64));
        }
    }
    lemma_add_negated_is_empty(a, -1i64, negated, sum);
}

} // verus!
