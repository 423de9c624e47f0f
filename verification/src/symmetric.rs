//! Functions dealing with symmetric sparse matrices.

use vstd::prelude::*;
use vstd::std_specs::cmp::PartialEqSpec;
use crate::csmat::CsMat;
use crate::model::lemma_entry_found;
use crate::model::lemma_entry_some;
use crate::model::lemma_slice_bounds;
use crate::model::CsMatModel;
use crate::storage::Storage;

verus! {

/// The position transposed to `(o, i)` stores a value.
pub open spec fn mirror_stored<N>(m: CsMatModel<N>, o: int, i: int) -> bool {
    0 <= i < m.outer_dims() && m.entry(i, o).is_some()
}

/// The position transposed to `(o, i)` stores a value equal to `v`.
pub open spec fn mirror_equal<N: PartialEq>(m: CsMatModel<N>, o: int, i: int, v: N) -> bool {
    mirror_stored(m, o, i) && m.entry(i, o).unwrap().eq_spec(&v)
}

/// The matrix is square, and every stored position has its transposed
/// position stored too.
pub open spec fn structurally_symmetric<N>(m: CsMatModel<N>) -> bool {
    &&& m.nrows == m.ncols
    &&& forall|o: int, i: int|
        0 <= o < m.outer_dims() && (#[trigger] m.entry(o, i)).is_some() ==> mirror_stored(m, o, i)
}

/// The matrix is square, and every stored entry has an equal entry stored
/// at the transposed position.
pub open spec fn symmetric<N: PartialEq>(m: CsMatModel<N>) -> bool {
    &&& m.nrows == m.ncols
    &&& forall|o: int, i: int|
        0 <= o < m.outer_dims() && (#[trigger] m.entry(o, i)).is_some() ==> mirror_equal(
            m,
            o,
            i,
            m.entry(o, i).unwrap(),
        )
}

/// Tests whether a matrix is symmetric: square, with each stored entry
/// equal to the entry stored at the transposed position. The comparison is
/// exact, entry by entry; a matrix that is not square is not symmetric.
///
/// The answer is that of `symmetric` for every value type whose `==` is
/// specified. Whatever `==` does, a matrix found symmetric is
/// structurally so.
pub fn is_symmetric<N, IpStorage, IStorage, DStorage>(
    mat: &CsMat<N, IpStorage, IStorage, DStorage>,
) -> (r: bool) where
    N: Copy + PartialEq,
    IpStorage: Storage<usize>,
    IStorage: Storage<usize>,
    DStorage: Storage<N>,

    requires
        mat@.wf(),
    ensures
        N::obeys_eq_spec() ==> r == symmetric(mat@),
        r ==> structurally_symmetric(mat@),
        mat@.nrows != mat@.ncols ==> !r,
{
    if mat.rows() != mat.cols() {
        return false;
    }
    let ghost m = mat@;
    let outer = mat.outer_dims();
    let indptr = mat.indptr();
    let indices = mat.indices();
    let data = mat.data();
    let mut outer_ind: usize = 0;
    while outer_ind < outer
        invariant
            m == mat@,
            m.wf(),
            m.nrows == m.ncols,
            outer == m.outer_dims(),
            outer_ind <= outer,
            indptr@ == m.indptr,
            indices@ == m.indices,
            data@ == m.data,
            forall|o: int, k: int|
                #[trigger] m.in_slice(o, k) && o < outer_ind ==> mirror_stored(m, o, m.indices[k] as int),
            N::obeys_eq_spec() ==> forall|o: int, k: int|
                #[trigger] m.in_slice(o, k) && o < outer_ind ==> mirror_equal(
                    m,
                    o,
                    m.indices[k] as int,
                    m.data[k],
                ),
        decreases outer - outer_ind,
    {
        proof {
            lemma_slice_bounds(m, outer_ind as int);
        }
        let stop = indptr[outer_ind + 1];
        let mut p: usize = indptr[outer_ind];
        while p < stop
            invariant
                m == mat@,
                m.wf(),
                m.nrows == m.ncols,
                outer == m.outer_dims(),
                outer_ind < outer,
                indptr@ == m.indptr,
                indices@ == m.indices,
                data@ == m.data,
                m.start(outer_ind as int) <= p <= stop,
                stop == m.end(outer_ind as int),
                stop <= indices@.len(),
                stop <= data@.len(),
                forall|o: int, k: int|
                #[trigger] m.in_slice(o, k) && o < outer_ind ==> mirror_stored(m, o, m.indices[k] as int),
                forall|k: int|
                    m.start(outer_ind as int) <= k < p ==> mirror_stored(
                        m,
                        outer_ind as int,
                        #[trigger] m.indices[k] as int,
                    ),
                N::obeys_eq_spec() ==> forall|o: int, k: int|
                #[trigger] m.in_slice(o, k) && o < outer_ind ==> mirror_equal(
                    m,
                    o,
                    m.indices[k] as int,
                    m.data[k],
                ),
                N::obeys_eq_spec() ==> forall|k: int|
                    m.start(outer_ind as int) <= k < p ==> mirror_equal(
                        m,
                        outer_ind as int,
                        #[trigger] m.indices[k] as int,
                        m.data[k],
                    ),
            decreases stop - p,
        {
            let inner_ind = indices[p];
            let value = data[p];
            proof {
                lemma_entry_found(m, outer_ind as int, p as int);
            }
            match mat.at_outer_inner(&(inner_ind, outer_ind)) {
                None => {
                    assert(!mirror_stored(m, outer_ind as int, inner_ind as int));
                    return false;
                },
                Some(transposed_val) => {
                    if transposed_val != value {
                        assert(N::obeys_eq_spec() ==> !mirror_equal(
                            m,
                            outer_ind as int,
                            inner_ind as int,
                            m.entry(outer_ind as int, inner_ind as int).unwrap(),
                        ));
                        return false;
                    }
                },
            }
            p += 1;
        }
        outer_ind += 1;
    }
    proof {
        assert forall|o: int, i: int|
            0 <= o < m.outer_dims() && (#[trigger] m.entry(o, i)).is_some() implies mirror_stored(
            m,
            o,
            i,
        ) && (N::obeys_eq_spec() ==> mirror_equal(m, o, i, m.entry(o, i).unwrap())) by {
            let k = lemma_entry_some(m, o, i);
            assert(m.in_slice(o, k));
            assert(mirror_stored(m, o, m.indices[k] as int));
        }
    }
    true
}

} // verus!
