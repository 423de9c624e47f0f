//! Assembling a matrix piece by piece, and changing its values in place.

use vstd::prelude::*;
use crate::binop::scaled;
use crate::csmat::CsMat;
use crate::csmat::CsMatOwned;
use crate::model::lemma_slice_bounds;
use crate::model::CompressedStorage;
use crate::model::CsMatModel;
use crate::scalar::Scalar;
use crate::storage::Storage;
use crate::storage::StorageMut;
use crate::vec::CsVecView;

verus! {

impl<N: Scalar> CsMat<N, Vec<usize>, Vec<usize>, Vec<N>> {
    /// Identity matrix of dimension `dim`, in the given storage order.
    pub fn eye(storage: CompressedStorage, dim: usize) -> (m: CsMatOwned<N>)
        requires
            dim < usize::MAX,
        ensures
            m@.valid(),
            m@.storage == storage,
            m@.nrows == dim,
            m@.ncols == dim,
            m@.nnz == dim,
            m@.indptr.len() == dim + 1,
            m@.indices.len() == dim,
            m@.data.len() == dim,
            forall|k: int| 0 <= k <= dim ==> #[trigger] m@.indptr[k] == k,
            forall|k: int| 0 <= k < dim ==> #[trigger] m@.indices[k] == k,
            forall|k: int| 0 <= k < dim ==> #[trigger] m@.data[k] == N::one_spec(),
            forall|o: int, i: int|
                0 <= o < dim ==> #[trigger] m@.entry(o, i) == if i == o {
                    Some(N::one_spec())
                } else {
                    None
                },
    {
        let n = dim;
        let mut indptr: Vec<usize> = Vec::new();
        let mut indices: Vec<usize> = Vec::new();
        let mut data: Vec<N> = Vec::new();
        indptr.push(0);
        let mut k: usize = 0;
        while k < n
            invariant
                k <= n,
                indptr@.len() == k + 1,
                indices@.len() == k,
                data@.len() == k,
                forall|j: int| 0 <= j <= k ==> #[trigger] indptr@[j] == j,
                forall|j: int| 0 <= j < k ==> #[trigger] indices@[j] == j,
                forall|j: int| 0 <= j < k ==> #[trigger] data@[j] == N::one_spec(),
            decreases n - k,
        {
            indices.push(k);
            data.push(N::one());
            indptr.push(k + 1);
            k += 1;
        }
        let m = CsMat {
            storage,
            nrows: n,
            ncols: n,
            nnz: n,
            indptr,
            indices,
            data,
            marker: core::marker::PhantomData,
        };
        proof {
            assert forall|o: int| 0 <= o < m@.outer_dims() implies #[trigger] m@.slice_ok(o) by {}
            assert(m@.wf());
            assert forall|o: int, i: int| 0 <= o < dim implies #[trigger] m@.entry(o, i) == if i
                == o {
                Some(N::one_spec())
            } else {
                None
            } by {
                if i == o {
                    crate::model::lemma_entry_found(m@, o, o);
                } else {
                    crate::vec::lemma_lookup_absent(m@.indices, m@.data, m@.start(o), m@.end(o), i);
                }
            }
        }
        m
    }

    /// Appends an outer dimension to an existing matrix, compressing it in
    /// the process: of the dense slice `data`, the values that are not zero
    /// are stored, each under its position. The slice must not be longer
    /// than the inner dimension.
    pub fn append_outer(self, data: &[N]) -> (m: Self)
        requires
            self@.valid(),
            data@.len() <= self@.inner_dims(),
        ensures
            m@.valid(),
            m@.appended_to(self@),
            m@.nnz <= self@.nnz + data@.len(),
            forall|o: int, i: int|
                0 <= o < self@.outer_dims() ==> #[trigger] m@.entry(o, i) == self@.entry(o, i),
            forall|i: int|
                #[trigger] m@.entry(self@.outer_dims(), i) == if 0 <= i < data@.len() && data@[i]
                    != N::zero_spec() {
                    Some(data@[i])
                } else {
                    None
                },
    {
        let ghost before = self@;
        let ghost first = before.nnz as int;
        let mut m = self;
        let mut k: usize = 0;
        while k < data.len()
            invariant
                before.valid(),
                first == before.nnz,
                k <= data@.len(),
                data@.len() <= before.inner_dims(),
                m.storage == before.storage,
                m.nrows == before.nrows,
                m.ncols == before.ncols,
                m.indptr@ == before.indptr,
                first <= m.nnz <= first + k,
                m.indices@.len() == m.nnz,
                m.data@.len() == m.nnz,
                forall|j: int| 0 <= j < first ==> #[trigger] m.indices@[j] == before.indices[j],
                forall|j: int| 0 <= j < first ==> #[trigger] m.data@[j] == before.data[j],
                crate::vec::strictly_increasing(m.indices@, first, m.nnz as int),
                crate::vec::all_below(m.indices@, first, m.nnz as int, k as int),
                forall|i: int|
                    0 <= i < k ==> #[trigger] crate::vec::lookup(
                        m.indices@,
                        m.data@,
                        first,
                        m.nnz as int,
                        i,
                    ) == if data@[i] != N::zero_spec() {
                        Some(data@[i])
                    } else {
                        None
                    },
            decreases data@.len() - k,
        {
            let val = data[k];
            let ghost prev_indices = m.indices@;
            let ghost prev_data = m.data@;
            let ghost prev_nnz = m.nnz as int;
            let stored = !val.is_zero();
            if stored {
                m.indices.push(k);
                m.data.push(val);
                m.nnz = m.indices.len();
            }
            proof {
                crate::vec::lemma_lookup_agree(
                    prev_indices,
                    prev_data,
                    m.indices@,
                    m.data@,
                    first,
                    prev_nnz,
                    0,
                );
                if stored {
                    assert forall|a: int, b: int| first <= a < b < m.nnz implies m.indices@[a]
                        < m.indices@[b] by {
                        if b == prev_nnz {
                            assert(prev_indices[a] < k);
                        } else {
                            assert(prev_indices[a] < prev_indices[b]);
                        }
                    }
                }
                assert forall|j: int| first <= j < m.nnz implies m.indices@[j] < k + 1 by {
                    if j < prev_nnz {
                        assert(prev_indices[j] < k);
                    }
                }
                assert forall|i: int| 0 <= i < k + 1 implies #[trigger] crate::vec::lookup(
                    m.indices@,
                    m.data@,
                    first,
                    m.nnz as int,
                    i,
                ) == if data@[i] != N::zero_spec() {
                    Some(data@[i])
                } else {
                    None
                } by {
                    crate::vec::lemma_lookup_agree(
                        prev_indices,
                        prev_data,
                        m.indices@,
                        m.data@,
                        first,
                        prev_nnz,
                        i,
                    );
                    if i < k {
                        if stored {
                            crate::vec::lemma_lookup_skip(m.indices@, m.data@, first, prev_nnz, i);
                        }
                    } else if stored {
                        assert(crate::vec::stored_at(m.indices@, first, m.nnz as int, i, prev_nnz));
                        crate::vec::lemma_lookup_found(
                            m.indices@,
                            m.data@,
                            first,
                            m.nnz as int,
                            i,
                            prev_nnz,
                        );
                    } else {
                        assert forall|j: int| first <= j < prev_nnz implies prev_indices[j]
                            != i by {
                            assert(prev_indices[j] < k);
                        }
                        crate::vec::lemma_lookup_absent(prev_indices, prev_data, first, prev_nnz, i);
                    }
                }
            }
            k += 1;
        }
        // the offsets count one more than the outer dimensions so far
        let outer = m.indptr.len();
        match m.storage {
            CompressedStorage::CSR => {
                m.nrows = outer;
            },
            CompressedStorage::CSC => {
                m.ncols = outer;
            },
        }
        m.indptr.push(m.nnz);
        proof {
            lemma_appended(before, m@);
            assert forall|i: int| #[trigger]
                m@.entry(before.outer_dims(), i) == if 0 <= i < data@.len() && data@[i]
                    != N::zero_spec() {
                    Some(data@[i])
                } else {
                    None
                } by {
                if !(0 <= i < data@.len()) {
                    assert forall|j: int| first <= j < m.nnz implies m.indices@[j] != i by {
                        assert(m.indices@[j] < data@.len());
                    }
                    crate::vec::lemma_lookup_absent(m.indices@, m.data@, first, m.nnz as int, i);
                }
            }
        }
        m
    }
}

impl<N: Copy> CsMat<N, Vec<usize>, Vec<usize>, Vec<N>> {
    /// Appends an outer dimension to an existing matrix, provided by a
    /// sparse vector of the length of the inner dimension. Its indices and
    /// values are copied as they are.
    pub fn append_outer_csvec(self, vec: CsVecView<'_, N>) -> (m: Self)
        requires
            self@.valid(),
            vec@.wf(),
            self@.inner_dims() == vec@.dim,
        ensures
            m@.valid(),
            m@.appended_to(self@),
            m@.nnz == self@.nnz + vec@.indices.len(),
            m@.indices == self@.indices + vec@.indices,
            m@.data == self@.data + vec@.data,
            forall|o: int, i: int|
                0 <= o < self@.outer_dims() ==> #[trigger] m@.entry(o, i) == self@.entry(o, i),
            forall|i: int| #[trigger] m@.entry(self@.outer_dims(), i) == vec@.get(i),
    {
        let ghost before = self@;
        let ghost first = before.nnz as int;
        let mut m = self;
        let indices = vec.indices();
        let data = vec.data();
        let count = indices.len();
        let mut k: usize = 0;
        while k < count
            invariant
                before.valid(),
                vec@.wf(),
                indices@ == vec@.indices,
                data@ == vec@.data,
                count == indices@.len(),
                first == before.nnz,
                k <= count,
                m.storage == before.storage,
                m.nrows == before.nrows,
                m.ncols == before.ncols,
                m.nnz == before.nnz,
                m.indptr@ == before.indptr,
                m.indices@.len() == first + k,
                m.data@.len() == first + k,
                forall|j: int| 0 <= j < first ==> #[trigger] m.indices@[j] == before.indices[j],
                forall|j: int| 0 <= j < first ==> #[trigger] m.data@[j] == before.data[j],
                forall|p: int|
                    first <= p < first + k ==> #[trigger] m.indices@[p] == indices@[p - first],
                forall|p: int| first <= p < first + k ==> #[trigger] m.data@[p] == data@[p - first],
            decreases count - k,
        {
            m.indices.push(indices[k]);
            m.data.push(data[k]);
            k += 1;
        }
        // the offsets count one more than the outer dimensions so far
        let outer = m.indptr.len();
        match m.storage {
            CompressedStorage::CSR => {
                m.nrows = outer;
            },
            CompressedStorage::CSC => {
                m.ncols = outer;
            },
        }
        m.nnz = m.indices.len();
        m.indptr.push(m.nnz);
        proof {
            assert(m@.indices =~= before.indices + vec@.indices);
            assert(m@.data =~= before.data + vec@.data);
            assert forall|a: int, b: int| first <= a < b < m.nnz implies m.indices@[a]
                < m.indices@[b] by {
                assert(indices@[a - first] < indices@[b - first]);
            }
            assert forall|j: int| first <= j < m.nnz implies m.indices@[j]
                < before.inner_dims() by {
                assert(indices@[j - first] < vec@.dim);
            }
            lemma_appended(before, m@);
            assert forall|i: int| #[trigger] m@.entry(before.outer_dims(), i) == vec@.get(i) by {
                if vec@.get(i).is_some() {
                    let j = crate::vec::lemma_lookup_some(indices@, data@, 0, count as int, i);
                    assert(crate::vec::stored_at(m.indices@, first, m.nnz as int, i, first + j));
                    crate::vec::lemma_lookup_found(
                        m.indices@,
                        m.data@,
                        first,
                        m.nnz as int,
                        i,
                        first + j,
                    );
                } else {
                    assert forall|j: int| first <= j < m.nnz implies m.indices@[j] != i by {
                        if m.indices@[j] == i {
                            assert(crate::vec::stored_at(indices@, 0, count as int, i, j - first));
                            crate::vec::lemma_lookup_found(
                                indices@,
                                data@,
                                0,
                                count as int,
                                i,
                                j - first,
                            );
                        }
                    }
                    crate::vec::lemma_lookup_absent(m.indices@, m.data@, first, m.nnz as int, i);
                }
            }
        }
        m
    }
}

impl<N, IptrStorage, IndStorage, DataStorage> CsMat<N, IptrStorage, IndStorage, DataStorage> where
    N: Copy,
    IptrStorage: Storage<usize>,
    IndStorage: Storage<usize>,
    DataStorage: StorageMut<N>,
 {
    /// Mutable access to the stored values. The structure cannot be
    /// changed through it.
    pub fn data_mut(&mut self) -> (r: &mut [N])
        ensures
            r@ == old(self)@.data,
            final(self)@ == (CsMatModel { data: final(r)@, ..old(self)@ }),
    {
        self.data.as_mut_slice()
    }
}

impl<N, IptrStorage, IndStorage, DataStorage> CsMat<N, IptrStorage, IndStorage, DataStorage> where
    N: Scalar,
    IptrStorage: Storage<usize>,
    IndStorage: Storage<usize>,
    DataStorage: StorageMut<N>,
 {
    /// Sparse matrix self-multiplication by a scalar: multiplies every
    /// stored value by `val`. The structure stays as it is; a value that
    /// becomes zero stays stored.
    pub fn scale(&mut self, val: N)
        requires
            forall|k: int| 0 <= k < old(self)@.data.len() ==> (#[trigger] old(self)@.data[k]).times_ok(val),
        ensures
            final(self)@.storage == old(self)@.storage,
            final(self)@.nrows == old(self)@.nrows,
            final(self)@.ncols == old(self)@.ncols,
            final(self)@.nnz == old(self)@.nnz,
            final(self)@.indptr == old(self)@.indptr,
            final(self)@.indices == old(self)@.indices,
            final(self)@.data.len() == old(self)@.data.len(),
            forall|k: int|
                0 <= k < old(self)@.data.len() ==> #[trigger] final(self)@.data[k] == old(
                    self,
                )@.data[k].times_spec(val),
            old(self)@.valid() ==> scaled(old(self)@, val, final(self)@),
    {
        let n = self.data.as_slice().len();
        let mut k: usize = 0;
        while k < n
            invariant
                k <= n,
                n == old(self)@.data.len(),
                self.storage == old(self).storage,
                self.nrows == old(self).nrows,
                self.ncols == old(self).ncols,
                self.nnz == old(self).nnz,
                self.indptr == old(self).indptr,
                self.indices == old(self).indices,
                self.data.elems().len() == n,
                forall|j: int|
                    0 <= j < old(self)@.data.len() ==> (#[trigger] old(self)@.data[j]).times_ok(val),
                forall|j: int|
                    0 <= j < k ==> #[trigger] self.data.elems()[j] == old(self)@.data[j].times_spec(
                        val,
                    ),
                forall|j: int| k <= j < n ==> #[trigger] self.data.elems()[j] == old(self)@.data[j],
            decreases n - k,
        {
            let v = self.data.as_slice()[k];
            assert(old(self)@.data[k as int].times_ok(val));
            self.data.set_at(k, v.times(val));
            k += 1;
        }
    }
}

/// A valid matrix to which one sorted slice has been appended is valid, and
/// its earlier slices hold what they held.
proof fn lemma_appended<N>(before: CsMatModel<N>, after: CsMatModel<N>)
    requires
        before.valid(),
        after.storage == before.storage,
        after.inner_dims() == before.inner_dims(),
        after.outer_dims() == before.outer_dims() + 1,
        after.nnz >= before.nnz,
        after.indptr == before.indptr.push(after.nnz),
        after.indices.len() == after.nnz,
        after.data.len() == after.nnz,
        forall|j: int| 0 <= j < before.nnz ==> #[trigger] after.indices[j] == before.indices[j],
        forall|j: int| 0 <= j < before.nnz ==> #[trigger] after.data[j] == before.data[j],
        crate::vec::strictly_increasing(after.indices, before.nnz as int, after.nnz as int),
        crate::vec::all_below(
            after.indices,
            before.nnz as int,
            after.nnz as int,
            before.inner_dims(),
        ),
    ensures
        after.valid(),
        after.appended_to(before),
        forall|o: int, i: int|
            0 <= o < before.outer_dims() ==> #[trigger] after.entry(o, i) == before.entry(o, i),
        after.start(before.outer_dims()) == before.nnz,
        after.end(before.outer_dims()) == after.nnz,
{
    let outer = before.outer_dims();
    assert(after.indices.subrange(0, before.nnz as int) =~= before.indices);
    assert(after.data.subrange(0, before.nnz as int) =~= before.data);
    assert forall|a: int, b: int| 0 <= a <= b < after.indptr.len() implies after.indptr[a]
        <= after.indptr[b] by {
        if b <= outer {
            assert(before.indptr[a] <= before.indptr[b]);
        } else if a <= outer {
            assert(before.indptr[a] <= before.indptr[outer]);
        }
    }
    assert forall|o: int| 0 <= o < after.outer_dims() implies #[trigger] after.slice_ok(o) by {
        if o < outer {
            lemma_slice_bounds(before, o);
            crate::vec::lemma_lookup_agree(
                before.indices,
                before.data,
                after.indices,
                after.data,
                before.start(o),
                before.end(o),
                0,
            );
            assert forall|k: int| after.start(o) <= k < after.end(o) implies after.indices[k]
                < after.inner_dims() by {
                assert(before.indices[k] < before.inner_dims());
            }
        }
    }
    assert forall|o: int, i: int| 0 <= o < outer implies #[trigger] after.entry(o, i)
        == before.entry(o, i) by {
        lemma_slice_bounds(before, o);
        crate::vec::lemma_lookup_agree(
            before.indices,
            before.data,
            after.indices,
            after.data,
            before.start(o),
            before.end(o),
            i,
        );
    }
}

} // verus!
