//! A sparse matrix in the Compressed Sparse Row/Column format.
//!
//! In the CSR format a matrix is made of three arrays, `indptr`, `indices`
//! and `data`, such that for each row `i` the columns
//! `indices[indptr[i]..indptr[i + 1]]` hold the values
//! `data[indptr[i]..indptr[i + 1]]`. The CSC format is the same with rows and
//! columns exchanged.
//!
//! This module holds the type, its constructors, its accessors and its
//! conversions; the submodules hold what assembles a matrix piece by piece, what
//! walks it, and its arithmetic.

use vstd::prelude::*;
use vstd::slice::slice_subrange;
use vstd::slice::slice_to_vec;
use crate::errors::SprsError;
use crate::model::lemma_middle;
use crate::model::lemma_outer_slice;
use crate::model::lemma_slice_bounds;
use crate::model::lemma_structure_error_none;
use crate::model::CsMatModel;
use crate::raw::convert_mat_storage;
use crate::storage::can_reserve;
use crate::storage::vec_reserve_exact;
use crate::storage::Storage;
use crate::vec::check_slice_structure;
use crate::vec::search_slice;
use crate::vec::CsVec;
use crate::vec::CsVecView;

pub mod assemble;
pub mod iter;
pub mod ops;

pub use crate::csmat::iter::ChunkOuterBlocks;
pub use crate::csmat::iter::OuterIterator;
pub use crate::csmat::iter::OuterIteratorPerm;
pub use crate::model::CompressedStorage;
pub use crate::model::CompressedStorage::CSC;
pub use crate::model::CompressedStorage::CSR;

verus! {

/// Compressed matrix in the CSR or CSC format, over the storage of its
/// offsets, of its indices and of its values.
#[derive(PartialEq, Debug)]
pub struct CsMat<N, IptrStorage, IndStorage, DataStorage> where
    IptrStorage: Storage<usize>,
    IndStorage: Storage<usize>,
    DataStorage: Storage<N>,
 {
    storage: CompressedStorage,
    nrows: usize,
    ncols: usize,
    nnz: usize,
    indptr: IptrStorage,
    indices: IndStorage,
    data: DataStorage,
    marker: core::marker::PhantomData<N>,
}

/// A matrix that owns its three arrays.
pub type CsMatOwned<N> = CsMat<N, Vec<usize>, Vec<usize>, Vec<N>>;

/// A matrix that borrows its three arrays.
pub type CsMatView<'a, N> = CsMat<N, &'a [usize], &'a [usize], &'a [N]>;

/// A matrix that owns its offsets and borrows its indices and values.
pub type CsMatVecView<'a, N> = CsMat<N, Vec<usize>, &'a [usize], &'a [N]>;

impl<N, IptrStorage, IndStorage, DataStorage> View for CsMat<
    N,
    IptrStorage,
    IndStorage,
    DataStorage,
> where IptrStorage: Storage<usize>, IndStorage: Storage<usize>, DataStorage: Storage<N> {
    type V = CsMatModel<N>;

    closed spec fn view(&self) -> CsMatModel<N> {
        CsMatModel {
            storage: self.storage,
            nrows: self.nrows,
            ncols: self.ncols,
            nnz: self.nnz,
            indptr: self.indptr.elems(),
            indices: self.indices.elems(),
            data: self.data.elems(),
        }
    }
}

/// The matrix that complete arrays stand for: every position of `indices`
/// and `data` is a stored entry.
pub open spec fn candidate<N>(
    storage: CompressedStorage,
    nrows: usize,
    ncols: usize,
    indptr: Seq<usize>,
    indices: Seq<usize>,
    data: Seq<N>,
) -> CsMatModel<N> {
    CsMatModel { storage, nrows, ncols, nnz: data.len() as usize, indptr, indices, data }
}

/// The matrix that offsets cut out of shared arrays: the stored entries are
/// the positions between the first offset and the last.
pub open spec fn window<N>(
    storage: CompressedStorage,
    nrows: usize,
    ncols: usize,
    indptr: Seq<usize>,
    indices: Seq<usize>,
    data: Seq<N>,
) -> CsMatModel<N> {
    let outer = match storage {
        CompressedStorage::CSR => nrows as int,
        CompressedStorage::CSC => ncols as int,
    };
    CsMatModel {
        storage,
        nrows,
        ncols,
        nnz: (indptr[outer] - indptr[0]) as usize,
        indptr,
        indices,
        data,
    }
}

impl<N, IptrStorage, IndStorage, DataStorage> CsMat<N, IptrStorage, IndStorage, DataStorage> where
    N: Copy,
    IptrStorage: Storage<usize>,
    IndStorage: Storage<usize>,
    DataStorage: Storage<N>,
 {
    /// The underlying storage of this matrix.
    pub fn storage(&self) -> (r: CompressedStorage)
        ensures
            r == self@.storage,
    {
        self.storage
    }

    /// The number of rows of this matrix.
    pub fn rows(&self) -> (r: usize)
        ensures
            r == self@.nrows,
    {
        self.nrows
    }

    /// The number of columns of this matrix.
    pub fn cols(&self) -> (r: usize)
        ensures
            r == self@.ncols,
    {
        self.ncols
    }

    /// The number of entries that this matrix stores. Most sparse
    /// algorithms run in time linear in this number.
    pub fn nb_nonzero(&self) -> (r: usize)
        ensures
            r == self@.nnz,
    {
        self.nnz
    }

    /// Number of outer dimensions: `rows()` for a CSR matrix, `cols()` for a
    /// CSC matrix.
    pub fn outer_dims(&self) -> (r: usize)
        ensures
            r == self@.outer_dims(),
    {
        match self.storage {
            CompressedStorage::CSR => self.nrows,
            CompressedStorage::CSC => self.ncols,
        }
    }

    /// Number of inner dimensions: `cols()` for a CSR matrix, `rows()` for a
    /// CSC matrix.
    pub fn inner_dims(&self) -> (r: usize)
        ensures
            r == self@.inner_dims(),
    {
        match self.storage {
            CompressedStorage::CSC => self.nrows,
            CompressedStorage::CSR => self.ncols,
        }
    }

    /// The array of offsets into `indices()` and `data()`: the entries of
    /// outer dimension `i` lie between `indptr[i]` and `indptr[i + 1]`.
    pub fn indptr(&self) -> (r: &[usize])
        ensures
            r@ == self@.indptr,
    {
        self.indptr.as_slice()
    }

    /// The inner index of each stored entry.
    pub fn indices(&self) -> (r: &[usize])
        ensures
            r@ == self@.indices,
    {
        self.indices.as_slice()
    }

    /// The value of each stored entry.
    pub fn data(&self) -> (r: &[N])
        ensures
            r@ == self@.data,
    {
        self.data.as_slice()
    }

    /// Tests whether the matrix is in CSC storage.
    pub fn is_csc(&self) -> (r: bool)
        ensures
            r == (self@.storage == CompressedStorage::CSC),
    {
        self.storage == CompressedStorage::CSC
    }

    /// Tests whether the matrix is in CSR storage.
    pub fn is_csr(&self) -> (r: bool)
        ensures
            r == (self@.storage == CompressedStorage::CSR),
    {
        self.storage == CompressedStorage::CSR
    }

    /// Checks the structure of the three arrays:
    /// * `indptr` has `outer_dims() + 1` entries, is sorted, starts at zero
    ///   and ends at the number of stored entries;
    /// * `indices` and `data` have the same length, the declared count;
    /// * the indices of each outer slice are strictly increasing and
    ///   smaller than `inner_dims()`.
    #[verifier::loop_isolation(false)]
    pub fn check_compressed_structure(&self) -> (r: Result<(), SprsError>)
        ensures
            r == match self@.structure_error() {
                Some(e) => Err::<(), SprsError>(e),
                None => Ok(()),
            },
            r.is_ok() <==> self@.valid(),
    {
        proof {
            lemma_structure_error_none(self@);
        }
        let outer = self.outer_dims();
        let inner = self.inner_dims();
        let indptr = self.indptr.as_slice();
        let indices = self.indices.as_slice();
        let indptr_len = indptr.len();
        if outer == usize::MAX || indptr_len != outer + 1 {
            return Err(SprsError::BadIndptrLength);
        }
        if indices.len() != self.data.as_slice().len() {
            return Err(SprsError::DataIndicesMismatch);
        }
        let nnz = indices.len();
        if nnz != self.nnz {
            return Err(SprsError::BadNnzCount);
        }
        let mut max_indptr: usize = indptr[0];
        let mut k: usize = 1;
        while k < indptr.len()
            invariant
                1 <= k <= indptr@.len(),
                forall|j: int| 0 <= j < k ==> indptr@[j] <= max_indptr,
                exists|j: int| 0 <= j < k && indptr@[j] == max_indptr,
            decreases indptr@.len() - k,
        {
            if indptr[k] > max_indptr {
                max_indptr = indptr[k];
            }
            k += 1;
        }
        if max_indptr > nnz {
            return Err(SprsError::OutOfBoundsIndptr);
        }
        let mut k: usize = 1;
        while k < indptr.len()
            invariant
                1 <= k <= indptr@.len(),
                forall|a: int, b: int| 0 <= a <= b < k ==> indptr@[a] <= indptr@[b],
            decreases indptr@.len() - k,
        {
            if indptr[k - 1] > indptr[k] {
                return Err(SprsError::UnsortedIndptr);
            }
            assert forall|a: int, b: int| 0 <= a <= b < k + 1 implies indptr@[a] <= indptr@[b] by {
                if b == k && a < k {
                    assert(indptr@[a] <= indptr@[k - 1]);
                }
            }
            k += 1;
        }
        if indptr[0] != 0 || indptr[outer] != nnz {
            return Err(SprsError::BadNnzCount);
        }
        let mut o: usize = 0;
        while o < outer
            invariant
                0 <= o <= outer,
                outer == self@.outer_dims(),
                inner == self@.inner_dims(),
                indptr@ == self@.indptr,
                indices@ == self@.indices,
                indptr@.len() == outer + 1,
                self@.offsets_sorted(),
                indptr@[outer as int] == indices@.len(),
                self@.slices_error(o as int).is_none(),
            decreases outer - o,
        {
            assert(indptr@[o as int] <= indptr@[o + 1]);
            assert(indptr@[o + 1] <= indptr@[outer as int]);
            match check_slice_structure(indices, indptr[o], indptr[o + 1], inner) {
                Err(e) => {
                    proof {
                        assert(self@.slices_error(o + 1) == Some(e));
                        lemma_slices_error_stays(self@, o + 1, outer as int);
                    }
                    return Err(e);
                },
                Ok(()) => {},
            }
            o += 1;
        }
        Ok(())
    }
}

impl<N, IptrStorage, IndStorage, DataStorage> CsMat<N, IptrStorage, IndStorage, DataStorage> where
    N: Copy,
    IptrStorage: Storage<usize>,
    IndStorage: Storage<usize>,
    DataStorage: Storage<N>,
 {
    /// Returns a view into the current matrix.
    pub fn borrowed(&self) -> (v: CsMatView<'_, N>)
        ensures
            v@ == self@,
    {
        CsMat {
            storage: self.storage,
            nrows: self.nrows,
            ncols: self.ncols,
            nnz: self.nnz,
            indptr: self.indptr.as_slice(),
            indices: self.indices.as_slice(),
            data: self.data.as_slice(),
            marker: core::marker::PhantomData,
        }
    }

    /// Gets an owned version of this matrix. If the matrix was already
    /// owned, this makes a deep copy.
    pub fn to_owned(&self) -> (m: CsMatOwned<N>)
        ensures
            m@ == self@,
    {
        CsMat {
            storage: self.storage,
            nrows: self.nrows,
            ncols: self.ncols,
            nnz: self.nnz,
            indptr: slice_to_vec(self.indptr.as_slice()),
            indices: slice_to_vec(self.indices.as_slice()),
            data: slice_to_vec(self.data.as_slice()),
            marker: core::marker::PhantomData,
        }
    }

    /// Transposes a matrix in place. No array is touched: the storage order
    /// changes, and rows and columns exchange their counts.
    pub fn transpose_mut(&mut self)
        ensures
            final(self)@ == old(self)@.transposed(),
    {
        let nrows = self.nrows;
        self.nrows = self.ncols;
        self.ncols = nrows;
        self.storage = self.storage.other_storage();
    }

    /// Transposes a matrix, keeping its arrays.
    pub fn transpose_into(self) -> (m: Self)
        ensures
            m@ == self@.transposed(),
    {
        let mut m = self;
        m.transpose_mut();
        m
    }

    /// Transposed view of this matrix. No array is copied.
    pub fn transpose_view(&self) -> (v: CsMatView<'_, N>)
        ensures
            v@ == self@.transposed(),
    {
        CsMat {
            storage: self.storage.other_storage(),
            nrows: self.ncols,
            ncols: self.nrows,
            nnz: self.nnz,
            indptr: self.indptr.as_slice(),
            indices: self.indices.as_slice(),
            data: self.data.as_slice(),
            marker: core::marker::PhantomData,
        }
    }

    /// Gets a view into the `i`-th outer dimension (the `i`-th row of a CSR
    /// matrix), or `None` where the matrix has no such dimension.
    pub fn outer_view(&self, i: usize) -> (r: Option<CsVecView<'_, N>>)
        requires
            self@.wf(),
        ensures
            r.is_some() <==> i < self@.outer_dims(),
            r matches Some(v) ==> v@ == self@.outer_slice(i as int) && v@.wf(),
    {
        if i >= self.outer_dims() {
            return None;
        }
        proof {
            lemma_slice_bounds(self@, i as int);
            lemma_outer_slice(self@, i as int);
        }
        let indptr = self.indptr.as_slice();
        let start = indptr[i];
        let stop = indptr[i + 1];
        let indices = slice_subrange(self.indices.as_slice(), start, stop);
        let data = slice_subrange(self.data.as_slice(), start, stop);
        Some(CsVec::new_raw(self.inner_dims(), indices, data))
    }

    /// Accesses an element given its outer and inner index. Returns `None`
    /// where nothing is stored at this location.
    ///
    /// This access takes time logarithmic in the number of entries of the
    /// outer slice, so algorithms should rather walk the slices in storage
    /// order.
    pub fn at_outer_inner(&self, outer_inner: &(usize, usize)) -> (r: Option<N>)
        requires
            self@.wf(),
        ensures
            r == if outer_inner.0 < self@.outer_dims() {
                self@.entry(outer_inner.0 as int, outer_inner.1 as int)
            } else {
                None
            },
    {
        let outer_ind = outer_inner.0;
        let inner_ind = outer_inner.1;
        if outer_ind >= self.outer_dims() {
            return None;
        }
        proof {
            lemma_slice_bounds(self@, outer_ind as int);
        }
        let indptr = self.indptr.as_slice();
        search_slice(
            self.indices.as_slice(),
            self.data.as_slice(),
            indptr[outer_ind],
            indptr[outer_ind + 1],
            inner_ind,
        )
    }

    /// Accesses the element located at row `i` and column `j`. Returns
    /// `None` where nothing is stored at this location.
    ///
    /// This access takes time logarithmic in the number of entries of the
    /// outer slice, so algorithms should rather walk the slices in storage
    /// order.
    pub fn at(&self, ij: &(usize, usize)) -> (r: Option<N>)
        requires
            self@.wf(),
            ij.0 < self@.nrows,
            ij.1 < self@.ncols,
        ensures
            r == self@.at(ij.0 as int, ij.1 as int),
    {
        match self.storage {
            CompressedStorage::CSR => self.at_outer_inner(&(ij.0, ij.1)),
            CompressedStorage::CSC => self.at_outer_inner(&(ij.1, ij.0)),
        }
    }
}

impl<'a, N: Copy> CsMat<N, &'a [usize], &'a [usize], &'a [N]> {
    /// Creates a borrowed matrix over slices, after checking their
    /// structure.
    pub fn new_borrowed(
        storage: CompressedStorage,
        nrows: usize,
        ncols: usize,
        indptr: &'a [usize],
        indices: &'a [usize],
        data: &'a [N],
    ) -> (r: Result<CsMatView<'a, N>, SprsError>)
        ensures
            match r {
                Ok(m) => m@ == candidate(storage, nrows, ncols, indptr@, indices@, data@)
                    && m@.valid(),
                Err(e) => candidate(
                    storage,
                    nrows,
                    ncols,
                    indptr@,
                    indices@,
                    data@,
                ).structure_error() == Some(e),
            },
            r.is_ok() <==> candidate(storage, nrows, ncols, indptr@, indices@, data@).valid(),
    {
        let m = CsMat {
            storage,
            nrows,
            ncols,
            nnz: data.len(),
            indptr,
            indices,
            data,
            marker: core::marker::PhantomData,
        };
        match m.check_compressed_structure() {
            Ok(()) => Ok(m),
            Err(e) => Err(e),
        }
    }

    /// Creates a borrowed matrix over slices whose structure the caller has
    /// already established. The slices of the matrix are those that the
    /// offsets delimit; `indices` and `data` may extend beyond them.
    pub fn new_raw(
        storage: CompressedStorage,
        nrows: usize,
        ncols: usize,
        indptr: &'a [usize],
        indices: &'a [usize],
        data: &'a [N],
    ) -> (m: CsMatView<'a, N>)
        requires
            window(storage, nrows, ncols, indptr@, indices@, data@).wf(),
        ensures
            m@ == window(storage, nrows, ncols, indptr@, indices@, data@),
    {
        let outer = match storage {
            CompressedStorage::CSR => nrows,
            CompressedStorage::CSC => ncols,
        };
        assert(indptr@[0] <= indptr@[outer as int]);
        CsMat {
            storage,
            nrows,
            ncols,
            nnz: indptr[outer] - indptr[0],
            indptr,
            indices,
            data,
            marker: core::marker::PhantomData,
        }
    }

    /// Gets a view into `count` contiguous outer dimensions, starting from
    /// `i`: the rows `i..i + count` of a CSR matrix. The view shares the
    /// indices and the values of the matrix.
    pub fn middle_outer_views(&self, i: usize, count: usize) -> (r: Result<
        CsMatView<'a, N>,
        SprsError,
    >)
        requires
            self@.wf(),
        ensures
            match r {
                Ok(v) => {
                    &&& self@.block_error(i as int, count as int).is_none()
                    &&& v@ == self@.middle(i as int, count as int)
                    &&& v@.wf()
                },
                Err(e) => self@.block_error(i as int, count as int) == Some(e),
            },
    {
        if count == 0 {
            return Err(SprsError::EmptyBlock);
        }
        let outer = self.outer_dims();
        if i >= outer || count > outer - i {
            return Err(SprsError::OutOfBoundsIndex);
        }
        let iend = i + count;
        let (nrows, ncols) = match self.storage {
            CompressedStorage::CSR => (count, self.ncols),
            CompressedStorage::CSC => (self.nrows, count),
        };
        let all_offsets = self.indptr.len();
        assert(iend + 1 <= all_offsets);
        let indptr = slice_subrange(self.indptr, i, iend + 1);
        proof {
            lemma_middle(self@, i as int, count as int);
            assert(self@.indptr[i as int] <= self@.indptr[iend as int]);
            assert(window(self.storage, nrows, ncols, indptr@, self.indices@, self.data@)
                == self@.middle(i as int, count as int));
        }
        Ok(CsMat::new_raw(self.storage, nrows, ncols, indptr, self.indices, self.data))
    }
}

impl<'a, N: Copy> CsMat<N, Vec<usize>, &'a [usize], &'a [N]> {
    /// Creates a matrix that owns its offsets and borrows indices and values
    /// whose structure the caller has already established.
    pub fn new_vecview_raw(
        storage: CompressedStorage,
        nrows: usize,
        ncols: usize,
        indptr: Vec<usize>,
        indices: &'a [usize],
        data: &'a [N],
    ) -> (m: CsMatVecView<'a, N>)
        requires
            window(storage, nrows, ncols, indptr@, indices@, data@).wf(),
        ensures
            m@ == window(storage, nrows, ncols, indptr@, indices@, data@),
    {
        let outer = match storage {
            CompressedStorage::CSR => nrows,
            CompressedStorage::CSC => ncols,
        };
        assert(indptr@[0] <= indptr@[outer as int]);
        CsMat {
            storage,
            nrows,
            ncols,
            nnz: indptr[outer] - indptr[0],
            indptr,
            indices,
            data,
            marker: core::marker::PhantomData,
        }
    }
}

impl<N: Copy> CsMat<N, Vec<usize>, Vec<usize>, Vec<N>> {
    /// Creates an empty matrix for building purposes: no outer dimension
    /// yet, and `inner_size` inner dimensions.
    pub fn empty(storage: CompressedStorage, inner_size: usize) -> (m: CsMatOwned<N>)
        ensures
            m@.valid(),
            m@.storage == storage,
            m@.outer_dims() == 0,
            m@.inner_dims() == inner_size,
            m@.nnz == 0,
            m@.indptr == seq![0usize],
    {
        let (nrows, ncols) = match storage {
            CompressedStorage::CSR => (0, inner_size),
            CompressedStorage::CSC => (inner_size, 0),
        };
        let mut indptr: Vec<usize> = Vec::new();
        indptr.push(0);
        assert(indptr@ =~= seq![0usize]);
        CsMat {
            storage,
            nrows,
            ncols,
            nnz: 0,
            indptr,
            indices: Vec::new(),
            data: Vec::new(),
            marker: core::marker::PhantomData,
        }
    }

    /// Creates the zero matrix of the given shape, in CSR storage. It has no
    /// stored entry.
    pub fn zero(rows: usize, cols: usize) -> (m: CsMatOwned<N>)
        requires
            rows < usize::MAX,
        ensures
            m@.valid(),
            m@.storage == CompressedStorage::CSR,
            m@.nrows == rows,
            m@.ncols == cols,
            m@.nnz == 0,
            forall|r: int, c: int| 0 <= r < rows ==> m@.at(r, c).is_none(),
    {
        let indptr: Vec<usize> = vec![0usize; rows + 1];
        let m = CsMat {
            storage: CompressedStorage::CSR,
            nrows: rows,
            ncols: cols,
            nnz: 0,
            indptr,
            indices: Vec::new(),
            data: Vec::new(),
            marker: core::marker::PhantomData,
        };
        proof {
            assert forall|r: int, c: int| 0 <= r < rows implies m@.at(r, c).is_none() by {
                crate::vec::lemma_lookup_absent(m@.indices, m@.data, m@.start(r), m@.end(r), c);
            }
        }
        m
    }

    /// Reserves room for the given number of additional outer dimensions.
    /// Only the room behind the offsets grows: the matrix holds what it
    /// held.
    pub fn reserve_outer_dim(&mut self, outer_dim_additional: usize)
        requires
            can_reserve::<usize>(old(self)@.indptr.len(), outer_dim_additional),
        ensures
            final(self)@ == old(self)@,
    {
        self.indptr.reserve(outer_dim_additional);
    }

    /// Reserves room for the given number of additional stored entries.
    /// Only the room behind the indices and the values grows: the matrix
    /// holds what it held.
    pub fn reserve_nnz(&mut self, nnz_additional: usize)
        requires
            can_reserve::<usize>(old(self)@.indices.len(), nnz_additional),
            can_reserve::<N>(old(self)@.data.len(), nnz_additional),
        ensures
            final(self)@ == old(self)@,
    {
        self.indices.reserve(nnz_additional);
        self.data.reserve(nnz_additional);
    }

    /// Reserves room for exactly `outer_dim_lim` outer dimensions more.
    /// Only the room behind the offsets grows: the matrix holds what it
    /// held.
    pub fn reserve_outer_dim_exact(&mut self, outer_dim_lim: usize)
        requires
            outer_dim_lim < usize::MAX,
            can_reserve::<usize>(old(self)@.indptr.len(), (outer_dim_lim + 1) as usize),
        ensures
            final(self)@ == old(self)@,
    {
        vec_reserve_exact(&mut self.indptr, outer_dim_lim + 1);
    }

    /// Reserves room for exactly `nnz_lim` stored entries more. Only the
    /// room behind the indices and the values grows: the matrix holds what
    /// it held.
    pub fn reserve_nnz_exact(&mut self, nnz_lim: usize)
        requires
            can_reserve::<usize>(old(self)@.indices.len(), nnz_lim),
            can_reserve::<N>(old(self)@.data.len(), nnz_lim),
        ensures
            final(self)@ == old(self)@,
    {
        vec_reserve_exact(&mut self.indices, nnz_lim);
        vec_reserve_exact(&mut self.data, nnz_lim);
    }

    /// Creates an owned matrix from complete arrays, after checking their
    /// structure.
    pub fn new_owned(
        storage: CompressedStorage,
        nrows: usize,
        ncols: usize,
        indptr: Vec<usize>,
        indices: Vec<usize>,
        data: Vec<N>,
    ) -> (r: Result<CsMatOwned<N>, SprsError>)
        ensures
            match r {
                Ok(m) => m@ == candidate(storage, nrows, ncols, indptr@, indices@, data@)
                    && m@.valid(),
                Err(e) => candidate(
                    storage,
                    nrows,
                    ncols,
                    indptr@,
                    indices@,
                    data@,
                ).structure_error() == Some(e),
            },
            r.is_ok() <==> candidate(storage, nrows, ncols, indptr@, indices@, data@).valid(),
    {
        let m = CsMat {
            storage,
            nrows,
            ncols,
            nnz: data.len(),
            indptr,
            indices,
            data,
            marker: core::marker::PhantomData,
        };
        match m.check_compressed_structure() {
            Ok(()) => Ok(m),
            Err(e) => Err(e),
        }
    }
}

impl<N, IptrStorage, IndStorage, DataStorage> CsMat<N, IptrStorage, IndStorage, DataStorage> where
    N: Copy,
    IptrStorage: Storage<usize>,
    IndStorage: Storage<usize>,
    DataStorage: Storage<N>,
 {
    /// Creates a matrix mathematically equal to this one, but with the
    /// opposed storage: a CSC matrix is converted to CSR, and vice versa.
    /// The result owns freshly made arrays.
    pub fn to_other_storage(&self) -> (m: CsMatOwned<N>)
        requires
            self@.wf(),
            self@.inner_dims() < usize::MAX,
        ensures
            m@.valid(),
            m@.storage == self@.storage.other(),
            m@.nnz == self@.nnz,
            m@.same_entries(self@),
    {
        let outer = self.outer_dims();
        let src_indptr = self.indptr.as_slice();
        assert(src_indptr@[0] <= src_indptr@[outer as int]);
        let first = src_indptr[0];
        let last = src_indptr[outer];
        let mut indptr: Vec<usize> = vec![0usize; self.inner_dims() + 1];
        let mut indices = slice_to_vec(slice_subrange(self.indices.as_slice(), first, last));
        let mut data = slice_to_vec(slice_subrange(self.data.as_slice(), first, last));
        convert_mat_storage(
            self.borrowed(),
            indptr.as_mut_slice(),
            indices.as_mut_slice(),
            data.as_mut_slice(),
        );
        CsMat {
            storage: self.storage.other_storage(),
            nrows: self.nrows,
            ncols: self.ncols,
            nnz: self.nnz,
            indptr,
            indices,
            data,
            marker: core::marker::PhantomData,
        }
    }

    /// Creates a new CSC matrix equivalent to this one. A new matrix is
    /// created even if this matrix was already CSC.
    pub fn to_csc(&self) -> (m: CsMatOwned<N>)
        requires
            self@.wf(),
            self@.storage == CompressedStorage::CSR ==> self@.inner_dims() < usize::MAX,
        ensures
            m@.storage == CompressedStorage::CSC,
            m@.wf(),
            m@.nnz == self@.nnz,
            m@.same_entries(self@),
            self@.storage == CompressedStorage::CSC ==> m@ == self@,
            self@.storage == CompressedStorage::CSR ==> m@.valid(),
    {
        match self.storage {
            CompressedStorage::CSR => self.to_other_storage(),
            CompressedStorage::CSC => self.to_owned(),
        }
    }

    /// Creates a new CSR matrix equivalent to this one. A new matrix is
    /// created even if this matrix was already CSR.
    pub fn to_csr(&self) -> (m: CsMatOwned<N>)
        requires
            self@.wf(),
            self@.storage == CompressedStorage::CSC ==> self@.inner_dims() < usize::MAX,
        ensures
            m@.storage == CompressedStorage::CSR,
            m@.wf(),
            m@.nnz == self@.nnz,
            m@.same_entries(self@),
            self@.storage == CompressedStorage::CSR ==> m@ == self@,
            self@.storage == CompressedStorage::CSC ==> m@.valid(),
    {
        match self.storage {
            CompressedStorage::CSR => self.to_owned(),
            CompressedStorage::CSC => self.to_other_storage(),
        }
    }
}

/// An error found among the first slices is the error of the whole matrix.
proof fn lemma_slices_error_stays<N>(m: CsMatModel<N>, found: int, upto: int)
    requires
        0 <= found <= upto,
        m.slices_error(found).is_some(),
    ensures
        m.slices_error(upto) == m.slices_error(found),
    decreases upto - found,
{
    if found < upto {
        lemma_slices_error_stays(m, found, upto - 1);
    }
}

} // verus!
