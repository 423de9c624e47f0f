//! Walking a matrix along its outer dimension: slice by slice, in permuted
//! order, or block by block.

use vstd::prelude::*;
use vstd::slice::slice_subrange;
use crate::csmat::CsMat;
use crate::csmat::CsMatView;
use crate::errors::SprsError;
use crate::model::lemma_middle;
use crate::model::lemma_outer_slice;
use crate::model::lemma_slice_bounds;
use crate::model::CompressedStorage;
use crate::model::CsMatModel;
use crate::permutation::PermModel;
use crate::permutation::PermView;
use crate::storage::Storage;
use crate::vec::CsVec;
use crate::vec::CsVecView;

verus! {

/// The state of an iteration over outer slices: the matrix, and the range
/// of outer indices still to come.
pub struct OuterIterModel<N> {
    /// The matrix that is walked.
    pub mat: CsMatModel<N>,
    /// The next outer index from the front.
    pub front: int,
    /// The outer index behind the next one from the back.
    pub back: int,
}

impl<N> OuterIterModel<N> {
    /// The matrix is well-formed and the range lies inside its outer
    /// dimension.
    pub open spec fn wf(self) -> bool {
        self.mat.wf() && 0 <= self.front <= self.back <= self.mat.outer_dims()
    }
}

/// Iterator on the outer dimension of a matrix. Yields each outer index
/// with the sparse vector of its slice, from the front or from the back.
pub struct OuterIterator<'iter, N> {
    mat: CsMatView<'iter, N>,
    front: usize,
    back: usize,
}

impl<'iter, N> View for OuterIterator<'iter, N> {
    type V = OuterIterModel<N>;

    closed spec fn view(&self) -> OuterIterModel<N> {
        OuterIterModel { mat: self.mat@, front: self.front as int, back: self.back as int }
    }
}

impl<'iter, N: Copy> OuterIterator<'iter, N> {
    /// The sparse vector of outer slice `o`, over the arrays of the matrix.
    fn slice_at(&self, o: usize) -> (v: CsVecView<'iter, N>)
        requires
            self@.mat.wf(),
            o < self@.mat.outer_dims(),
        ensures
            v@ == self@.mat.outer_slice(o as int),
            v@.wf(),
    {
        proof {
            lemma_slice_bounds(self.mat@, o as int);
            lemma_outer_slice(self.mat@, o as int);
        }
        let start = self.mat.indptr[o];
        let stop = self.mat.indptr[o + 1];
        let indices = slice_subrange(self.mat.indices, start, stop);
        let data = slice_subrange(self.mat.data, start, stop);
        CsVec::new_raw(self.mat.inner_dims(), indices, data)
    }

    /// Yields the first outer slice still to come, with its outer index.
    pub fn next(&mut self) -> (r: Option<(usize, CsVecView<'iter, N>)>)
        requires
            old(self)@.wf(),
        ensures
            final(self)@.wf(),
            final(self)@.mat == old(self)@.mat,
            final(self)@.back == old(self)@.back,
            r.is_some() <==> old(self)@.front < old(self)@.back,
            r matches Some(item) ==> {
                &&& item.0 == old(self)@.front
                &&& item.1@ == old(self)@.mat.outer_slice(item.0 as int)
                &&& item.1@.wf()
                &&& final(self)@.front == old(self)@.front + 1
            },
            r.is_none() ==> final(self)@.front == old(self)@.front,
    {
        if self.front >= self.back {
            return None;
        }
        let outer_ind = self.front;
        let vec = self.slice_at(outer_ind);
        self.front = self.front + 1;
        Some((outer_ind, vec))
    }

    /// Yields the last outer slice still to come, with its outer index.
    /// Only the outer order is reversed: the vector yielded has its indices
    /// in increasing order.
    pub fn next_back(&mut self) -> (r: Option<(usize, CsVecView<'iter, N>)>)
        requires
            old(self)@.wf(),
        ensures
            final(self)@.wf(),
            final(self)@.mat == old(self)@.mat,
            final(self)@.front == old(self)@.front,
            r.is_some() <==> old(self)@.front < old(self)@.back,
            r matches Some(item) ==> {
                &&& item.0 == old(self)@.back - 1
                &&& item.1@ == old(self)@.mat.outer_slice(item.0 as int)
                &&& item.1@.wf()
                &&& final(self)@.back == old(self)@.back - 1
            },
            r.is_none() ==> final(self)@.back == old(self)@.back,
    {
        if self.front >= self.back {
            return None;
        }
        self.back = self.back - 1;
        let outer_ind = self.back;
        let vec = self.slice_at(outer_ind);
        Some((outer_ind, vec))
    }

    /// The number of outer slices still to come.
    pub fn len(&self) -> (r: usize)
        requires
            self@.wf(),
        ensures
            r == self@.back - self@.front,
    {
        self.back - self.front
    }

    /// The bounds on the number of outer slices still to come: both are
    /// `len()`.
    pub fn size_hint(&self) -> (r: (usize, Option<usize>))
        requires
            self@.wf(),
        ensures
            r.0 == self@.back - self@.front,
            r.1 == Some(r.0),
    {
        let n = self.back - self.front;
        (n, Some(n))
    }
}

/// The state of a permuted iteration over outer slices.
pub struct OuterIterPermModel<N> {
    /// The matrix that is walked.
    pub mat: CsMatModel<N>,
    /// The permutation applied to the outer indices.
    pub perm: PermModel,
    /// The next outer index, before permutation.
    pub next: int,
}

impl<N> OuterIterPermModel<N> {
    /// The matrix is well-formed, the permutation is one of its outer
    /// dimension, and the cursor lies inside it.
    pub open spec fn wf(self) -> bool {
        &&& self.mat.wf()
        &&& self.perm.wf()
        &&& self.perm.covers(self.mat.outer_dims())
        &&& 0 <= self.next <= self.mat.outer_dims()
    }
}

/// Iterator on the outer dimension of a matrix, permuted: yields the outer
/// slices in the order that the permutation gives them.
pub struct OuterIteratorPerm<'iter, 'perm, N> {
    mat: CsMatView<'iter, N>,
    next_ind: usize,
    perm: PermView<'perm>,
}

impl<'iter, 'perm, N> View for OuterIteratorPerm<'iter, 'perm, N> {
    type V = OuterIterPermModel<N>;

    closed spec fn view(&self) -> OuterIterPermModel<N> {
        OuterIterPermModel { mat: self.mat@, perm: self.perm@, next: self.next_ind as int }
    }
}

impl<'iter, 'perm, N: Copy> OuterIteratorPerm<'iter, 'perm, N> {
    /// Yields the image under the permutation of the next outer index, with
    /// the sparse vector of the outer slice at that image.
    pub fn next(&mut self) -> (r: Option<(usize, CsVecView<'iter, N>)>)
        requires
            old(self)@.wf(),
        ensures
            final(self)@.wf(),
            final(self)@.mat == old(self)@.mat,
            final(self)@.perm == old(self)@.perm,
            r.is_some() <==> old(self)@.next < old(self)@.mat.outer_dims(),
            r matches Some(item) ==> {
                &&& item.0 == old(self)@.perm.apply(old(self)@.next)
                &&& item.0 < old(self)@.mat.outer_dims()
                &&& item.1@ == old(self)@.mat.outer_slice(item.0 as int)
                &&& item.1@.wf()
                &&& final(self)@.next == old(self)@.next + 1
            },
            r.is_none() ==> final(self)@.next == old(self)@.next,
    {
        let outer = self.mat.outer_dims();
        if self.next_ind >= outer {
            return None;
        }
        let outer_ind = self.next_ind;
        let outer_ind_perm = self.perm.at(outer_ind);
        proof {
            lemma_slice_bounds(self.mat@, outer_ind_perm as int);
            lemma_outer_slice(self.mat@, outer_ind_perm as int);
        }
        let start = self.mat.indptr[outer_ind_perm];
        let stop = self.mat.indptr[outer_ind_perm + 1];
        let indices = slice_subrange(self.mat.indices, start, stop);
        let data = slice_subrange(self.mat.data, start, stop);
        let vec = CsVec::new_raw(self.mat.inner_dims(), indices, data);
        self.next_ind = self.next_ind + 1;
        Some((outer_ind_perm, vec))
    }

    /// The bounds on the number of outer slices still to come.
    pub fn size_hint(&self) -> (r: (usize, Option<usize>))
        requires
            self@.wf(),
        ensures
            r.0 == self@.mat.outer_dims() - self@.next,
            r.1 == Some(r.0),
    {
        let n = self.mat.outer_dims() - self.next_ind;
        (n, Some(n))
    }
}

/// The state of an iteration over blocks of outer slices.
pub struct ChunkModel<N> {
    /// The matrix that is cut into blocks.
    pub mat: CsMatModel<N>,
    /// The number of outer slices in a block.
    pub block_size: int,
    /// The outer index at which the next block starts.
    pub next: int,
}

impl<N> ChunkModel<N> {
    /// The matrix is well-formed, a block holds at least one outer slice,
    /// and the next block starts inside the matrix or at its end.
    pub open spec fn wf(self) -> bool {
        self.mat.wf() && 0 <= self.next <= self.mat.outer_dims() && 0 < self.block_size
    }

    /// No block is left: the matrix is exhausted.
    pub open spec fn done(self) -> bool {
        self.next >= self.mat.outer_dims()
    }

    /// The number of outer slices of the next block: the block size, or
    /// what is left of the matrix if that is less.
    pub open spec fn next_count(self) -> int {
        if self.next + self.block_size > self.mat.outer_dims() {
            self.mat.outer_dims() - self.next
        } else {
            self.block_size
        }
    }
}

/// An iterator over non-overlapping blocks of a matrix, along the
/// least-varying dimension.
pub struct ChunkOuterBlocks<'a, N> {
    mat: CsMatView<'a, N>,
    dims_in_bloc: usize,
    next_dim: usize,
}

impl<'a, N> View for ChunkOuterBlocks<'a, N> {
    type V = ChunkModel<N>;

    closed spec fn view(&self) -> ChunkModel<N> {
        ChunkModel {
            mat: self.mat@,
            block_size: self.dims_in_bloc as int,
            next: self.next_dim as int,
        }
    }
}

impl<'a, N: Copy> ChunkOuterBlocks<'a, N> {
    /// Yields the next block: a view of the next `block_size` outer slices,
    /// or of those that are left if they are fewer. The view shares the
    /// indices and values of the matrix.
    pub fn next(&mut self) -> (r: Option<CsMatView<'a, N>>)
        requires
            old(self)@.wf(),
        ensures
            final(self)@.wf(),
            final(self)@.mat == old(self)@.mat,
            final(self)@.block_size == old(self)@.block_size,
            r.is_none() <==> old(self)@.done(),
            r.is_none() ==> final(self)@.next == old(self)@.next,
            r matches Some(v) ==> {
                &&& v@ == old(self)@.mat.middle(old(self)@.next, old(self)@.next_count())
                &&& v@.wf()
                &&& v@.outer_dims() == old(self)@.next_count()
                &&& final(self)@.next == old(self)@.next + old(self)@.next_count()
            },
    {
        let outer = self.mat.outer_dims();
        let cur_dim = self.next_dim;
        if cur_dim >= outer {
            return None;
        }
        let count = if self.dims_in_bloc > outer - cur_dim {
            outer - cur_dim
        } else {
            self.dims_in_bloc
        };
        proof {
            lemma_middle(self.mat@, cur_dim as int, count as int);
        }
        let view = self.mat.middle_outer_views(cur_dim, count).unwrap();
        self.next_dim = cur_dim + count;
        Some(view)
    }
}

impl<N, IptrStorage, IndStorage, DataStorage> CsMat<N, IptrStorage, IndStorage, DataStorage> where
    N: Copy,
    IptrStorage: Storage<usize>,
    IndStorage: Storage<usize>,
    DataStorage: Storage<N>,
 {
    /// Returns an outer iterator for the matrix: over the rows of a CSR
    /// matrix, over the columns of a CSC matrix.
    pub fn outer_iterator(&self) -> (it: OuterIterator<'_, N>)
        requires
            self@.wf(),
        ensures
            it@.wf(),
            it@.mat == self@,
            it@.front == 0,
            it@.back == self@.outer_dims(),
    {
        OuterIterator { mat: self.borrowed(), front: 0, back: self.outer_dims() }
    }

    /// Returns an outer iterator over the matrix with its outer slices
    /// permuted: for a CSR matrix by `perm`, for a CSC matrix by the inverse
    /// of `perm`.
    pub fn outer_iterator_perm<'a, 'perm>(&'a self, perm: PermView<'perm>) -> (it:
        OuterIteratorPerm<'a, 'perm, N>)
        requires
            self@.wf(),
            perm@.wf(),
            perm@.covers(self@.outer_dims()),
        ensures
            it@.wf(),
            it@.mat == self@,
            it@.next == 0,
            it@.perm == match self@.storage {
                CompressedStorage::CSR => perm@,
                CompressedStorage::CSC => perm@.inverse(),
            },
    {
        let oriented_perm = match self.storage {
            CompressedStorage::CSR => perm.reborrow(),
            CompressedStorage::CSC => perm.reborrow_inv(),
        };
        OuterIteratorPerm { mat: self.borrowed(), next_ind: 0, perm: oriented_perm }
    }

    /// Iteration on outer blocks of size `block_size`. Fails with
    /// `EmptyBlock` for a block size of zero, and for no other.
    pub fn outer_block_iter(&self, block_size: usize) -> (r: Result<
        ChunkOuterBlocks<'_, N>,
        SprsError,
    >)
        requires
            self@.wf(),
        ensures
            r is Err <==> block_size == 0,
            r matches Err(e) ==> e == SprsError::EmptyBlock,
            r matches Ok(it) ==> {
                &&& it@.wf()
                &&& it@.mat == self@
                &&& it@.block_size == block_size
                &&& it@.next == 0
            },
    {
        if block_size == 0 {
            return Err(SprsError::EmptyBlock);
        }
        Ok(ChunkOuterBlocks { mat: self.borrowed(), dims_in_bloc: block_size, next_dim: 0 })
    }
}

} // verus!
