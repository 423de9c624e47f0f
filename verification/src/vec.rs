//! Sparse vectors: a sorted list of indices with the values stored at them.
//!
//! A sparse vector is the content of one outer slice of a compressed matrix,
//! and the unit on which the elementwise algorithms work.

use vstd::prelude::*;
use vstd::slice::slice_to_vec;
use crate::errors::SprsError;
use crate::storage::Storage;
use crate::storage::can_reserve;
use crate::storage::vec_reserve_exact;

verus! {

/// The indices at positions `lo..hi` of `s` are strictly increasing.
pub open spec fn strictly_increasing(s: Seq<usize>, lo: int, hi: int) -> bool {
    forall|a: int, b: int| lo <= a < b < hi ==> s[a] < s[b]
}

/// The indices at positions `lo..hi` of `s` are all smaller than `bound`.
pub open spec fn all_below(s: Seq<usize>, lo: int, hi: int, bound: int) -> bool {
    forall|k: int| lo <= k < hi ==> s[k] < bound
}

/// Position `k` lies in `lo..hi` and holds the index `i`.
pub open spec fn stored_at(ind: Seq<usize>, lo: int, hi: int, i: int, k: int) -> bool {
    lo <= k < hi && ind[k] == i
}

/// The value stored for index `i` among the positions `lo..hi`, if any.
pub open spec fn lookup<N>(ind: Seq<usize>, data: Seq<N>, lo: int, hi: int, i: int) -> Option<N> {
    if exists|k: int| stored_at(ind, lo, hi, i, k) {
        Some(data[choose|k: int| stored_at(ind, lo, hi, i, k)])
    } else {
        None
    }
}

/// With strictly increasing indices a position is determined by its index.
pub proof fn lemma_lookup_found<N>(
    ind: Seq<usize>,
    data: Seq<N>,
    lo: int,
    hi: int,
    i: int,
    k: int,
)
    requires
        strictly_increasing(ind, lo, hi),
        stored_at(ind, lo, hi, i, k),
    ensures
        lookup(ind, data, lo, hi, i) == Some(data[k]),
{
    let c = choose|c: int| stored_at(ind, lo, hi, i, c);
    assert(stored_at(ind, lo, hi, i, c));
    if c < k {
        assert(ind[c] < ind[k]);
    } else if k < c {
        assert(ind[k] < ind[c]);
    }
}

/// An index that no position holds has no value.
pub proof fn lemma_lookup_absent<N>(ind: Seq<usize>, data: Seq<N>, lo: int, hi: int, i: int)
    requires
        forall|k: int| lo <= k < hi ==> ind[k] != i,
    ensures
        lookup(ind, data, lo, hi, i).is_none(),
{
    assert forall|k: int| !stored_at(ind, lo, hi, i, k) by {}
}

/// A lookup that succeeds names a position that holds the index.
pub proof fn lemma_lookup_some<N>(ind: Seq<usize>, data: Seq<N>, lo: int, hi: int, i: int) -> (k:
    int)
    requires
        lookup(ind, data, lo, hi, i).is_some(),
    ensures
        stored_at(ind, lo, hi, i, k),
        lookup(ind, data, lo, hi, i) == Some(data[k]),
{
    choose|k: int| stored_at(ind, lo, hi, i, k)
}

/// Looking up in a window of the arrays is looking up in the copied window.
pub proof fn lemma_lookup_subrange<N>(
    ind: Seq<usize>,
    data: Seq<N>,
    lo: int,
    hi: int,
    i: int,
)
    requires
        0 <= lo <= hi <= ind.len(),
        hi <= data.len(),
        strictly_increasing(ind, lo, hi),
    ensures
        lookup(ind.subrange(lo, hi), data.subrange(lo, hi), 0, hi - lo, i) == lookup(
            ind,
            data,
            lo,
            hi,
            i,
        ),
        strictly_increasing(ind.subrange(lo, hi), 0, hi - lo),
{
    let si = ind.subrange(lo, hi);
    let sd = data.subrange(lo, hi);
    assert(strictly_increasing(si, 0, hi - lo)) by {
        assert forall|a: int, b: int| 0 <= a < b < hi - lo implies si[a] < si[b] by {
            assert(ind[a + lo] < ind[b + lo]);
        }
    }
    if exists|k: int| stored_at(ind, lo, hi, i, k) {
        let k = choose|k: int| stored_at(ind, lo, hi, i, k);
        assert(stored_at(si, 0, hi - lo, i, k - lo));
        lemma_lookup_found(si, sd, 0, hi - lo, i, k - lo);
        lemma_lookup_found(ind, data, lo, hi, i, k);
    } else {
        assert forall|k: int| 0 <= k < hi - lo implies si[k] != i by {
            assert(!stored_at(ind, lo, hi, i, k + lo));
        }
        lemma_lookup_absent(si, sd, 0, hi - lo, i);
    }
}

/// What a sparse vector holds: its length and its stored entries.
pub struct CsVecModel<N> {
    /// The length of the vector, zeros included.
    pub dim: usize,
    /// The indices of the stored entries.
    pub indices: Seq<usize>,
    /// The values of the stored entries, parallel to `indices`.
    pub data: Seq<N>,
}

impl<N> CsVecModel<N> {
    /// The structural invariant: parallel arrays, indices strictly
    /// increasing and inside the vector.
    pub open spec fn wf(self) -> bool {
        &&& self.indices.len() == self.data.len()
        &&& strictly_increasing(self.indices, 0, self.indices.len() as int)
        &&& all_below(self.indices, 0, self.indices.len() as int, self.dim as int)
    }

    /// The value stored at index `i`, if any.
    pub open spec fn get(self, i: int) -> Option<N> {
        lookup(self.indices, self.data, 0, self.indices.len() as int, i)
    }
}

/// A sparse vector over index storage `IStorage` and value storage `DStorage`.
#[derive(PartialEq, Debug)]
pub struct CsVec<N, IStorage, DStorage> where IStorage: Storage<usize>, DStorage: Storage<N> {
    dim: usize,
    indices: IStorage,
    data: DStorage,
    marker: core::marker::PhantomData<N>,
}


/// A sparse vector that owns its arrays.
pub type CsVecOwned<N> = CsVec<N, Vec<usize>, Vec<N>>;

/// A sparse vector that borrows its arrays.
pub type CsVecView<'a, N> = CsVec<N, &'a [usize], &'a [N]>;

impl<N, IStorage, DStorage> View for CsVec<N, IStorage, DStorage> where
    IStorage: Storage<usize>,
    DStorage: Storage<N>,
 {
    type V = CsVecModel<N>;

    closed spec fn view(&self) -> CsVecModel<N> {
        CsVecModel { dim: self.dim, indices: self.indices.elems(), data: self.data.elems() }
    }
}

/// Which structural rule a candidate sparse vector breaks first, if any.
pub open spec fn vec_structure_error<N>(m: CsVecModel<N>) -> Option<SprsError> {
    if m.indices.len() != m.data.len() {
        Some(SprsError::DataIndicesMismatch)
    } else if !strictly_increasing(m.indices, 0, m.indices.len() as int) {
        Some(SprsError::NonSortedIndices)
    } else if !all_below(m.indices, 0, m.indices.len() as int, m.dim as int) {
        Some(SprsError::OutOfBoundsIndex)
    } else {
        None
    }
}

/// Which rule the positions `lo..hi` of an index array break first, if any:
/// they must be strictly increasing and stay below `dim`.
pub open spec fn slice_structure_error(ind: Seq<usize>, lo: int, hi: int, dim: int) -> Option<
    SprsError,
> {
    if !strictly_increasing(ind, lo, hi) {
        Some(SprsError::NonSortedIndices)
    } else if !all_below(ind, lo, hi, dim) {
        Some(SprsError::OutOfBoundsIndex)
    } else {
        None
    }
}

/// Checks that the positions `lo..hi` of `indices` are strictly increasing
/// and smaller than `dim`.
pub fn check_slice_structure(indices: &[usize], lo: usize, hi: usize, dim: usize) -> (r: Result<
    (),
    SprsError,
>)
    requires
        lo <= hi <= indices@.len(),
    ensures
        r == match slice_structure_error(indices@, lo as int, hi as int, dim as int) {
            Some(e) => Err::<(), SprsError>(e),
            None => Ok(()),
        },
{
    if lo < hi {
        let mut k: usize = lo + 1;
        while k < hi
            invariant
                lo < k <= hi <= indices@.len(),
                strictly_increasing(indices@, lo as int, k as int),
            decreases hi - k,
        {
            if indices[k - 1] >= indices[k] {
                assert(!strictly_increasing(indices@, lo as int, hi as int));
                return Err(SprsError::NonSortedIndices);
            }
            assert forall|a: int, b: int| lo <= a < b < k + 1 implies indices@[a] < indices@[b] by {
                if b == k && a < k - 1 {
                    assert(indices@[a] < indices@[k - 1]);
                }
            }
            k += 1;
        }
        // the indices increase, so the last one is the largest
        if indices[hi - 1] >= dim {
            assert(!all_below(indices@, lo as int, hi as int, dim as int));
            return Err(SprsError::OutOfBoundsIndex);
        }
        assert forall|j: int| lo <= j < hi implies indices@[j] < dim by {
            if j < hi - 1 {
                assert(indices@[j] < indices@[hi - 1]);
            }
        }
    }
    Ok(())
}

/// Finds the value stored for `index` among the positions `lo..hi`, by
/// bisection on the sorted indices.
pub fn search_slice<N: Copy>(indices: &[usize], data: &[N], lo: usize, hi: usize, index: usize) -> (r:
    Option<N>)
    requires
        lo <= hi <= indices@.len(),
        hi <= data@.len(),
        strictly_increasing(indices@, lo as int, hi as int),
    ensures
        r == lookup(indices@, data@, lo as int, hi as int, index as int),
{
    let mut a: usize = lo;
    let mut b: usize = hi;
    while a < b
        invariant
            lo <= a <= b <= hi <= indices@.len(),
            hi <= data@.len(),
            strictly_increasing(indices@, lo as int, hi as int),
            forall|k: int| lo <= k < a ==> indices@[k] < index,
            forall|k: int| b <= k < hi ==> indices@[k] > index,
        decreases b - a,
    {
        let mid: usize = a + (b - a) / 2;
        let probe: usize = indices[mid];
        if probe == index {
            proof {
                assert(stored_at(indices@, lo as int, hi as int, index as int, mid as int));
                lemma_lookup_found(indices@, data@, lo as int, hi as int, index as int, mid as int);
            }
            return Some(data[mid]);
        } else if probe < index {
            assert forall|k: int| lo <= k < mid + 1 implies indices@[k] < index by {
                if k < mid {
                    assert(indices@[k] < indices@[mid as int]);
                }
            }
            a = mid + 1;
        } else {
            assert forall|k: int| mid <= k < hi implies indices@[k] > index by {
                if mid < k {
                    assert(indices@[mid as int] < indices@[k]);
                }
            }
            b = mid;
        }
    }
    proof {
        lemma_lookup_absent(indices@, data@, lo as int, hi as int, index as int);
    }
    None
}

impl<N: Copy> CsVec<N, Vec<usize>, Vec<N>> {
    /// Creates an owned sparse vector from complete arrays, after checking
    /// their structure.
    pub fn new_owned(n: usize, indices: Vec<usize>, data: Vec<N>) -> (r: Result<
        CsVecOwned<N>,
        SprsError,
    >)
        ensures
            match r {
                Ok(v) => v@ == (CsVecModel { dim: n, indices: indices@, data: data@ }) && v@.wf(),
                Err(e) => vec_structure_error(
                    CsVecModel { dim: n, indices: indices@, data: data@ },
                ) == Some(e),
            },
    {
        let v = CsVec { dim: n, indices, data, marker: core::marker::PhantomData };
        match v.check_structure() {
            Ok(()) => Ok(v),
            Err(e) => Err(e),
        }
    }

    /// Creates an owned sparse vector from arrays whose structure the caller
    /// has already established.
    pub fn new_owned_raw(n: usize, indices: Vec<usize>, data: Vec<N>) -> (v: CsVecOwned<N>)
        requires
            (CsVecModel { dim: n, indices: indices@, data: data@ }).wf(),
        ensures
            v@ == (CsVecModel { dim: n, indices: indices@, data: data@ }),
            v@.wf(),
    {
        CsVec { dim: n, indices, data, marker: core::marker::PhantomData }
    }

    /// Creates a sparse vector of length `dim` with no stored entry.
    pub fn empty(dim: usize) -> (v: CsVecOwned<N>)
        ensures
            v@.dim == dim,
            v@.indices.len() == 0,
            v@.data.len() == 0,
            v@.wf(),
    {
        CsVec { dim, indices: Vec::new(), data: Vec::new(), marker: core::marker::PhantomData }
    }

    /// Makes room for `size` more entries. Only the room behind the stored
    /// entries grows: the vector holds what it held.
    pub fn reserve(&mut self, size: usize)
        requires
            can_reserve::<usize>(old(self)@.indices.len(), size),
            can_reserve::<N>(old(self)@.data.len(), size),
        ensures
            final(self)@ == old(self)@,
    {
        self.indices.reserve(size);
        self.data.reserve(size);
    }

    /// Makes room for exactly `exact_size` more entries. Only the room
    /// behind the stored entries grows: the vector holds what it held.
    pub fn reserve_exact(&mut self, exact_size: usize)
        requires
            can_reserve::<usize>(old(self)@.indices.len(), exact_size),
            can_reserve::<N>(old(self)@.data.len(), exact_size),
        ensures
            final(self)@ == old(self)@,
    {
        vec_reserve_exact(&mut self.indices, exact_size);
        vec_reserve_exact(&mut self.data, exact_size);
    }

    /// Appends an entry behind the stored ones. The index must exceed every
    /// stored index and lie inside the vector.
    pub fn append(&mut self, ind: usize, val: N)
        requires
            old(self)@.wf(),
            ind < old(self)@.dim,
            old(self)@.indices.len() > 0 ==> old(self)@.indices.last() < ind,
        ensures
            final(self)@.wf(),
            final(self)@.dim == old(self)@.dim,
            final(self)@.indices == old(self)@.indices.push(ind),
            final(self)@.data == old(self)@.data.push(val),
    {
        proof {
            let s = self.indices@;
            let n = s.len() as int;
            assert forall|a: int, b: int| 0 <= a < b < n + 1 implies s.push(ind)[a] < s.push(
                ind,
            )[b] by {
                if b == n && a < n - 1 {
                    assert(s[a] < s[n - 1]);
                }
            }
        }
        self.indices.push(ind);
        self.data.push(val);
    }
}

impl<'a, N: Copy> CsVec<N, &'a [usize], &'a [N]> {
    /// Creates a borrowed sparse vector over complete arrays, after checking
    /// their structure.
    pub fn new_borrowed(n: usize, indices: &'a [usize], data: &'a [N]) -> (r: Result<
        CsVecView<'a, N>,
        SprsError,
    >)
        ensures
            match r {
                Ok(v) => v@ == (CsVecModel { dim: n, indices: indices@, data: data@ }) && v@.wf(),
                Err(e) => vec_structure_error(
                    CsVecModel { dim: n, indices: indices@, data: data@ },
                ) == Some(e),
            },
    {
        let v = CsVec { dim: n, indices, data, marker: core::marker::PhantomData };
        match v.check_structure() {
            Ok(()) => Ok(v),
            Err(e) => Err(e),
        }
    }

    /// Creates a borrowed sparse vector over arrays whose structure the
    /// caller has already established.
    pub fn new_raw(n: usize, indices: &'a [usize], data: &'a [N]) -> (v: CsVecView<'a, N>)
        requires
            (CsVecModel { dim: n, indices: indices@, data: data@ }).wf(),
        ensures
            v@ == (CsVecModel { dim: n, indices: indices@, data: data@ }),
            v@.wf(),
    {
        CsVec { dim: n, indices, data, marker: core::marker::PhantomData }
    }
}

impl<N: Copy, IStorage, DStorage> CsVec<N, IStorage, DStorage> where
    IStorage: Storage<usize>,
    DStorage: Storage<N>,
 {
    /// The length of the vector, zeros included.
    pub fn dim(&self) -> (r: usize)
        ensures
            r == self@.dim,
    {
        self.dim
    }

    /// The number of stored entries.
    pub fn nnz(&self) -> (r: usize)
        ensures
            r == self@.data.len(),
    {
        self.data.as_slice().len()
    }

    /// The indices of the stored entries.
    pub fn indices(&self) -> (r: &[usize])
        ensures
            r@ == self@.indices,
    {
        self.indices.as_slice()
    }

    /// The values of the stored entries.
    pub fn data(&self) -> (r: &[N])
        ensures
            r@ == self@.data,
    {
        self.data.as_slice()
    }

    /// A borrowed vector over the same arrays.
    pub fn borrowed(&self) -> (v: CsVecView<'_, N>)
        ensures
            v@ == self@,
    {
        CsVec {
            dim: self.dim,
            indices: self.indices.as_slice(),
            data: self.data.as_slice(),
            marker: core::marker::PhantomData,
        }
    }

    /// An owned copy of this vector.
    pub fn to_owned(&self) -> (v: CsVecOwned<N>)
        ensures
            v@ == self@,
    {
        CsVec {
            dim: self.dim,
            indices: slice_to_vec(self.indices.as_slice()),
            data: slice_to_vec(self.data.as_slice()),
            marker: core::marker::PhantomData,
        }
    }

    /// Checks the structure of the vector: parallel arrays, indices strictly
    /// increasing and inside the vector.
    pub fn check_structure(&self) -> (r: Result<(), SprsError>)
        ensures
            r == match vec_structure_error(self@) {
                Some(e) => Err::<(), SprsError>(e),
                None => Ok(()),
            },
            r.is_ok() <==> self@.wf(),
    {
        let indices = self.indices.as_slice();
        if indices.len() != self.data.as_slice().len() {
            return Err(SprsError::DataIndicesMismatch);
        }
        check_slice_structure(indices, 0, indices.len(), self.dim)
    }

    /// The value stored at `index`, found by bisection, or `None` where the
    /// vector holds a zero.
    pub fn at(&self, index: usize) -> (r: Option<N>)
        requires
            self@.wf(),
        ensures
            r == self@.get(index as int),
    {
        let indices = self.indices.as_slice();
        search_slice(indices, self.data.as_slice(), 0, indices.len(), index)
    }
}


/// Sorted index arrays that agree on the positions `lo..hi` give the same
/// lookups there.
pub proof fn lemma_lookup_agree<N>(
    ind1: Seq<usize>,
    data1: Seq<N>,
    ind2: Seq<usize>,
    data2: Seq<N>,
    lo: int,
    hi: int,
    i: int,
)
    requires
        strictly_increasing(ind1, lo, hi),
        forall|k: int|
            #![trigger ind1[k]]
            lo <= k < hi ==> ind1[k] == ind2[k] && data1[k] == data2[k],
    ensures
        lookup(ind1, data1, lo, hi, i) == lookup(ind2, data2, lo, hi, i),
        strictly_increasing(ind2, lo, hi),
{
    assert forall|a: int, b: int| lo <= a < b < hi implies ind2[a] < ind2[b] by {
        assert(ind1[a] < ind1[b]);
    }
    assert forall|k: int| stored_at(ind1, lo, hi, i, k) == stored_at(ind2, lo, hi, i, k) by {}
    if exists|k: int| stored_at(ind1, lo, hi, i, k) {
        let k1 = choose|k: int| stored_at(ind1, lo, hi, i, k);
        assert(stored_at(ind2, lo, hi, i, k1));
        lemma_lookup_found(ind1, data1, lo, hi, i, k1);
        lemma_lookup_found(ind2, data2, lo, hi, i, k1);
    }
}

/// One more position, under another index, changes no lookup of the
/// indices before it.
pub proof fn lemma_lookup_skip<N>(ind: Seq<usize>, data: Seq<N>, lo: int, hi: int, i: int)
    requires
        lo <= hi,
        strictly_increasing(ind, lo, hi),
        ind[hi] != i,
    ensures
        lookup(ind, data, lo, hi + 1, i) == lookup(ind, data, lo, hi, i),
{
    let hi1 = hi + 1;
    assert forall|k: int| stored_at(ind, lo, hi1, i, k) == stored_at(ind, lo, hi, i, k) by {}
    if exists|k: int| stored_at(ind, lo, hi, i, k) {
        let k1 = choose|k: int| stored_at(ind, lo, hi, i, k);
        let k2 = choose|k: int| stored_at(ind, lo, hi1, i, k);
        assert(stored_at(ind, lo, hi1, i, k1));
        assert(stored_at(ind, lo, hi, i, k2));
        lemma_lookup_found(ind, data, lo, hi, i, k2);
    }
}

/// An element of the merge of two sparse vectors: an index with the value
/// that the left vector stores there, the right one, or both.
#[derive(PartialEq, Debug)]
pub enum NnzEither<N> {
    /// Only the left vector stores a value at this index.
    Left((usize, N)),
    /// Only the right vector stores a value at this index.
    Right((usize, N)),
    /// Both vectors store a value at this index.
    Both((usize, N, N)),
}

/// The state of a merge: the two vectors and how far each has been read.
pub struct MergeModel<N> {
    /// The indices of the left vector.
    pub left_indices: Seq<usize>,
    /// The values of the left vector.
    pub left_data: Seq<N>,
    /// The indices of the right vector.
    pub right_indices: Seq<usize>,
    /// The values of the right vector.
    pub right_data: Seq<N>,
    /// The number of left entries already yielded.
    pub left_pos: int,
    /// The number of right entries already yielded.
    pub right_pos: int,
}

impl<N> MergeModel<N> {
    /// The cursors lie inside their vectors.
    pub open spec fn wf(self) -> bool {
        &&& self.left_indices.len() == self.left_data.len()
        &&& self.right_indices.len() == self.right_data.len()
        &&& 0 <= self.left_pos <= self.left_indices.len()
        &&& 0 <= self.right_pos <= self.right_indices.len()
    }

    /// The left vector has been read to its end.
    pub open spec fn left_done(self) -> bool {
        self.left_pos >= self.left_indices.len()
    }

    /// The right vector has been read to its end.
    pub open spec fn right_done(self) -> bool {
        self.right_pos >= self.right_indices.len()
    }

    /// The next entry comes from the left vector: it is the only one left,
    /// or its index is not above that of the right head.
    pub open spec fn takes_left(self) -> bool {
        !self.left_done() && (self.right_done() || self.left_indices[self.left_pos]
            <= self.right_indices[self.right_pos])
    }

    /// The next entry comes from the right vector.
    pub open spec fn takes_right(self) -> bool {
        !self.right_done() && (self.left_done() || self.right_indices[self.right_pos]
            <= self.left_indices[self.left_pos])
    }

    /// The element that the merge yields next: the head with the smaller
    /// index alone, or both heads together where their indices are equal.
    pub open spec fn head(self) -> Option<NnzEither<N>> {
        if self.takes_left() && self.takes_right() {
            Some(
                NnzEither::Both(
                    (
                        self.left_indices[self.left_pos],
                        self.left_data[self.left_pos],
                        self.right_data[self.right_pos],
                    ),
                ),
            )
        } else if self.takes_left() {
            Some(NnzEither::Left((self.left_indices[self.left_pos], self.left_data[self.left_pos])))
        } else if self.takes_right() {
            Some(
                NnzEither::Right(
                    (self.right_indices[self.right_pos], self.right_data[self.right_pos]),
                ),
            )
        } else {
            None
        }
    }

    /// The state after the next element has been yielded: each cursor whose
    /// head was taken has moved on by one.
    pub open spec fn advanced(self) -> MergeModel<N> {
        MergeModel {
            left_pos: if self.takes_left() {
                self.left_pos + 1
            } else {
                self.left_pos
            },
            right_pos: if self.takes_right() {
                self.right_pos + 1
            } else {
                self.right_pos
            },
            ..self
        }
    }
}

/// The index that an element of a merge carries.
pub open spec fn index_of<N>(e: NnzEither<N>) -> usize {
    match e {
        NnzEither::Left((ind, _)) => ind,
        NnzEither::Right((ind, _)) => ind,
        NnzEither::Both((ind, _, _)) => ind,
    }
}

/// The merge of two sorted vectors yields its elements in strictly
/// increasing index order: each element carries a smaller index than the
/// one that follows it.
pub proof fn lemma_merge_increasing<N>(m: MergeModel<N>)
    requires
        m.wf(),
        strictly_increasing(m.left_indices, 0, m.left_indices.len() as int),
        strictly_increasing(m.right_indices, 0, m.right_indices.len() as int),
        m.head().is_some(),
        m.advanced().head().is_some(),
    ensures
        index_of(m.head().unwrap()) < index_of(m.advanced().head().unwrap()),
        m.advanced().wf(),
{
    let n = m.advanced();
    if m.takes_left() && n.takes_left() {
        assert(m.left_indices[m.left_pos] < n.left_indices[n.left_pos]);
    }
    if m.takes_right() && n.takes_right() {
        assert(m.right_indices[m.right_pos] < n.right_indices[n.right_pos]);
    }
}

/// The merge of two sparse vectors over the same index domain: yields, in
/// one pass over both, the stored indices in increasing order, each tagged
/// with the side or sides that store it.
pub struct NnzOrZip<'a, N> {
    left_indices: &'a [usize],
    left_data: &'a [N],
    right_indices: &'a [usize],
    right_data: &'a [N],
    left_pos: usize,
    right_pos: usize,
}

impl<'a, N> View for NnzOrZip<'a, N> {
    type V = MergeModel<N>;

    closed spec fn view(&self) -> MergeModel<N> {
        MergeModel {
            left_indices: self.left_indices@,
            left_data: self.left_data@,
            right_indices: self.right_indices@,
            right_data: self.right_data@,
            left_pos: self.left_pos as int,
            right_pos: self.right_pos as int,
        }
    }
}

impl<'a, N: Copy> NnzOrZip<'a, N> {
    /// Advances the merge by one element, or returns `None` once both
    /// vectors have been read to their end.
    pub fn next(&mut self) -> (r: Option<NnzEither<N>>)
        requires
            old(self)@.wf(),
        ensures
            r == old(self)@.head(),
            final(self)@ == old(self)@.advanced(),
            final(self)@.wf(),
    {
        let left_done = self.left_pos >= self.left_indices.len();
        let right_done = self.right_pos >= self.right_indices.len();
        if left_done && right_done {
            None
        } else if right_done {
            let elem = NnzEither::Left(
                (self.left_indices[self.left_pos], self.left_data[self.left_pos]),
            );
            self.left_pos = self.left_pos + 1;
            Some(elem)
        } else if left_done {
            let elem = NnzEither::Right(
                (self.right_indices[self.right_pos], self.right_data[self.right_pos]),
            );
            self.right_pos = self.right_pos + 1;
            Some(elem)
        } else {
            let lind = self.left_indices[self.left_pos];
            let rind = self.right_indices[self.right_pos];
            if lind < rind {
                let elem = NnzEither::Left((lind, self.left_data[self.left_pos]));
                self.left_pos = self.left_pos + 1;
                Some(elem)
            } else if rind < lind {
                let elem = NnzEither::Right((rind, self.right_data[self.right_pos]));
                self.right_pos = self.right_pos + 1;
                Some(elem)
            } else {
                let elem = NnzEither::Both(
                    (lind, self.left_data[self.left_pos], self.right_data[self.right_pos]),
                );
                self.left_pos = self.left_pos + 1;
                self.right_pos = self.right_pos + 1;
                Some(elem)
            }
        }
    }
}

impl<N: Copy, IStorage, DStorage> CsVec<N, IStorage, DStorage> where
    IStorage: Storage<usize>,
    DStorage: Storage<N>,
 {
    /// Starts the merge of this vector, on the left, with `other`, on the
    /// right.
    pub fn nnz_or_zip<'b, IStorage2, DStorage2>(
        &'b self,
        other: &'b CsVec<N, IStorage2, DStorage2>,
    ) -> (it: NnzOrZip<'b, N>) where IStorage2: Storage<usize>, DStorage2: Storage<N>
        requires
            self@.wf(),
            other@.wf(),
        ensures
            it@.wf(),
            it@ == (MergeModel {
                left_indices: self@.indices,
                left_data: self@.data,
                right_indices: other@.indices,
                right_data: other@.data,
                left_pos: 0,
                right_pos: 0,
            }),
    {
        NnzOrZip {
            left_indices: self.indices.as_slice(),
            left_data: self.data.as_slice(),
            right_indices: other.indices.as_slice(),
            right_data: other.data.as_slice(),
            left_pos: 0,
            right_pos: 0,
        }
    }
}

} // verus!
