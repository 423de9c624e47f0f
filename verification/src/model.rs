//! The mathematical content of a compressed sparse matrix.
//!
//! Every contract of the crate is stated over `CsMatModel`: the three arrays
//! as sequences, the structural invariant that makes them a matrix, and the
//! entry that they assign to each position.

use vstd::prelude::*;
use crate::errors::SprsError;
use crate::vec::all_below;
use crate::vec::CsVecModel;
use crate::vec::lookup;
use crate::vec::slice_structure_error;
use crate::vec::stored_at;
use crate::vec::strictly_increasing;

verus! {

/// Describes the storage order of a compressed matrix.
#[derive(Clone, Copy, PartialEq, Eq, Debug, Structural)]
pub enum CompressedStorage {
    /// Compressed row storage: the outer dimension is the rows.
    CSR,
    /// Compressed column storage: the outer dimension is the columns.
    CSC,
}

impl CompressedStorage {
    /// The other storage order.
    pub open spec fn other(self) -> CompressedStorage {
        match self {
            CompressedStorage::CSR => CompressedStorage::CSC,
            CompressedStorage::CSC => CompressedStorage::CSR,
        }
    }

    /// Gets the other storage order: CSC for CSR, and CSR for CSC.
    pub fn other_storage(&self) -> (r: CompressedStorage)
        ensures
            r == self.other(),
    {
        match *self {
            CompressedStorage::CSR => CompressedStorage::CSC,
            CompressedStorage::CSC => CompressedStorage::CSR,
        }
    }
}

/// What a compressed matrix holds.
pub struct CsMatModel<N> {
    /// The storage order.
    pub storage: CompressedStorage,
    /// The number of rows.
    pub nrows: usize,
    /// The number of columns.
    pub ncols: usize,
    /// The number of stored entries.
    pub nnz: usize,
    /// The offsets: outer slice `o` occupies the positions
    /// `indptr[o]..indptr[o + 1]` of the two other arrays.
    pub indptr: Seq<usize>,
    /// The inner index of each stored entry.
    pub indices: Seq<usize>,
    /// The value of each stored entry.
    pub data: Seq<N>,
}

impl<N> CsMatModel<N> {
    /// The number of outer slices: rows for CSR, columns for CSC.
    pub open spec fn outer_dims(self) -> int {
        match self.storage {
            CompressedStorage::CSR => self.nrows as int,
            CompressedStorage::CSC => self.ncols as int,
        }
    }

    /// The length of an outer slice: columns for CSR, rows for CSC.
    pub open spec fn inner_dims(self) -> int {
        match self.storage {
            CompressedStorage::CSR => self.ncols as int,
            CompressedStorage::CSC => self.nrows as int,
        }
    }

    /// The offsets never decrease.
    pub open spec fn offsets_sorted(self) -> bool {
        forall|a: int, b: int| 0 <= a <= b < self.indptr.len() ==> self.indptr[a] <= self.indptr[b]
    }

    /// The first position of outer slice `o`.
    pub open spec fn start(self, o: int) -> int {
        self.indptr[o] as int
    }

    /// The position behind the last one of outer slice `o`.
    pub open spec fn end(self, o: int) -> int {
        self.indptr[o + 1] as int
    }

    /// Outer slice `o` has strictly increasing inner indices, all of them
    /// inside the inner dimension.
    pub open spec fn slice_ok(self, o: int) -> bool {
        &&& strictly_increasing(self.indices, self.start(o), self.end(o))
        &&& all_below(self.indices, self.start(o), self.end(o), self.inner_dims())
    }

    /// The structural invariant of a matrix or of a view into one: the
    /// offsets delimit, inside the shared arrays, one sorted slice for each
    /// outer index.
    pub open spec fn wf(self) -> bool {
        &&& self.indptr.len() == self.outer_dims() + 1
        &&& self.indices.len() == self.data.len()
        &&& self.offsets_sorted()
        &&& self.indptr[self.outer_dims()] <= self.indices.len()
        &&& self.nnz == self.indptr[self.outer_dims()] - self.indptr[0]
        &&& forall|o: int| 0 <= o < self.outer_dims() ==> #[trigger] self.slice_ok(o)
    }

    /// The slices fill the two arrays from their first position to their last.
    pub open spec fn canonical(self) -> bool {
        &&& self.indptr[0] == 0
        &&& self.nnz == self.indices.len()
    }

    /// The invariant of a matrix built from complete arrays.
    pub open spec fn valid(self) -> bool {
        self.wf() && self.canonical()
    }

    /// The value stored at inner index `i` of outer slice `o`, if any.
    pub open spec fn entry(self, o: int, i: int) -> Option<N> {
        lookup(self.indices, self.data, self.start(o), self.end(o), i)
    }

    /// The value stored at row `r` and column `c`, if any.
    pub open spec fn at(self, r: int, c: int) -> Option<N> {
        match self.storage {
            CompressedStorage::CSR => self.entry(r, c),
            CompressedStorage::CSC => self.entry(c, r),
        }
    }

    /// This matrix is `before` with one outer slice appended: one outer
    /// dimension more, one offset more, which is the new count, and the
    /// indices and values of `before` in front of those of the new slice.
    pub open spec fn appended_to(self, before: CsMatModel<N>) -> bool {
        &&& self.storage == before.storage
        &&& self.inner_dims() == before.inner_dims()
        &&& self.outer_dims() == before.outer_dims() + 1
        &&& before.nnz <= self.nnz
        &&& self.indptr == before.indptr.push(self.nnz)
        &&& self.indices.len() == self.nnz
        &&& self.data.len() == self.nnz
        &&& self.indices.subrange(0, before.nnz as int) == before.indices
        &&& self.data.subrange(0, before.nnz as int) == before.data
    }

    /// The same arrays read in the other storage order, rows and columns
    /// exchanged: the transposed matrix.
    pub open spec fn transposed(self) -> CsMatModel<N> {
        CsMatModel {
            storage: self.storage.other(),
            nrows: self.ncols,
            ncols: self.nrows,
            nnz: self.nnz,
            indptr: self.indptr,
            indices: self.indices,
            data: self.data,
        }
    }

    /// Both matrices have the same shape and assign the same entry to every
    /// position, whatever their storage orders.
    pub open spec fn same_entries(self, other: CsMatModel<N>) -> bool {
        &&& self.nrows == other.nrows
        &&& self.ncols == other.ncols
        &&& forall|r: int, c: int|
            0 <= r < self.nrows && 0 <= c < self.ncols ==> #[trigger] self.at(r, c) == other.at(
                r,
                c,
            )
    }

    /// Position `q` of the arrays belongs to outer slice `o`.
    pub open spec fn in_slice(self, o: int, q: int) -> bool {
        0 <= o < self.outer_dims() && self.start(o) <= q < self.end(o)
    }

    /// Outer slice `o` as a sparse vector of its own.
    pub open spec fn outer_slice(self, o: int) -> CsVecModel<N> {
        CsVecModel {
            dim: self.inner_dims() as usize,
            indices: self.indices.subrange(self.start(o), self.end(o)),
            data: self.data.subrange(self.start(o), self.end(o)),
        }
    }

    /// The `count` outer slices that start at outer index `first`, as a
    /// matrix over the same indices and values.
    pub open spec fn middle(self, first: int, count: int) -> CsMatModel<N> {
        CsMatModel {
            storage: self.storage,
            nrows: match self.storage {
                CompressedStorage::CSR => count as usize,
                CompressedStorage::CSC => self.nrows,
            },
            ncols: match self.storage {
                CompressedStorage::CSR => self.ncols,
                CompressedStorage::CSC => count as usize,
            },
            nnz: (self.indptr[first + count] - self.indptr[first]) as usize,
            indptr: self.indptr.subrange(first, first + count + 1),
            indices: self.indices,
            data: self.data,
        }
    }

    /// Why the block of `count` outer slices that starts at outer index
    /// `first` cannot be had, if it cannot: it is empty, or it leaves the
    /// matrix.
    pub open spec fn block_error(self, first: int, count: int) -> Option<SprsError> {
        if count == 0 {
            Some(SprsError::EmptyBlock)
        } else if first + count > self.outer_dims() {
            Some(SprsError::OutOfBoundsIndex)
        } else {
            None
        }
    }

    /// The error of the first of the outer slices `0..upto` that breaks a
    /// rule, if one does.
    pub open spec fn slices_error(self, upto: int) -> Option<SprsError>
        decreases upto,
    {
        if upto <= 0 {
            None
        } else {
            match self.slices_error(upto - 1) {
                Some(e) => Some(e),
                None => slice_structure_error(
                    self.indices,
                    self.start(upto - 1),
                    self.end(upto - 1),
                    self.inner_dims(),
                ),
            }
        }
    }

    /// The structural rule that candidate arrays break first, if any. The
    /// rules are tried in this order: length of the offsets, lengths of
    /// indices and data, declared count, offsets within the arrays, offsets
    /// sorted, offsets covering every entry, and then each outer slice in
    /// turn.
    pub open spec fn structure_error(self) -> Option<SprsError> {
        if self.indptr.len() != self.outer_dims() + 1 {
            Some(SprsError::BadIndptrLength)
        } else if self.indices.len() != self.data.len() {
            Some(SprsError::DataIndicesMismatch)
        } else if self.nnz != self.indices.len() {
            Some(SprsError::BadNnzCount)
        } else if exists|k: int| 0 <= k < self.indptr.len() && self.indptr[k] > self.nnz {
            Some(SprsError::OutOfBoundsIndptr)
        } else if !self.offsets_sorted() {
            Some(SprsError::UnsortedIndptr)
        } else if self.indptr[0] != 0 || self.indptr[self.outer_dims()] != self.nnz {
            Some(SprsError::BadNnzCount)
        } else {
            self.slices_error(self.outer_dims())
        }
    }
}

/// No slice among the first `upto` breaks a rule exactly when each of them
/// is sorted and inside the inner dimension.
pub proof fn lemma_slices_error_none<N>(m: CsMatModel<N>, upto: int)
    requires
        0 <= upto,
    ensures
        m.slices_error(upto).is_none() <==> (forall|o: int|
            0 <= o < upto ==> #[trigger] m.slice_ok(o)),
    decreases upto,
{
    if upto > 0 {
        lemma_slices_error_none(m, upto - 1);
        if m.slices_error(upto).is_none() {
            assert forall|o: int| 0 <= o < upto implies #[trigger] m.slice_ok(o) by {
                if o == upto - 1 {
                    assert(slice_structure_error(
                        m.indices,
                        m.start(o),
                        m.end(o),
                        m.inner_dims(),
                    ).is_none());
                }
            }
        } else {
            if m.slices_error(upto - 1).is_none() {
                assert(!m.slice_ok(upto - 1));
            }
        }
    }
}

/// Candidate arrays break no rule exactly when they form a valid matrix.
pub proof fn lemma_structure_error_none<N>(m: CsMatModel<N>)
    requires
        0 <= m.outer_dims(),
    ensures
        m.structure_error().is_none() <==> m.valid(),
{
    lemma_slices_error_none(m, m.outer_dims());
    if m.valid() {
        assert forall|k: int| 0 <= k < m.indptr.len() implies m.indptr[k] <= m.nnz by {
            assert(m.indptr[k] <= m.indptr[m.outer_dims()]);
        }
    }
}

/// In a well-formed matrix a position of a slice decides the entry of its
/// inner index.
pub proof fn lemma_entry_found<N>(m: CsMatModel<N>, o: int, k: int)
    requires
        m.wf(),
        0 <= o < m.outer_dims(),
        m.start(o) <= k < m.end(o),
    ensures
        m.entry(o, m.indices[k] as int) == Some(m.data[k]),
        0 <= k < m.indices.len(),
        m.indices[k] < m.inner_dims(),
{
    assert(m.slice_ok(o));
    assert(m.indptr[o + 1] <= m.indptr[m.outer_dims()]);
    assert(stored_at(m.indices, m.start(o), m.end(o), m.indices[k] as int, k));
    crate::vec::lemma_lookup_found(m.indices, m.data, m.start(o), m.end(o), m.indices[k] as int, k);
}

/// In a well-formed matrix every stored entry sits at a position of its
/// slice, under an inner index inside the inner dimension.
pub proof fn lemma_entry_some<N>(m: CsMatModel<N>, o: int, i: int) -> (k: int)
    requires
        m.wf(),
        0 <= o < m.outer_dims(),
        m.entry(o, i).is_some(),
    ensures
        m.start(o) <= k < m.end(o),
        0 <= k < m.indices.len(),
        m.indices[k] == i,
        m.entry(o, i) == Some(m.data[k]),
        0 <= i < m.inner_dims(),
{
    let k = crate::vec::lemma_lookup_some(m.indices, m.data, m.start(o), m.end(o), i);
    lemma_entry_found(m, o, k);
    k
}

/// An outer slice of a well-formed matrix is a well-formed sparse vector
/// that holds the entries of the slice.
pub proof fn lemma_outer_slice<N>(m: CsMatModel<N>, o: int)
    requires
        m.wf(),
        0 <= o < m.outer_dims(),
    ensures
        m.outer_slice(o).wf(),
        forall|i: int| m.outer_slice(o).get(i) == m.entry(o, i),
{
    lemma_slice_bounds(m, o);
    let v = m.outer_slice(o);
    let lo = m.start(o);
    let hi = m.end(o);
    assert forall|i: int| v.get(i) == m.entry(o, i) by {
        crate::vec::lemma_lookup_subrange(m.indices, m.data, lo, hi, i);
    }
    crate::vec::lemma_lookup_subrange(m.indices, m.data, lo, hi, 0);
    assert forall|k: int| 0 <= k < v.indices.len() implies v.indices[k] < v.dim by {
        assert(m.indices[k + lo] < m.inner_dims());
    }
}

/// A run of outer slices of a well-formed matrix is a well-formed matrix
/// with the entries of those slices.
pub proof fn lemma_middle<N>(m: CsMatModel<N>, first: int, count: int)
    requires
        m.wf(),
        0 <= first,
        0 < count,
        first + count <= m.outer_dims(),
    ensures
        m.middle(first, count).wf(),
        m.middle(first, count).outer_dims() == count,
        m.middle(first, count).inner_dims() == m.inner_dims(),
        forall|o: int, i: int|
            0 <= o < count ==> #[trigger] m.middle(first, count).entry(o, i) == m.entry(
                first + o,
                i,
            ),
{
    let v = m.middle(first, count);
    assert forall|a: int, b: int| 0 <= a <= b < v.indptr.len() implies v.indptr[a]
        <= v.indptr[b] by {
        assert(m.indptr[first + a] <= m.indptr[first + b]);
    }
    assert(m.indptr[first + count] <= m.indptr[m.outer_dims()]);
    assert(m.indptr[first] <= m.indptr[first + count]);
    assert forall|o: int| 0 <= o < v.outer_dims() implies #[trigger] v.slice_ok(o) by {
        assert(m.slice_ok(first + o));
    }
}

/// The bounds of a slice of a well-formed matrix lie inside the arrays.
pub proof fn lemma_slice_bounds<N>(m: CsMatModel<N>, o: int)
    requires
        m.wf(),
        0 <= o < m.outer_dims(),
    ensures
        m.indptr[0] <= m.start(o) <= m.end(o) <= m.indptr[m.outer_dims()],
        m.end(o) <= m.indices.len(),
        m.end(o) <= m.data.len(),
        m.slice_ok(o),
{
    assert(m.indptr[0] <= m.indptr[o]);
    assert(m.indptr[o] <= m.indptr[o + 1]);
    assert(m.indptr[o + 1] <= m.indptr[m.outer_dims()]);
}

/// Each position between the first offset and the last lies in one outer
/// slice.
pub proof fn lemma_position_slice<N>(m: CsMatModel<N>, q: int) -> (o: int)
    requires
        m.wf(),
        m.indptr[0] <= q < m.indptr[m.outer_dims()],
    ensures
        0 <= o < m.outer_dims(),
        m.start(o) <= q < m.end(o),
        0 <= q < m.indices.len(),
        m.indices[q] < m.inner_dims(),
{
    let o = find_slice(m, q, 0);
    lemma_entry_found(m, o, q);
    o
}

proof fn find_slice<N>(m: CsMatModel<N>, q: int, from: int) -> (o: int)
    requires
        m.wf(),
        0 <= from < m.outer_dims(),
        m.indptr[from] <= q < m.indptr[m.outer_dims()],
    ensures
        0 <= o < m.outer_dims(),
        m.start(o) <= q < m.end(o),
    decreases m.outer_dims() - from,
{
    if q < m.indptr[from + 1] {
        from
    } else {
        find_slice(m, q, from + 1)
    }
}

/// Positions further back lie in the same outer slice or in a later one.
pub proof fn lemma_slices_in_order<N>(m: CsMatModel<N>, o1: int, q1: int, o2: int, q2: int)
    requires
        m.wf(),
        0 <= o1 < m.outer_dims(),
        0 <= o2 < m.outer_dims(),
        m.start(o1) <= q1 < m.end(o1),
        m.start(o2) <= q2 < m.end(o2),
        q1 <= q2,
    ensures
        o1 <= o2,
        q1 == q2 ==> o1 == o2,
{
    if o2 < o1 {
        assert(m.indptr[o2 + 1] <= m.indptr[o1]);
    }
    if q1 == q2 && o1 < o2 {
        assert(m.indptr[o1 + 1] <= m.indptr[o2]);
    }
}


/// A valid matrix in which no position has an entry stores nothing.
pub proof fn lemma_no_entries_empty<N>(m: CsMatModel<N>)
    requires
        m.valid(),
        forall|o: int, i: int| 0 <= o < m.outer_dims() ==> (#[trigger] m.entry(o, i)).is_none(),
    ensures
        m.nnz == 0,
{
    if m.nnz > 0 {
        let o = lemma_position_slice(m, 0);
        lemma_entry_found(m, o, 0);
        assert(m.entry(o, m.indices[0] as int).is_some());
    }
}


/// Matrices with the same entries and storage order assign the same entry
/// to each inner index of each outer slice.
pub proof fn lemma_same_entries_by_slice<N>(a: CsMatModel<N>, b: CsMatModel<N>, o: int, i: int)
    requires
        a.storage == b.storage,
        a.same_entries(b),
        0 <= o < a.outer_dims(),
        0 <= i < a.inner_dims(),
    ensures
        a.entry(o, i) == b.entry(o, i),
{
    match a.storage {
        CompressedStorage::CSR => {
            assert(a.at(o, i) == b.at(o, i));
        },
        CompressedStorage::CSC => {
            assert(a.at(i, o) == b.at(i, o));
        },
    }
}

/// Where two matrices with the same entries start outer slice `o` at the
/// same position, the first `t` positions of that slice in `a` are also
/// positions of it in `b`, with the same indices and values.
proof fn lemma_slice_prefix<N>(a: CsMatModel<N>, b: CsMatModel<N>, o: int, t: int)
    requires
        a.wf(),
        b.wf(),
        a.storage == b.storage,
        a.same_entries(b),
        0 <= o < a.outer_dims(),
        a.start(o) == b.start(o),
        0 <= t <= a.end(o) - a.start(o),
    ensures
        t <= b.end(o) - b.start(o),
        forall|k: int| a.start(o) <= k < a.start(o) + t ==> #[trigger] a.indices[k] == b.indices[k],
        forall|k: int| a.start(o) <= k < a.start(o) + t ==> #[trigger] a.data[k] == b.data[k],
    decreases t,
{
    if t > 0 {
        lemma_slice_prefix(a, b, o, t - 1);
        let s = a.start(o);
        let p = s + t - 1;
        lemma_slice_bounds(a, o);
        lemma_slice_bounds(b, o);
        assert(a.outer_dims() == b.outer_dims());
        assert(a.inner_dims() == b.inner_dims());
        // the entry at position p of a is an entry of b, not before p
        let i = a.indices[p] as int;
        lemma_entry_found(a, o, p);
        lemma_same_entries_by_slice(a, b, o, i);
        let kb = lemma_entry_some(b, o, i);
        if kb < p {
            assert(a.indices[kb] == b.indices[kb]);
            assert(a.indices[kb] < a.indices[p]);
        }
        assert(a.data[p] == b.data[kb]);
        // the entry at position p of b is an entry of a, not before p
        let j = b.indices[p] as int;
        lemma_entry_found(b, o, p);
        lemma_same_entries_by_slice(a, b, o, j);
        let ka = lemma_entry_some(a, o, j);
        if ka < p {
            assert(a.indices[ka] == b.indices[ka]);
            assert(b.indices[ka] < b.indices[p]);
        }
        if p < kb {
            assert(b.indices[p] < b.indices[kb]);
        }
        if p < ka {
            assert(a.indices[p] < a.indices[ka]);
        }
        assert(i == j);
        assert(kb == p);
        assert(a.indices[p] == b.indices[p]);
        assert(a.data[p] == b.data[p]);
        assert forall|k: int| s <= k < s + t implies #[trigger] a.indices[k] == b.indices[k] by {}
        assert forall|k: int| s <= k < s + t implies #[trigger] a.data[k] == b.data[k] by {}
    }
}

/// Two well-formed matrices with the same entries and the same first
/// offset agree on their offsets up to `o` and on every position before
/// offset `o`.
proof fn lemma_slices_agree<N>(a: CsMatModel<N>, b: CsMatModel<N>, o: int)
    requires
        a.wf(),
        b.wf(),
        a.storage == b.storage,
        a.same_entries(b),
        a.indptr[0] == b.indptr[0],
        0 <= o <= a.outer_dims(),
    ensures
        forall|p: int| 0 <= p <= o ==> a.indptr[p] == b.indptr[p],
        forall|k: int| a.indptr[0] <= k < a.indptr[o] ==> #[trigger] a.indices[k] == b.indices[k],
        forall|k: int| a.indptr[0] <= k < a.indptr[o] ==> #[trigger] a.data[k] == b.data[k],
    decreases o,
{
    if o > 0 {
        lemma_slices_agree(a, b, o - 1);
        let p = o - 1;
        lemma_slice_bounds(a, p);
        lemma_slice_bounds(b, p);
        let s = a.start(p);
        assert(a.start(p) == b.start(p));
        lemma_slice_prefix(a, b, p, a.end(p) - s);
        assert(b.same_entries(a)) by {
            assert forall|r: int, c: int| 0 <= r < b.nrows && 0 <= c < b.ncols implies #[trigger] b.at(
                r,
                c,
            ) == a.at(r, c) by {
                assert(a.at(r, c) == b.at(r, c));
            }
        }
        lemma_slice_prefix(b, a, p, b.end(p) - s);
        assert(a.end(p) == b.end(p));
        assert forall|k: int| a.indptr[0] <= k < a.indptr[o] implies #[trigger] a.indices[k]
            == b.indices[k] by {}
        assert forall|k: int| a.indptr[0] <= k < a.indptr[o] implies #[trigger] a.data[k]
            == b.data[k] by {}
    }
}

/// A valid matrix is determined by its storage order, its shape and its
/// entries: no two valid arrays stand for the same matrix.
pub proof fn lemma_valid_unique<N>(a: CsMatModel<N>, b: CsMatModel<N>)
    requires
        a.valid(),
        b.valid(),
        a.storage == b.storage,
        a.same_entries(b),
    ensures
        a == b,
{
    lemma_slices_agree(a, b, a.outer_dims());
    assert(a.indptr =~= b.indptr);
    assert(a.indices =~= b.indices);
    assert(a.data =~= b.data);
}

/// Round trip: converting a matrix to the other storage order and back
/// gives a matrix of the same shape, storage order and entries; and for a
/// valid matrix it gives back the very same arrays.
pub proof fn lemma_round_trip<N>(a: CsMatModel<N>, there: CsMatModel<N>, back: CsMatModel<N>)
    requires
        a.wf(),
        there.valid(),
        there.storage == a.storage.other(),
        there.same_entries(a),
        back.valid(),
        back.storage == there.storage.other(),
        back.same_entries(there),
    ensures
        back.storage == a.storage,
        back.same_entries(a),
        a.valid() ==> back == a,
{
    assert forall|r: int, c: int| 0 <= r < back.nrows && 0 <= c < back.ncols implies #[trigger] back.at(
        r,
        c,
    ) == a.at(r, c) by {
        assert(back.at(r, c) == there.at(r, c));
        assert(there.at(r, c) == a.at(r, c));
    }
    if a.valid() {
        lemma_valid_unique(back, a);
    }
}

/// Appending leaves the blocks of a matrix alone: a block taken from the
/// grown matrix has the offsets, the count, the shape, the stored indices
/// and values, and so the entries, of the same block taken before the
/// append. An owned copy of the earlier block therefore still says what the
/// matrix holds there.
pub proof fn lemma_block_survives_append<N>(
    before: CsMatModel<N>,
    after: CsMatModel<N>,
    first: int,
    count: int,
)
    requires
        before.valid(),
        after.appended_to(before),
        0 <= first,
        0 < count,
        first + count <= before.outer_dims(),
    ensures
        after.middle(first, count).storage == before.middle(first, count).storage,
        after.middle(first, count).nrows == before.middle(first, count).nrows,
        after.middle(first, count).ncols == before.middle(first, count).ncols,
        after.middle(first, count).nnz == before.middle(first, count).nnz,
        after.middle(first, count).indptr == before.middle(first, count).indptr,
        forall|k: int|
            before.indptr[first] <= k < before.indptr[first + count] ==> #[trigger] after.indices[k]
                == before.indices[k],
        forall|k: int|
            before.indptr[first] <= k < before.indptr[first + count] ==> #[trigger] after.data[k]
                == before.data[k],
        forall|o: int, i: int|
            0 <= o < count ==> #[trigger] after.middle(first, count).entry(o, i) == before.middle(
                first,
                count,
            ).entry(o, i),
{
    let a = after.middle(first, count);
    let b = before.middle(first, count);
    assert(a.indptr =~= b.indptr);
    assert(before.indptr[first + count] <= before.indptr[before.outer_dims()]);
    assert forall|k: int| 0 <= k < before.nnz implies #[trigger] after.indices[k]
        == before.indices[k] && after.data[k] == before.data[k] by {
        assert(after.indices.subrange(0, before.nnz as int)[k] == after.indices[k]);
        assert(after.data.subrange(0, before.nnz as int)[k] == after.data[k]);
    }
    lemma_middle(before, first, count);
    assert forall|o: int, i: int| 0 <= o < count implies #[trigger] a.entry(o, i) == b.entry(
        o,
        i,
    ) by {
        lemma_slice_bounds(before, first + o);
        assert(before.indptr[first + o + 1] <= before.indptr[before.outer_dims()]);
        crate::vec::lemma_lookup_agree(
            before.indices,
            before.data,
            after.indices,
            after.data,
            before.start(first + o),
            before.end(first + o),
            i,
        );
    }
}

} // verus!
