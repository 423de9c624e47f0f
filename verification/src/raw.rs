//! Conversion of a compressed matrix into the opposite storage order, by a
//! counting sort on the inner indices.

use vstd::prelude::*;
use crate::csmat::CsMatView;
use crate::model::lemma_entry_found;
use crate::model::lemma_entry_some;
use crate::model::lemma_position_slice;
use crate::model::lemma_slices_in_order;
use crate::model::lemma_slice_bounds;
use crate::model::CsMatModel;

verus! {

/// The number of positions in `lo..hi` that hold the index `j`.
pub open spec fn count_eq(idx: Seq<usize>, lo: int, hi: int, j: int) -> int
    decreases hi - lo,
{
    if hi <= lo {
        0
    } else {
        count_eq(idx, lo, hi - 1, j) + if idx[hi - 1] == j {
            1int
        } else {
            0int
        }
    }
}

/// The number of positions in `lo..hi` that hold an index smaller than `j`.
pub open spec fn count_below(idx: Seq<usize>, lo: int, hi: int, j: int) -> int
    decreases hi - lo,
{
    if hi <= lo {
        0
    } else {
        count_below(idx, lo, hi - 1, j) + if idx[hi - 1] < j {
            1int
        } else {
            0int
        }
    }
}

/// Where the counting sort of the positions `lo..hi` puts position `q`:
/// behind every entry with a smaller index, and behind the earlier entries
/// with the same index.
pub open spec fn dest_of(idx: Seq<usize>, lo: int, hi: int, q: int) -> int {
    count_below(idx, lo, hi, idx[q] as int) + count_eq(idx, lo, q, idx[q] as int)
}

pub proof fn lemma_count_bounds(idx: Seq<usize>, lo: int, hi: int, j: int)
    requires
        lo <= hi,
    ensures
        0 <= count_eq(idx, lo, hi, j) <= hi - lo,
        0 <= count_below(idx, lo, hi, j) <= hi - lo,
        count_eq(idx, lo, hi, j) + count_below(idx, lo, hi, j) <= hi - lo,
    decreases hi - lo,
{
    if lo < hi {
        lemma_count_bounds(idx, lo, hi - 1, j);
    }
}

/// Counting further never lowers the count, and passing an occurrence
/// raises it.
pub proof fn lemma_count_eq_grows(idx: Seq<usize>, lo: int, h1: int, h2: int, j: int)
    requires
        lo <= h1 <= h2,
    ensures
        count_eq(idx, lo, h1, j) <= count_eq(idx, lo, h2, j),
        h1 < h2 && idx[h1] == j ==> count_eq(idx, lo, h1, j) < count_eq(idx, lo, h2, j),
    decreases h2 - h1,
{
    if h1 < h2 {
        lemma_count_eq_grows(idx, lo, h1, h2 - 1, j);
    }
}

/// The entries below `j + 1` are those below `j` and those equal to `j`.
pub proof fn lemma_count_below_step(idx: Seq<usize>, lo: int, hi: int, j: int)
    ensures
        count_below(idx, lo, hi, j + 1) == count_below(idx, lo, hi, j) + count_eq(idx, lo, hi, j),
    decreases hi - lo,
{
    if lo < hi {
        lemma_count_below_step(idx, lo, hi - 1, j);
    }
}

pub proof fn lemma_count_below_grows(idx: Seq<usize>, lo: int, hi: int, j1: int, j2: int)
    requires
        j1 <= j2,
    ensures
        count_below(idx, lo, hi, j1) <= count_below(idx, lo, hi, j2),
    decreases hi - lo,
{
    if lo < hi {
        lemma_count_below_grows(idx, lo, hi - 1, j1, j2);
    }
}

pub proof fn lemma_count_below_zero(idx: Seq<usize>, lo: int, hi: int)
    ensures
        count_below(idx, lo, hi, 0) == 0,
    decreases hi - lo,
{
    if lo < hi {
        lemma_count_below_zero(idx, lo, hi - 1);
    }
}

/// Where every index is below `bound`, every position counts.
pub proof fn lemma_count_below_all(idx: Seq<usize>, lo: int, hi: int, bound: int)
    requires
        lo <= hi,
        forall|q: int| lo <= q < hi ==> idx[q] < bound,
    ensures
        count_below(idx, lo, hi, bound) == hi - lo,
        count_eq(idx, lo, hi, bound) == 0,
    decreases hi - lo,
{
    if lo < hi {
        lemma_count_below_all(idx, lo, hi - 1, bound);
    }
}

/// The occurrence number `t` of index `j` exists where `j` occurs more than
/// `t` times.
pub proof fn lemma_nth_occurrence(idx: Seq<usize>, lo: int, hi: int, j: int, t: int) -> (q: int)
    requires
        lo <= hi,
        0 <= t < count_eq(idx, lo, hi, j),
    ensures
        lo <= q < hi,
        idx[q] == j,
        count_eq(idx, lo, q, j) == t,
    decreases hi - lo,
{
    if idx[hi - 1] == j && count_eq(idx, lo, hi - 1, j) == t {
        hi - 1
    } else {
        lemma_nth_occurrence(idx, lo, hi - 1, j, t)
    }
}

/// The destination of a position lies in the bucket of its index.
pub proof fn lemma_dest_in_bucket(idx: Seq<usize>, lo: int, hi: int, q: int)
    requires
        lo <= q < hi,
    ensures
        count_below(idx, lo, hi, idx[q] as int) <= dest_of(idx, lo, hi, q) < count_below(
            idx,
            lo,
            hi,
            idx[q] + 1,
        ),
        0 <= dest_of(idx, lo, hi, q) < hi - lo,
{
    let j = idx[q] as int;
    lemma_count_bounds(idx, lo, q, j);
    lemma_count_eq_grows(idx, lo, q, hi, j);
    lemma_count_below_step(idx, lo, hi, j);
    lemma_count_bounds(idx, lo, hi, j + 1);
    lemma_count_bounds(idx, lo, hi, j);
}

/// Two positions never share a destination.
pub proof fn lemma_dest_injective(idx: Seq<usize>, lo: int, hi: int, q1: int, q2: int)
    requires
        lo <= q1 < q2 < hi,
    ensures
        dest_of(idx, lo, hi, q1) != dest_of(idx, lo, hi, q2),
{
    let j1 = idx[q1] as int;
    let j2 = idx[q2] as int;
    lemma_dest_in_bucket(idx, lo, hi, q1);
    lemma_dest_in_bucket(idx, lo, hi, q2);
    if j1 == j2 {
        lemma_count_eq_grows(idx, lo, q1, q2, j1);
    } else if j1 < j2 {
        lemma_count_below_grows(idx, lo, hi, j1 + 1, j2);
    } else {
        lemma_count_below_grows(idx, lo, hi, j2 + 1, j1);
    }
}

/// The first stored position of a matrix or view.
pub open spec fn base<N>(m: CsMatModel<N>) -> int {
    m.indptr[0] as int
}

/// The position behind the last stored one of a matrix or view.
pub open spec fn top<N>(m: CsMatModel<N>) -> int {
    m.indptr[m.outer_dims()] as int
}

/// The new offsets are the bucket starts: offset `j` counts the entries
/// whose inner index is below `j`.
pub open spec fn offsets_are_starts<N>(m: CsMatModel<N>, offsets: Seq<usize>) -> bool {
    &&& offsets.len() == m.inner_dims() + 1
    &&& forall|j: int|
        0 <= j <= m.inner_dims() ==> #[trigger] offsets[j] == count_below(
            m.indices,
            base(m),
            top(m),
            j,
        )
}

/// Every entry before position `upto` has been put at its destination, with
/// its outer index and its value.
pub open spec fn scattered<N>(
    m: CsMatModel<N>,
    upto: int,
    out_indices: Seq<usize>,
    out_data: Seq<N>,
) -> bool {
    forall|o: int, q: int| #[trigger]
        m.in_slice(o, q) && q < upto ==> {
            let d = dest_of(m.indices, base(m), top(m), q);
            out_indices[d] == o && out_data[d] == m.data[q]
        }
}

/// Position `d` of bucket `j` of the output holds the entry that the source
/// stores at position `q` of its outer slice `o`.
pub open spec fn written_from<N>(
    m: CsMatModel<N>,
    out: CsMatModel<N>,
    j: int,
    d: int,
    o: int,
    q: int,
) -> bool {
    &&& m.in_slice(o, q)
    &&& m.indices[q] == j
    &&& dest_of(m.indices, base(m), top(m), q) == d
    &&& out.indices[d] == o
    &&& out.data[d] == m.data[q]
}

/// Offsets at the bucket starts, over entries scattered to their
/// destinations, are the same matrix in the other storage order.
pub proof fn lemma_converted<N>(m: CsMatModel<N>, out: CsMatModel<N>)
    requires
        m.wf(),
        out.storage == m.storage.other(),
        out.nrows == m.nrows,
        out.ncols == m.ncols,
        out.nnz == m.nnz,
        out.indices.len() == m.nnz,
        out.data.len() == m.nnz,
        offsets_are_starts(m, out.indptr),
        scattered(m, top(m), out.indices, out.data),
    ensures
        out.valid(),
        out.same_entries(m),
{
    let idx = m.indices;
    let lo = base(m);
    let hi = top(m);
    let inner = m.inner_dims();
    assert(m.indptr[0] <= m.indptr[m.outer_dims()]);
    assert forall|q: int| lo <= q < hi implies idx[q] < inner by {
        lemma_position_slice(m, q);
    }
    lemma_count_below_all(idx, lo, hi, inner);
    lemma_count_below_zero(idx, lo, hi);
    assert(out.indptr[0] == 0);
    assert(out.indptr[inner] == m.nnz);
    assert(out.offsets_sorted()) by {
        assert forall|a: int, b: int| 0 <= a <= b < out.indptr.len() implies out.indptr[a]
            <= out.indptr[b] by {
            lemma_count_below_grows(idx, lo, hi, a, b);
        }
    }
    // every position of a bucket was written from one entry of the source
    assert forall|j: int, d: int| #[trigger] out.in_slice(j, d) implies exists|o: int, q: int|
        written_from(m, out, j, d, o, q) by {
        lemma_count_below_step(idx, lo, hi, j);
        let t = d - out.start(j);
        let q = lemma_nth_occurrence(idx, lo, hi, j, t);
        let o = lemma_position_slice(m, q);
        assert(m.in_slice(o, q));
        assert(written_from(m, out, j, d, o, q));
    }
    assert forall|j: int| 0 <= j < out.outer_dims() implies #[trigger] out.slice_ok(j) by {
        assert forall|d1: int, d2: int| out.start(j) <= d1 < d2 < out.end(j) implies out.indices[d1]
            < out.indices[d2] by {
            assert(out.in_slice(j, d1) && out.in_slice(j, d2));
            let (o1, q1) = choose|o: int, q: int| written_from(m, out, j, d1, o, q);
            let (o2, q2) = choose|o: int, q: int| written_from(m, out, j, d2, o, q);
            // the later destination belongs to the later entry
            if q2 <= q1 {
                lemma_count_eq_grows(idx, lo, q2, q1, j);
            }
            lemma_slices_in_order(m, o1, q1, o2, q2);
            if o1 == o2 {
                assert(m.slice_ok(o1));
            }
        }
        assert forall|d: int| out.start(j) <= d < out.end(j) implies out.indices[d]
            < out.inner_dims() by {
            assert(out.in_slice(j, d));
            let (o, q) = choose|o: int, q: int| written_from(m, out, j, d, o, q);
        }
    }
    assert(out.wf());
    assert forall|o: int, i: int| 0 <= o < m.outer_dims() && 0 <= i < inner implies out.entry(i, o)
        == m.entry(o, i) by {
        if m.entry(o, i).is_some() {
            let q = lemma_entry_some(m, o, i);
            assert(m.in_slice(o, q));
            lemma_slice_bounds(m, o);
            lemma_dest_in_bucket(idx, lo, hi, q);
            let d = dest_of(idx, lo, hi, q);
            lemma_entry_found(out, i, d);
        } else if out.entry(i, o).is_some() {
            let d = lemma_entry_some(out, i, o);
            assert(out.in_slice(i, d));
            let (o2, q) = choose|o2: int, q: int| written_from(m, out, i, d, o2, q);
            lemma_entry_found(m, o, q);
        }
    }
    assert forall|r: int, c: int| 0 <= r < out.nrows && 0 <= c < out.ncols implies #[trigger] out.at(
        r,
        c,
    ) == m.at(r, c) by {
        match m.storage {
            crate::model::CompressedStorage::CSR => {
                assert(out.entry(c, r) == m.entry(r, c));
            },
            crate::model::CompressedStorage::CSC => {
                assert(out.entry(r, c) == m.entry(c, r));
            },
        }
    }
}


/// The matrix that the converted arrays stand for: the shape of `m`, in the
/// other storage order.
pub open spec fn converted<N>(
    m: CsMatModel<N>,
    indptr: Seq<usize>,
    indices: Seq<usize>,
    data: Seq<N>,
) -> CsMatModel<N> {
    CsMatModel {
        storage: m.storage.other(),
        nrows: m.nrows,
        ncols: m.ncols,
        nnz: m.nnz,
        indptr,
        indices,
        data,
    }
}

/// Histogram pass: counts, for each inner index, the entries that carry it.
fn count_inner_indices<N: Copy>(mat: &CsMatView<'_, N>, counts: &mut [usize])
    requires
        mat@.wf(),
        old(counts)@.len() == mat@.inner_dims() + 1,
        forall|j: int| 0 <= j < old(counts)@.len() ==> old(counts)@[j] == 0,
    ensures
        final(counts)@.len() == old(counts)@.len(),
        forall|j: int|
            0 <= j <= mat@.inner_dims() ==> #[trigger] final(counts)@[j] == count_eq(
                mat@.indices,
                base(mat@),
                top(mat@),
                j,
            ),
{
    let outer = mat.outer_dims();
    let indptr = mat.indptr();
    let indices = mat.indices();
    let ghost idx = mat@.indices;
    let ghost lo = base(mat@);
    let mut o: usize = 0;
    while o < outer
        invariant
            mat@.wf(),
            o <= outer,
            outer == mat@.outer_dims(),
            indptr@ == mat@.indptr,
            indices@ == mat@.indices,
            idx == mat@.indices,
            lo == base(mat@),
            counts@.len() == mat@.inner_dims() + 1,
            forall|j: int|
                0 <= j < counts@.len() ==> #[trigger] counts@[j] == count_eq(
                    idx,
                    lo,
                    mat@.indptr[o as int] as int,
                    j,
                ),
        decreases outer - o,
    {
        proof {
            lemma_slice_bounds(mat@, o as int);
        }
        let stop = indptr[o + 1];
        let mut p: usize = indptr[o];
        while p < stop
            invariant
                mat@.wf(),
                o < outer,
                outer == mat@.outer_dims(),
                indptr@ == mat@.indptr,
                indices@ == mat@.indices,
                idx == mat@.indices,
                lo == base(mat@),
                lo <= mat@.indptr[o as int] <= p <= stop,
                stop == mat@.indptr[o + 1],
                stop <= indices@.len(),
                counts@.len() == mat@.inner_dims() + 1,
                forall|j: int|
                    0 <= j < counts@.len() ==> #[trigger] counts@[j] == count_eq(
                        idx,
                        lo,
                        p as int,
                        j,
                    ),
            decreases stop - p,
        {
            let j = indices[p];
            proof {
                lemma_entry_found(mat@, o as int, p as int);
                lemma_count_bounds(idx, lo, p as int, j as int);
            }
            counts[j] = counts[j] + 1;
            p += 1;
        }
        o += 1;
    }
}

/// Prefix-sum pass: turns the counts into the start of each bucket, and
/// returns the total count.
fn counts_to_offsets<N: Copy>(mat: &CsMatView<'_, N>, offsets: &mut [usize]) -> (total: usize)
    requires
        mat@.wf(),
        old(offsets)@.len() == mat@.inner_dims() + 1,
        forall|j: int|
            0 <= j <= mat@.inner_dims() ==> #[trigger] old(offsets)@[j] == count_eq(
                mat@.indices,
                base(mat@),
                top(mat@),
                j,
            ),
    ensures
        offsets_are_starts(mat@, final(offsets)@),
        total == mat@.nnz,
{
    let ghost idx = mat@.indices;
    let ghost lo = base(mat@);
    let ghost hi = top(mat@);
    proof {
        assert(mat@.indptr[0] <= mat@.indptr[mat@.outer_dims()]);
        lemma_count_below_zero(idx, lo, hi);
    }
    let n = offsets.len();
    let mut cumsum: usize = 0;
    let mut j: usize = 0;
    while j < n
        invariant
            mat@.wf(),
            idx == mat@.indices,
            lo == base(mat@),
            hi == top(mat@),
            lo <= hi,
            j <= n,
            n == offsets@.len(),
            n == mat@.inner_dims() + 1,
            cumsum == count_below(idx, lo, hi, j as int),
            forall|k: int| 0 <= k < j ==> #[trigger] offsets@[k] == count_below(idx, lo, hi, k),
            forall|k: int| j <= k < n ==> #[trigger] offsets@[k] == count_eq(idx, lo, hi, k),
        decreases n - j,
    {
        let tmp = offsets[j];
        proof {
            lemma_count_below_step(idx, lo, hi, j as int);
            lemma_count_bounds(idx, lo, hi, j + 1);
        }
        offsets[j] = cumsum;
        cumsum = cumsum + tmp;
        j += 1;
    }
    proof {
        assert forall|q: int| lo <= q < hi implies idx[q] < mat@.inner_dims() by {
            lemma_position_slice(mat@, q);
        }
        lemma_count_below_all(idx, lo, hi, mat@.inner_dims());
        lemma_count_below_step(idx, lo, hi, mat@.inner_dims());
    }
    cumsum
}

/// Scatter pass: walks the source in storage order and puts each entry, with
/// the outer index it comes from, at the running offset of its bucket.
fn scatter_entries<N: Copy>(
    mat: &CsMatView<'_, N>,
    offsets: &mut [usize],
    indices: &mut [usize],
    data: &mut [N],
)
    requires
        mat@.wf(),
        offsets_are_starts(mat@, old(offsets)@),
        old(indices)@.len() == mat@.nnz,
        old(data)@.len() == mat@.nnz,
    ensures
        final(offsets)@.len() == old(offsets)@.len(),
        final(indices)@.len() == old(indices)@.len(),
        final(data)@.len() == old(data)@.len(),
        final(offsets)@[mat@.inner_dims()] == old(offsets)@[mat@.inner_dims()],
        forall|j: int|
            0 <= j < mat@.inner_dims() ==> #[trigger] final(offsets)@[j] == count_below(
                mat@.indices,
                base(mat@),
                top(mat@),
                j + 1,
            ),
        scattered(mat@, top(mat@), final(indices)@, final(data)@),
{
    let outer = mat.outer_dims();
    let src_indptr = mat.indptr();
    let src_indices = mat.indices();
    let src_data = mat.data();
    let ghost idx = mat@.indices;
    let ghost lo = base(mat@);
    let ghost hi = top(mat@);
    let ghost inner = mat@.inner_dims();
    proof {
        assert(mat@.indptr[0] <= mat@.indptr[mat@.outer_dims()]);
    }
    let mut o: usize = 0;
    while o < outer
        invariant
            mat@.wf(),
            o <= outer,
            outer == mat@.outer_dims(),
            src_indptr@ == mat@.indptr,
            src_indices@ == mat@.indices,
            src_data@ == mat@.data,
            idx == mat@.indices,
            lo == base(mat@),
            hi == top(mat@),
            inner == mat@.inner_dims(),
            lo <= hi,
            offsets@.len() == inner + 1,
            indices@.len() == mat@.nnz,
            data@.len() == mat@.nnz,
            offsets@[inner] == old(offsets)@[inner],
            forall|j: int|
                0 <= j < inner ==> #[trigger] offsets@[j] == count_below(idx, lo, hi, j) + count_eq(
                    idx,
                    lo,
                    mat@.indptr[o as int] as int,
                    j,
                ),
            scattered(mat@, mat@.indptr[o as int] as int, indices@, data@),
        decreases outer - o,
    {
        proof {
            lemma_slice_bounds(mat@, o as int);
        }
        let stop = src_indptr[o + 1];
        let mut p: usize = src_indptr[o];
        while p < stop
            invariant
                mat@.wf(),
                o < outer,
                outer == mat@.outer_dims(),
                src_indptr@ == mat@.indptr,
                src_indices@ == mat@.indices,
                src_data@ == mat@.data,
                idx == mat@.indices,
                lo == base(mat@),
                hi == top(mat@),
                inner == mat@.inner_dims(),
                lo <= mat@.indptr[o as int] <= p <= stop <= hi,
                stop == mat@.indptr[o + 1],
                stop <= src_indices@.len(),
                offsets@.len() == inner + 1,
                indices@.len() == mat@.nnz,
                data@.len() == mat@.nnz,
                offsets@[inner] == old(offsets)@[inner],
                forall|j: int|
                    0 <= j < inner ==> #[trigger] offsets@[j] == count_below(idx, lo, hi, j)
                        + count_eq(idx, lo, p as int, j),
                scattered(mat@, p as int, indices@, data@),
            decreases stop - p,
        {
            let j = src_indices[p];
            let val = src_data[p];
            proof {
                lemma_entry_found(mat@, o as int, p as int);
                lemma_dest_in_bucket(idx, lo, hi, p as int);
            }
            let dest = offsets[j];
            assert(dest == dest_of(idx, lo, hi, p as int));
            let ghost prev_indices = indices@;
            let ghost prev_data = data@;
            data[dest] = val;
            indices[dest] = o;
            offsets[j] = dest + 1;
            proof {
                assert forall|o2: int, q: int| #[trigger]
                    mat@.in_slice(o2, q) && q < p + 1 implies {
                    let d = dest_of(idx, lo, hi, q);
                    indices@[d] == o2 && data@[d] == mat@.data[q]
                } by {
                    lemma_slice_bounds(mat@, o2);
                    if q == p {
                        lemma_slices_in_order(mat@, o2, q, o as int, p as int);
                        lemma_slices_in_order(mat@, o as int, p as int, o2, q);
                    } else {
                        lemma_dest_injective(idx, lo, hi, q, p as int);
                        lemma_dest_in_bucket(idx, lo, hi, q);
                        let d = dest_of(idx, lo, hi, q);
                        assert(prev_indices[d] == o2 && prev_data[d] == mat@.data[q]);
                    }
                }
            }
            p += 1;
        }
        o += 1;
    }
    proof {
        assert forall|j: int| 0 <= j < inner implies #[trigger] offsets@[j] == count_below(
            idx,
            lo,
            hi,
            j + 1,
        ) by {
            lemma_count_below_step(idx, lo, hi, j);
        }
    }
}

/// Fix-up pass: the scatter pass has moved each offset to the end of its
/// bucket, which is the start of the next one. Shifts every offset one slot
/// back and puts zero in front.
fn shift_offsets(offsets: &mut [usize])
    ensures
        final(offsets)@.len() == old(offsets)@.len(),
        old(offsets)@.len() > 0 ==> final(offsets)@[0] == 0,
        forall|j: int|
            1 <= j < old(offsets)@.len() ==> #[trigger] final(offsets)@[j] == old(offsets)@[j - 1],
{
    let n = offsets.len();
    let mut last: usize = 0;
    let mut j: usize = 0;
    while j < n
        invariant
            j <= n,
            n == offsets@.len(),
            n == old(offsets)@.len(),
            j == 0 ==> last == 0,
            j > 0 ==> last == old(offsets)@[j - 1],
            j > 0 ==> offsets@[0] == 0,
            forall|k: int| 1 <= k < j ==> #[trigger] offsets@[k] == old(offsets)@[k - 1],
            forall|k: int| j <= k < n ==> #[trigger] offsets@[k] == old(offsets)@[k],
        decreases n - j,
    {
        let tmp = offsets[j];
        offsets[j] = last;
        last = tmp;
        j += 1;
    }
}

/// Copy-converts a matrix into the opposite storage, writing the result into
/// the three arrays given. Can be used for CSC <-> CSR conversions, or for a
/// transposition that keeps the storage order.
///
/// `indptr` must hold `inner_dims() + 1` zeros, and `indices` and `data` as
/// many elements as the matrix has stored entries.
pub fn convert_mat_storage<N: Copy>(
    mat: CsMatView<'_, N>,
    indptr: &mut [usize],
    indices: &mut [usize],
    data: &mut [N],
)
    requires
        mat@.wf(),
        old(indptr)@.len() == mat@.inner_dims() + 1,
        old(indices)@.len() == mat@.nnz,
        old(data)@.len() == mat@.nnz,
        forall|j: int| 0 <= j < old(indptr)@.len() ==> old(indptr)@[j] == 0,
    ensures
        final(indptr)@.len() == old(indptr)@.len(),
        final(indices)@.len() == old(indices)@.len(),
        final(data)@.len() == old(data)@.len(),
        converted(mat@, final(indptr)@, final(indices)@, final(data)@).valid(),
        converted(mat@, final(indptr)@, final(indices)@, final(data)@).same_entries(mat@),
{
    count_inner_indices(&mat, indptr);
    let total = counts_to_offsets(&mat, indptr);
    assert(total == mat@.nnz);
    scatter_entries(&mat, indptr, indices, data);
    let ghost ends = indptr@;
    shift_offsets(indptr);
    proof {
        let idx = mat@.indices;
        lemma_count_below_zero(idx, base(mat@), top(mat@));
        assert(offsets_are_starts(mat@, indptr@)) by {
            assert forall|j: int| 0 <= j <= mat@.inner_dims() implies #[trigger] indptr@[j]
                == count_below(idx, base(mat@), top(mat@), j) by {
                if j > 0 {
                    assert(indptr@[j] == ends[j - 1]);
                }
            }
        }
        lemma_converted(mat@, converted(mat@, indptr@, indices@, data@));
    }
}

} // verus!
