//! Dense matrices as the elementwise operations with a sparse operand see
//! them: a shape, a memory ordering and the elements laid out accordingly.

use vstd::prelude::*;
use crate::scalar::Scalar;

verus! {

/// Describes the memory ordering of a dense matrix.
#[derive(Clone, Copy, PartialEq, Eq, Debug, Structural)]
pub enum StorageOrder {
    /// Column major: the elements of a column are contiguous.
    F,
    /// Row major: the elements of a row are contiguous.
    C,
    /// Nothing can be assumed about the order.
    Unordered,
}

/// The position in a contiguous array of element `i` of outer slice `o`,
/// where every outer slice holds `inner` elements.
pub open spec fn flat(o: int, inner: int, i: int) -> int {
    o * inner + i
}

/// Positions of a contiguous layout stay inside the array, and two
/// elements never share one.
pub proof fn lemma_flat(outer: int, inner: int, o: int, i: int)
    requires
        0 <= o < outer,
        0 <= i < inner,
    ensures
        0 <= flat(o, inner, i) < outer * inner,
        flat(o, inner, i) + 1 <= flat(o + 1, inner, 0),
        flat(o + 1, inner, 0) == flat(o, inner, 0) + inner,
{
    assert(0 <= o * inner) by (nonlinear_arith)
        requires
            0 <= o,
            0 <= inner,
    ;
    assert(o * inner + inner <= outer * inner) by (nonlinear_arith)
        requires
            o + 1 <= outer,
            0 <= inner,
    ;
    assert((o + 1) * inner == o * inner + inner) by (nonlinear_arith);
}

/// The last element of an outer slice is followed by the first one of the
/// next slice.
pub proof fn lemma_flat_next(o: int, inner: int)
    ensures
        flat(o, inner, inner) == flat(o + 1, inner, 0),
{
    assert((o + 1) * inner == o * inner + inner) by (nonlinear_arith);
}

/// Elements of earlier outer slices, and earlier elements of the same
/// slice, lie at earlier positions.
pub proof fn lemma_flat_order(inner: int, o1: int, i1: int, o2: int, i2: int)
    requires
        0 <= i1 < inner,
        0 <= i2 < inner,
        0 <= o1,
        o1 < o2 || (o1 == o2 && i1 < i2),
    ensures
        0 <= flat(o1, inner, i1) < flat(o2, inner, i2),
{
    assert(0 <= o1 * inner) by (nonlinear_arith)
        requires
            0 <= o1,
            0 <= inner,
    ;
    if o1 < o2 {
        assert(o1 * inner + inner <= o2 * inner) by (nonlinear_arith)
            requires
                o1 + 1 <= o2,
                0 <= inner,
        ;
    }
}

/// What a dense matrix holds.
pub struct DenseModel<N> {
    /// The number of rows.
    pub rows: usize,
    /// The number of columns.
    pub cols: usize,
    /// The memory ordering.
    pub order: StorageOrder,
    /// The elements, in memory order.
    pub data: Seq<N>,
}

impl<N> DenseModel<N> {
    /// The array holds one element for each position of the shape.
    pub open spec fn wf(self) -> bool {
        self.data.len() == self.rows * self.cols
    }

    /// The element at row `r` and column `c` of an ordered matrix.
    pub open spec fn elem(self, r: int, c: int) -> N
        recommends
            self.order != StorageOrder::Unordered,
    {
        match self.order {
            StorageOrder::F => self.data[flat(c, self.rows as int, r)],
            _ => self.data[flat(r, self.cols as int, c)],
        }
    }
}

/// A dense matrix that owns its elements.
#[derive(PartialEq, Debug)]
pub struct DenseMat<N> {
    rows: usize,
    cols: usize,
    order: StorageOrder,
    data: Vec<N>,
}

impl<N> View for DenseMat<N> {
    type V = DenseModel<N>;

    closed spec fn view(&self) -> DenseModel<N> {
        DenseModel { rows: self.rows, cols: self.cols, order: self.order, data: self.data@ }
    }
}

impl<N: Copy> DenseMat<N> {
    /// Creates a dense matrix from its elements in memory order. Returns
    /// `None` unless there is one element for each position of the shape.
    pub fn new_owned(data: Vec<N>, rows: usize, cols: usize, order: StorageOrder) -> (r: Option<
        DenseMat<N>,
    >)
        ensures
            r.is_some() <==> data@.len() == rows * cols,
            r matches Some(m) ==> m@ == (DenseModel { rows, cols, order, data: data@ }) && m@.wf(),
    {
        let len = data.len();
        match rows.checked_mul(cols) {
            Some(size) => {
                if size == len {
                    Some(DenseMat { rows, cols, order, data })
                } else {
                    None
                }
            },
            None => None,
        }
    }

    /// The number of rows of the matrix.
    pub fn rows(&self) -> (r: usize)
        ensures
            r == self@.rows,
    {
        self.rows
    }

    /// The number of columns of the matrix.
    pub fn cols(&self) -> (r: usize)
        ensures
            r == self@.cols,
    {
        self.cols
    }

    /// The memory ordering of the matrix.
    pub fn ordering(&self) -> (r: StorageOrder)
        ensures
            r == self@.order,
    {
        self.order
    }

    /// The elements, in memory order.
    pub fn data(&self) -> (r: &[N])
        ensures
            r@ == self@.data,
    {
        self.data.as_slice()
    }

    /// Gives the elements back, in memory order.
    pub fn into_data(self) -> (r: Vec<N>)
        ensures
            r@ == self@.data,
    {
        self.data
    }

    /// The element at row `r` and column `c` of an ordered matrix.
    pub fn get(&self, r: usize, c: usize) -> (v: N)
        requires
            self@.wf(),
            r < self@.rows,
            c < self@.cols,
        ensures
            v == self@.elem(r as int, c as int),
    {
        let len = self.data.len();
        match self.order {
            StorageOrder::F => {
                proof {
                    let rows = self.rows as int;
                    let cols = self.cols as int;
                    lemma_flat(cols, rows, c as int, r as int);
                    assert(cols * rows == rows * cols) by (nonlinear_arith);
                    assert(flat(c as int, rows, r as int) < self.data@.len());
                    assert(0 <= c * rows) by (nonlinear_arith)
                        requires
                            0 <= c,
                            0 <= rows,
                    ;
                }
                self.data[c * self.rows + r]
            },
            _ => {
                proof {
                    let rows = self.rows as int;
                    let cols = self.cols as int;
                    lemma_flat(rows, cols, r as int, c as int);
                    assert(0 <= r * cols) by (nonlinear_arith)
                        requires
                            0 <= r,
                            0 <= cols,
                    ;
                }
                self.data[r * self.cols + c]
            },
        }
    }

    /// Overwrites the element at position `pos` of the memory order.
    pub(crate) fn set_flat(&mut self, pos: usize, value: N)
        requires
            pos < old(self)@.data.len(),
        ensures
            final(self)@ == (DenseModel {
                data: old(self)@.data.update(pos as int, value),
                ..old(self)@
            }),
    {
        self.data[pos] = value;
    }
}

impl<N: Scalar> DenseMat<N> {
    /// Creates an all-zero matrix in row major order.
    pub fn zeros(rows: usize, cols: usize) -> (m: DenseMat<N>)
        requires
            rows * cols <= usize::MAX,
        ensures
            m@.wf(),
            m@.rows == rows,
            m@.cols == cols,
            m@.order == StorageOrder::C,
            forall|k: int| 0 <= k < m@.data.len() ==> #[trigger] m@.data[k] == N::zero_spec(),
    {
        DenseMat { rows, cols, order: StorageOrder::C, data: filled(N::zero(), rows * cols) }
    }

    /// Creates an all-zero matrix in column major order.
    pub fn zeros_f(rows: usize, cols: usize) -> (m: DenseMat<N>)
        requires
            rows * cols <= usize::MAX,
        ensures
            m@.wf(),
            m@.rows == rows,
            m@.cols == cols,
            m@.order == StorageOrder::F,
            forall|k: int| 0 <= k < m@.data.len() ==> #[trigger] m@.data[k] == N::zero_spec(),
    {
        DenseMat { rows, cols, order: StorageOrder::F, data: filled(N::zero(), rows * cols) }
    }
}

/// An array of `n` copies of `value`.
fn filled<N: Copy>(value: N, n: usize) -> (v: Vec<N>)
    ensures
        v@.len() == n,
        forall|k: int| 0 <= k < n ==> #[trigger] v@[k] == value,
{
    let mut v: Vec<N> = Vec::new();
    let mut k: usize = 0;
    while k < n
        invariant
            k <= n,
            v@.len() == k,
            forall|j: int| 0 <= j < k ==> #[trigger] v@[j] == value,
        decreases n - k,
    {
        v.push(value);
        k += 1;
    }
    v
}

} // verus!
