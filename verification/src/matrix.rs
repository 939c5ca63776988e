//! Dense matrices in column-major and row-major order.

use vstd::arithmetic::div_mod::lemma_fundamental_div_mod;
use vstd::arithmetic::mul::*;
use vstd::prelude::*;

verus! {

/// The position of a cell in the values of a column-major matrix.
pub fn col_maj_idx(row: usize, col: usize, height: usize) -> (r: usize)
    requires
        col * height + row <= usize::MAX,
    ensures
        r == col * height + row,
{
    proof {
        assert(0 <= col * height) by (nonlinear_arith);
    }
    col * height + row
}

/// A matrix whose columns lie one after another.
#[derive(Clone, Debug)]
pub struct ColMajorMatrix<T> {
    pub values: Vec<T>,
    pub width: usize,
    pub height: usize,
}

impl<T> ColMajorMatrix<T> {
    /// The values are exactly the cells; a matrix without columns has no rows.
    pub open spec fn wf(&self) -> bool {
        &&& self.values@.len() == self.width * self.height
        &&& self.width == 0 ==> self.height == 0
    }

    /// The cell in row `r` of column `c`.
    pub open spec fn at(&self, r: int, c: int) -> T {
        self.values@[c * self.height + r]
    }

    /// Column `c`.
    pub open spec fn col(&self, c: int) -> Seq<T> {
        Seq::new(self.height as nat, |r: int| self.at(r, c))
    }

    /// Splits `values` into `width` columns of equal height.
    pub fn new(values: Vec<T>, width: usize) -> (m: Self)
        requires
            width == 0 ==> values@.len() == 0,
            width > 0 ==> values@.len() % (width as nat) == 0,
        ensures
            m.wf(),
            m.values@ == values@,
            m.width == width,
            width > 0 ==> m.height == values@.len() / (width as nat),
    {
        let height = if width == 0 {
            0
        } else {
            values.len() / width
        };
        proof {
            if width > 0 {
                lemma_fundamental_div_mod(values@.len() as int, width as int);
            }
        }
        ColMajorMatrix { values, width, height }
    }

    pub fn height(&self) -> (r: usize)
        ensures
            r == self.height,
    {
        self.height
    }

    pub fn width(&self) -> (r: usize)
        ensures
            r == self.width,
    {
        self.width
    }

    pub proof fn lemma_in_bounds(&self, r: int, c: int)
        requires
            self.wf(),
            0 <= r < self.height,
            0 <= c < self.width,
        ensures
            0 <= c * self.height <= c * self.height + r < self.values@.len(),
            (c + 1) * self.height <= self.values@.len() <= usize::MAX,
    {
        assert(self.values@.len() == self.values.len());
        assert(0 <= c * self.height && c * self.height + self.height <= self.width * self.height)
            by (nonlinear_arith)
            requires
                0 <= c < self.width,
        ;
        assert((c + 1) * self.height == c * self.height + self.height) by (nonlinear_arith);
    }

    /// The cell in row `row` of column `col`, if there is one.
    pub fn get(&self, row: usize, col: usize) -> (r: Option<&T>)
        requires
            self.wf(),
        ensures
            r == (if row < self.height && col < self.width {
                Some(&self.at(row as int, col as int))
            } else {
                None
            }),
    {
        if row < self.height && col < self.width {
            proof {
                self.lemma_in_bounds(row as int, col as int);
            }
            Some(&self.values[col * self.height + row])
        } else {
            None
        }
    }

    /// Column `j` as a slice.
    pub fn column(&self, j: usize) -> (r: &[T])
        requires
            self.wf(),
            j < self.width,
        ensures
            r@ == self.col(j as int),
    {
        proof {
            assert(self.values@.len() == self.values.len());
            assert(0 <= j * self.height && j * self.height + self.height <= self.width
                * self.height) by (nonlinear_arith)
                requires
                    j < self.width,
            ;
        }
        let start = j * self.height;
        let r = vstd::slice::slice_subrange(self.values.as_slice(), start, start + self.height);
        assert(r@ =~= self.col(j as int));
        r
    }
}

/// A matrix whose rows lie one after another.
#[derive(Clone, Debug)]
pub struct RowMajorMatrix<T> {
    pub values: Vec<T>,
    pub width: usize,
}

impl<T> RowMajorMatrix<T> {
    /// The rows are complete.
    pub open spec fn wf(&self) -> bool {
        self.width > 0 && self.values@.len() % (self.width as nat) == 0
    }

    pub open spec fn spec_height(&self) -> nat {
        self.values@.len() / (self.width as nat)
    }

    /// Row `r`.
    pub open spec fn row(&self, r: int) -> Seq<T> {
        self.values@.subrange(r * self.width, (r + 1) * self.width)
    }

    /// Column `c`.
    pub open spec fn col(&self, c: int) -> Seq<T> {
        Seq::new(self.spec_height(), |r: int| self.values@[r * self.width + c])
    }

    /// Splits `values` into rows of `width` cells.
    pub fn new(values: Vec<T>, width: usize) -> (m: Self)
        requires
            width > 0,
            values@.len() % (width as nat) == 0,
        ensures
            m.wf(),
            m.values@ == values@,
            m.width == width,
    {
        RowMajorMatrix { values, width }
    }

    pub fn height(&self) -> (r: usize)
        requires
            self.width > 0,
        ensures
            r == self.spec_height(),
    {
        self.values.len() / self.width
    }

    pub proof fn lemma_row_in_bounds(&self, r: int)
        requires
            self.width > 0,
            0 <= r < self.spec_height(),
        ensures
            0 <= r * self.width,
            r * self.width + self.width == (r + 1) * self.width,
            (r + 1) * self.width <= self.values@.len(),
    {
        let len = self.values@.len() as int;
        let w = self.width as int;
        assert(0 <= r * w && r * w + w == (r + 1) * w && (r + 1) * w <= len) by (nonlinear_arith)
            requires
                w > 0,
                0 <= r < len / w,
        ;
    }
}

/// A view of every `stride`-th cell of columns that lie one after another.
pub struct StridedColMajorMatrixView<'a, T> {
    pub values: &'a [T],
    pub width: usize,
    pub stride: usize,
}

impl<'a, T> StridedColMajorMatrixView<'a, T> {
    pub open spec fn wf(&self) -> bool {
        &&& self.width > 0
        &&& self.stride > 0
        &&& self.values@.len() % (self.width as nat) == 0
        &&& (self.values@.len() / (self.width as nat)) % (self.stride as nat) == 0
    }

    /// The height of the columns before striding.
    pub open spec fn lifted_height(&self) -> nat {
        self.values@.len() / (self.width as nat)
    }

    pub open spec fn spec_height(&self) -> nat {
        self.lifted_height() / (self.stride as nat)
    }

    /// The cell in row `r` of column `c`.
    pub open spec fn at(&self, r: int, c: int) -> T {
        self.values@[c * self.lifted_height() + r * self.stride]
    }

    pub fn new(values: &'a [T], width: usize, stride: usize) -> (v: Self)
        ensures
            v.values@ == values@,
            v.width == width,
            v.stride == stride,
    {
        StridedColMajorMatrixView { values, width, stride }
    }

    pub fn width(&self) -> (r: usize)
        ensures
            r == self.width,
    {
        self.width
    }

    pub fn height(&self) -> (r: usize)
        requires
            self.width > 0,
            self.stride > 0,
        ensures
            r == self.spec_height(),
    {
        self.values.len() / self.width / self.stride
    }

    /// The cell in row `row` of column `col`, if there is one.
    pub fn get(&self, row: usize, col: usize) -> (r: Option<&T>)
        requires
            self.wf(),
        ensures
            r == (if row < self.spec_height() && col < self.width {
                Some(&self.at(row as int, col as int))
            } else {
                None
            }),
    {
        let lifted = self.values.len() / self.width;
        if row < lifted / self.stride && col < self.width {
            proof {
                let len = self.values@.len() as int;
                let w = self.width as int;
                let st = self.stride as int;
                let h = lifted as int;
                lemma_fundamental_div_mod(len, w);
                lemma_fundamental_div_mod(h, st);
                assert(0 <= row * st && row * st + st <= h) by (nonlinear_arith)
                    requires
                        st > 0,
                        0 <= row < h / st,
                ;
                assert(0 <= col * h && col * h + h <= w * h) by (nonlinear_arith)
                    requires
                        0 <= col < w,
                        h >= 0,
                ;
            }
            Some(&self.values[col * lifted + row * self.stride])
        } else {
            None
        }
    }
}

/// Columns lie one behind the other: put together from the first to the last, they are the values
/// of the matrix.
pub proof fn columns_make_up_matrix<T>(m: &ColMajorMatrix<T>, p: int)
    requires
        m.wf(),
        0 <= p < m.values@.len(),
    ensures
        m.height > 0,
        0 <= p / (m.height as int) < m.width,
        m.col(p / (m.height as int))[p % (m.height as int)] == m.values@[p],
{
    let h = m.height as int;
    let w = m.width as int;
    assert(h > 0) by (nonlinear_arith)
        requires
            0 <= p < w * h,
            h >= 0,
    ;
    lemma_fundamental_div_mod(p, h);
    let (q, r) = (p / h, p % h);
    assert(h * q == q * h) by (nonlinear_arith);
    assert(0 <= q < w) by (nonlinear_arith)
        requires
            p == q * h + r,
            0 <= r < h,
            0 <= p < w * h,
    ;
}

/// Rows lie one behind the other: put together from the first to the last, they are the values of
/// the matrix.
pub proof fn rows_make_up_matrix<T>(m: &RowMajorMatrix<T>, p: int)
    requires
        m.wf(),
        m.width > 0,
        0 <= p < m.values@.len(),
    ensures
        0 <= p / (m.width as int) < m.spec_height(),
        m.row(p / (m.width as int))[p % (m.width as int)] == m.values@[p],
{
    let w = m.width as int;
    let h = m.spec_height() as int;
    lemma_fundamental_div_mod(p, w);
    lemma_fundamental_div_mod(m.values@.len() as int, w);
    let (q, r) = (p / w, p % w);
    assert(w * q == q * w && w * h == h * w) by (nonlinear_arith);
    assert(0 <= q < h) by (nonlinear_arith)
        requires
            p == q * w + r,
            0 <= r < w,
            0 <= p < h * w,
    ;
    m.lemma_row_in_bounds(q);
}

} // verus!
