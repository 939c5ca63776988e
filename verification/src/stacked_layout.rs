//! The layout of the columns of several matrices stacked into one.

use vstd::arithmetic::div_mod::*;
use vstd::arithmetic::mul::*;
use vstd::arithmetic::power2::*;
use vstd::prelude::*;

use crate::bits::{lemma_pow2_divides, lemma_pow2_mono, lemma_usize_bits, pow2_usize};
use crate::error::StackedPcsError;
use crate::matrix::{col_maj_idx, ColMajorMatrix, StridedColMajorMatrixView};

verus! {

/// The location of a column within the stacked matrix. Together with the `l_skip` of the
/// [`StackedLayout`] it also tells how far apart the values of the column lie.
#[derive(Copy, Clone, Debug, PartialEq, Eq, Structural)]
pub struct StackedSlice {
    pub col_idx: usize,
    pub row_idx: usize,
    /// The true log height of the column.
    pub log_height: usize,
}

/// The number of rows that a column of height `2^log_height` takes up.
pub open spec fn slice_len(log_height: nat, l_skip: nat) -> nat {
    if l_skip <= log_height {
        pow2(log_height)
    } else {
        pow2(l_skip)
    }
}

/// The distance between two neighbouring values of such a column.
pub open spec fn slice_stride(log_height: nat, l_skip: nat) -> nat {
    if l_skip <= log_height {
        1
    } else {
        pow2((l_skip - log_height) as nat)
    }
}

/// The values of a column, spread out by its stride, take up its rows exactly.
pub proof fn lemma_slice_len(log_height: nat, l_skip: nat)
    ensures
        slice_len(log_height, l_skip) == pow2(log_height) * slice_stride(log_height, l_skip),
        slice_len(log_height, l_skip) >= 1,
        slice_stride(log_height, l_skip) >= 1,
        pow2(log_height) >= 1,
{
    lemma_pow2_pos(log_height);
    lemma_pow2_pos(l_skip);
    if l_skip > log_height {
        lemma_pow2_adds(log_height, (l_skip - log_height) as nat);
        lemma_pow2_pos((l_skip - log_height) as nat);
    } else {
        assert(pow2(log_height) * 1 == pow2(log_height));
    }
}

impl StackedSlice {
    pub fn new(col_idx: usize, row_idx: usize, log_height: usize) -> (r: Self)
        ensures
            r == (StackedSlice { col_idx, row_idx, log_height }),
    {
        StackedSlice { col_idx, row_idx, log_height }
    }

    pub fn log_height(&self) -> (r: usize)
        ensures
            r == self.log_height,
    {
        self.log_height
    }

    /// The number of rows taken up.
    pub fn len(&self, l_skip: usize) -> (r: usize)
        requires
            self.log_height < usize::BITS,
            l_skip < usize::BITS,
        ensures
            r == slice_len(self.log_height as nat, l_skip as nat),
    {
        slice_len_of(self.log_height, l_skip)
    }

    /// The distance between two neighbouring values.
    pub fn stride(&self, l_skip: usize) -> (r: usize)
        requires
            l_skip < usize::BITS + self.log_height,
        ensures
            r == slice_stride(self.log_height as nat, l_skip as nat),
    {
        proof {
            lemma2_to64();
        }
        pow2_usize(l_skip.saturating_sub(self.log_height))
    }
}

fn slice_len_of(log_height: usize, l_skip: usize) -> (r: usize)
    requires
        log_height < usize::BITS,
        l_skip < usize::BITS,
    ensures
        r == slice_len(log_height as nat, l_skip as nat),
{
    if l_skip <= log_height {
        pow2_usize(log_height)
    } else {
        pow2_usize(l_skip)
    }
}

/// The dimensions of the matrices to stack: the width and the log height of each.
pub type Dims = Seq<(usize, usize)>;

/// The number of columns of the first `m` matrices.
pub open spec fn cols_before(dims: Dims, m: int) -> nat
    decreases m,
{
    if m <= 0 {
        0
    } else {
        cols_before(dims, m - 1) + dims[m - 1].0 as nat
    }
}

/// The number of stacked rows that the first `m` matrices take up.
pub open spec fn rows_before(dims: Dims, l_skip: nat, m: int) -> nat
    decreases m,
{
    if m <= 0 {
        0
    } else {
        rows_before(dims, l_skip, m - 1) + dims[m - 1].0 as nat * slice_len(
            dims[m - 1].1 as nat,
            l_skip,
        )
    }
}

/// The stacked row at which column `j` of matrix `m` starts, the stacked columns counted
/// through one after another.
pub open spec fn position(dims: Dims, l_skip: nat, m: int, j: int) -> int {
    rows_before(dims, l_skip, m) + j * slice_len(dims[m].1 as nat, l_skip)
}

/// Whether column `j` of matrix `m` fits, at its position, into one stacked column.
pub open spec fn fits(dims: Dims, l_skip: nat, log_stacked_height: nat, m: int, j: int) -> bool {
    let height = pow2(log_stacked_height) as int;
    &&& dims[m].1 <= log_stacked_height
    &&& position(dims, l_skip, m, j) % height + slice_len(dims[m].1 as nat, l_skip) <= height
}

/// The error that a column which does not fit is refused with.
pub open spec fn is_refusal(
    e: StackedPcsError,
    dims: Dims,
    l_skip: nat,
    log_stacked_height: nat,
    m: int,
    j: int,
) -> bool {
    let height = pow2(log_stacked_height) as int;
    if dims[m].1 > log_stacked_height {
        e matches StackedPcsError::LayoutHeightExceeded { log_height, log_stacked_height: limit }
            && log_height == dims[m].1 && limit == log_stacked_height
    } else {
        e matches StackedPcsError::LayoutRowOverflow { col_idx, stacked_height } && col_idx
            == position(dims, l_skip, m, j) / height && stacked_height == height
    }
}

/// Whether matrix `m` has a column `j`.
pub open spec fn is_column(dims: Dims, m: int, j: int) -> bool {
    0 <= m < dims.len() && 0 <= j < dims[m].0
}

/// Whether column `j1` of matrix `m1` comes before column `j2` of matrix `m2`.
pub open spec fn comes_before(m1: int, j1: int, m2: int, j2: int) -> bool {
    m1 < m2 || (m1 == m2 && j1 < j2)
}

/// Whether every column before column `j` of matrix `m` fits.
pub open spec fn fit_before(
    dims: Dims,
    l_skip: nat,
    log_stacked_height: nat,
    m: int,
    j: int,
) -> bool {
    forall|m1: int, j1: int|
        is_column(dims, m1, j1) && comes_before(m1, j1, m, j) ==> #[trigger] fits(
            dims,
            l_skip,
            log_stacked_height,
            m1,
            j1,
        )
}

/// Whether `slice` is where column `j` of matrix `m` lies.
pub open spec fn is_slice_of(
    slice: StackedSlice,
    dims: Dims,
    l_skip: nat,
    height: int,
    m: int,
    j: int,
) -> bool {
    &&& slice.col_idx * height + slice.row_idx == position(dims, l_skip, m, j)
    &&& slice.row_idx + slice_len(dims[m].1 as nat, l_skip) <= height
    &&& slice.log_height == dims[m].1
}

/// The layout of a stacked matrix.
#[derive(Clone, Debug)]
pub struct StackedLayout {
    /// The log2 of the smallest number of rows that a column takes up. The values of a lower
    /// column are spread out over as many rows.
    pub l_skip: usize,
    /// The height of the stacked matrix.
    pub height: usize,
    /// The width of the stacked matrix.
    pub width: usize,
    /// The columns of the matrices in order: the index of the matrix, the index of the column
    /// in it, and where the column lies in the stacked matrix.
    pub sorted_cols: Vec<(usize, usize, StackedSlice)>,
    /// For each matrix the index in `sorted_cols` of its first column.
    pub mat_starts: Vec<usize>,
}

/// Whether `layout` stacks all columns of matrices of dimensions `dims` in order, without gaps.
pub open spec fn is_layout_of(
    layout: StackedLayout,
    l_skip: nat,
    log_stacked_height: nat,
    dims: Dims,
) -> bool {
    let height = pow2(log_stacked_height) as int;
    let n = dims.len() as int;
    &&& layout.l_skip == l_skip
    &&& layout.height == height
    &&& layout.width == (rows_before(dims, l_skip, n) + height - 1) / height
    &&& layout.sorted_cols@.len() == cols_before(dims, n)
    &&& layout.mat_starts@.len() == n
    &&& forall|m: int| 0 <= m < n ==> #[trigger] layout.mat_starts@[m] == cols_before(dims, m)
    &&& forall|m: int, j: int| #[trigger]
        is_column(dims, m, j) ==> {
            let entry = layout.sorted_cols@[cols_before(dims, m) + j];
            &&& entry.0 == m
            &&& entry.1 == j
            &&& is_slice_of(entry.2, dims, l_skip, height, m, j)
        }
}

pub proof fn lemma_cols_before_mono(dims: Dims, a: int, b: int)
    requires
        a <= b,
    ensures
        cols_before(dims, a) <= cols_before(dims, b),
    decreases b - a,
{
    if a < b {
        lemma_cols_before_mono(dims, a, b - 1);
    }
}

pub proof fn lemma_rows_before_mono(dims: Dims, l_skip: nat, a: int, b: int)
    requires
        a <= b,
    ensures
        rows_before(dims, l_skip, a) <= rows_before(dims, l_skip, b),
    decreases b - a,
{
    if a < b {
        lemma_rows_before_mono(dims, l_skip, a, b - 1);
        let w = dims[b - 1].0 as nat;
        let l = slice_len(dims[b - 1].1 as nat, l_skip);
        assert(w * l >= 0) by (nonlinear_arith);
    }
}

/// Each column has one place among the columns of all matrices.
pub proof fn lemma_column_index(dims: Dims, m: int, j: int)
    requires
        is_column(dims, m, j),
    ensures
        cols_before(dims, m) <= cols_before(dims, m) + j < cols_before(dims, m + 1),
        cols_before(dims, m + 1) <= cols_before(dims, dims.len() as int),
{
    lemma_cols_before_mono(dims, m + 1, dims.len() as int);
}

/// Distinct columns take up disjoint rows: a column that comes before another ends before that
/// one starts, and all end within the rows of all matrices.
pub proof fn columns_are_disjoint(dims: Dims, l_skip: nat, m1: int, j1: int, m2: int, j2: int)
    requires
        is_column(dims, m1, j1),
        is_column(dims, m2, j2),
        comes_before(m1, j1, m2, j2),
    ensures
        0 <= position(dims, l_skip, m1, j1),
        position(dims, l_skip, m1, j1) + slice_len(dims[m1].1 as nat, l_skip) <= position(
            dims,
            l_skip,
            m2,
            j2,
        ),
        position(dims, l_skip, m2, j2) + slice_len(dims[m2].1 as nat, l_skip) <= rows_before(
            dims,
            l_skip,
            dims.len() as int,
        ),
{
    lemma_position_bounds(dims, l_skip, m1, j1);
    lemma_position_bounds(dims, l_skip, m2, j2);
    if m1 == m2 {
        let l = slice_len(dims[m1].1 as nat, l_skip) as int;
        assert(j1 * l + l <= j2 * l) by (nonlinear_arith)
            requires
                j1 < j2,
                l >= 0,
        ;
    } else {
        lemma_rows_before_mono(dims, l_skip, m1 + 1, m2);
    }
}

pub proof fn lemma_position_bounds(dims: Dims, l_skip: nat, m: int, j: int)
    requires
        is_column(dims, m, j),
    ensures
        rows_before(dims, l_skip, m) <= position(dims, l_skip, m, j),
        position(dims, l_skip, m, j) + slice_len(dims[m].1 as nat, l_skip) == position(
            dims,
            l_skip,
            m,
            j + 1,
        ),
        position(dims, l_skip, m, j + 1) <= rows_before(dims, l_skip, m + 1),
        rows_before(dims, l_skip, m + 1) <= rows_before(dims, l_skip, dims.len() as int),
        j + 1 == dims[m].0 ==> position(dims, l_skip, m, j + 1) == rows_before(
            dims,
            l_skip,
            m + 1,
        ),
{
    let l = slice_len(dims[m].1 as nat, l_skip) as int;
    let w = dims[m].0 as int;
    assert(0 <= j * l && j * l + l == (j + 1) * l && (j + 1) * l <= w * l) by (nonlinear_arith)
        requires
            0 <= j < w,
            l >= 0,
    ;
    lemma_rows_before_mono(dims, l_skip, m + 1, dims.len() as int);
}

proof fn lemma_lens_divide(dims: Dims, l_skip: nat, m: int, k: int)
    requires
        0 <= k <= m < dims.len(),
        forall|a: int, b: int|
            0 <= a <= b < dims.len() ==> (#[trigger] dims[a]).1 >= (#[trigger] dims[b]).1,
    ensures
        rows_before(dims, l_skip, k) as int % (slice_len(dims[m].1 as nat, l_skip) as int) == 0,
    decreases k,
{
    let l = slice_len(dims[m].1 as nat, l_skip) as int;
    lemma_slice_len(dims[m].1 as nat, l_skip);
    if k <= 0 {
        lemma_small_mod(0, l as nat);
    } else {
        lemma_lens_divide(dims, l_skip, m, k - 1);
        let big = slice_len(dims[k - 1].1 as nat, l_skip) as int;
        let e1 = if l_skip <= dims[m].1 {
            dims[m].1 as nat
        } else {
            l_skip
        };
        let e2 = if l_skip <= dims[k - 1].1 {
            dims[k - 1].1 as nat
        } else {
            l_skip
        };
        assert(dims[k - 1].1 >= dims[m].1);
        lemma_pow2_divides(e1, e2);
        let w = dims[k - 1].0 as int;
        let q = pow2((e2 - e1) as nat) as int;
        assert(big == q * l);
        assert(w * big == (w * q) * l) by (nonlinear_arith)
            requires
                big == q * l,
        ;
        lemma_mod_multiples_vanish(w * q, rows_before(dims, l_skip, k - 1) as int, l);
        assert(l * (w * q) == (w * q) * l) by (nonlinear_arith);
        assert(rows_before(dims, l_skip, k) as int == l * (w * q) + rows_before(
            dims,
            l_skip,
            k - 1,
        ));
    }
}

/// Columns that are stacked in descending order of height never straddle two stacked columns:
/// the only columns refused are those higher than the stacked matrix.
pub proof fn sorted_columns_fit(
    dims: Dims,
    l_skip: nat,
    log_stacked_height: nat,
    m: int,
    j: int,
)
    requires
        l_skip <= log_stacked_height,
        is_column(dims, m, j),
        dims[m].1 <= log_stacked_height,
        forall|a: int, b: int|
            0 <= a <= b < dims.len() ==> (#[trigger] dims[a]).1 >= (#[trigger] dims[b]).1,
    ensures
        fits(dims, l_skip, log_stacked_height, m, j),
{
    let l = slice_len(dims[m].1 as nat, l_skip) as int;
    let height = pow2(log_stacked_height) as int;
    let pos = position(dims, l_skip, m, j);
    lemma_slice_len(dims[m].1 as nat, l_skip);
    lemma_lens_divide(dims, l_skip, m, m);
    lemma_position_bounds(dims, l_skip, m, j);
    lemma_mod_multiples_vanish(j, rows_before(dims, l_skip, m) as int, l);
    assert(l * j == j * l) by (nonlinear_arith);
    assert(pos % l == 0);
    let e = if l_skip <= dims[m].1 {
        dims[m].1 as nat
    } else {
        l_skip
    };
    lemma_pow2_divides(e, log_stacked_height);
    let q = pow2((log_stacked_height - e) as nat) as int;
    assert(height == q * l);
    lemma_pow2_pos((log_stacked_height - e) as nat);
    // pos = height * d + r, and both pos and height are multiples of l, so r is one as well.
    lemma_fundamental_div_mod(pos, height);
    lemma_fundamental_div_mod(pos, l);
    let d = pos / height;
    let r = pos % height;
    let a = pos / l;
    assert(r == (a - q * d) * l) by (nonlinear_arith)
        requires
            pos == height * d + r,
            pos == l * a,
            height == q * l,
    ;
    let b = a - q * d;
    assert(b < q) by (nonlinear_arith)
        requires
            r == b * l,
            r < q * l,
            l > 0,
    ;
    assert(r + l <= height) by (nonlinear_arith)
        requires
            r == b * l,
            height == q * l,
            b + 1 <= q,
            l > 0,
    ;
}

impl StackedLayout {
    pub fn l_skip(&self) -> (r: usize)
        ensures
            r == self.l_skip,
    {
        self.l_skip
    }

    pub fn height(&self) -> (r: usize)
        ensures
            r == self.height,
    {
        self.height
    }

    pub fn width(&self) -> (r: usize)
        ensures
            r == self.width,
    {
        self.width
    }

    /// The layout that stacks columns greedily.
    /// - `l_skip` is the log2 of the smallest number of rows that a column takes up.
    /// - `log_stacked_height` is the log2 height of the stacked matrix.
    /// - `sorted` holds the width and the log height of each matrix, in descending order of the
    ///   log height. In another order a column may have to be refused that would straddle two
    ///   stacked columns.
    pub fn new(
        l_skip: usize,
        log_stacked_height: usize,
        sorted: Vec<(usize, usize)>,
    ) -> (r: Result<Self, StackedPcsError>)
        requires
            l_skip + 1 < usize::BITS,
            log_stacked_height + 1 < usize::BITS,
        ensures
            match r {
                Ok(layout) => {
                    &&& is_layout_of(layout, l_skip as nat, log_stacked_height as nat, sorted@)
                    &&& forall|m: int, j: int|
                        is_column(sorted@, m, j) ==> #[trigger] fits(
                            sorted@,
                            l_skip as nat,
                            log_stacked_height as nat,
                            m,
                            j,
                        )
                },
                Err(e) => exists|m: int, j: int|
                    {
                        &&& is_column(sorted@, m, j)
                        &&& !#[trigger] fits(
                            sorted@,
                            l_skip as nat,
                            log_stacked_height as nat,
                            m,
                            j,
                        )
                        &&& fit_before(sorted@, l_skip as nat, log_stacked_height as nat, m, j)
                        &&& is_refusal(
                            e,
                            sorted@,
                            l_skip as nat,
                            log_stacked_height as nat,
                            m,
                            j,
                        )
                    },
            },
    {
        let ghost dims = sorted@;
        let ghost n = dims.len() as int;
        let ghost skip = l_skip as nat;
        let ghost lsh = log_stacked_height as nat;
        let height = pow2_usize(log_stacked_height);
        proof {
            lemma_usize_bits();
            lemma_pow2_unfold((log_stacked_height + 1) as nat);
            assert(2 * pow2(lsh) <= usize::MAX);
            lemma_pow2_unfold((l_skip + 1) as nat);
            assert(2 * pow2(skip) <= usize::MAX);
        }
        let mut sorted_cols: Vec<(usize, usize, StackedSlice)> = Vec::new();
        let mut mat_starts: Vec<usize> = Vec::new();
        let mut col_idx: usize = 0;
        let mut row_idx: usize = 0;
        let mut m: usize = 0;
        while m < sorted.len()
            invariant
                l_skip + 1 < usize::BITS,
                log_stacked_height + 1 < usize::BITS,
                skip == l_skip,
                lsh == log_stacked_height,
                height == pow2(lsh),
                height >= 1,
                2 * pow2(lsh) <= usize::MAX,
                2 * pow2(skip) <= usize::MAX,
                dims == sorted@,
                n == dims.len(),
                m <= n,
                row_idx <= height,
                row_idx == 0 ==> col_idx == 0,
                row_idx > 0 ==> l_skip <= log_stacked_height,
                col_idx * height + row_idx == rows_before(dims, skip, m as int),
                row_idx > 0 ==> col_idx < sorted_cols@.len(),
                sorted_cols@.len() == cols_before(dims, m as int),
                mat_starts@.len() == m,
                forall|k: int| 0 <= k < m ==> #[trigger] mat_starts@[k] == cols_before(dims, k),
                fit_before(dims, skip, lsh, m as int, 0),
                forall|k: int, j: int| #[trigger]
                    is_column(dims, k, j) && k < m ==> {
                        let entry = sorted_cols@[cols_before(dims, k) + j];
                        &&& entry.0 == k
                        &&& entry.1 == j
                        &&& is_slice_of(entry.2, dims, skip, height as int, k, j)
                    },
            decreases n - m,
        {
            let (width, log_ht) = sorted[m];
            mat_starts.push(sorted_cols.len());
            if width > 0 && log_ht > log_stacked_height {
                proof {
                    assert(is_column(dims, m as int, 0));
                    assert(!fits(dims, skip, lsh, m as int, 0));
                }
                return Err(
                    StackedPcsError::LayoutHeightExceeded {
                        log_height: log_ht,
                        log_stacked_height,
                    },
                );
            }
            let mut j: usize = 0;
            while j < width
                invariant
                    l_skip + 1 < usize::BITS,
                    log_stacked_height + 1 < usize::BITS,
                    skip == l_skip,
                    lsh == log_stacked_height,
                    height == pow2(lsh),
                    height >= 1,
                    2 * pow2(lsh) <= usize::MAX,
                    2 * pow2(skip) <= usize::MAX,
                    dims == sorted@,
                    n == dims.len(),
                    m < n,
                    (width, log_ht) == dims[m as int],
                    width > 0 ==> log_ht <= log_stacked_height,
                    j <= width,
                    row_idx <= height,
                    row_idx == 0 ==> col_idx == 0,
                    row_idx > 0 ==> l_skip <= log_stacked_height,
                    col_idx * height + row_idx == position(dims, skip, m as int, j as int),
                    row_idx > 0 ==> col_idx < sorted_cols@.len(),
                    sorted_cols@.len() == cols_before(dims, m as int) + j,
                    fit_before(dims, skip, lsh, m as int, j as int),
                    forall|k: int, i: int| #[trigger]
                        is_column(dims, k, i) && comes_before(k, i, m as int, j as int) ==> {
                            let entry = sorted_cols@[cols_before(dims, k) + i];
                            &&& entry.0 == k
                            &&& entry.1 == i
                            &&& is_slice_of(entry.2, dims, skip, height as int, k, i)
                        },
                decreases width - j,
            {
                let slice_len = slice_len_of(log_ht, l_skip);
                let ghost pos = position(dims, skip, m as int, j as int);
                proof {
                    assert(is_column(dims, m as int, j as int));
                    lemma_slice_len(log_ht as nat, skip);
                    lemma_pow2_mono(log_ht as nat, lsh);
                    lemma_position_bounds(dims, skip, m as int, j as int);
                    if l_skip <= log_stacked_height {
                        lemma_pow2_mono(skip, lsh);
                    } else {
                        lemma_pow2_strictly_increases(lsh, skip);
                    }
                }
                if row_idx + slice_len > height {
                    if row_idx != height {
                        proof {
                            lemma_fundamental_div_mod_converse(
                                pos,
                                height as int,
                                col_idx as int,
                                row_idx as int,
                            );
                            assert(!fits(dims, skip, lsh, m as int, j as int));
                        }
                        return Err(
                            StackedPcsError::LayoutRowOverflow { col_idx, stacked_height: height },
                        );
                    }
                    proof {
                        assert((col_idx + 1) * height == col_idx * height + height)
                            by (nonlinear_arith);
                        assert(sorted_cols@.len() == sorted_cols.len());
                    }
                    col_idx = col_idx + 1;
                    row_idx = 0;
                }
                proof {
                    lemma_fundamental_div_mod_converse(
                        pos,
                        height as int,
                        col_idx as int,
                        row_idx as int,
                    );
                    assert(fits(dims, skip, lsh, m as int, j as int));
                    assert forall|m1: int, j1: int|
                        is_column(dims, m1, j1) && comes_before(
                            m1,
                            j1,
                            m as int,
                            j + 1,
                        ) implies #[trigger] fits(dims, skip, lsh, m1, j1) by {
                        if m1 == m && j1 == j {
                        } else {
                            assert(comes_before(m1, j1, m as int, j as int));
                        }
                    }
                }
                let slice = StackedSlice { col_idx, row_idx, log_height: log_ht };
                let ghost before = sorted_cols@;
                sorted_cols.push((m, j, slice));
                row_idx = row_idx + slice_len;
                proof {
                    assert forall|k: int, i: int| #[trigger]
                        is_column(dims, k, i) && comes_before(k, i, m as int, j + 1) implies {
                        let entry = sorted_cols@[cols_before(dims, k) + i];
                        &&& entry.0 == k
                        &&& entry.1 == i
                        &&& is_slice_of(entry.2, dims, skip, height as int, k, i)
                    } by {
                        if k == m && i == j {
                        } else {
                            assert(comes_before(k, i, m as int, j as int));
                            lemma_column_index(dims, k, i);
                            if k < m {
                                lemma_cols_before_mono(dims, k + 1, m as int);
                            }
                            assert(sorted_cols@[cols_before(dims, k) + i] == before[cols_before(
                                dims,
                                k,
                            ) + i]);
                        }
                    }
                }
                j = j + 1;
            }
            proof {
                let mi = m as int;
                if width > 0 {
                    lemma_position_bounds(dims, skip, mi, width - 1);
                }
                assert(rows_before(dims, skip, mi + 1) == position(dims, skip, mi, width as int));
                assert forall|m1: int, j1: int|
                    is_column(dims, m1, j1) && comes_before(
                        m1,
                        j1,
                        mi + 1,
                        0,
                    ) implies #[trigger] fits(dims, skip, lsh, m1, j1) by {
                    assert(comes_before(m1, j1, mi, width as int));
                }
                assert forall|k: int, i: int| #[trigger]
                    is_column(dims, k, i) && k < mi + 1 implies {
                    let entry = sorted_cols@[cols_before(dims, k) + i];
                    &&& entry.0 == k
                    &&& entry.1 == i
                    &&& is_slice_of(entry.2, dims, skip, height as int, k, i)
                } by {
                    assert(comes_before(k, i, mi, width as int));
                }
            }
            m = m + 1;
        }
        proof {
            assert(sorted_cols@.len() == sorted_cols.len());
        }
        let width = if row_idx != 0 {
            col_idx + 1
        } else {
            col_idx
        };
        proof {
            let total = rows_before(dims, skip, n) as int;
            let h = height as int;
            if row_idx == 0 {
                assert(total == 0);
                lemma_fundamental_div_mod_converse(h - 1, h, 0, h - 1);
            } else {
                assert((col_idx + 1) * h == col_idx * h + h) by (nonlinear_arith);
                lemma_fundamental_div_mod_converse(
                    total + h - 1,
                    h,
                    col_idx + 1,
                    row_idx - 1,
                );
            }
            assert forall|m1: int, j1: int| is_column(dims, m1, j1) implies #[trigger] fits(
                dims,
                skip,
                lsh,
                m1,
                j1,
            ) by {
                assert(comes_before(m1, j1, n, 0));
            }
        }
        Ok(StackedLayout { l_skip, height, width, sorted_cols, mat_starts })
    }

    /// A layout made of columns that are taken as they are; only the order of their matrix
    /// indices is checked, which count up from zero without gaps.
    pub fn from_raw_parts(
        l_skip: usize,
        log_stacked_height: usize,
        sorted_cols: Vec<(usize, usize, StackedSlice)>,
    ) -> (r: Result<Self, StackedPcsError>)
        requires
            log_stacked_height < usize::BITS,
            forall|i: int|
                0 <= i < sorted_cols@.len() ==> (#[trigger] sorted_cols@[i]).2.col_idx < usize::MAX,
        ensures
            is_made_of(r, l_skip, log_stacked_height as nat, sorted_cols),
    {
        let height = pow2_usize(log_stacked_height);
        let mut width: usize = 0;
        let mut mat_starts: Vec<usize> = Vec::new();
        let mut i: usize = 0;
        while i < sorted_cols.len()
            invariant
                i <= sorted_cols@.len(),
                forall|k: int|
                    0 <= k < sorted_cols@.len() ==> (#[trigger] sorted_cols@[k]).2.col_idx
                        < usize::MAX,
                is_width_of(width as int, sorted_cols@, i as int),
            decreases sorted_cols@.len() - i,
        {
            let end = sorted_cols[i].2.col_idx + 1;
            if end > width {
                width = end;
            }
            i = i + 1;
        }
        let mut i: usize = 0;
        while i < sorted_cols.len()
            invariant
                i <= sorted_cols@.len(),
                counts_up(sorted_cols@, i as int),
                are_starts_of(mat_starts@, sorted_cols@, i as int),
            decreases sorted_cols@.len() - i,
        {
            let mat_idx = sorted_cols[i].0;
            if i == 0 || mat_starts.len() - 1 != mat_idx {
                if mat_idx != mat_starts.len() {
                    proof {
                        assert(!continues(sorted_cols@, i as int));
                    }
                    return Err(
                        StackedPcsError::LayoutRawPartsMatIdx {
                            mat_idx,
                            mat_starts_len: mat_starts.len(),
                        },
                    );
                }
                mat_starts.push(i);
            }
            proof {
                assert(continues(sorted_cols@, i as int));
            }
            i = i + 1;
        }
        Ok(StackedLayout { l_skip, height, width, sorted_cols, mat_starts })
    }

    /// The places of all columns, in order.
    pub fn unstacked_slices_iter(&self) -> (r: Vec<StackedSlice>)
        ensures
            r@ == self.sorted_cols@.map_values(|c: (usize, usize, StackedSlice)| c.2),
    {
        let mut r: Vec<StackedSlice> = Vec::with_capacity(self.sorted_cols.len());
        let mut i: usize = 0;
        while i < self.sorted_cols.len()
            invariant
                i <= self.sorted_cols@.len(),
                r@.len() == i,
                forall|k: int| 0 <= k < i ==> #[trigger] r@[k] == self.sorted_cols@[k].2,
            decreases self.sorted_cols@.len() - i,
        {
            r.push(self.sorted_cols[i].2);
            i = i + 1;
        }
        assert(r@ =~= self.sorted_cols@.map_values(|c: (usize, usize, StackedSlice)| c.2));
        r
    }

    /// The place of column `col_idx` of the matrix `mat_idx`.
    pub fn get(&self, mat_idx: usize, col_idx: usize) -> (r: Option<&StackedSlice>)
        requires
            mat_idx < self.mat_starts@.len(),
            self.mat_starts@[mat_idx as int] + col_idx <= usize::MAX,
            ({
                let i = self.mat_starts@[mat_idx as int] + col_idx;
                i < self.sorted_cols@.len() ==> self.sorted_cols@[i].0 == mat_idx
                    && self.sorted_cols@[i].1 == col_idx
            }),
        ensures
            ({
                let i = self.mat_starts@[mat_idx as int] + col_idx;
                r == (if i >= self.sorted_cols@.len() {
                    None::<&StackedSlice>
                } else {
                    Some(&self.sorted_cols@[i].2)
                })
            }),
    {
        let idx = self.mat_starts[mat_idx];
        if idx + col_idx >= self.sorted_cols.len() {
            return None;
        }
        Some(&self.sorted_cols[idx + col_idx].2)
    }

    /// The number of columns of the matrix `mat_idx`, which has at least one.
    pub fn width_of(&self, mat_idx: usize) -> (r: usize)
        requires
            mat_idx < self.mat_starts@.len(),
            ({
                let i = self.mat_starts@[mat_idx as int] as int;
                &&& i < self.sorted_cols@.len()
                &&& self.sorted_cols@[i].0 == mat_idx
                &&& self.sorted_cols@[i].1 == 0
                &&& mat_idx + 1 < self.mat_starts@.len() ==> i <= self.mat_starts@[mat_idx + 1]
            }),
        ensures
            r == (if mat_idx + 1 < self.mat_starts@.len() {
                self.mat_starts@[mat_idx + 1] as int
            } else {
                self.sorted_cols@.len() as int
            }) - self.mat_starts@[mat_idx as int],
    {
        let start_idx = self.mat_starts[mat_idx];
        let next_idx = if mat_idx < self.mat_starts.len() - 1 {
            self.mat_starts[mat_idx + 1]
        } else {
            self.sorted_cols.len()
        };
        next_idx - start_idx
    }

    /// The columns of the matrix `mat_idx`, in order.
    pub open spec fn cols_of(&self, mat_idx: usize) -> Seq<(usize, usize, StackedSlice)> {
        self.sorted_cols@.filter(of_matrix(mat_idx))
    }

    /// Whether the matrix `mat_idx` has columns, and these lie inside the stacked matrix.
    pub open spec fn can_view<F>(
        &self,
        mat_idx: usize,
        stacked_matrix: &ColMajorMatrix<F>,
    ) -> bool {
        let cols = self.cols_of(mat_idx);
        let s = cols[0].2;
        let rows = slice_len(s.log_height as nat, self.l_skip as nat) * cols.len();
        &&& cols.len() > 0
        &&& self.l_skip < usize::BITS
        &&& s.log_height < usize::BITS
        &&& s.col_idx * stacked_matrix.height + s.row_idx + rows <= stacked_matrix.values@.len()
    }

    /// Whether `view` shows the rows of the stacked matrix from where the first column of the
    /// matrix `mat_idx` lies, as many as all its columns take up.
    pub open spec fn is_view<F>(
        &self,
        mat_idx: usize,
        stacked_matrix: &ColMajorMatrix<F>,
        view: StridedColMajorMatrixView<F>,
    ) -> bool {
        let cols = self.cols_of(mat_idx);
        let s = cols[0].2;
        let rows = slice_len(s.log_height as nat, self.l_skip as nat) * cols.len();
        let start = s.col_idx * stacked_matrix.height + s.row_idx;
        &&& view.width == cols.len()
        &&& view.stride == slice_stride(s.log_height as nat, self.l_skip as nat)
        &&& view.values@ == stacked_matrix.values@.subrange(start, start + rows)
    }

    /// A view of the matrix `unstacked_mat_idx` inside the stacked matrix, where its columns lie
    /// one after another.
    pub fn mat_view<'a, F>(
        &self,
        unstacked_mat_idx: usize,
        stacked_matrix: &'a ColMajorMatrix<F>,
    ) -> (r: StridedColMajorMatrixView<'a, F>)
        requires
            self.can_view(unstacked_mat_idx, stacked_matrix),
        ensures
            self.is_view(unstacked_mat_idx, stacked_matrix, r),
    {
        let ghost pred = of_matrix(unstacked_mat_idx);
        let mut width: usize = 0;
        let mut first: usize = 0;
        let mut i: usize = 0;
        let ghost all = self.sorted_cols@;
        proof {
            reveal(Seq::filter);
        }
        while i < self.sorted_cols.len()
            invariant
                i <= self.sorted_cols@.len(),
                all == self.sorted_cols@,
                pred == of_matrix(unstacked_mat_idx),
                width <= i,
                width == all.take(i as int).filter(pred).len(),
                width > 0 ==> first < i && all[first as int] == all.take(i as int).filter(pred)[0],
            decreases self.sorted_cols@.len() - i,
        {
            proof {
                reveal(Seq::filter);
                assert(all.take(i + 1).drop_last() =~= all.take(i as int));
            }
            if self.sorted_cols[i].0 == unstacked_mat_idx {
                if width == 0 {
                    first = i;
                }
                width = width + 1;
            }
            i = i + 1;
        }
        proof {
            assert(all.take(i as int) =~= all);
        }
        let s = self.sorted_cols[first].2;
        let lifted_height = s.len(self.l_skip);
        let stride = s.stride(self.l_skip);
        let values = stacked_matrix.values.as_slice();
        proof {
            assert(values.len() == values@.len());
            assert(0 <= s.col_idx * stacked_matrix.height) by (nonlinear_arith);
            assert(0 <= lifted_height * width) by (nonlinear_arith);
        }
        let start = col_maj_idx(s.row_idx, s.col_idx, stacked_matrix.height);
        let part = vstd::slice::slice_subrange(values, start, start + lifted_height * width);
        StridedColMajorMatrixView::new(part, width, stride)
    }
}

/// Whether a column belongs to the matrix `mat_idx`.
pub open spec fn of_matrix(mat_idx: usize) -> spec_fn((usize, usize, StackedSlice)) -> bool {
    |c: (usize, usize, StackedSlice)| c.0 == mat_idx
}

/// The number of matrices that have begun before entry `i`.
pub open spec fn mats_before(cols: Seq<(usize, usize, StackedSlice)>, i: int) -> int {
    if i <= 0 {
        0
    } else {
        cols[i - 1].0 + 1
    }
}

/// Whether entry `i` belongs to the same matrix as the one before it, or to the next one.
pub open spec fn continues(cols: Seq<(usize, usize, StackedSlice)>, i: int) -> bool {
    ||| cols[i].0 == mats_before(cols, i)
    ||| i > 0 && cols[i].0 + 1 == mats_before(cols, i)
}

/// Whether the matrix indices of the first `n` entries count up from zero without gaps.
pub open spec fn counts_up(cols: Seq<(usize, usize, StackedSlice)>, n: int) -> bool {
    forall|i: int| 0 <= i < n ==> #[trigger] continues(cols, i)
}

/// Whether `width` is the least number of columns that hold the first `n` entries.
pub open spec fn is_width_of(width: int, cols: Seq<(usize, usize, StackedSlice)>, n: int) -> bool {
    &&& forall|i: int| 0 <= i < n ==> (#[trigger] cols[i]).2.col_idx < width
    &&& width > 0 ==> exists|i: int| 0 <= i < n && (#[trigger] cols[i]).2.col_idx + 1 == width
    &&& width >= 0
}

/// Whether `starts` holds, for each matrix among the first `n` entries, the index of its first
/// entry.
pub open spec fn are_starts_of(
    starts: Seq<usize>,
    cols: Seq<(usize, usize, StackedSlice)>,
    n: int,
) -> bool {
    &&& starts.len() == mats_before(cols, n)
    &&& forall|i: int| 0 <= i < n ==> (#[trigger] cols[i]).0 < starts.len()
    &&& forall|m: int|
        0 <= m < starts.len() ==> {
            &&& (#[trigger] starts[m]) < n
            &&& cols[starts[m] as int].0 == m
        }
    &&& forall|i: int, m: int|
        0 <= i < n && 0 <= m < starts.len() ==> ((#[trigger] cols[i]).0 < m <==> i < (
        #[trigger] starts[m]))
}

/// Whether `r` is what the columns make as they are: a layout where their matrix indices count up
/// from zero without gaps, and else an error that names the first that does not.
pub open spec fn is_made_of(
    r: Result<StackedLayout, StackedPcsError>,
    l_skip: usize,
    log_stacked_height: nat,
    sorted_cols: Vec<(usize, usize, StackedSlice)>,
) -> bool {
    let cols = sorted_cols@;
    let n = cols.len() as int;
    match r {
        Ok(layout) => {
            &&& counts_up(cols, n)
            &&& layout.l_skip == l_skip
            &&& layout.height == pow2(log_stacked_height)
            &&& layout.sorted_cols == sorted_cols
            &&& is_width_of(layout.width as int, cols, n)
            &&& are_starts_of(layout.mat_starts@, cols, n)
        },
        Err(e) => exists|i: int|
            {
                &&& 0 <= i < n
                &&& counts_up(cols, i)
                &&& !#[trigger] continues(cols, i)
                &&& e == StackedPcsError::LayoutRawPartsMatIdx {
                    mat_idx: cols[i].0,
                    mat_starts_len: mats_before(cols, i) as usize,
                }
            },
    }
}

/// Columns are packed without gaps: the first one starts at the first stacked row, each takes up
/// as many rows as it has, or as the univariate domain has where those are more, the next one
/// starts behind it, and so does the first one of the next matrix.
pub proof fn columns_are_packed(dims: Dims, l_skip: nat, m: int, j: int)
    requires
        is_column(dims, m, j),
    ensures
        ({
            let h = dims[m].1 as nat;
            let taken = pow2(
                if h >= l_skip {
                    h
                } else {
                    l_skip
                },
            );
            &&& position(dims, l_skip, 0, 0) == 0
            &&& position(dims, l_skip, m, j + 1) == position(dims, l_skip, m, j) + taken
            &&& j + 1 == dims[m].0 ==> position(dims, l_skip, m + 1, 0) == position(
                dims,
                l_skip,
                m,
                j,
            ) + taken
            &&& j + 1 == dims[m].0 ==> rows_before(dims, l_skip, m + 1) == position(
                dims,
                l_skip,
                m,
                j,
            ) + taken
        }),
{
    let s = slice_len(dims[m].1 as nat, l_skip) as int;
    assert((j + 1) * s == j * s + s) by (nonlinear_arith);
    assert(0 * slice_len(dims[0].1 as nat, l_skip) == 0) by (nonlinear_arith);
    assert(0 * slice_len(dims[m + 1].1 as nat, l_skip) == 0) by (nonlinear_arith);
}

} // verus!
