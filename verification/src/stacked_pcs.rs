//! Stacking of trace matrices and commitment to the stacked matrix.

use vstd::arithmetic::div_mod::*;
use vstd::arithmetic::mul::*;
use vstd::arithmetic::power2::*;
use vstd::prelude::*;

use crate::bits::{
    lemma_pow2_log2, lemma_pow2_mono, lemma_usize_bits, log2, log2_strict_usize, pow2_usize,
};
use crate::error::StackedPcsError;
use crate::field::Zero;
use crate::matrix::{ColMajorMatrix, StridedColMajorMatrixView};
use crate::stacked_layout::{
    cols_before, columns_are_disjoint, columns_are_packed, comes_before, fit_before, fits,
    is_column, is_layout_of, is_refusal, is_slice_of, lemma_column_index,
    lemma_cols_before_mono, lemma_position_bounds, lemma_rows_before_mono, lemma_slice_len,
    of_matrix, position, rows_before, slice_len, slice_stride, Dims, StackedLayout,
};

verus! {

/// The width and the log height of each trace.
pub open spec fn dims_of<F>(traces: Seq<&ColMajorMatrix<F>>) -> Dims {
    Seq::new(
        traces.len(),
        |i: int| (traces[i].width, log2(traces[i].height as nat) as usize),
    )
}

/// Whether trace `m` has a cell in row `i` of column `j`.
pub open spec fn is_cell(dims: Dims, m: int, j: int, i: int) -> bool {
    is_column(dims, m, j) && 0 <= i < pow2(dims[m].1 as nat)
}

/// Where that cell lies among the values of the stacked matrix.
pub open spec fn cell_position(dims: Dims, l_skip: nat, m: int, j: int, i: int) -> int {
    position(dims, l_skip, m, j) + i * slice_stride(dims[m].1 as nat, l_skip)
}

/// Whether `values` hold every cell of the traces at its place, and zero everywhere else.
pub open spec fn holds_traces<F: Zero>(
    values: Seq<F>,
    l_skip: nat,
    traces: Seq<&ColMajorMatrix<F>>,
) -> bool {
    let dims = dims_of(traces);
    &&& forall|m: int, j: int, i: int| #[trigger]
        is_cell(dims, m, j, i) ==> {
            &&& 0 <= cell_position(dims, l_skip, m, j, i) < values.len()
            &&& values[cell_position(dims, l_skip, m, j, i)] == traces[m].at(i, j)
        }
    &&& forall|p: int|
        0 <= p < values.len() ==> (#[trigger] values[p]) == F::spec_zero() || exists|
            m: int,
            j: int,
            i: int,
        |
            #[trigger] is_cell(dims, m, j, i) && cell_position(dims, l_skip, m, j, i) == p
}

/// A cell lies within the rows that its column takes up.
proof fn lemma_cell_in_slice(dims: Dims, l_skip: nat, m: int, j: int, i: int)
    requires
        is_cell(dims, m, j, i),
    ensures
        position(dims, l_skip, m, j) <= cell_position(dims, l_skip, m, j, i),
        cell_position(dims, l_skip, m, j, i) < position(dims, l_skip, m, j + 1),
        0 <= position(dims, l_skip, m, j),
{
    let stride = slice_stride(dims[m].1 as nat, l_skip) as int;
    let h = pow2(dims[m].1 as nat) as int;
    lemma_slice_len(dims[m].1 as nat, l_skip);
    lemma_position_bounds(dims, l_skip, m, j);
    assert(0 <= i * stride && i * stride + stride <= h * stride) by (nonlinear_arith)
        requires
            0 <= i < h,
            stride >= 1,
    ;
}

/// Distinct cells lie at distinct places.
pub proof fn cells_are_disjoint(
    dims: Dims,
    l_skip: nat,
    m1: int,
    j1: int,
    i1: int,
    m2: int,
    j2: int,
    i2: int,
)
    requires
        is_cell(dims, m1, j1, i1),
        is_cell(dims, m2, j2, i2),
        cell_position(dims, l_skip, m1, j1, i1) == cell_position(dims, l_skip, m2, j2, i2),
    ensures
        m1 == m2,
        j1 == j2,
        i1 == i2,
{
    lemma_cell_in_slice(dims, l_skip, m1, j1, i1);
    lemma_cell_in_slice(dims, l_skip, m2, j2, i2);
    lemma_position_bounds(dims, l_skip, m1, j1);
    lemma_position_bounds(dims, l_skip, m2, j2);
    if comes_before(m1, j1, m2, j2) {
        columns_are_disjoint(dims, l_skip, m1, j1, m2, j2);
    } else if comes_before(m2, j2, m1, j1) {
        columns_are_disjoint(dims, l_skip, m2, j2, m1, j1);
    }
    lemma_slice_len(dims[m1].1 as nat, l_skip);
    let stride = slice_stride(dims[m1].1 as nat, l_skip) as int;
    assert(i1 == i2) by (nonlinear_arith)
        requires
            i1 * stride == i2 * stride,
            stride >= 1,
    ;
}

/// Whether every column of the traces fits where it comes to lie.
pub open spec fn all_fit<F>(
    l_skip: usize,
    n_stack: usize,
    traces: Seq<&ColMajorMatrix<F>>,
) -> bool {
    forall|m: int, j: int|
        is_column(dims_of(traces), m, j) ==> #[trigger] fits(
            dims_of(traces),
            l_skip as nat,
            (l_skip + n_stack) as nat,
            m,
            j,
        )
}

/// The number of columns that the stacked columns fill, the last one maybe in part.
pub open spec fn stacked_width<F>(
    l_skip: usize,
    n_stack: usize,
    traces: Seq<&ColMajorMatrix<F>>,
) -> int {
    let height = pow2((l_skip + n_stack) as nat);
    (rows_before(dims_of(traces), l_skip as nat, traces.len() as int) + height - 1) / (
    height as int)
}

/// What stacking makes of the traces: the stacked matrix and its layout, or the error for the
/// first column that does not fit, or that for a matrix that is too large.
pub open spec fn is_stacking<F: Zero>(
    l_skip: usize,
    n_stack: usize,
    traces: Seq<&ColMajorMatrix<F>>,
    r: Result<(ColMajorMatrix<F>, StackedLayout), StackedPcsError>,
) -> bool {
    let dims = dims_of(traces);
    let lsh = (l_skip + n_stack) as nat;
    let width = stacked_width(l_skip, n_stack, traces);
    match r {
        Ok((matrix, layout)) => {
            &&& all_fit(l_skip, n_stack, traces)
            &&& is_layout_of(layout, l_skip as nat, lsh, dims)
            &&& matrix.wf()
            &&& matrix.width == width
            &&& width > 0 ==> matrix.height == pow2(lsh)
            &&& holds_traces(matrix.values@, l_skip as nat, traces)
        },
        Err(e) => {
            ||| exists|m: int, j: int|
                {
                    &&& is_column(dims, m, j)
                    &&& !#[trigger] fits(dims, l_skip as nat, lsh, m, j)
                    &&& fit_before(dims, l_skip as nat, lsh, m, j)
                    &&& is_refusal(e, dims, l_skip as nat, lsh, m, j)
                }
            ||| {
                &&& all_fit(l_skip, n_stack, traces)
                &&& width * pow2(lsh) > usize::MAX
                &&& e == StackedPcsError::StackedMatrixOverflow
            }
        },
    }
}

/// Stacks the columns of the traces, which are in descending order of height, into one matrix of
/// height `2^(l_skip + n_stack)`.
pub fn stacked_matrix<F: Zero>(
    l_skip: usize,
    n_stack: usize,
    traces: &[&ColMajorMatrix<F>],
) -> (r: Result<(ColMajorMatrix<F>, StackedLayout), StackedPcsError>)
    requires
        l_skip + n_stack + 1 < usize::BITS,
        forall|i: int|
            0 <= i < traces@.len() ==> (#[trigger] traces@[i]).wf() && is_pow2(
                traces@[i].height as int,
            ),
        all_fit(l_skip, n_stack, traces@) ==> rows_before(
            dims_of(traces@),
            l_skip as nat,
            traces@.len() as int,
        ) <= usize::MAX,
    ensures
        is_stacking(l_skip, n_stack, traces@, r),
{
    let n = traces.len();
    let ghost dims = dims_of(traces@);
    let ghost skip = l_skip as nat;
    let ghost lsh = (l_skip + n_stack) as nat;
    let mut sorted_meta: Vec<(usize, usize)> = Vec::with_capacity(n);
    let mut i: usize = 0;
    while i < n
        invariant
            i <= n,
            n == traces@.len(),
            dims == dims_of(traces@),
            forall|k: int|
                0 <= k < traces@.len() ==> (#[trigger] traces@[k]).wf() && is_pow2(
                    traces@[k].height as int,
                ),
            sorted_meta@.len() == i,
            forall|k: int| 0 <= k < i ==> #[trigger] sorted_meta@[k] == dims[k],
        decreases n - i,
    {
        let log_height = log2_strict_usize(traces[i].height());
        sorted_meta.push((traces[i].width(), log_height));
        i = i + 1;
    }
    assert(sorted_meta@ =~= dims);
    let layout = match StackedLayout::new(l_skip, l_skip + n_stack, sorted_meta) {
        Ok(layout) => layout,
        Err(e) => {
            return Err(e);
        },
    };
    let min_rows = pow2_usize(l_skip);
    let height = pow2_usize(l_skip + n_stack);
    let mut total_cells: usize = 0;
    let mut i: usize = 0;
    while i < n
        invariant
            i <= n,
            n == traces@.len(),
            dims == dims_of(traces@),
            skip == l_skip,
            min_rows == pow2(skip),
            forall|k: int|
                0 <= k < traces@.len() ==> (#[trigger] traces@[k]).wf() && is_pow2(
                    traces@[k].height as int,
                ),
            rows_before(dims, skip, n as int) <= usize::MAX,
            total_cells == rows_before(dims, skip, i as int),
        decreases n - i,
    {
        let t = traces[i];
        let rows = if t.height() > min_rows {
            t.height()
        } else {
            min_rows
        };
        proof {
            assert(traces@[i as int].wf());
            lemma_pow2_log2(t.height as nat);
            let e = log2(t.height as nat);
            lemma_usize_bits();
            if e >= usize::BITS {
                lemma_pow2_mono(usize::BITS as nat, e);
            }
            assert(dims[i as int] == (t.width, e as usize));
            if e <= skip {
                lemma_pow2_mono(e, skip);
            } else {
                lemma_pow2_strictly_increases(skip, e);
            }
            assert(rows == slice_len(dims[i as int].1 as nat, skip));
            lemma_rows_before_mono(dims, skip, i + 1, n as int);
            assert(rows_before(dims, skip, i + 1) == total_cells + t.width * rows);
            assert(t.width * rows == rows * t.width) by (nonlinear_arith);
            assert(t.width * rows >= 0) by (nonlinear_arith);
        }
        total_cells = total_cells + rows * t.width();
        i = i + 1;
    }
    let rest = total_cells % height;
    proof {
        let q = total_cells as int / (height as int);
        lemma_fundamental_div_mod(total_cells as int, height as int);
        assert(rest != 0 ==> q + 1 <= total_cells) by (nonlinear_arith)
            requires
                total_cells == height * q + rest,
                height >= 1,
                q >= 0,
        ;
    }
    let width = if rest == 0 {
        total_cells / height
    } else {
        total_cells / height + 1
    };
    proof {
        let t = total_cells as int;
        let h = height as int;
        lemma_fundamental_div_mod(t, h);
        if rest == 0 {
            lemma_fundamental_div_mod_converse(t + h - 1, h, t / h, h - 1);
        } else {
            assert((t / h + 1) * h == h * (t / h) + h) by (nonlinear_arith);
            lemma_fundamental_div_mod_converse(t + h - 1, h, t / h + 1, rest - 1);
        }
        assert(width as int == (t + h - 1) / h);
        assert(t <= width * h) by (nonlinear_arith)
            requires
                t == h * (t / h) + rest,
                rest == 0 ==> width == t / h,
                rest != 0 ==> width == t / h + 1,
                rest < h,
        ;
    }
    let cells = match width.checked_mul(height) {
        Some(cells) => cells,
        None => {
            return Err(StackedPcsError::StackedMatrixOverflow);
        },
    };
    let mut q_mat: Vec<F> = Vec::with_capacity(cells);
    let mut i: usize = 0;
    while i < cells
        invariant
            i <= cells,
            q_mat@.len() == i,
            forall|k: int| 0 <= k < i ==> #[trigger] q_mat@[k] == F::spec_zero(),
        decreases cells - i,
    {
        q_mat.push(F::zero());
        i = i + 1;
    }
    let mut m: usize = 0;
    while m < n
        invariant
            m <= n,
            n == traces@.len(),
            dims == dims_of(traces@),
            skip == l_skip,
            lsh == l_skip + n_stack,
            lsh + 1 < usize::BITS,
            height == pow2(lsh),
            is_layout_of(layout, skip, lsh, dims),
            forall|k: int|
                0 <= k < traces@.len() ==> (#[trigger] traces@[k]).wf() && is_pow2(
                    traces@[k].height as int,
                ),
            rows_before(dims, skip, n as int) <= q_mat@.len() == cells,
            stacked_until(q_mat@, skip, traces@, m as int, 0),
        decreases n - m,
    {
        let start_col = layout.mat_starts[m];
        let trace = traces[m];
        let trace_width = trace.width();
        let mut j: usize = 0;
        while j < trace_width
            invariant
                m < n,
                n == traces@.len(),
                dims == dims_of(traces@),
                skip == l_skip,
                lsh == l_skip + n_stack,
                lsh + 1 < usize::BITS,
                height == pow2(lsh),
                is_layout_of(layout, skip, lsh, dims),
                forall|k: int|
                    0 <= k < traces@.len() ==> (#[trigger] traces@[k]).wf() && is_pow2(
                        traces@[k].height as int,
                    ),
                rows_before(dims, skip, n as int) <= q_mat@.len() == cells,
                start_col == cols_before(dims, m as int),
                trace == traces@[m as int],
                trace_width == dims[m as int].0,
                j <= trace_width,
                stacked_until(q_mat@, skip, traces@, m as int, j as int),
            decreases trace_width - j,
        {
            let ghost mi = m as int;
            let ghost ji = j as int;
            proof {
                assert(is_column(dims, mi, ji));
                lemma_column_index(dims, mi, ji);
                lemma_position_bounds(dims, skip, mi, ji);
                assert(layout.sorted_cols@.len() == layout.sorted_cols.len());
                assert(q_mat@.len() == q_mat.len());
            }
            let s = layout.sorted_cols[start_col + j].2;
            proof {
                assert(0 <= s.col_idx * height) by (nonlinear_arith);
                lemma_slice_len(dims[mi].1 as nat, skip);
                lemma_log_height(trace.height);
            }
            let start = s.col_idx * height + s.row_idx;
            let stride = s.stride(l_skip);
            let ghost before = q_mat@;
            let rows = trace.height();
            let mut i: usize = 0;
            while i < rows
                invariant
                    i <= rows,
                    m == mi,
                    j == ji,
                    is_column(dims, mi, ji),
                    dims == dims_of(traces@),
                    trace == traces@[mi],
                    trace.wf(),
                    rows == trace.height,
                    rows == pow2(dims[mi].1 as nat),
                    start == position(dims, skip, mi, ji),
                    stride == slice_stride(dims[mi].1 as nat, skip),
                    position(dims, skip, mi, ji + 1) <= q_mat@.len(),
                    q_mat@.len() == before.len(),
                    forall|p: int|
                        0 <= p < before.len() && (p < start || p >= start + i * stride) ==> (
                        #[trigger] q_mat@[p]) == before[p],
                    forall|p: int|
                        start <= p < start + i * stride && p < before.len() ==> ((
                        #[trigger] q_mat@[p]) == before[p] || exists|k: int|
                            0 <= k < i && #[trigger] cell_position(dims, skip, mi, ji, k) == p),
                    forall|k: int|
                        0 <= k < i ==> q_mat@[#[trigger] cell_position(dims, skip, mi, ji, k)]
                            == trace.at(k, ji),
                decreases rows - i,
            {
                let ghost prev = q_mat@;
                proof {
                    assert(is_cell(dims, mi, ji, i as int));
                    lemma_cell_in_slice(dims, skip, mi, ji, i as int);
                    trace.lemma_in_bounds(i as int, ji);
                    assert(q_mat@.len() == q_mat.len());
                    assert(0 <= i * stride) by (nonlinear_arith);
                    assert((i + 1) * stride == i * stride + stride) by (nonlinear_arith);
                    lemma_slice_len(dims[mi].1 as nat, skip);
                }
                let ghost at = cell_position(dims, skip, mi, ji, i as int);
                let cell = match trace.get(i, j) {
                    Some(v) => *v,
                    None => F::zero(),
                };
                q_mat.set(start + i * stride, cell);
                proof {
                    assert forall|k: int| 0 <= k < i + 1 implies q_mat@[#[trigger] cell_position(
                        dims,
                        skip,
                        mi,
                        ji,
                        k,
                    )] == trace.at(k, ji) by {
                        if k < i {
                            assert(k * stride < i * stride) by (nonlinear_arith)
                                requires
                                    k < i,
                                    stride >= 1,
                            ;
                            assert(is_cell(dims, mi, ji, k));
                            lemma_cell_in_slice(dims, skip, mi, ji, k);
                        }
                    }
                    assert forall|p: int|
                        start <= p < start + (i + 1) * stride && p < before.len() implies ((
                    #[trigger] q_mat@[p]) == before[p] || exists|k: int|
                        0 <= k < i + 1 && #[trigger] cell_position(dims, skip, mi, ji, k) == p) by {
                        if p == at {
                            assert(cell_position(dims, skip, mi, ji, i as int) == p);
                        } else {
                            assert(q_mat@[p] == prev[p]);
                            if p < start + i * stride {
                                if prev[p] != before[p] {
                                    let k = choose|k: int|
                                        0 <= k < i && #[trigger] cell_position(
                                            dims,
                                            skip,
                                            mi,
                                            ji,
                                            k,
                                        ) == p;
                                    assert(cell_position(dims, skip, mi, ji, k) == p);
                                }
                            }
                        }
                    }
                }
                i = i + 1;
            }
            proof {
                lemma_stacked_step(before, q_mat@, skip, traces@, mi, ji);
            }
            j = j + 1;
        }
        proof {
            lemma_stacked_next(q_mat@, skip, traces@, m as int);
        }
        m = m + 1;
    }
    proof {
        lemma_stacked_done(q_mat@, skip, traces@);
        if width > 0 {
            assert(cells as int == width * height);
            lemma_mod_multiples_basic(height as int, width as int);
            lemma_div_by_multiple(height as int, width as int);
            assert(height * width == width * height) by (nonlinear_arith);
        } else {
            assert(width * height == 0) by (nonlinear_arith)
                requires
                    width == 0,
            ;
        }
    }
    Ok((ColMajorMatrix::new(q_mat, width), layout))
}

proof fn lemma_log_height(height: usize)
    requires
        is_pow2(height as int),
    ensures
        log2(height as nat) < usize::BITS,
        height == pow2(log2(height as nat) as usize as nat),
{
    lemma_pow2_log2(height as nat);
    lemma_usize_bits();
    let e = log2(height as nat);
    if e >= usize::BITS {
        lemma_pow2_mono(usize::BITS as nat, e);
    }
}

/// Whether `values` hold the cells of all columns before column `j` of trace `m`, and zero
/// everywhere else.
spec fn stacked_until<F: Zero>(
    values: Seq<F>,
    l_skip: nat,
    traces: Seq<&ColMajorMatrix<F>>,
    m: int,
    j: int,
) -> bool {
    let dims = dims_of(traces);
    &&& forall|m1: int, j1: int, i1: int| #[trigger]
        is_cell(dims, m1, j1, i1) && comes_before(m1, j1, m, j) ==> values[cell_position(
            dims,
            l_skip,
            m1,
            j1,
            i1,
        )] == traces[m1].at(i1, j1)
    &&& forall|p: int|
        0 <= p < values.len() ==> (#[trigger] values[p]) == F::spec_zero() || exists|
            m1: int,
            j1: int,
            i1: int,
        |
            #[trigger] is_cell(dims, m1, j1, i1) && comes_before(m1, j1, m, j) && cell_position(
                dims,
                l_skip,
                m1,
                j1,
                i1,
            ) == p
}

proof fn lemma_stacked_step<F: Zero>(
    before: Seq<F>,
    after: Seq<F>,
    l_skip: nat,
    traces: Seq<&ColMajorMatrix<F>>,
    m: int,
    j: int,
)
    requires
        is_column(dims_of(traces), m, j),
        stacked_until(before, l_skip, traces, m, j),
        before.len() == after.len(),
        rows_before(dims_of(traces), l_skip, traces.len() as int) <= before.len(),
        ({
            let dims = dims_of(traces);
            let start = position(dims, l_skip, m, j);
            let h = pow2(dims[m].1 as nat) as int;
            let end = start + h * slice_stride(dims[m].1 as nat, l_skip);
            &&& forall|p: int|
                0 <= p < before.len() && (p < start || p >= end) ==> (#[trigger] after[p])
                    == before[p]
            &&& forall|p: int|
                start <= p < end && p < before.len() ==> ((#[trigger] after[p]) == before[p]
                    || exists|k: int|
                    0 <= k < h && #[trigger] cell_position(dims, l_skip, m, j, k) == p)
            &&& forall|k: int|
                0 <= k < h ==> after[#[trigger] cell_position(dims, l_skip, m, j, k)]
                    == traces[m].at(k, j)
        }),
    ensures
        stacked_until(after, l_skip, traces, m, j + 1),
{
    let dims = dims_of(traces);
    let start = position(dims, l_skip, m, j);
    lemma_slice_len(dims[m].1 as nat, l_skip);
    lemma_position_bounds(dims, l_skip, m, j);
    assert forall|m1: int, j1: int, i1: int| #[trigger]
        is_cell(dims, m1, j1, i1) && comes_before(m1, j1, m, j + 1) implies after[cell_position(
        dims,
        l_skip,
        m1,
        j1,
        i1,
    )] == traces[m1].at(i1, j1) by {
        lemma_cell_in_slice(dims, l_skip, m1, j1, i1);
        lemma_position_bounds(dims, l_skip, m1, j1);
        if m1 == m && j1 == j {
        } else {
            assert(comes_before(m1, j1, m, j));
            columns_are_disjoint(dims, l_skip, m1, j1, m, j);
        }
    }
    assert forall|p: int| 0 <= p < after.len() implies (#[trigger] after[p]) == F::spec_zero()
        || exists|m1: int, j1: int, i1: int|
        #[trigger] is_cell(dims, m1, j1, i1) && comes_before(m1, j1, m, j + 1) && cell_position(
            dims,
            l_skip,
            m1,
            j1,
            i1,
        ) == p by {
        if after[p] == before[p] {
            if before[p] != F::spec_zero() {
                let (m1, j1, i1) = choose|m1: int, j1: int, i1: int|
                    #[trigger] is_cell(dims, m1, j1, i1) && comes_before(m1, j1, m, j)
                        && cell_position(dims, l_skip, m1, j1, i1) == p;
                assert(is_cell(dims, m1, j1, i1) && comes_before(m1, j1, m, j + 1));
            }
        } else {
            let h = pow2(dims[m].1 as nat) as int;
            let k = choose|k: int|
                0 <= k < h && #[trigger] cell_position(dims, l_skip, m, j, k) == p;
            assert(is_cell(dims, m, j, k) && comes_before(m, j, m, j + 1));
        }
    }
}

proof fn lemma_stacked_next<F: Zero>(
    values: Seq<F>,
    l_skip: nat,
    traces: Seq<&ColMajorMatrix<F>>,
    m: int,
)
    requires
        0 <= m < traces.len(),
        stacked_until(values, l_skip, traces, m, dims_of(traces)[m].0 as int),
    ensures
        stacked_until(values, l_skip, traces, m + 1, 0),
{
    let dims = dims_of(traces);
    let w = dims[m].0 as int;
    assert forall|m1: int, j1: int, i1: int| #[trigger]
        is_cell(dims, m1, j1, i1) && comes_before(m1, j1, m + 1, 0) implies values[cell_position(
        dims,
        l_skip,
        m1,
        j1,
        i1,
    )] == traces[m1].at(i1, j1) by {
        assert(comes_before(m1, j1, m, w));
    }
    assert forall|p: int| 0 <= p < values.len() implies (#[trigger] values[p]) == F::spec_zero()
        || exists|m1: int, j1: int, i1: int|
        #[trigger] is_cell(dims, m1, j1, i1) && comes_before(m1, j1, m + 1, 0) && cell_position(
            dims,
            l_skip,
            m1,
            j1,
            i1,
        ) == p by {
        if values[p] != F::spec_zero() {
            let (m1, j1, i1) = choose|m1: int, j1: int, i1: int|
                #[trigger] is_cell(dims, m1, j1, i1) && comes_before(m1, j1, m, w)
                    && cell_position(dims, l_skip, m1, j1, i1) == p;
            assert(is_cell(dims, m1, j1, i1) && comes_before(m1, j1, m + 1, 0));
        }
    }
}

proof fn lemma_stacked_done<F: Zero>(
    values: Seq<F>,
    l_skip: nat,
    traces: Seq<&ColMajorMatrix<F>>,
)
    requires
        stacked_until(values, l_skip, traces, traces.len() as int, 0),
        rows_before(dims_of(traces), l_skip, traces.len() as int) <= values.len(),
    ensures
        holds_traces(values, l_skip, traces),
{
    let dims = dims_of(traces);
    let n = traces.len() as int;
    assert forall|m: int, j: int, i: int| #[trigger] is_cell(dims, m, j, i) implies {
        &&& 0 <= cell_position(dims, l_skip, m, j, i) < values.len()
        &&& values[cell_position(dims, l_skip, m, j, i)] == traces[m].at(i, j)
    } by {
        assert(comes_before(m, j, n, 0));
        lemma_cell_in_slice(dims, l_skip, m, j, i);
        lemma_position_bounds(dims, l_skip, m, j);
    }
    assert forall|p: int| 0 <= p < values.len() implies (#[trigger] values[p]) == F::spec_zero()
        || exists|m: int, j: int, i: int|
        #[trigger] is_cell(dims, m, j, i) && cell_position(dims, l_skip, m, j, i) == p by {
        if values[p] != F::spec_zero() {
            let (m1, j1, i1) = choose|m1: int, j1: int, i1: int|
                #[trigger] is_cell(dims, m1, j1, i1) && comes_before(m1, j1, n, 0)
                    && cell_position(dims, l_skip, m1, j1, i1) == p;
            assert(is_cell(dims, m1, j1, i1));
        }
    }
}

/// The elements that satisfy `pred` are those from `a` to `b`, where no others do.
proof fn lemma_filter_range<T>(s: Seq<T>, pred: spec_fn(T) -> bool, a: int, b: int)
    requires
        0 <= a <= b <= s.len(),
        forall|i: int| 0 <= i < s.len() ==> (pred(#[trigger] s[i]) <==> a <= i < b),
    ensures
        s.filter(pred) == s.subrange(a, b),
    decreases s.len(),
{
    reveal(Seq::filter);
    if s.len() == 0 {
        assert(s.filter(pred) =~= s.subrange(a, b));
    } else {
        let t = s.drop_last();
        let n = s.len() - 1;
        if b == s.len() && a < b {
            lemma_filter_range(t, pred, a, b - 1);
            assert(t.subrange(a, b - 1).push(s.last()) =~= s.subrange(a, b));
            assert(pred(s[n]));
        } else if a == b {
            let a1 = if a > n {
                n
            } else {
                a
            };
            lemma_filter_range(t, pred, a1, a1);
            assert(!pred(s[n]));
            assert(s.filter(pred) =~= s.subrange(a, b));
        } else {
            lemma_filter_range(t, pred, a, b);
            assert(!pred(s[n]));
            assert(t.subrange(a, b) =~= s.subrange(a, b));
        }
    }
}

/// Every entry of a layout is a column of one of its matrices.
proof fn lemma_entry_column(dims: Dims, k: int, n: int) -> (mj: (int, int))
    requires
        0 <= n <= dims.len(),
        0 <= k < cols_before(dims, n),
    ensures
        is_column(dims, mj.0, mj.1),
        mj.0 < n,
        k == cols_before(dims, mj.0) + mj.1,
    decreases n,
{
    if k >= cols_before(dims, n - 1) {
        (n - 1, k - cols_before(dims, n - 1))
    } else {
        lemma_entry_column(dims, k, n - 1)
    }
}

/// The columns that a layout lists for a matrix are the columns of that matrix.
proof fn lemma_cols_of(layout: StackedLayout, l_skip: nat, lsh: nat, dims: Dims, m: usize)
    requires
        is_layout_of(layout, l_skip, lsh, dims),
        m < dims.len(),
    ensures
        layout.cols_of(m) == layout.sorted_cols@.subrange(
            cols_before(dims, m as int) as int,
            cols_before(dims, m + 1) as int,
        ),
{
    let cols = layout.sorted_cols@;
    let a = cols_before(dims, m as int) as int;
    let b = cols_before(dims, m + 1) as int;
    let n = dims.len() as int;
    lemma_cols_before_mono(dims, m + 1, n);
    assert forall|i: int| 0 <= i < cols.len() implies (of_matrix(m)(#[trigger] cols[i]) <==> a <= i
        < b) by {
        let (m1, j1) = lemma_entry_column(dims, i, n);
        assert(is_column(dims, m1, j1));
        lemma_column_index(dims, m1, j1);
        if m1 < m {
            lemma_cols_before_mono(dims, m1 + 1, m as int);
        } else if m1 > m {
            lemma_cols_before_mono(dims, m + 1, m1);
        }
    }
    lemma_filter_range(cols, of_matrix(m), a, b);
}

/// Stacking loses nothing: each trace that has columns can be viewed inside the stacked matrix,
/// and the view shows the cells of the trace.
pub proof fn view_shows_trace<F: Zero>(
    layout: StackedLayout,
    l_skip: nat,
    log_stacked_height: nat,
    traces: Seq<&ColMajorMatrix<F>>,
    matrix: &ColMajorMatrix<F>,
    m: usize,
    view: StridedColMajorMatrixView<F>,
)
    requires
        l_skip < usize::BITS,
        forall|i: int| 0 <= i < traces.len() ==> is_pow2((#[trigger] traces[i]).height as int),
        is_layout_of(layout, l_skip, log_stacked_height, dims_of(traces)),
        matrix.height == pow2(log_stacked_height),
        matrix.values@.len() >= rows_before(dims_of(traces), l_skip, traces.len() as int),
        holds_traces(matrix.values@, l_skip, traces),
        m < traces.len(),
        traces[m as int].width > 0,
    ensures
        layout.can_view(m, matrix),
        layout.is_view(m, matrix, view) ==> {
            &&& view.wf()
            &&& view.width == traces[m as int].width
            &&& view.spec_height() == traces[m as int].height
            &&& forall|i: int, j: int|
                0 <= i < view.spec_height() && 0 <= j < view.width ==> #[trigger] view.at(i, j)
                    == traces[m as int].at(i, j)
        },
{
    let dims = dims_of(traces);
    let mi = m as int;
    let trace = traces[mi];
    let w = trace.width as int;
    let lh = dims[mi].1 as nat;
    let len = slice_len(lh, l_skip) as int;
    let stride = slice_stride(lh, l_skip) as int;
    let h = trace.height as int;
    lemma_log_height(trace.height);
    assert(lh == log2(trace.height as nat));
    lemma_slice_len(lh, l_skip);
    lemma_cols_of(layout, l_skip, log_stacked_height, dims, m);
    let cols = layout.cols_of(m);
    assert(is_column(dims, mi, 0));
    lemma_column_index(dims, mi, 0);
    assert(cols.len() == w);
    let s = cols[0].2;
    assert(cols[0] == layout.sorted_cols@[cols_before(dims, mi) + 0int]);
    let start = position(dims, l_skip, mi, 0);
    assert(s.col_idx * matrix.height + s.row_idx == start);
    assert(is_column(dims, mi, w - 1));
    lemma_position_bounds(dims, l_skip, mi, w - 1);
    assert(start == rows_before(dims, l_skip, mi)) by {
        assert(0 * len == 0);
    }
    assert(len * w == w * len) by (nonlinear_arith);
    assert(layout.can_view(m, matrix));
    if layout.is_view(m, matrix, view) {
        assert(view.values@.len() == len * w);
        lemma_mod_multiples_basic(len, w);
        lemma_div_by_multiple(len, w);
        assert(view.lifted_height() == len);
        assert(len == h * stride);
        lemma_mod_multiples_basic(h, stride);
        lemma_div_by_multiple(h, stride);
        assert forall|i: int, j: int|
            0 <= i < view.spec_height() && 0 <= j < view.width implies #[trigger] view.at(i, j)
            == trace.at(i, j) by {
            assert(is_cell(dims, mi, j, i));
            lemma_cell_in_slice(dims, l_skip, mi, j, i);
            lemma_position_bounds(dims, l_skip, mi, j);
            let at = cell_position(dims, l_skip, mi, j, i);
            let p = j * len + i * stride;
            assert(at == start + p);
            assert(0 <= j * len && 0 <= i * stride) by (nonlinear_arith)
                requires
                    0 <= i,
                    0 <= j,
                    len >= 0,
                    stride >= 0,
            ;
            assert(view.values@[p] == matrix.values@[start + p]);
        }
    }
}

/// There are as many stacked columns as the rows of the traces need, and no more.
pub proof fn stacked_columns_suffice<F>(
    l_skip: usize,
    n_stack: usize,
    traces: Seq<&ColMajorMatrix<F>>,
)
    ensures
        ({
            let height = pow2((l_skip + n_stack) as nat) as int;
            let rows = rows_before(dims_of(traces), l_skip as nat, traces.len() as int);
            rows <= stacked_width(l_skip, n_stack, traces) * height < rows + height
        }),
{
    let height = pow2((l_skip + n_stack) as nat) as int;
    let rows = rows_before(dims_of(traces), l_skip as nat, traces.len() as int) as int;
    lemma_pow2_pos((l_skip + n_stack) as nat);
    let q = (rows + height - 1) / height;
    vstd::arithmetic::div_mod::lemma_fundamental_div_mod(rows + height - 1, height);
    assert(height * q == q * height) by (nonlinear_arith);
}

/// Every cell lies where the layout says: cell `i` of column `j` of trace `m` is in the stacked
/// column of its slice, as many times the stride below the first row of the slice as there are
/// cells before it.
pub proof fn cells_lie_in_their_slices<F: Zero>(
    l_skip: usize,
    n_stack: usize,
    traces: Seq<&ColMajorMatrix<F>>,
    matrix: ColMajorMatrix<F>,
    layout: StackedLayout,
    m: int,
    j: int,
    i: int,
)
    requires
        is_stacking(l_skip, n_stack, traces, Ok((matrix, layout))),
        is_cell(dims_of(traces), m, j, i),
    ensures
        ({
            let dims = dims_of(traces);
            let entry = layout.sorted_cols@[cols_before(dims, m) + j];
            let slice = entry.2;
            let row = slice.row_idx + i * slice_stride(dims[m].1 as nat, l_skip as nat);
            &&& entry.0 == m
            &&& entry.1 == j
            &&& matrix.height == pow2((l_skip + n_stack) as nat)
            &&& row < matrix.height
            &&& slice.col_idx < matrix.width
            &&& matrix.at(row, slice.col_idx as int) == traces[m].at(i, j)
        }),
{
    let dims = dims_of(traces);
    let skip = l_skip as nat;
    let height = pow2((l_skip + n_stack) as nat) as int;
    let entry = layout.sorted_cols@[cols_before(dims, m) + j];
    let slice = entry.2;
    assert(is_column(dims, m, j));
    assert(is_slice_of(slice, dims, skip, height, m, j));
    lemma_cell_in_slice(dims, skip, m, j, i);
    columns_are_packed(dims, skip, m, j);
    let p = cell_position(dims, skip, m, j, i);
    let row = slice.row_idx + i * slice_stride(dims[m].1 as nat, skip);
    assert(p == slice.col_idx * height + row);
    let w = matrix.width as int;
    assert(w > 0) by {
        if w == 0 {
            assert(matrix.values@.len() == 0) by (nonlinear_arith)
                requires
                    matrix.values@.len() == w * matrix.height,
                    w == 0,
            ;
        }
    }
    assert(0 <= row < height);
    assert(slice.col_idx < w) by (nonlinear_arith)
        requires
            slice.col_idx * height + row < w * height,
            0 <= row < height,
    ;
}

/// Stacked traces are told apart: lists of traces of the same dimensions that stack to the same
/// values have the same cells.
pub proof fn stacked_traces_are_told_apart<F: Zero>(
    l_skip: usize,
    n_stack: usize,
    x: Seq<&ColMajorMatrix<F>>,
    y: Seq<&ColMajorMatrix<F>>,
    of_x: (ColMajorMatrix<F>, StackedLayout),
    of_y: (ColMajorMatrix<F>, StackedLayout),
    m: int,
    j: int,
    i: int,
)
    requires
        is_stacking(l_skip, n_stack, x, Ok(of_x)),
        is_stacking(l_skip, n_stack, y, Ok(of_y)),
        dims_of(x) == dims_of(y),
        of_x.0.values@ == of_y.0.values@,
        is_cell(dims_of(x), m, j, i),
    ensures
        x[m].at(i, j) == y[m].at(i, j),
{
    let p = cell_position(dims_of(x), l_skip as nat, m, j, i);
    assert(of_x.0.values@[p] == x[m].at(i, j));
    assert(of_y.0.values@[p] == y[m].at(i, j));
}

} // verus!
