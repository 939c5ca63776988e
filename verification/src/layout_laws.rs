//! A layout is determined by its columns.

use vstd::arithmetic::div_mod::*;
use vstd::arithmetic::power2::*;
use vstd::prelude::*;

use crate::error::StackedPcsError;
use crate::stacked_layout::{
    cols_before, continues, counts_up, is_column, is_layout_of, is_made_of, is_slice_of,
    lemma_column_index, lemma_position_bounds, lemma_slice_len, mats_before, rows_before,
    slice_len, Dims, StackedLayout, StackedSlice,
};

verus! {

/// Whether entry `i` of the layout is that of column `j` of matrix `m`.
spec fn is_entry(layout: StackedLayout, dims: Dims, i: int, m: int, j: int) -> bool {
    &&& is_column(dims, m, j)
    &&& i == cols_before(dims, m) + j
    &&& layout.sorted_cols@[i].0 == m
}

/// Each entry of a layout is that of a column.
proof fn lemma_entry(
    layout: StackedLayout,
    l_skip: nat,
    log_stacked_height: nat,
    dims: Dims,
    i: int,
    n: int,
) -> (r: (int, int))
    requires
        is_layout_of(layout, l_skip, log_stacked_height, dims),
        0 <= n <= dims.len(),
        0 <= i < cols_before(dims, n),
    ensures
        is_entry(layout, dims, i, r.0, r.1),
    decreases n,
{
    if i < cols_before(dims, n - 1) {
        lemma_entry(layout, l_skip, log_stacked_height, dims, i, n - 1)
    } else {
        let (m, j) = (n - 1, i - cols_before(dims, n - 1));
        assert(is_column(dims, m, j));
        (m, j)
    }
}

/// The entries of a layout of matrices that all have columns count up from zero without gaps.
proof fn lemma_counts_up(
    layout: StackedLayout,
    l_skip: nat,
    log_stacked_height: nat,
    dims: Dims,
)
    requires
        is_layout_of(layout, l_skip, log_stacked_height, dims),
        forall|m: int| 0 <= m < dims.len() ==> (#[trigger] dims[m]).0 > 0,
    ensures
        counts_up(layout.sorted_cols@, layout.sorted_cols@.len() as int),
{
    let cols = layout.sorted_cols@;
    let n = dims.len() as int;
    assert forall|i: int| 0 <= i < cols.len() implies #[trigger] continues(cols, i) by {
        let (m, j) = lemma_entry(layout, l_skip, log_stacked_height, dims, i, n);
        if j > 0 {
            assert(is_column(dims, m, j - 1));
            assert(cols[cols_before(dims, m) + (j - 1)].0 == m);
        } else if m > 0 {
            let w = dims[m - 1].0 as int;
            assert(is_column(dims, m - 1, w - 1));
            assert(cols[cols_before(dims, m - 1) + (w - 1)].0 == m - 1);
        }
    }
}

/// Every column of a layout lies within its width, and the last one reaches it.
proof fn lemma_width(
    layout: StackedLayout,
    l_skip: nat,
    log_stacked_height: nat,
    dims: Dims,
    m: int,
    j: int,
)
    requires
        is_layout_of(layout, l_skip, log_stacked_height, dims),
        is_column(dims, m, j),
    ensures
        ({
            let col_idx = layout.sorted_cols@[cols_before(dims, m) + j].2.col_idx;
            &&& col_idx < layout.width
            &&& m == dims.len() - 1 && j == dims[m].0 - 1 ==> col_idx + 1 == layout.width
        }),
{
    let n = dims.len() as int;
    let h = pow2(log_stacked_height) as int;
    lemma_pow2_pos(log_stacked_height);
    let slice = layout.sorted_cols@[cols_before(dims, m) + j].2;
    assert(is_slice_of(slice, dims, l_skip, h, m, j));
    let len = slice_len(dims[m].1 as nat, l_skip) as int;
    let total = rows_before(dims, l_skip, n) as int;
    let c = slice.col_idx as int;
    let end = slice.row_idx + len;
    lemma_slice_len(dims[m].1 as nat, l_skip);
    lemma_position_bounds(dims, l_skip, m, j);
    // c h + end <= total, and 1 <= end <= h
    let w = (total + h - 1) / h;
    assert(c < w) by (nonlinear_arith)
        requires
            c * h + end <= total,
            1 <= end,
            h > 0,
            w == (total + h - 1) / h,
    ;
    if m == n - 1 && j == dims[m].0 - 1 {
        assert((c + 1) * h == c * h + h) by (nonlinear_arith);
        lemma_fundamental_div_mod_converse(total + h - 1, h, c + 1, end - 1);
    }
}

/// A layout is made again from its own columns: where every matrix has a column, taking the
/// columns of a layout as they are gives that layout back.
pub proof fn raw_parts_give_layout_back(
    layout: StackedLayout,
    l_skip: usize,
    log_stacked_height: nat,
    dims: Dims,
    sorted_cols: Vec<(usize, usize, StackedSlice)>,
    r: Result<StackedLayout, StackedPcsError>,
)
    requires
        is_layout_of(layout, l_skip as nat, log_stacked_height, dims),
        forall|m: int| 0 <= m < dims.len() ==> (#[trigger] dims[m]).0 > 0,
        sorted_cols@ == layout.sorted_cols@,
        is_made_of(r, l_skip, log_stacked_height, sorted_cols),
    ensures
        forall|i: int|
            0 <= i < sorted_cols@.len() ==> (#[trigger] sorted_cols@[i]).2.col_idx < usize::MAX,
        r matches Ok(again) && {
            &&& again.l_skip == layout.l_skip
            &&& again.height == layout.height
            &&& again.width == layout.width
            &&& again.sorted_cols@ == layout.sorted_cols@
            &&& again.mat_starts@ == layout.mat_starts@
        },
{
    let cols = sorted_cols@;
    let n = dims.len() as int;
    let len = cols.len() as int;
    let skip = l_skip as nat;
    lemma_counts_up(layout, skip, log_stacked_height, dims);
    assert(r is Ok);
    let again = r->Ok_0;
    assert forall|i: int| 0 <= i < len implies (#[trigger] cols[i]).2.col_idx < layout.width by {
        let (m, j) = lemma_entry(layout, skip, log_stacked_height, dims, i, n);
        lemma_width(layout, skip, log_stacked_height, dims, m, j);
    }
    if n == 0 {
        let h = pow2(log_stacked_height) as int;
        lemma_pow2_pos(log_stacked_height);
        lemma_fundamental_div_mod_converse(h - 1, h, 0, h - 1);
        assert(again.mat_starts@ =~= layout.mat_starts@);
    } else {
        // The last entry is that of the last column.
        let (m, j) = (n - 1, dims[n - 1].0 - 1);
        assert(is_column(dims, m, j));
        assert(len - 1 == cols_before(dims, m) + j);
        assert(cols[cols_before(dims, m) + j].0 == m);
        lemma_width(layout, skip, log_stacked_height, dims, m, j);
        let top = choose|i: int| 0 <= i < len && (#[trigger] cols[i]).2.col_idx + 1 == again.width;
        assert(cols[len - 1].2.col_idx < again.width);
        assert(cols[top].2.col_idx < layout.width);
        assert(mats_before(cols, len) == n);
        let starts = again.mat_starts@;
        assert forall|m: int| 0 <= m < n implies #[trigger] starts[m] == layout.mat_starts@[m] by {
            assert(is_column(dims, m, 0));
            lemma_column_index(dims, m, 0);
            let i = cols_before(dims, m) as int;
            assert(cols[cols_before(dims, m) as int + 0].0 == m);
            assert(!(cols[i].0 < m));
            assert(i >= starts[m]);
            let s = starts[m] as int;
            let (m1, j1) = lemma_entry(layout, skip, log_stacked_height, dims, s, n);
            assert(cols[s].0 == m);
        }
        assert(starts =~= layout.mat_starts@);
    }
}

} // verus!
