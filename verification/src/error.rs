//! Errors of stacking, encoding and committing.

use vstd::prelude::*;

verus! {

#[derive(Copy, Clone, Debug, PartialEq, Eq, Structural)]
pub enum StackedPcsError {
    /// A column is higher than the stacked matrix.
    LayoutHeightExceeded { log_height: usize, log_stacked_height: usize },
    /// A column does not fit into what is left of the current stacked column.
    LayoutRowOverflow { col_idx: usize, stacked_height: usize },
    /// The matrix indices of raw parts do not count up from zero.
    LayoutRawPartsMatIdx { mat_idx: usize, mat_starts_len: usize },
    /// The stacked matrix has more cells than can be addressed.
    StackedMatrixOverflow,
    /// The blowup shifts the height by the width of the machine word or more.
    RsCodeShiftOverflow { height: usize, log_blowup: usize },
    /// The Merkle tree has no layers.
    MerkleTreeNoRoot,
    /// The query index is not one of the tree's queries.
    MerkleTreeQueryOutOfBounds { query_idx: usize, query_stride: usize },
    /// The matrix to commit to has no rows.
    MerkleTreeEmptyMatrix,
    /// The number of rows per query is not a power of two.
    MerkleTreeRowsPerQueryNotPow2 { rows_per_query: usize },
    /// There are more rows per query than leaves.
    MerkleTreeRowsPerQueryExceeded { rows_per_query: usize, num_leaves: usize },
    /// The index of the rows to open is not one of the tree's queries.
    MerkleTreeOpenedRowsOutOfBounds { index: usize, query_stride: usize },
}

} // verus!
