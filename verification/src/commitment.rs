//! Commitment to the Reed-Solomon codewords of stacked traces.

use vstd::arithmetic::power2::*;
use vstd::prelude::*;

use crate::bits::{lemma_log2_pow2, lemma_next_pow2_fixed, pow2_usize};
use crate::code_laws::columns_decide_encoding;
use crate::error::StackedPcsError;
use crate::field::BabyBear;
use crate::hasher::MerkleHasher;
use crate::matrix::{ColMajorMatrix, StridedColMajorMatrixView};
use crate::merkle_tree::{leaf_hashes, opened_by, opened_rows_verify, row_hash, MerkleTree};
use crate::reed_solomon::{
    is_encoding, lemma_height_is_pow2, rs_code_matrix, rs_height_of,
};
use crate::stacked_layout::{rows_before, StackedLayout};
use crate::stacked_pcs::{all_fit, dims_of, is_stacking, stacked_matrix, stacked_width};
use crate::tree::{auth_path, digest_layers, lemma_stride_is_pow2, path_root, tree_root};

verus! {

/// A commitment to stacked traces with all that is needed to open it.
#[derive(Clone)]
pub struct StackedPcsData<F, Digest> {
    /// Where the columns of the traces lie in the stacked matrix.
    pub layout: StackedLayout,
    /// The stacked matrix.
    pub matrix: ColMajorMatrix<F>,
    /// The Merkle tree over the codewords of its columns.
    pub tree: MerkleTree<F, Digest>,
}

impl<F, Digest: Copy> StackedPcsData<F, Digest> {
    pub fn new(
        layout: StackedLayout,
        matrix: ColMajorMatrix<F>,
        tree: MerkleTree<F, Digest>,
    ) -> (r: Self)
        ensures
            r.layout == layout,
            r.matrix == matrix,
            r.tree == tree,
    {
        StackedPcsData { layout, matrix, tree }
    }

    /// The root of the Merkle tree.
    pub fn commit(&self) -> (r: Result<Digest, StackedPcsError>)
        requires
            self.tree.layers().len() > 0 ==> self.tree.layers().last().len() > 0,
        ensures
            r == (if self.tree.layers().len() == 0 {
                Err::<Digest, StackedPcsError>(StackedPcsError::MerkleTreeNoRoot)
            } else {
                Ok(self.tree.layers().last()[0])
            }),
    {
        self.tree.root()
    }

    /// A view of a trace inside the stacked matrix.
    pub fn mat_view(&self, unstacked_mat_idx: usize) -> (r: StridedColMajorMatrixView<'_, F>)
        requires
            self.layout.can_view(unstacked_mat_idx, &self.matrix),
        ensures
            self.layout.is_view(unstacked_mat_idx, &self.matrix, r),
    {
        self.layout.mat_view(unstacked_mat_idx, &self.matrix)
    }
}

/// What committing to the traces gives: the root and the data, or the error of the first step
/// that fails.
pub open spec fn is_commitment<
    H: MerkleHasher<F = BabyBear>,
    M: Fn(usize, Vec<BabyBear>) -> Vec<BabyBear>,
>(
    hasher: &H,
    l_skip: usize,
    n_stack: usize,
    log_blowup: usize,
    k_whir: usize,
    traces: Seq<&ColMajorMatrix<BabyBear>>,
    message: M,
    r: Result<(H::Digest, StackedPcsData<BabyBear, H::Digest>), StackedPcsError>,
) -> bool {
    let height = pow2((l_skip + n_stack) as nat);
    let rs_height = rs_height_of(height, log_blowup);
    let rows_per_query = pow2(k_whir as nat);
    match r {
        Ok((root, data)) => {
            &&& is_stacking(l_skip, n_stack, traces, Ok((data.matrix, data.layout)))
            &&& log_blowup < usize::BITS
            &&& is_encoding(message, l_skip, log_blowup, data.matrix, data.tree.backing_matrix)
            &&& rows_per_query <= rs_height
            &&& data.tree.rows_per_query == rows_per_query
            &&& data.tree.layers() == digest_layers(
                hasher.node(),
                leaf_hashes::<H, BabyBear>(hasher, &data.tree.backing_matrix),
                rows_per_query,
            )
            &&& data.tree.layers().last().len() == 1
            &&& root == data.tree.layers().last()[0]
        },
        Err(e) => {
            ||| is_stacking(l_skip, n_stack, traces, Err(e))
            ||| {
                &&& all_fit(l_skip, n_stack, traces)
                &&& stacked_width(l_skip, n_stack, traces) * height <= usize::MAX
                &&& log_blowup >= usize::BITS
                &&& e == StackedPcsError::RsCodeShiftOverflow {
                    height: height as usize,
                    log_blowup,
                }
            }
            ||| {
                &&& all_fit(l_skip, n_stack, traces)
                &&& stacked_width(l_skip, n_stack, traces) * height <= usize::MAX
                &&& log_blowup < usize::BITS
                &&& rows_per_query > rs_height
                &&& e == StackedPcsError::MerkleTreeRowsPerQueryExceeded {
                    rows_per_query: rows_per_query as usize,
                    num_leaves: rs_height as usize,
                }
            }
        },
    }
}

/// Stacks the traces, encodes the stacked columns as codewords and commits to these with a Merkle
/// tree of `2^k_whir` rows per query.
///
/// `message` gives the coefficients of the polynomial that stands for a stacked column.
pub fn stacked_commit<
    H: MerkleHasher<F = BabyBear>,
    M: Fn(usize, Vec<BabyBear>) -> Vec<BabyBear>,
>(
    hasher: &H,
    l_skip: usize,
    n_stack: usize,
    log_blowup: usize,
    k_whir: usize,
    traces: &[&ColMajorMatrix<BabyBear>],
    message: &M,
) -> (r: Result<(H::Digest, StackedPcsData<BabyBear, H::Digest>), StackedPcsError>)
    requires
        l_skip + n_stack + 1 < usize::BITS,
        k_whir < usize::BITS,
        forall|i: int|
            0 <= i < traces@.len() ==> (#[trigger] traces@[i]).wf() && is_pow2(
                traces@[i].height as int,
            ),
        all_fit(l_skip, n_stack, traces@) ==> {
            &&& 0 < rows_before(dims_of(traces@), l_skip as nat, traces@.len() as int)
                <= usize::MAX
            &&& log_blowup < usize::BITS ==> {
                let rs_height = rs_height_of(pow2((l_skip + n_stack) as nat), log_blowup);
                &&& rs_height <= pow2(27)
                &&& stacked_width(l_skip, n_stack, traces@) * rs_height <= usize::MAX
            }
        },
        forall|a: Vec<BabyBear>|
            a@.len() == pow2((l_skip + n_stack) as nat) ==> #[trigger] call_requires(
                *message,
                (l_skip, a),
            ),
    ensures
        is_commitment(
            hasher,
            l_skip,
            n_stack,
            log_blowup,
            k_whir,
            traces@,
            *message,
            r,
        ),
{
    let ghost height = pow2((l_skip + n_stack) as nat);
    let ghost rs_height = rs_height_of(height, log_blowup);
    let (q_trace, layout) = match stacked_matrix(l_skip, n_stack, traces) {
        Ok(v) => v,
        Err(e) => return Err(e),
    };
    proof {
        lemma_pow2_pos((l_skip + n_stack) as nat);
        let rows = rows_before(dims_of(traces@), l_skip as nat, traces@.len() as int);
        let w = stacked_width(l_skip, n_stack, traces@);
        assert(w > 0) by (nonlinear_arith)
            requires
                w == (rows + height - 1) / (height as int),
                rows > 0,
                height > 0,
        ;
        assert(q_trace.values@.len() == q_trace.values.len());
        lemma_log2_pow2((l_skip + n_stack) as nat);
        lemma_height_is_pow2(height, log_blowup);
        lemma_next_pow2_fixed(rs_height);
        vstd::arithmetic::power2::lemma2_to64();
    }
    let rs_matrix = match rs_code_matrix(l_skip, log_blowup, &q_trace, message) {
        Ok(m) => m,
        Err(e) => return Err(e),
    };
    let rows_per_query = pow2_usize(k_whir);
    proof {
        lemma_log2_pow2(k_whir as nat);
        assert(rs_matrix.values@.len() == rs_matrix.values.len());
        assert(rs_matrix.height == rs_height);
        lemma_pow2_pos(log_blowup as nat);
    }
    let tree = match MerkleTree::new(hasher, rs_matrix, rows_per_query) {
        Ok(t) => t,
        Err(e) => return Err(e),
    };
    proof {
        let stride = rs_height / (rows_per_query as nat);
        assert(stride > 0) by (nonlinear_arith)
            requires
                stride == rs_height / (rows_per_query as nat),
                0 < rows_per_query <= rs_height,
        ;
        opened_rows_verify::<H, BabyBear>(hasher, &rs_matrix, rows_per_query as nat, 0);
    }
    let root = match tree.root() {
        Ok(d) => d,
        Err(e) => return Err(e),
    };
    Ok((root, StackedPcsData::new(layout, q_trace, tree)))
}

/// A commitment opens to codewords. The codewords of the stacked columns are as many times longer
/// than the columns as the blowup says, `2^k_whir` rows of them go into each query, and from what
/// any query opens, its Merkle proof leads to the commitment.
pub proof fn commitment_opens_to_codewords<
    H: MerkleHasher<F = BabyBear>,
    M: Fn(usize, Vec<BabyBear>) -> Vec<BabyBear>,
>(
    hasher: &H,
    l_skip: usize,
    n_stack: usize,
    log_blowup: usize,
    k_whir: usize,
    traces: Seq<&ColMajorMatrix<BabyBear>>,
    message: M,
    root: H::Digest,
    data: StackedPcsData<BabyBear, H::Digest>,
    q: int,
)
    requires
        is_commitment(
            hasher,
            l_skip,
            n_stack,
            log_blowup,
            k_whir,
            traces,
            message,
            Ok((root, data)),
        ),
        data.matrix.width > 0,
        0 <= q < pow2((l_skip + n_stack) as nat) * pow2(log_blowup as nat) / pow2(k_whir as nat),
    ensures
        ({
            let code = data.tree.backing_matrix;
            let layers = data.tree.layers();
            let opened = opened_by(&code, pow2(k_whir as nat), layers[0].len(), q);
            let digest = tree_root(
                hasher.node(),
                opened.map_values(|row: Seq<BabyBear>| row_hash::<H, BabyBear>(hasher, row)),
            );
            &&& log_blowup < usize::BITS
            &&& code.width == data.matrix.width
            &&& code.height == pow2((l_skip + n_stack) as nat) * pow2(log_blowup as nat)
            &&& layers[0].len() * pow2(k_whir as nat) == code.height
            &&& path_root(hasher.node(), digest, q, auth_path(layers, q)) == root
        }),
{
    let height = pow2((l_skip + n_stack) as nat);
    let rs_height = rs_height_of(height, log_blowup);
    let rows_per_query = pow2(k_whir as nat);
    let code = data.tree.backing_matrix;
    assert(data.matrix.height == height);
    lemma_log2_pow2((l_skip + n_stack) as nat);
    lemma_log2_pow2(k_whir as nat);
    lemma_height_is_pow2(height, log_blowup);
    lemma_next_pow2_fixed(rs_height);
    lemma_pow2_pos((l_skip + n_stack) as nat);
    lemma_pow2_pos(log_blowup as nat);
    columns_decide_encoding(message, l_skip, log_blowup, data.matrix, code);
    assert(code.height == rs_height);
    assert(rs_height > 0) by (nonlinear_arith)
        requires
            rs_height == height * pow2(log_blowup as nat),
            height > 0,
            pow2(log_blowup as nat) > 0,
    ;
    opened_rows_verify::<H, BabyBear>(hasher, &code, rows_per_query, q);
    lemma_stride_is_pow2(rs_height, rows_per_query);
}

} // verus!
