//! Merkle trees over the rows of a row-major matrix of codewords.

use vstd::arithmetic::div_mod::*;
use vstd::arithmetic::power2::*;
use vstd::prelude::*;
use vstd::slice::{slice_subrange, slice_to_vec};

use crate::bits::{lemma_next_pow2_fixed, next_pow2, next_power_of_two};
use crate::digest_layers::{build_digest_layers_scalar, views};
use crate::error::StackedPcsError;
use crate::field::{bb, BabyBear};
use crate::hasher::MerkleHasher;
use crate::matrix::{ColMajorMatrix, RowMajorMatrix};
use crate::merkle_tree::{layers_proof, layers_root, leaf_hashes, padded_row, row_coeffs};
use crate::reed_solomon::{
    codeword, dft_batch, encode_columns, is_code_matrix, is_message,
    lemma_height_is_pow2, resize, resized, rs_height, rs_height_of,
};
use crate::tree::{
    auth_path, digest_layers, has_path, lemma_opening_leads_to_root, lemma_stride_is_pow2,
    path_root, strided, tree_root,
};

verus! {

/// A Merkle tree over the rows of a row-major matrix, with `rows_per_query` rows batched into
/// each query.
#[derive(Clone, Debug)]
pub struct CpuMerkleTree<F, Digest> {
    /// The matrix whose rows are the leaves.
    pub backing_matrix: RowMajorMatrix<F>,
    /// The digests from the queries up to the root.
    pub digest_layers: Vec<Vec<Digest>>,
    pub rows_per_query: usize,
}

/// Row `r` of the matrix; nothing below its last row.
pub open spec fn row_or_nothing<F>(matrix: &RowMajorMatrix<F>, r: int) -> Seq<F> {
    if r < matrix.spec_height() {
        matrix.row(r)
    } else {
        Seq::empty()
    }
}

/// The rows that a query opens: that of its own number, and those that lie a multiple of `stride`
/// below it.
pub open spec fn opened_by<F>(
    matrix: &RowMajorMatrix<F>,
    rows_per_query: nat,
    stride: nat,
    query: int,
) -> Seq<Seq<F>> {
    Seq::new(rows_per_query, |t: int| row_or_nothing(matrix, t * stride + query))
}

impl<F, Digest> CpuMerkleTree<F, Digest> {
    pub open spec fn layers(&self) -> Seq<Seq<Digest>> {
        views(self.digest_layers@)
    }

    /// A tree made of parts that are taken as they are.
    ///
    /// Nothing is checked: where the layers are not those of a tree over the rows of the matrix,
    /// the proofs read out of it lead nowhere.
    pub fn from_raw_parts(
        backing_matrix: RowMajorMatrix<F>,
        digest_layers: Vec<Vec<Digest>>,
        rows_per_query: usize,
    ) -> (r: Self)
        ensures
            r.backing_matrix == backing_matrix,
            r.digest_layers == digest_layers,
            r.rows_per_query == rows_per_query,
    {
        CpuMerkleTree { backing_matrix, digest_layers, rows_per_query }
    }

    pub fn backing_matrix(&self) -> (r: &RowMajorMatrix<F>)
        ensures
            *r == self.backing_matrix,
    {
        &self.backing_matrix
    }

    pub fn digest_layers(&self) -> (r: &Vec<Vec<Digest>>)
        ensures
            *r == self.digest_layers,
    {
        &self.digest_layers
    }

    pub fn rows_per_query(&self) -> (r: usize)
        ensures
            r == self.rows_per_query,
    {
        self.rows_per_query
    }

    /// The number of queries.
    pub fn query_stride(&self) -> (r: usize)
        requires
            self.layers().len() > 0,
        ensures
            r == self.layers()[0].len(),
    {
        self.digest_layers[0].len()
    }

    /// The number of siblings in a Merkle proof.
    pub fn proof_depth(&self) -> (r: usize)
        requires
            self.layers().len() > 0,
        ensures
            r == self.layers().len() - 1,
    {
        self.digest_layers.len() - 1
    }
}

impl<F, Digest: Copy> CpuMerkleTree<F, Digest> {
    /// The root of the tree.
    pub fn root(&self) -> (r: Result<Digest, StackedPcsError>)
        requires
            self.layers().len() > 0 ==> self.layers().last().len() > 0,
        ensures
            r == (if self.layers().len() == 0 {
                Err::<Digest, StackedPcsError>(StackedPcsError::MerkleTreeNoRoot)
            } else {
                Ok(self.layers().last()[0])
            }),
    {
        layers_root(&self.digest_layers)
    }

    /// The siblings on the way from the query to the root.
    pub fn query_merkle_proof(&self, query_idx: usize) -> (r: Result<Vec<Digest>, StackedPcsError>)
        requires
            self.layers().len() > 0,
            query_idx < self.layers()[0].len() ==> has_path(self.layers(), query_idx as int),
        ensures
            match r {
                Ok(path) => query_idx < self.layers()[0].len() && path@ == auth_path(
                    self.layers(),
                    query_idx as int,
                ),
                Err(e) => query_idx >= self.layers()[0].len() && e
                    == StackedPcsError::MerkleTreeQueryOutOfBounds {
                    query_idx,
                    query_stride: self.layers()[0].len() as usize,
                },
            },
    {
        layers_proof(&self.digest_layers, query_idx)
    }
}

impl<F: Copy, Digest> CpuMerkleTree<F, Digest> {
    /// The rows that the query `index` opens: row `index + t * query_stride` for each `t` below
    /// the number of rows per query. A row below the last one is opened as an empty row.
    pub fn get_opened_rows(&self, index: usize) -> (r: Result<Vec<Vec<F>>, StackedPcsError>)
        requires
            self.layers().len() > 0,
            index < self.layers()[0].len() ==> self.backing_matrix.width > 0,
            self.rows_per_query * self.layers()[0].len() <= usize::MAX,
        ensures
            match r {
                Ok(rows) => index < self.layers()[0].len() && views(rows@) == Seq::new(
                    self.rows_per_query as nat,
                    |t: int|
                        row_or_nothing(
                            &self.backing_matrix,
                            t * self.layers()[0].len() + index,
                        ),
                ) && views(rows@) == opened_by(
                    &self.backing_matrix,
                    self.rows_per_query as nat,
                    self.layers()[0].len(),
                    index as int,
                ),
                Err(e) => index >= self.layers()[0].len() && e
                    == StackedPcsError::MerkleTreeOpenedRowsOutOfBounds {
                    index,
                    query_stride: self.layers()[0].len() as usize,
                },
            },
    {
        let query_stride = self.query_stride();
        if index >= query_stride {
            return Err(
                StackedPcsError::MerkleTreeOpenedRowsOutOfBounds { index, query_stride },
            );
        }
        let width = self.backing_matrix.width;
        let height = self.backing_matrix.height();
        let n = self.rows_per_query;
        let ghost expected = Seq::new(
            n as nat,
            |t: int| row_or_nothing(&self.backing_matrix, t * query_stride + index),
        );
        let mut rows: Vec<Vec<F>> = Vec::with_capacity(n);
        let mut t: usize = 0;
        while t < n
            invariant
                t <= n,
                index < query_stride,
                n * query_stride <= usize::MAX,
                width == self.backing_matrix.width,
                width > 0,
                height == self.backing_matrix.spec_height(),
                rows@.len() == t,
                expected == Seq::new(
                    n as nat,
                    |t: int| row_or_nothing(&self.backing_matrix, t * query_stride + index),
                ),
                forall|i: int| 0 <= i < t ==> (#[trigger] rows@[i])@ == expected[i],
            decreases n - t,
        {
            proof {
                assert(0 <= t * query_stride && t * query_stride + query_stride <= n
                    * query_stride) by (nonlinear_arith)
                    requires
                        t < n,
                ;
            }
            let row_idx = t * query_stride + index;
            if row_idx < height {
                proof {
                    self.backing_matrix.lemma_row_in_bounds(row_idx as int);
                    assert(self.backing_matrix.values@.len() == self.backing_matrix.values.len());
                }
                let start = row_idx * width;
                let row = slice_subrange(
                    self.backing_matrix.values.as_slice(),
                    start,
                    start + width,
                );
                rows.push(slice_to_vec(row));
            } else {
                rows.push(Vec::new());
            }
            t = t + 1;
        }
        assert(views(rows@) =~= expected);
        Ok(rows)
    }
}

/// Hashes `num_leaves` rows: those of the codeword by `row_hash_fn`, the others by
/// `padding_hash_fn`.
pub fn hash_rows_with_padding<D, RowHashFn: Fn(usize) -> D, PaddingHashFn: Fn() -> D>(
    num_leaves: usize,
    codeword_height: usize,
    row_hash_fn: RowHashFn,
    padding_hash_fn: PaddingHashFn,
) -> (r: Vec<D>)
    requires
        forall|i: usize|
            i < num_leaves && i < codeword_height ==> #[trigger] call_requires(row_hash_fn, (i,)),
        codeword_height < num_leaves ==> call_requires(padding_hash_fn, ()),
    ensures
        r@.len() == num_leaves,
        forall|i: int|
            0 <= i < num_leaves && i < codeword_height ==> call_ensures(
                row_hash_fn,
                (i as usize,),
                #[trigger] r@[i],
            ),
        forall|i: int|
            codeword_height <= i < num_leaves ==> call_ensures(
                padding_hash_fn,
                (),
                #[trigger] r@[i],
            ),
{
    let mut digests: Vec<D> = Vec::with_capacity(num_leaves);
    let mut i: usize = 0;
    while i < num_leaves
        invariant
            i <= num_leaves,
            forall|i: usize|
                i < num_leaves && i < codeword_height ==> #[trigger] call_requires(
                    row_hash_fn,
                    (i,),
                ),
            codeword_height < num_leaves ==> call_requires(padding_hash_fn, ()),
            digests@.len() == i,
            forall|k: int|
                0 <= k < i && k < codeword_height ==> call_ensures(
                    row_hash_fn,
                    (k as usize,),
                    #[trigger] digests@[k],
                ),
            forall|k: int|
                codeword_height <= k < i ==> call_ensures(
                    padding_hash_fn,
                    (),
                    #[trigger] digests@[k],
                ),
        decreases num_leaves - i,
    {
        let d = if i < codeword_height {
            row_hash_fn(i)
        } else {
            padding_hash_fn()
        };
        digests.push(d);
        i = i + 1;
    }
    digests
}

/// Builds the digest layers over `row_hashes` with the hasher that verifies them.
pub fn build_digest_layers<H: MerkleHasher>(
    row_hashes: Vec<H::Digest>,
    rows_per_query: usize,
    hasher: &H,
) -> (r: Vec<Vec<H::Digest>>)
    requires
        is_pow2(rows_per_query as int),
        row_hashes@.len() > 0,
        row_hashes@.len() % (rows_per_query as nat) == 0,
    ensures
        views(r@) == digest_layers(hasher.node(), row_hashes@, rows_per_query as nat),
{
    build_digest_layers_scalar(row_hashes, rows_per_query, hasher)
}

/// The digests of the rows of the matrix, padded with rows of zeros to a power of two of rows.
pub open spec fn row_digests<H: MerkleHasher<F = BabyBear>>(
    hasher: &H,
    matrix: &RowMajorMatrix<BabyBear>,
) -> Seq<H::Digest> {
    Seq::new(
        next_pow2(matrix.spec_height()),
        |r: int|
            hasher.leaf(
                if r < matrix.spec_height() {
                    matrix.row(r)
                } else {
                    Seq::new(matrix.width as nat, |c: int| bb(0))
                },
            ),
    )
}

/// Whether the columns of the row-major `matrix` are the codewords of length `rs_height` of the
/// messages.
pub open spec fn is_row_major_code(
    matrix: RowMajorMatrix<BabyBear>,
    messages: Seq<Seq<BabyBear>>,
    rs_height: nat,
) -> bool {
    &&& matrix.wf()
    &&& matrix.width == messages.len()
    &&& matrix.spec_height() == rs_height
    &&& forall|j: int|
        0 <= j < messages.len() ==> #[trigger] matrix.col(j) == codeword(
            resized(messages[j], rs_height),
        )
}

/// The row-major matrix with the given columns.
fn transpose_columns(columns: &Vec<Vec<BabyBear>>, height: usize) -> (r: RowMajorMatrix<BabyBear>)
    requires
        columns@.len() > 0,
        columns@.len() * height <= usize::MAX,
        forall|j: int| 0 <= j < columns@.len() ==> (#[trigger] columns@[j])@.len() == height,
    ensures
        r.wf(),
        r.width == columns@.len(),
        r.spec_height() == height,
        forall|j: int| 0 <= j < columns@.len() ==> #[trigger] r.col(j) == columns@[j]@,
{
    let width = columns.len();
    let ghost w = width as int;
    let mut values: Vec<BabyBear> = Vec::new();
    let mut i: usize = 0;
    while i < height
        invariant
            i <= height,
            w == width == columns@.len(),
            forall|j: int| 0 <= j < columns@.len() ==> (#[trigger] columns@[j])@.len() == height,
            values@.len() == i * w,
            forall|r: int, c: int|
                0 <= r < i && 0 <= c < w ==> #[trigger] values@[r * w + c] == columns@[c]@[r],
        decreases height - i,
    {
        let ghost before = values@;
        let mut j: usize = 0;
        while j < width
            invariant
                j <= width,
                i < height,
                w == width == columns@.len(),
                forall|j: int|
                    0 <= j < columns@.len() ==> (#[trigger] columns@[j])@.len() == height,
                before.len() == i * w,
                values@.len() == i * w + j,
                forall|k: int| 0 <= k < before.len() ==> #[trigger] values@[k] == before[k],
                forall|c: int|
                    0 <= c < j ==> #[trigger] values@[i * w + c] == columns@[c]@[i as int],
            decreases width - j,
        {
            values.push(columns[j][i]);
            j = j + 1;
        }
        proof {
            assert((i + 1) * w == i * w + w) by (nonlinear_arith);
            assert forall|r: int, c: int| 0 <= r < i + 1 && 0 <= c < w implies #[trigger] values@[r
                * w + c] == columns@[c]@[r] by {
                if r < i {
                    assert(0 <= r * w && r * w + c < i * w) by (nonlinear_arith)
                        requires
                            0 <= r < i,
                            0 <= c < w,
                    ;
                    assert(values@[r * w + c] == before[r * w + c]);
                }
            }
        }
        i = i + 1;
    }
    proof {
        lemma_div_by_multiple(height as int, w);
        lemma_mod_multiples_basic(height as int, w);
    }
    let r = RowMajorMatrix::new(values, width);
    assert forall|j: int| 0 <= j < columns@.len() implies #[trigger] r.col(j) == columns@[j]@ by {
        assert(r.col(j) =~= columns@[j]@);
    }
    r
}

/// What [`rs_encode_and_merkle_cpu`] makes of a matrix: a row-major matrix of codewords, and the
/// tree over its rows.
pub open spec fn is_codeword_tree<
    H: MerkleHasher<F = BabyBear>,
    M: Fn(usize, Vec<BabyBear>) -> Vec<BabyBear>,
>(
    hasher: &H,
    l_skip: usize,
    log_blowup: usize,
    eval_matrix: ColMajorMatrix<BabyBear>,
    rows_per_query: usize,
    message: M,
    tree: CpuMerkleTree<BabyBear, H::Digest>,
) -> bool {
    &&& tree.rows_per_query == rows_per_query
    &&& exists|messages: Seq<Seq<BabyBear>>|
        {
            &&& messages.len() == eval_matrix.width
            &&& forall|j: int|
                0 <= j < eval_matrix.width ==> is_message(
                    message,
                    l_skip,
                    #[trigger] eval_matrix.col(j),
                    messages[j],
                )
            &&& #[trigger] is_row_major_code(
                tree.backing_matrix,
                messages,
                rs_height_of(eval_matrix.height as nat, log_blowup),
            )
        }
    &&& tree.layers() == digest_layers(
        hasher.node(),
        row_digests(hasher, &tree.backing_matrix),
        rows_per_query as nat,
    )
}

/// Encodes each column of `eval_matrix` as a Reed-Solomon codeword of rate `2^-log_blowup` and
/// commits to the rows of the codewords.
///
/// `message` gives the coefficients of the polynomial that stands for a column.
pub fn rs_encode_and_merkle_cpu<
    H: MerkleHasher<F = BabyBear>,
    M: Fn(usize, Vec<BabyBear>) -> Vec<BabyBear>,
>(
    hasher: &H,
    l_skip: usize,
    log_blowup: usize,
    eval_matrix: &ColMajorMatrix<BabyBear>,
    rows_per_query: usize,
    message: &M,
) -> (tree: CpuMerkleTree<BabyBear, H::Digest>)
    requires
        eval_matrix.wf(),
        is_pow2(eval_matrix.height as int),
        log_blowup < usize::BITS,
        rs_height_of(eval_matrix.height as nat, log_blowup) <= pow2(27),
        eval_matrix.width * rs_height_of(eval_matrix.height as nat, log_blowup) <= usize::MAX,
        is_pow2(rows_per_query as int),
        rows_per_query <= rs_height_of(eval_matrix.height as nat, log_blowup),
        forall|a: Vec<BabyBear>|
            a@.len() == eval_matrix.height ==> #[trigger] call_requires(*message, (l_skip, a)),
    ensures
        is_codeword_tree(
            hasher,
            l_skip,
            log_blowup,
            *eval_matrix,
            rows_per_query,
            *message,
            tree,
        ),
{
    let height = eval_matrix.height();
    let ghost h = rs_height_of(height as nat, log_blowup);
    proof {
        reveal(is_pow2);
        lemma_height_is_pow2(height as nat, log_blowup);
        lemma_next_pow2_fixed(h);
        assert(h <= eval_matrix.width * h) by (nonlinear_arith)
            requires
                eval_matrix.width >= 1,
                h >= 0,
        ;
    }
    let codeword_height = match rs_height(height, log_blowup) {
        Some(h) => h,
        None => 0,
    };
    let width = eval_matrix.width();
    let messages = encode_columns(l_skip, eval_matrix, message);
    let ghost all = views(messages@);
    let mut coeffs: Vec<Vec<BabyBear>> = Vec::with_capacity(width);
    let mut j: usize = 0;
    while j < width
        invariant
            j <= width == messages@.len(),
            all == views(messages@),
            codeword_height == h,
            coeffs@.len() == j,
            forall|c: int| 0 <= c < j ==> (#[trigger] coeffs@[c])@ == resized(all[c], h),
        decreases width - j,
    {
        let m = messages[j].clone();
        assert(m@ =~= all[j as int]);
        coeffs.push(resize(m, codeword_height));
        j = j + 1;
    }
    let rm_mat = transpose_columns(&coeffs, codeword_height);
    let rm_result = dft_batch(rm_mat);
    proof {
        assert forall|c: int| 0 <= c < all.len() implies #[trigger] rm_result.col(c) == codeword(
            resized(all[c], h),
        ) by {
            assert(coeffs@[c]@ == resized(all[c], h));
            assert(rm_mat.col(c) == coeffs@[c]@);
        }
        assert(is_row_major_code(rm_result, all, h));
    }
    let num_leaves = next_power_of_two(codeword_height);
    let mut zero_row: Vec<BabyBear> = Vec::with_capacity(width);
    while zero_row.len() < width
        invariant
            zero_row@.len() <= width,
            forall|c: int| 0 <= c < zero_row@.len() ==> #[trigger] zero_row@[c] == bb(0),
        decreases width - zero_row@.len(),
    {
        zero_row.push(BabyBear::zero());
    }
    let rm = &rm_result;
    let zeros = &zero_row;
    let row_hash_fn = |r: usize| -> (d: H::Digest)
        requires
            rm.width == width,
            rm.width > 0,
            r < rm.spec_height(),
        ensures
            d == hasher.leaf(rm.row(r as int)),
        {
            proof {
                rm.lemma_row_in_bounds(r as int);
                assert(rm.values@.len() == rm.values.len());
            }
            let start = r * width;
            hasher.hash_slice(slice_subrange(rm.values.as_slice(), start, start + width))
        };
    let padding_hash_fn = || -> (d: H::Digest)
        ensures
            d == hasher.leaf(zeros@),
        { hasher.hash_slice(zeros.as_slice()) };
    let row_hashes = hash_rows_with_padding(
        num_leaves,
        codeword_height,
        row_hash_fn,
        padding_hash_fn,
    );
    proof {
        let digests = row_digests(hasher, &rm_result);
        assert forall|r: int| 0 <= r < digests.len() implies #[trigger] row_hashes@[r]
            == digests[r] by {
            assert(call_ensures(row_hash_fn, (r as usize,), row_hashes@[r]));
        }
        assert(row_hashes@ =~= digests);
        lemma_stride_is_pow2(h, rows_per_query as nat);
    }
    let digest_layers = build_digest_layers(row_hashes, rows_per_query, hasher);
    CpuMerkleTree::from_raw_parts(rm_result, digest_layers, rows_per_query)
}

/// A row of base field elements is hashed as it is.
pub proof fn lemma_base_row_coeffs(row: Seq<BabyBear>)
    ensures
        row_coeffs::<BabyBear, BabyBear>(row) == row,
    decreases row.len(),
{
    if row.len() > 0 {
        lemma_base_row_coeffs(row.drop_last());
        assert(row_coeffs::<BabyBear, BabyBear>(row) =~= row);
    } else {
        assert(row_coeffs::<BabyBear, BabyBear>(row) =~= row);
    }
}

/// The layout of the codewords does not show in the tree: over the same messages, the row-major
/// and the column-major code matrix have the same leaf digests, and so the same digest layers.
pub proof fn layouts_have_same_tree<H: MerkleHasher<F = BabyBear>>(
    hasher: &H,
    row_major: RowMajorMatrix<BabyBear>,
    col_major: ColMajorMatrix<BabyBear>,
    messages: Seq<Seq<BabyBear>>,
    rs_height: nat,
    rows_per_query: nat,
)
    requires
        is_row_major_code(row_major, messages, rs_height),
        is_code_matrix(col_major, messages, rs_height),
    ensures
        row_digests(hasher, &row_major) == leaf_hashes::<H, BabyBear>(hasher, &col_major),
        digest_layers(hasher.node(), row_digests(hasher, &row_major), rows_per_query)
            == digest_layers(
            hasher.node(),
            leaf_hashes::<H, BabyBear>(hasher, &col_major),
            rows_per_query,
        ),
{
    let a = row_digests(hasher, &row_major);
    let b = leaf_hashes::<H, BabyBear>(hasher, &col_major);
    assert forall|r: int| 0 <= r < a.len() implies #[trigger] a[r] == b[r] by {
        let row = padded_row(&col_major, r);
        lemma_base_row_coeffs(row);
        if r < rs_height {
            row_major.lemma_row_in_bounds(r);
            assert forall|c: int| 0 <= c < row_major.width implies #[trigger] row_major.row(r)[c]
                == row[c] by {
                assert(row_major.col(c) == col_major.col(c));
                assert(row_major.col(c)[r] == col_major.col(c)[r]);
            }
            assert(row_major.row(r) =~= row);
        } else {
            assert(row =~= Seq::new(row_major.width as nat, |c: int| bb(0)));
        }
    }
    assert(a =~= b);
}

/// What the tree opens, it verifies: where the height is a power of two, the hashes of the rows
/// that a query opens combine to a digest from which the query's Merkle proof leads to the root.
pub proof fn opened_row_major_rows_verify<H: MerkleHasher<F = BabyBear>>(
    hasher: &H,
    matrix: &RowMajorMatrix<BabyBear>,
    rows_per_query: nat,
    q: int,
)
    requires
        is_pow2(matrix.spec_height() as int),
        is_pow2(rows_per_query as int),
        rows_per_query <= matrix.spec_height(),
        0 <= q < matrix.spec_height() / rows_per_query,
    ensures
        ({
            let layers = digest_layers(hasher.node(), row_digests(hasher, matrix), rows_per_query);
            let stride = layers[0].len();
            let opened = opened_by(matrix, rows_per_query, stride, q);
            let digest = tree_root(
                hasher.node(),
                opened.map_values(|row: Seq<BabyBear>| hasher.leaf(row)),
            );
            &&& stride == matrix.spec_height() / rows_per_query
            &&& layers.last().len() == 1
            &&& has_path(layers, q)
            &&& path_root(hasher.node(), digest, q, auth_path(layers, q)) == layers.last()[0]
        }),
{
    let node = hasher.node();
    let leaves = row_digests(hasher, matrix);
    lemma_next_pow2_fixed(matrix.spec_height());
    lemma_opening_leads_to_root(node, leaves, rows_per_query, q);
    let layers = digest_layers(node, leaves, rows_per_query);
    let stride = layers[0].len();
    let opened = Seq::new(rows_per_query, |t: int| row_or_nothing(matrix, t * stride + q));
    let hashes = opened.map_values(|row: Seq<BabyBear>| hasher.leaf(row));
    lemma_stride_is_pow2(leaves.len(), rows_per_query);
    assert forall|t: int| 0 <= t < rows_per_query implies #[trigger] hashes[t] == strided(
        leaves,
        stride,
        q,
        rows_per_query,
    )[t] by {
        assert(0 <= t * stride + q < leaves.len()) by (nonlinear_arith)
            requires
                0 <= t < rows_per_query,
                0 <= q < stride,
                stride * rows_per_query == leaves.len(),
        ;
    }
    assert(hashes =~= strided(leaves, stride, q, rows_per_query));
}

} // verus!
