//! Merkle trees over the rows of a column-major matrix.

use vstd::arithmetic::power2::*;
use vstd::prelude::*;

use crate::bits::{
    is_power_of_two, lemma_next_pow2, lemma_next_pow2_fixed, next_pow2, next_power_of_two,
};
use crate::digest_layers::{build_digest_layers_scalar, views};
use crate::error::StackedPcsError;
use crate::field::{BabyBear, BabyBearExt4, Zero};
use crate::hasher::MerkleHasher;
use crate::matrix::ColMajorMatrix;
use crate::tree::{
    auth_path, digest_layers, has_path, lemma_opening_leads_to_root, lemma_stride_is_pow2,
    path_root, sibling, strided, tree_root,
};

verus! {

/// A matrix cell that is hashed as a fixed list of elements of the field `F`.
pub trait LeafElement<F>: Zero {
    /// The coefficients over `F`.
    spec fn coeffs(&self) -> Seq<F>;

    /// Appends the coefficients to `out`.
    fn append_coeffs(&self, out: &mut Vec<F>)
        ensures
            final(out)@ == old(out)@ + self.coeffs(),
    ;
}

impl LeafElement<BabyBear> for BabyBear {
    open spec fn coeffs(&self) -> Seq<BabyBear> {
        seq![*self]
    }

    fn append_coeffs(&self, out: &mut Vec<BabyBear>) {
        out.push(*self);
        assert(out@ =~= old(out)@ + self.coeffs());
    }
}

impl LeafElement<BabyBear> for BabyBearExt4 {
    open spec fn coeffs(&self) -> Seq<BabyBear> {
        self.basis()
    }

    fn append_coeffs(&self, out: &mut Vec<BabyBear>) {
        out.push(self.c0);
        out.push(self.c1);
        out.push(self.c2);
        out.push(self.c3);
        assert(out@ =~= old(out)@ + self.coeffs());
    }
}

/// The coefficients of all cells of a row, in order.
pub open spec fn row_coeffs<F, E: LeafElement<F>>(row: Seq<E>) -> Seq<F>
    decreases row.len(),
{
    if row.len() == 0 {
        Seq::empty()
    } else {
        row_coeffs::<F, E>(row.drop_last()) + row.last().coeffs()
    }
}

/// Row `r` of the matrix; below its last row come rows of zeros.
pub open spec fn padded_row<E: Zero>(matrix: &ColMajorMatrix<E>, r: int) -> Seq<E> {
    Seq::new(
        matrix.width as nat,
        |c: int|
            if r < matrix.height {
                matrix.at(r, c)
            } else {
                E::spec_zero()
            },
    )
}

/// The rows that a query opens: that of its own number, and those that lie a multiple of `stride`
/// below it.
pub open spec fn opened_by<E: Zero>(
    matrix: &ColMajorMatrix<E>,
    rows_per_query: nat,
    stride: nat,
    query: int,
) -> Seq<Seq<E>> {
    Seq::new(rows_per_query, |t: int| padded_row(matrix, t * stride + query))
}

/// The digest of a row.
pub open spec fn row_hash<H: MerkleHasher, E: LeafElement<H::F>>(
    hasher: &H,
    row: Seq<E>,
) -> H::Digest {
    hasher.leaf(row_coeffs::<H::F, E>(row))
}

/// The digests of the rows of the matrix, padded to a power of two of rows.
pub open spec fn leaf_hashes<H: MerkleHasher, E: LeafElement<H::F>>(
    hasher: &H,
    matrix: &ColMajorMatrix<E>,
) -> Seq<H::Digest> {
    Seq::new(
        next_pow2(matrix.height as nat),
        |r: int| row_hash(hasher, padded_row(matrix, r)),
    )
}

/// Whether `r` is what [`MerkleTree::new`] makes of the matrix: the tree over its rows, or the
/// error that says why there is none.
pub open spec fn is_tree_over<H: MerkleHasher, E: LeafElement<H::F>>(
    hasher: &H,
    matrix: ColMajorMatrix<E>,
    rows_per_query: usize,
    r: Result<MerkleTree<E, H::Digest>, StackedPcsError>,
) -> bool {
    match r {
        Ok(tree) => {
            &&& matrix.height > 0
            &&& is_pow2(rows_per_query as int)
            &&& rows_per_query <= next_pow2(matrix.height as nat)
            &&& tree.backing_matrix == matrix
            &&& tree.rows_per_query == rows_per_query
            &&& tree.layers() == digest_layers(
                hasher.node(),
                leaf_hashes::<H, E>(hasher, &matrix),
                rows_per_query as nat,
            )
        },
        Err(e) => if matrix.height == 0 {
            e == StackedPcsError::MerkleTreeEmptyMatrix
        } else if !is_pow2(rows_per_query as int) {
            e == (StackedPcsError::MerkleTreeRowsPerQueryNotPow2 { rows_per_query })
        } else {
            &&& rows_per_query > next_pow2(matrix.height as nat)
            &&& e == StackedPcsError::MerkleTreeRowsPerQueryExceeded {
                rows_per_query,
                num_leaves: next_pow2(matrix.height as nat) as usize,
            }
        },
    }
}

/// A Merkle tree over the rows of a matrix, with `rows_per_query` rows batched into each query.
#[derive(Clone, Debug)]
pub struct MerkleTree<F, Digest> {
    /// The matrix whose rows are the leaves.
    pub backing_matrix: ColMajorMatrix<F>,
    /// The digests from the queries up to the root.
    pub digest_layers: Vec<Vec<Digest>>,
    pub rows_per_query: usize,
}

impl<F, Digest> MerkleTree<F, Digest> {
    pub open spec fn layers(&self) -> Seq<Seq<Digest>> {
        views(self.digest_layers@)
    }

    pub fn backing_matrix(&self) -> (r: &ColMajorMatrix<F>)
        ensures
            *r == self.backing_matrix,
    {
        &self.backing_matrix
    }

    pub fn digest_layers(&self) -> (r: &Vec<Vec<Digest>>)
        ensures
            *r == self.digest_layers,
    {
        &self.digest_layers
    }

    pub fn rows_per_query(&self) -> (r: usize)
        ensures
            r == self.rows_per_query,
    {
        self.rows_per_query
    }

    /// The number of queries.
    pub fn query_stride(&self) -> (r: usize)
        requires
            self.layers().len() > 0,
        ensures
            r == self.layers()[0].len(),
    {
        self.digest_layers[0].len()
    }

    /// The number of siblings in a Merkle proof.
    pub fn proof_depth(&self) -> (r: usize)
        requires
            self.layers().len() > 0,
        ensures
            r == self.layers().len() - 1,
    {
        self.digest_layers.len() - 1
    }
}

/// The root that `layers` end in.
pub fn layers_root<Digest: Copy>(layers: &Vec<Vec<Digest>>) -> (r: Result<Digest, StackedPcsError>)
    requires
        layers@.len() > 0 ==> views(layers@).last().len() > 0,
    ensures
        r == (if layers@.len() == 0 {
            Err::<Digest, StackedPcsError>(StackedPcsError::MerkleTreeNoRoot)
        } else {
            Ok(views(layers@).last()[0])
        }),
{
    if layers.len() == 0 {
        return Err(StackedPcsError::MerkleTreeNoRoot);
    }
    let top = &layers[layers.len() - 1];
    Ok(top[0])
}

/// The siblings on the way from entry `query_idx` of the lowest of `layers` to their root.
pub fn layers_proof<Digest: Copy>(layers: &Vec<Vec<Digest>>, query_idx: usize) -> (r: Result<
    Vec<Digest>,
    StackedPcsError,
>)
    requires
        layers@.len() > 0,
        query_idx < views(layers@)[0].len() ==> has_path(views(layers@), query_idx as int),
    ensures
        match r {
            Ok(path) => query_idx < views(layers@)[0].len() && path@ == auth_path(
                views(layers@),
                query_idx as int,
            ),
            Err(e) => query_idx >= views(layers@)[0].len() && e
                == StackedPcsError::MerkleTreeQueryOutOfBounds {
                query_idx,
                query_stride: views(layers@)[0].len() as usize,
            },
        },
{
    let query_stride = layers[0].len();
    if query_idx >= query_stride {
        return Err(StackedPcsError::MerkleTreeQueryOutOfBounds { query_idx, query_stride });
    }
    let ghost all = views(layers@);
    let depth = layers.len() - 1;
    let mut path: Vec<Digest> = Vec::with_capacity(depth);
    let mut idx: usize = query_idx;
    let mut i: usize = 0;
    proof {
        lemma2_to64();
    }
    while i < depth
        invariant
            i <= depth,
            depth == layers@.len() - 1,
            all == views(layers@),
            has_path(all, query_idx as int),
            idx == query_idx as int / (pow2(i as nat) as int),
            path@.len() == i,
            forall|j: int|
                0 <= j < i ==> #[trigger] path@[j] == auth_path(all, query_idx as int)[j],
        decreases depth - i,
    {
        let layer = &layers[i];
        proof {
            assert(all[i as int] == layer@);
            assert(sibling(idx as int) < layer.len());
            lemma_pow2_unfold((i + 1) as nat);
            lemma_pow2_pos(i as nat);
            vstd::arithmetic::div_mod::lemma_div_denominator(
                query_idx as int,
                pow2(i as nat) as int,
                2,
            );
        }
        let other = if idx % 2 == 0 {
            idx + 1
        } else {
            idx - 1
        };
        path.push(layer[other]);
        idx = idx / 2;
        i = i + 1;
    }
    assert(path@ =~= auth_path(all, query_idx as int));
    Ok(path)
}

impl<F, Digest: Copy> MerkleTree<F, Digest> {
    /// The root of the tree.
    pub fn root(&self) -> (r: Result<Digest, StackedPcsError>)
        requires
            self.layers().len() > 0 ==> self.layers().last().len() > 0,
        ensures
            r == (if self.layers().len() == 0 {
                Err::<Digest, StackedPcsError>(StackedPcsError::MerkleTreeNoRoot)
            } else {
                Ok(self.layers().last()[0])
            }),
    {
        layers_root(&self.digest_layers)
    }

    /// The siblings on the way from the query to the root.
    pub fn query_merkle_proof(&self, query_idx: usize) -> (r: Result<Vec<Digest>, StackedPcsError>)
        requires
            self.layers().len() > 0,
            query_idx < self.layers()[0].len() ==> has_path(self.layers(), query_idx as int),
        ensures
            match r {
                Ok(path) => query_idx < self.layers()[0].len() && path@ == auth_path(
                    self.layers(),
                    query_idx as int,
                ),
                Err(e) => query_idx >= self.layers()[0].len() && e
                    == StackedPcsError::MerkleTreeQueryOutOfBounds {
                    query_idx,
                    query_stride: self.layers()[0].len() as usize,
                },
            },
    {
        layers_proof(&self.digest_layers, query_idx)
    }
}

impl<EF, Digest: Copy> MerkleTree<EF, Digest> {
    /// Commits to the rows of `matrix`, padded with rows of zeros to a power of two.
    pub fn new<H: MerkleHasher<Digest = Digest>>(
        hasher: &H,
        matrix: ColMajorMatrix<EF>,
        rows_per_query: usize,
    ) -> (r: Result<Self, StackedPcsError>) where EF: LeafElement<H::F>
        requires
            matrix.wf(),
            next_pow2(matrix.height as nat) <= usize::MAX,
        ensures
            is_tree_over(hasher, matrix, rows_per_query, r),
    {
        if matrix.height == 0 {
            return Err(StackedPcsError::MerkleTreeEmptyMatrix);
        }
        if !is_power_of_two(rows_per_query) {
            return Err(StackedPcsError::MerkleTreeRowsPerQueryNotPow2 { rows_per_query });
        }
        let num_leaves = next_power_of_two(matrix.height);
        if rows_per_query > num_leaves {
            return Err(
                StackedPcsError::MerkleTreeRowsPerQueryExceeded { rows_per_query, num_leaves },
            );
        }
        let ghost leaves = leaf_hashes::<H, EF>(hasher, &matrix);
        let mut row_hashes: Vec<Digest> = Vec::with_capacity(num_leaves);
        let mut r: usize = 0;
        while r < num_leaves
            invariant
                r <= num_leaves,
                num_leaves == leaves.len(),
                matrix.wf(),
                leaves == leaf_hashes::<H, EF>(hasher, &matrix),
                row_hashes@.len() == r,
                forall|i: int| 0 <= i < r ==> #[trigger] row_hashes@[i] == leaves[i],
            decreases num_leaves - r,
        {
            let row = Self::row_or_zeros(&matrix, r);
            let mut input: Vec<H::F> = Vec::new();
            let mut c: usize = 0;
            proof {
                assert(row@.take(0) =~= Seq::empty());
            }
            while c < row.len()
                invariant
                    c <= row@.len(),
                    input@ == row_coeffs::<H::F, EF>(row@.take(c as int)),
                decreases row@.len() - c,
            {
                row[c].append_coeffs(&mut input);
                proof {
                    assert(row@.take(c + 1).drop_last() =~= row@.take(c as int));
                }
                c = c + 1;
            }
            proof {
                assert(row@.take(c as int) =~= row@);
            }
            row_hashes.push(hasher.hash_slice(input.as_slice()));
            r = r + 1;
        }
        proof {
            assert(row_hashes@ =~= leaves);
            lemma_next_pow2(matrix.height as nat);
            lemma_stride_is_pow2(num_leaves as nat, rows_per_query as nat);
        }
        let digest_layers = build_digest_layers_scalar(row_hashes, rows_per_query, hasher);
        Ok(MerkleTree { backing_matrix: matrix, digest_layers, rows_per_query })
    }

    /// A tree made of parts that are taken as they are.
    ///
    /// Nothing is checked: where the layers are not those of a tree over the rows of the matrix,
    /// the proofs read out of it lead nowhere.
    pub fn from_raw_parts(
        backing_matrix: ColMajorMatrix<EF>,
        digest_layers: Vec<Vec<Digest>>,
        rows_per_query: usize,
    ) -> (r: Self)
        ensures
            r.backing_matrix == backing_matrix,
            r.digest_layers == digest_layers,
            r.rows_per_query == rows_per_query,
    {
        MerkleTree { backing_matrix, digest_layers, rows_per_query }
    }

    /// The rows that the query `index` opens: row `index + t * query_stride` for each `t` below
    /// the number of rows per query.
    pub fn get_opened_rows(&self, index: usize) -> (r: Result<
        Vec<Vec<EF>>,
        StackedPcsError,
    >) where EF: Zero
        requires
            self.backing_matrix.wf(),
            self.layers().len() > 0,
            self.rows_per_query * self.layers()[0].len() <= usize::MAX,
        ensures
            match r {
                Ok(rows) => index < self.layers()[0].len() && views(rows@) == Seq::new(
                    self.rows_per_query as nat,
                    |t: int|
                        padded_row(&self.backing_matrix, t * self.layers()[0].len() + index),
                ) && views(rows@) == opened_by(
                    &self.backing_matrix,
                    self.rows_per_query as nat,
                    self.layers()[0].len(),
                    index as int,
                ),
                Err(e) => index >= self.layers()[0].len() && e
                    == StackedPcsError::MerkleTreeOpenedRowsOutOfBounds {
                    index,
                    query_stride: self.layers()[0].len() as usize,
                },
            },
    {
        let query_stride = self.query_stride();
        if index >= query_stride {
            return Err(
                StackedPcsError::MerkleTreeOpenedRowsOutOfBounds { index, query_stride },
            );
        }
        let n = self.rows_per_query;
        let ghost expected = Seq::new(
            n as nat,
            |t: int| padded_row(&self.backing_matrix, t * query_stride + index),
        );
        let mut rows: Vec<Vec<EF>> = Vec::with_capacity(n);
        let mut t: usize = 0;
        while t < n
            invariant
                t <= n,
                index < query_stride,
                n * query_stride <= usize::MAX,
                self.backing_matrix.wf(),
                rows@.len() == t,
                expected == Seq::new(
                    n as nat,
                    |t: int| padded_row(&self.backing_matrix, t * query_stride + index),
                ),
                forall|i: int| 0 <= i < t ==> (#[trigger] rows@[i])@ == expected[i],
            decreases n - t,
        {
            proof {
                assert(0 <= t * query_stride && t * query_stride + query_stride <= n
                    * query_stride) by (nonlinear_arith)
                    requires
                        t < n,
                ;
            }
            rows.push(Self::row_or_zeros(&self.backing_matrix, t * query_stride + index));
            t = t + 1;
        }
        assert(views(rows@) =~= expected);
        Ok(rows)
    }

    /// Row `index` of the matrix, or a row of zeros below its last one.
    pub fn row_or_zeros(matrix: &ColMajorMatrix<EF>, index: usize) -> (r: Vec<
        EF,
    >) where EF: Zero
        requires
            matrix.wf(),
        ensures
            r@ == padded_row(matrix, index as int),
    {
        let mut row: Vec<EF> = Vec::with_capacity(matrix.width);
        let mut c: usize = 0;
        while c < matrix.width
            invariant
                c <= matrix.width,
                matrix.wf(),
                row@.len() == c,
                forall|i: int|
                    0 <= i < c ==> #[trigger] row@[i] == padded_row(matrix, index as int)[i],
            decreases matrix.width - c,
        {
            let cell = match matrix.get(index, c) {
                Some(v) => *v,
                None => EF::zero(),
            };
            row.push(cell);
            c = c + 1;
        }
        assert(row@ =~= padded_row(matrix, index as int));
        row
    }
}

/// What the committed tree opens, it verifies: for every query, the hashes of the rows that it
/// opens combine to a digest from which the query's Merkle proof leads to the root.
pub proof fn opened_rows_verify<H: MerkleHasher, E: LeafElement<H::F>>(
    hasher: &H,
    matrix: &ColMajorMatrix<E>,
    rows_per_query: nat,
    q: int,
)
    requires
        matrix.height > 0,
        is_pow2(rows_per_query as int),
        rows_per_query <= next_pow2(matrix.height as nat),
        0 <= q < next_pow2(matrix.height as nat) / rows_per_query,
    ensures
        ({
            let layers = digest_layers(
                hasher.node(),
                leaf_hashes::<H, E>(hasher, matrix),
                rows_per_query,
            );
            let stride = layers[0].len();
            let opened = opened_by(matrix, rows_per_query, stride, q);
            let digest = tree_root(
                hasher.node(),
                opened.map_values(|row: Seq<E>| row_hash::<H, E>(hasher, row)),
            );
            &&& stride == next_pow2(matrix.height as nat) / rows_per_query
            &&& layers.last().len() == 1
            &&& has_path(layers, q)
            &&& path_root(hasher.node(), digest, q, auth_path(layers, q)) == layers.last()[0]
        }),
{
    let node = hasher.node();
    let leaves = leaf_hashes::<H, E>(hasher, matrix);
    lemma_next_pow2(matrix.height as nat);
    lemma_opening_leads_to_root(node, leaves, rows_per_query, q);
    let layers = digest_layers(node, leaves, rows_per_query);
    let stride = layers[0].len();
    let opened = Seq::new(rows_per_query, |t: int| padded_row(matrix, t * stride + q));
    let hashes = opened.map_values(|row: Seq<E>| row_hash::<H, E>(hasher, row));
    lemma_stride_is_pow2(leaves.len(), rows_per_query);
    assert forall|t: int| 0 <= t < rows_per_query implies #[trigger] hashes[t] == strided(
        leaves,
        stride,
        q,
        rows_per_query,
    )[t] by {
        assert(0 <= t * stride + q < leaves.len()) by (nonlinear_arith)
            requires
                0 <= t < rows_per_query,
                0 <= q < stride,
                stride * rows_per_query == leaves.len(),
        ;
    }
    assert(hashes =~= strided(leaves, stride, q, rows_per_query));
}

/// A row is hashed whole: its digest is the leaf over all its cells, in order.
pub proof fn base_rows_are_hashed_whole<H: MerkleHasher<F = BabyBear>>(
    hasher: &H,
    row: Seq<BabyBear>,
)
    ensures
        row_hash::<H, BabyBear>(hasher, row) == hasher.leaf(row),
{
    lemma_base_coeffs(row);
}

proof fn lemma_base_coeffs(row: Seq<BabyBear>)
    ensures
        row_coeffs::<BabyBear, BabyBear>(row) == row,
    decreases row.len(),
{
    if row.len() > 0 {
        lemma_base_coeffs(row.drop_last());
        assert(row.drop_last().push(row.last()) =~= row);
        assert(row.drop_last() + row.last().coeffs() =~= row);
    }
}

/// A row over the extension field is hashed whole: its digest is the leaf over the four
/// coefficients of each cell, cell by cell.
pub proof fn ext_rows_are_hashed_whole<H: MerkleHasher<F = BabyBear>>(
    hasher: &H,
    row: Seq<BabyBearExt4>,
)
    ensures
        row_hash::<H, BabyBearExt4>(hasher, row) == hasher.leaf(
            Seq::new(4 * row.len(), |i: int| row[i / 4].basis()[i % 4]),
        ),
{
    lemma_ext_coeffs(row);
}

proof fn lemma_ext_coeffs(row: Seq<BabyBearExt4>)
    ensures
        row_coeffs::<BabyBear, BabyBearExt4>(row) == Seq::new(
            4 * row.len(),
            |i: int| row[i / 4].basis()[i % 4],
        ),
    decreases row.len(),
{
    let all = Seq::new(4 * row.len(), |i: int| row[i / 4].basis()[i % 4]);
    if row.len() > 0 {
        let some = row.drop_last();
        lemma_ext_coeffs(some);
        assert(row_coeffs::<BabyBear, BabyBearExt4>(some) + row.last().coeffs() =~= all);
    } else {
        assert(all =~= Seq::empty());
    }
}

/// Rows of zeros at the end do not count: a matrix and the one that is filled up with rows of zeros
/// to a power of two of rows have the same leaves.
pub proof fn rows_of_zeros_do_not_count<H: MerkleHasher, E: LeafElement<H::F>>(
    hasher: &H,
    matrix: &ColMajorMatrix<E>,
    filled: &ColMajorMatrix<E>,
)
    requires
        matrix.height > 0,
        filled.width == matrix.width,
        filled.height == next_pow2(matrix.height as nat),
        forall|r: int, c: int|
            0 <= r < filled.height && 0 <= c < filled.width ==> #[trigger] filled.at(r, c) == (
            if r < matrix.height {
                matrix.at(r, c)
            } else {
                E::spec_zero()
            }),
    ensures
        leaf_hashes::<H, E>(hasher, filled) == leaf_hashes::<H, E>(hasher, matrix),
        leaf_hashes::<H, E>(hasher, matrix).len() == filled.height,
{
    lemma_next_pow2(matrix.height as nat);
    lemma_next_pow2_fixed(filled.height as nat);
    assert forall|r: int| 0 <= r < filled.height implies padded_row(filled, r) == padded_row(
        matrix,
        r,
    ) by {
        assert(padded_row(filled, r) =~= padded_row(matrix, r));
    }
    assert(leaf_hashes::<H, E>(hasher, filled) =~= leaf_hashes::<H, E>(hasher, matrix));
}

} // verus!
