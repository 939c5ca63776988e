use stark_backend::commitment::{stacked_commit, StackedPcsData};
use stark_backend::error::StackedPcsError;
use stark_backend::field::{BabyBear, BabyBearExt4};
use stark_backend::hasher::{Compression, Hasher, LeafHash, MerkleHasher};
use stark_backend::matrix::ColMajorMatrix;
use stark_backend::merkle_tree::MerkleTree;
use stark_backend::poseidon2::{Compress, Digest, Perm, Sponge};
use stark_backend::reed_solomon::rs_code_matrix;
use stark_backend::stacked_layout::{StackedLayout, StackedSlice};
use stark_backend::stacked_pcs::stacked_matrix;
use stark_backend::verification::whir::merkle_verify;

fn f(v: u32) -> BabyBear {
    BabyBear::new(v)
}

fn column_matrices() -> Vec<ColMajorMatrix<BabyBear>> {
    [vec![1, 2, 3, 4], vec![5, 6], vec![7]]
        .into_iter()
        .map(|v| ColMajorMatrix::new(v.into_iter().map(f).collect(), 1))
        .collect()
}

#[test]
fn test_stacked_matrix_manual_0() {
    let mats = column_matrices();
    let mat_refs: Vec<_> = mats.iter().collect();
    let (stacked_mat, layout) = stacked_matrix(0, 2, &mat_refs).unwrap();
    assert_eq!(stacked_mat.height(), 4);
    assert_eq!(stacked_mat.width(), 2);
    assert_eq!(stacked_mat.values, [1, 2, 3, 4, 5, 6, 7, 0].map(f).to_vec());
    assert_eq!(layout.mat_starts, vec![0, 1, 2]);
}

#[test]
fn test_stacked_matrix_manual_strided_0() {
    let mats = column_matrices();
    let mat_refs: Vec<_> = mats.iter().collect();
    let (stacked_mat, _layout) = stacked_matrix(2, 0, &mat_refs).unwrap();
    assert_eq!(stacked_mat.height(), 4);
    assert_eq!(stacked_mat.width(), 3);
    assert_eq!(stacked_mat.values, [1, 2, 3, 4, 5, 0, 6, 0, 7, 0, 0, 0].map(f).to_vec());
}

#[test]
fn test_stacked_matrix_manual_strided_1() {
    let mats = column_matrices();
    let mat_refs: Vec<_> = mats.iter().collect();
    let (stacked_mat, _layout) = stacked_matrix(3, 0, &mat_refs).unwrap();
    assert_eq!(stacked_mat.height(), 8);
    assert_eq!(stacked_mat.width(), 3);
    assert_eq!(
        stacked_mat.values,
        [
            [1, 0, 2, 0, 3, 0, 4, 0],
            [5, 0, 0, 0, 6, 0, 0, 0],
            [7, 0, 0, 0, 0, 0, 0, 0]
        ]
        .into_iter()
        .flatten()
        .map(f)
        .collect::<Vec<_>>()
    );
}

fn run_roundtrip<H: MerkleHasher<F = BabyBear, Digest = Digest>>(hasher: &H, label: &str) {
    let vals: Vec<BabyBearExt4> = (0..32).map(BabyBearExt4::from_usize).collect();
    let matrix = ColMajorMatrix::new(vals, 16);
    let rows_per_query = 2usize;
    let tree = MerkleTree::<BabyBearExt4, Digest>::new(hasher, matrix.clone(), rows_per_query)
        .unwrap_or_else(|e| panic!("{label}: commit failed: {e:?}"));
    let root = tree.root().expect("root");
    let stride = tree.query_stride();
    for q in 0..stride {
        let proof = tree.query_merkle_proof(q).expect("proof");
        let leaf_hashes: Vec<Digest> = (0..rows_per_query)
            .map(|i| {
                let r = q + i * stride;
                let input: Vec<BabyBear> =
                    MerkleTree::<BabyBearExt4, Digest>::row_or_zeros(&matrix, r)
                        .into_iter()
                        .flat_map(|ef| vec![ef.c0, ef.c1, ef.c2, ef.c3])
                        .collect();
                hasher.hash_slice(&input)
            })
            .collect();
        let leaf = hasher.tree_compress(leaf_hashes);
        merkle_verify(hasher, root, q as u32, leaf, &proof)
            .unwrap_or_else(|e| panic!("{label}: query {q} failed: {e:?}"));
    }
}

fn poseidon2_hasher() -> Hasher<BabyBear, Digest, Sponge, Compress> {
    Hasher::new(Sponge { perm: Perm }, Compress { perm: Perm })
}

#[test]
fn roundtrip_poseidon2_control() {
    run_roundtrip(&poseidon2_hasher(), "poseidon2");
}

#[derive(Clone, Copy, Debug)]
struct Blake3F;

fn to_digest(b: &[u8; 32]) -> Digest {
    let limbs = core::array::from_fn(|i| {
        f(u32::from_le_bytes([b[4 * i], b[4 * i + 1], b[4 * i + 2], b[4 * i + 3]]))
    });
    Digest { limbs }
}

impl LeafHash<BabyBear, Digest> for Blake3F {
    fn hash_slice(&self, vals: &[BabyBear]) -> Digest {
        let mut buf = Vec::new();
        for x in vals {
            buf.extend_from_slice(&x.value.to_le_bytes());
        }
        to_digest(blake3::hash(&buf).as_bytes())
    }
}

impl Compression<Digest> for Blake3F {
    fn compress(&self, left: Digest, right: Digest) -> Digest {
        let mut buf = Vec::new();
        for x in left.limbs.iter().chain(right.limbs.iter()) {
            buf.extend_from_slice(&x.value.to_le_bytes());
        }
        to_digest(blake3::hash(&buf).as_bytes())
    }
}

#[test]
fn roundtrip_blake3() {
    run_roundtrip(&Hasher::<BabyBear, Digest, _, _>::new(Blake3F, Blake3F), "blake3");
}

#[test]
fn padded_rows_are_hashed_as_zeros() {
    // 3 rows of one cell: the fourth leaf is the hash of a zero
    let hasher = poseidon2_hasher();
    let matrix = ColMajorMatrix::new([1, 2, 3].map(f).to_vec(), 1);
    let tree = MerkleTree::new(&hasher, matrix, 1).unwrap();
    assert_eq!(tree.digest_layers()[0][3], hasher.hash_slice(&[f(0)]));
    assert_eq!(tree.get_opened_rows(3).unwrap(), vec![vec![f(0)]]);
    assert_eq!(tree.rows_per_query(), 1);
    assert_eq!(tree.proof_depth(), 2);
}

#[test]
fn merkle_tree_errors() {
    let hasher = poseidon2_hasher();
    let empty = ColMajorMatrix::<BabyBear>::new(vec![], 0);
    assert_eq!(
        MerkleTree::new(&hasher, empty, 1).err(),
        Some(StackedPcsError::MerkleTreeEmptyMatrix)
    );
    let matrix = || ColMajorMatrix::new([1, 2, 3, 4].map(f).to_vec(), 1);
    assert_eq!(
        MerkleTree::new(&hasher, matrix(), 3).err(),
        Some(StackedPcsError::MerkleTreeRowsPerQueryNotPow2 { rows_per_query: 3 })
    );
    assert_eq!(
        MerkleTree::new(&hasher, matrix(), 8).err(),
        Some(StackedPcsError::MerkleTreeRowsPerQueryExceeded { rows_per_query: 8, num_leaves: 4 })
    );
    let tree = MerkleTree::new(&hasher, matrix(), 2).unwrap();
    assert_eq!(
        tree.query_merkle_proof(2),
        Err(StackedPcsError::MerkleTreeQueryOutOfBounds { query_idx: 2, query_stride: 2 })
    );
    assert_eq!(
        tree.get_opened_rows(5),
        Err(StackedPcsError::MerkleTreeOpenedRowsOutOfBounds { index: 5, query_stride: 2 })
    );
    let bare = MerkleTree::<BabyBear, Digest>::from_raw_parts(matrix(), vec![], 1);
    assert_eq!(bare.root(), Err(StackedPcsError::MerkleTreeNoRoot));
}

#[test]
fn layout_places_columns_greedily() {
    // two columns of height 4 and one of height 2, stacked to height 8 with columns of at least 2
    let layout = StackedLayout::new(1, 3, vec![(2, 2), (1, 1), (1, 0)]).unwrap();
    assert_eq!((layout.l_skip(), layout.height(), layout.width()), (1, 8, 2));
    let at: Vec<(usize, usize, usize)> = layout
        .unstacked_slices_iter()
        .iter()
        .map(|s| (s.col_idx, s.row_idx, s.len(1)))
        .collect();
    assert_eq!(at, vec![(0, 0, 4), (0, 4, 4), (1, 0, 2), (1, 2, 2)]);
    assert_eq!(layout.mat_starts, vec![0, 2, 3]);
    assert_eq!(layout.width_of(0), 2);
    assert_eq!(layout.get(0, 1).unwrap().row_idx, 4);
    assert!(layout.get(2, 1).is_none());
    // the column of height one is strided
    assert_eq!(layout.get(2, 0).unwrap().stride(1), 2);
}

#[test]
fn layout_errors() {
    assert_eq!(
        StackedLayout::new(0, 1, vec![(1, 2)]).err(),
        Some(StackedPcsError::LayoutHeightExceeded { log_height: 2, log_stacked_height: 1 })
    );
    // a column of height four behind one of height one leaves a gap
    assert_eq!(
        StackedLayout::new(0, 2, vec![(1, 0), (1, 2)]).err(),
        Some(StackedPcsError::LayoutRowOverflow { col_idx: 0, stacked_height: 4 })
    );
    let slice = StackedSlice::new(0, 0, 1);
    assert_eq!(
        StackedLayout::from_raw_parts(0, 1, vec![(1, 0, slice)]).err(),
        Some(StackedPcsError::LayoutRawPartsMatIdx { mat_idx: 1, mat_starts_len: 0 })
    );
    let layout =
        StackedLayout::from_raw_parts(0, 1, vec![(0, 0, slice), (0, 1, slice), (1, 0, slice)])
            .unwrap();
    assert_eq!(layout.mat_starts, vec![0, 2]);
    assert_eq!(layout.width(), 1);
}

#[test]
fn stacked_matrix_too_large_is_refused() {
    // 13 columns of 2^60 rows fill more than three of 2^62, and four are too many
    let row = ColMajorMatrix::new((0..13).map(f).collect(), 13);
    assert_eq!(
        stacked_matrix(60, 2, &[&row]).err(),
        Some(StackedPcsError::StackedMatrixOverflow)
    );
}

#[test]
fn views_show_the_traces() {
    let mats = [
        ColMajorMatrix::new((1..9).map(f).collect(), 2),
        ColMajorMatrix::new([9, 10].map(f).to_vec(), 1),
    ];
    let refs: Vec<_> = mats.iter().collect();
    let (stacked, layout) = stacked_matrix(2, 1, &refs).unwrap();
    for (i, mat) in mats.iter().enumerate() {
        let view = layout.mat_view(i, &stacked);
        assert_eq!((view.height(), view.width()), (mat.height(), mat.width()));
        for r in 0..mat.height() {
            for c in 0..mat.width() {
                assert_eq!(view.get(r, c), mat.get(r, c));
            }
        }
        assert!(view.get(mat.height(), 0).is_none());
    }
}

fn as_it_is(_l_skip: usize, evals: Vec<BabyBear>) -> Vec<BabyBear> {
    evals
}

#[test]
fn codewords_are_values_on_the_subgroup() {
    // 1 + 2X at 1, i, -1, -i where i is the generator of order four
    let matrix = ColMajorMatrix::new([1, 2].map(f).to_vec(), 1);
    let code = rs_code_matrix(0, 1, &matrix, &as_it_is).unwrap();
    let i = 0x67055c21u64;
    let p = 0x78000001u64;
    let expected = [3, (1 + 2 * i) % p, p - 1, (1 + 2 * (p - i)) % p];
    assert_eq!((code.height(), code.width()), (4, 1));
    assert_eq!(code.values, expected.map(|v| f(v as u32)).to_vec());
}

#[test]
fn codewords_of_rate_one_keep_the_height() {
    let matrix = ColMajorMatrix::new([5].map(f).to_vec(), 1);
    let code = rs_code_matrix(0, 0, &matrix, &as_it_is).unwrap();
    assert_eq!(code.values, vec![f(5)]);
}

#[test]
fn blowup_beyond_the_machine_word_is_refused() {
    let matrix = ColMajorMatrix::new([1, 2].map(f).to_vec(), 1);
    for log_blowup in [64, 65, 1 << 32, (1 << 32) + 1, usize::MAX] {
        assert_eq!(
            rs_code_matrix(0, log_blowup, &matrix, &as_it_is).err(),
            Some(StackedPcsError::RsCodeShiftOverflow { height: 2, log_blowup })
        );
    }
}

/// `c x + y`.
fn combine(c: u64, x: BabyBear, y: BabyBear) -> BabyBear {
    f(((c * x.value as u64 + y.value as u64) % 0x78000001) as u32)
}

/// The coefficients of the multilinear polynomial with the given values on the hypercube.
fn multilinear(_l_skip: usize, evals: Vec<BabyBear>) -> Vec<BabyBear> {
    let mut c = evals;
    let mut step = 1;
    while step < c.len() {
        for i in 0..c.len() {
            if i & step != 0 {
                c[i] = combine(0x78000000, c[i ^ step], c[i]);
            }
        }
        step *= 2;
    }
    c
}

#[test]
fn encoding_is_linear_and_works_column_by_column() {
    let a = ColMajorMatrix::new((1..9).map(|v| f(v * v + 5)).collect(), 2);
    let b = ColMajorMatrix::new((1..9).map(|v| f(0x78000001 - 7 * v)).collect(), 2);
    let code = |m: &ColMajorMatrix<BabyBear>| rs_code_matrix(0, 2, m, &multilinear).unwrap();
    let (code_a, code_b) = (code(&a), code(&b));
    // the sum of the matrices, and another combination
    for c in [1, 1_000_003] {
        let combined: Vec<BabyBear> =
            a.values.iter().zip(&b.values).map(|(x, y)| combine(c, *x, *y)).collect();
        let expected: Vec<BabyBear> =
            code_a.values.iter().zip(&code_b.values).map(|(x, y)| combine(c, *x, *y)).collect();
        assert_eq!(code(&ColMajorMatrix::new(combined, 2)).values, expected);
    }
    // a column has the same codeword beside another one
    let mixed = ColMajorMatrix::new([&a.values[..4], &b.values[4..]].concat(), 2);
    let code_mixed = code(&mixed);
    assert_eq!(code_mixed.values[..16], code_a.values[..16]);
    assert_eq!(code_mixed.values[16..], code_b.values[16..]);
}

#[test]
fn codewords_have_low_degree() {
    // the values of a polynomial on a subgroup determine its coefficients: n times the one of
    // index k is the sum of the values, each times the power -k of its point
    let matrix = ColMajorMatrix::new([3, 1, 4, 1].map(f).to_vec(), 1);
    let code = rs_code_matrix(0, 1, &matrix, &as_it_is).unwrap();
    let p = 0x78000001u64;
    let g = 0x5ee99486u64;
    let power = |e: u64| (0..e % 8).fold(1u64, |a, _| a * g % p);
    assert_eq!(code.height(), 8);
    let coefficients: Vec<u64> = (0..8u64)
        .map(|k| {
            (0..8u64)
                .map(|i| code.values[i as usize].value as u64 * power(8 * k - i * k % 8) % p)
                .sum::<u64>()
                % p
        })
        .collect();
    assert_eq!(coefficients, vec![24, 8, 32, 8, 0, 0, 0, 0]);
}

#[test]
fn columns_of_a_layout_make_it_again() {
    for (l_skip, log_height, dims) in [
        (1, 3, vec![(2, 2), (1, 1), (1, 0)]),
        (0, 2, vec![(3, 2), (1, 1), (2, 0)]),
        (2, 2, vec![(1, 0)]),
        (0, 4, vec![]),
    ] {
        let layout = StackedLayout::new(l_skip, log_height, dims).unwrap();
        let columns = layout.sorted_cols.clone();
        let again = StackedLayout::from_raw_parts(l_skip, log_height, columns).unwrap();
        assert_eq!(again.l_skip, layout.l_skip);
        assert_eq!(again.height, layout.height);
        assert_eq!(again.width, layout.width);
        assert_eq!(again.sorted_cols, layout.sorted_cols);
        assert_eq!(again.mat_starts, layout.mat_starts);
    }
    // a matrix without columns is not seen in the columns
    let layout = StackedLayout::new(0, 2, vec![(1, 2), (0, 1), (1, 0)]).unwrap();
    let again = StackedLayout::from_raw_parts(0, 2, layout.sorted_cols).err();
    assert_eq!(
        again,
        Some(StackedPcsError::LayoutRawPartsMatIdx { mat_idx: 2, mat_starts_len: 1 })
    );
}

#[test]
fn commitment_opens() {
    let hasher = poseidon2_hasher();
    let mats = column_matrices();
    let refs: Vec<_> = mats.iter().collect();
    let (root, data) = stacked_commit(&hasher, 1, 1, 1, 1, &refs, &as_it_is).unwrap();
    assert_eq!(data.commit(), Ok(root));
    let data = StackedPcsData::new(data.layout, data.matrix, data.tree);
    assert_eq!(data.matrix.values[..4], [1, 2, 3, 4].map(f));
    assert_eq!(data.mat_view(1).get(1, 0), Some(&f(6)));
    for q in 0..data.tree.query_stride() {
        let rows = data.tree.get_opened_rows(q).unwrap();
        assert_eq!(rows.len(), 2);
        let hashes = rows.iter().map(|r| hasher.hash_slice(r)).collect();
        let leaf = hasher.tree_compress(hashes);
        let path = data.tree.query_merkle_proof(q).unwrap();
        assert_eq!(merkle_verify(&hasher, root, q as u32, leaf, &path), Ok(()));
    }
}

#[test]
fn commitment_errors() {
    let hasher = poseidon2_hasher();
    let mats = column_matrices();
    let refs: Vec<_> = mats.iter().collect();
    assert_eq!(
        stacked_commit(&hasher, 0, 1, 1, 1, &refs, &as_it_is).err(),
        Some(StackedPcsError::LayoutHeightExceeded { log_height: 2, log_stacked_height: 1 })
    );
    assert_eq!(
        stacked_commit(&hasher, 0, 2, 64, 1, &refs, &as_it_is).err(),
        Some(StackedPcsError::RsCodeShiftOverflow { height: 4, log_blowup: 64 })
    );
    assert_eq!(
        stacked_commit(&hasher, 0, 2, 1, 4, &refs, &as_it_is).err(),
        Some(StackedPcsError::MerkleTreeRowsPerQueryExceeded { rows_per_query: 16, num_leaves: 8 })
    );
}
