use stark_backend::cpu_merkle::{
    build_digest_layers, hash_rows_with_padding, rs_encode_and_merkle_cpu, CpuMerkleTree,
};
use stark_backend::error::StackedPcsError;
use stark_backend::field::BabyBear;
use stark_backend::hasher::{Compression, Hasher, LeafHash, MerkleHasher};
use stark_backend::matrix::{ColMajorMatrix, RowMajorMatrix};
use stark_backend::merkle_tree::MerkleTree;
use stark_backend::poseidon2::{Compress, Digest, Perm, Sponge};
use stark_backend::reed_solomon::rs_code_matrix;
use stark_backend::verification::whir::merkle_verify;

#[test]
fn test_from_raw_parts_and_accessors() {
    let mat = RowMajorMatrix::new(vec![1u32, 2, 3, 4, 5, 6], 3);
    let digest_layers = vec![vec![10u32, 20], vec![30]];

    let tree = CpuMerkleTree::from_raw_parts(mat, digest_layers, 1);

    assert_eq!(tree.rows_per_query(), 1);
    assert_eq!(tree.backing_matrix().width, 3);
    assert_eq!(tree.digest_layers().len(), 2);
    assert_eq!(tree.query_stride(), 2);
    assert_eq!(tree.proof_depth(), 1);
}

#[test]
fn test_root() {
    let mat = RowMajorMatrix::new(vec![1u32, 2, 3, 4], 2);
    let digest_layers = vec![vec![10u32, 20], vec![42]];

    let tree = CpuMerkleTree::from_raw_parts(mat, digest_layers, 1);
    assert_eq!(tree.root().unwrap(), 42);
}

#[test]
fn test_root_no_layers() {
    let mat = RowMajorMatrix::new(vec![1u32, 2], 2);
    let digest_layers: Vec<Vec<u32>> = vec![];

    let tree = CpuMerkleTree::from_raw_parts(mat, digest_layers, 1);
    assert!(tree.root().is_err());
    assert_eq!(tree.root(), Err(StackedPcsError::MerkleTreeNoRoot));
}

#[test]
fn test_query_merkle_proof() {
    // 4 leaves -> 2 layers: [a, b, c, d] -> [ab, cd] -> [abcd]
    let mat = RowMajorMatrix::new(vec![0u32; 8], 2);
    let layer0 = vec![10u32, 20, 30, 40];
    let layer1 = vec![100u32, 200];
    let layer2 = vec![999u32];
    let digest_layers = vec![layer0, layer1, layer2];

    let tree = CpuMerkleTree::from_raw_parts(mat, digest_layers, 1);
    assert_eq!(tree.query_stride(), 4);
    assert_eq!(tree.proof_depth(), 2);

    // Query index 0: siblings are layer0[1], layer1[1]
    let proof = tree.query_merkle_proof(0).unwrap();
    assert_eq!(proof, vec![20, 200]);

    // Query index 1: siblings are layer0[0], layer1[1]
    let proof = tree.query_merkle_proof(1).unwrap();
    assert_eq!(proof, vec![10, 200]);

    // Query index 2: siblings are layer0[3], layer1[0]
    let proof = tree.query_merkle_proof(2).unwrap();
    assert_eq!(proof, vec![40, 100]);

    // Out of bounds
    assert!(tree.query_merkle_proof(4).is_err());
    assert_eq!(
        tree.query_merkle_proof(4),
        Err(StackedPcsError::MerkleTreeQueryOutOfBounds { query_idx: 4, query_stride: 4 })
    );
}

#[test]
fn test_get_opened_rows_single() {
    // 4 rows x 3 cols, rows_per_query = 1
    let mat = RowMajorMatrix::new(vec![1u32, 2, 3, 4, 5, 6, 7, 8, 9, 10, 11, 12], 3);
    let digest_layers = vec![vec![0u32; 4], vec![0u32; 2], vec![0u32; 1]];

    let tree = CpuMerkleTree::from_raw_parts(mat, digest_layers, 1);
    assert_eq!(tree.query_stride(), 4);

    let rows = tree.get_opened_rows(0).unwrap();
    assert_eq!(rows.len(), 1);
    assert_eq!(rows[0], vec![1, 2, 3]);

    let rows = tree.get_opened_rows(2).unwrap();
    assert_eq!(rows.len(), 1);
    assert_eq!(rows[0], vec![7, 8, 9]);
}

#[test]
fn test_get_opened_rows_batched() {
    // 4 rows x 2 cols, rows_per_query = 2
    // query_stride = 4 / 2 = 2 (from digest_layers[0].len())
    let mat = RowMajorMatrix::new(vec![1u32, 2, 3, 4, 5, 6, 7, 8], 2);
    let digest_layers = vec![vec![0u32; 2], vec![0u32; 1]];

    let tree = CpuMerkleTree::from_raw_parts(mat, digest_layers, 2);
    assert_eq!(tree.query_stride(), 2);

    // index=0: rows at 0 and 0 + 2 = 2
    let rows = tree.get_opened_rows(0).unwrap();
    assert_eq!(rows.len(), 2);
    assert_eq!(rows[0], vec![1, 2]);
    assert_eq!(rows[1], vec![5, 6]);

    // index=1: rows at 1 and 1 + 2 = 3
    let rows = tree.get_opened_rows(1).unwrap();
    assert_eq!(rows.len(), 2);
    assert_eq!(rows[0], vec![3, 4]);
    assert_eq!(rows[1], vec![7, 8]);

    // Out of bounds
    assert!(tree.get_opened_rows(2).is_err());
    assert_eq!(
        tree.get_opened_rows(2),
        Err(StackedPcsError::MerkleTreeOpenedRowsOutOfBounds { index: 2, query_stride: 2 })
    );
}

#[test]
fn rows_below_the_last_one_open_empty() {
    // 3 rows of one cell, padded to 4 leaves
    let mat = RowMajorMatrix::new(vec![1u32, 2, 3], 1);
    let tree = CpuMerkleTree::from_raw_parts(mat, vec![vec![0u32; 2], vec![0u32; 1]], 2);
    assert_eq!(tree.get_opened_rows(0).unwrap(), vec![vec![1], vec![3]]);
    assert_eq!(tree.get_opened_rows(1).unwrap(), vec![vec![2], vec![]]);
}

/// The coefficients of the multilinear polynomial with the given values on the hypercube.
fn multilinear_coeffs(_l_skip: usize, evals: Vec<BabyBear>) -> Vec<BabyBear> {
    let p = 0x78000001u64;
    let mut c: Vec<u64> = evals.iter().map(|x| x.value as u64).collect();
    let mut bit = 1;
    while bit < c.len() {
        for i in 0..c.len() {
            if i & bit != 0 {
                c[i] = (c[i] + p - c[i ^ bit]) % p;
            }
        }
        bit *= 2;
    }
    c.into_iter().map(|v| BabyBear::new(v as u32)).collect()
}

fn codeword_tree<H: MerkleHasher<F = BabyBear, Digest = Digest>>(hasher: &H, label: &str) {
    let width = 2usize;
    let height = 16usize;
    let vals: Vec<BabyBear> = (0..(width * height) as u32).map(BabyBear::new).collect();
    let eval_matrix = ColMajorMatrix::new(vals, height);
    let tree = rs_encode_and_merkle_cpu(hasher, 0, 1, &eval_matrix, 2, &multilinear_coeffs);
    let root = tree.root().expect("root");
    let stride = tree.query_stride();
    for (li, layer) in tree.digest_layers.iter().enumerate() {
        if layer.len() < 2 {
            continue;
        }
        let folded: Vec<Digest> =
            layer.chunks_exact(2).map(|p| hasher.compress(p[0], p[1])).collect();
        let next = &tree.digest_layers[li + 1];
        assert_eq!(folded.len(), next.len(), "{label}: layer {li} size mismatch");
        for (j, (a, b)) in folded.iter().zip(next.iter()).enumerate() {
            assert_eq!(a, b, "{label}: layer {li}->{} node {j} diverges", li + 1);
        }
    }
    for q in 0..stride.min(4) {
        let proof = tree.query_merkle_proof(q).expect("proof");
        let leaf = tree.digest_layers[0][q];
        merkle_verify(hasher, root, q as u32, leaf, &proof)
            .unwrap_or_else(|e| panic!("{label}: query {q} failed: {e:?}"));
    }
}

#[derive(Clone, Copy, Debug)]
struct Blake3F;

fn to_digest(b: &[u8; 32]) -> Digest {
    let limbs = core::array::from_fn(|i| {
        let w = u32::from_le_bytes([b[4 * i], b[4 * i + 1], b[4 * i + 2], b[4 * i + 3]]);
        BabyBear::new(w)
    });
    Digest { limbs }
}

impl LeafHash<BabyBear, Digest> for Blake3F {
    fn hash_slice(&self, vals: &[BabyBear]) -> Digest {
        let mut buf = Vec::new();
        for f in vals {
            buf.extend_from_slice(&f.value.to_le_bytes());
        }
        to_digest(blake3::hash(&buf).as_bytes())
    }
}

impl Compression<Digest> for Blake3F {
    fn compress(&self, left: Digest, right: Digest) -> Digest {
        let mut buf = Vec::new();
        for f in left.limbs.iter().chain(right.limbs.iter()) {
            buf.extend_from_slice(&f.value.to_le_bytes());
        }
        to_digest(blake3::hash(&buf).as_bytes())
    }
}

fn poseidon2_hasher() -> Hasher<BabyBear, Digest, Sponge, Compress> {
    Hasher::new(Sponge { perm: Perm }, Compress { perm: Perm })
}

#[test]
fn codeword_tree_poseidon2_control() {
    codeword_tree(&poseidon2_hasher(), "poseidon2");
}

#[test]
fn codeword_tree_blake3() {
    let hasher = Hasher::<BabyBear, Digest, _, _>::new(Blake3F, Blake3F);
    codeword_tree(&hasher, "blake3");
}

#[test]
fn row_major_and_column_major_codewords_have_the_same_tree() {
    let hasher = poseidon2_hasher();
    let vals: Vec<BabyBear> = (0..24u32).map(|i| BabyBear::new(i * i + 3)).collect();
    let eval_matrix = ColMajorMatrix::new(vals, 3);
    let cpu = rs_encode_and_merkle_cpu(&hasher, 0, 2, &eval_matrix, 4, &multilinear_coeffs);
    let code = rs_code_matrix(0, 2, &eval_matrix, &multilinear_coeffs).unwrap();
    let tree = MerkleTree::new(&hasher, code, 4).unwrap();
    assert_eq!(cpu.digest_layers, tree.digest_layers);
    assert_eq!(cpu.backing_matrix.height(), 32);
    for q in 0..tree.query_stride() {
        assert_eq!(cpu.get_opened_rows(q), tree.get_opened_rows(q));
    }
}

#[test]
fn opened_rows_lead_to_the_root() {
    let hasher = poseidon2_hasher();
    let vals: Vec<BabyBear> = (0..8u32).map(|i| BabyBear::new(7 * i + 1)).collect();
    let eval_matrix = ColMajorMatrix::new(vals, 2);
    let tree = rs_encode_and_merkle_cpu(&hasher, 0, 1, &eval_matrix, 2, &multilinear_coeffs);
    let root = tree.root().unwrap();
    for q in 0..tree.query_stride() {
        let rows = tree.get_opened_rows(q).unwrap();
        let hashes = rows.iter().map(|r| hasher.hash_slice(r)).collect();
        let leaf = hasher.tree_compress(hashes);
        let proof = tree.query_merkle_proof(q).unwrap();
        assert_eq!(merkle_verify(&hasher, root, q as u32, leaf, &proof), Ok(()));
    }
}

#[test]
fn padding_rows_are_hashed_apart() {
    let hashes = hash_rows_with_padding(4, 3, |r| 10 + r, || 99);
    assert_eq!(hashes, vec![10, 11, 12, 99]);
}

#[test]
fn digest_layers_are_built_with_the_hasher_given() {
    let hasher = Hasher::<BabyBear, Digest, _, _>::new(Blake3F, Blake3F);
    let leaves: Vec<Digest> =
        (0..4u32).map(|i| hasher.hash_slice(&[BabyBear::new(i)])).collect();
    let layers = build_digest_layers(leaves.clone(), 2, &hasher);
    assert_eq!(layers.len(), 2);
    assert_eq!(layers[0][1], hasher.compress(leaves[1], leaves[3]));
    assert_eq!(layers[1][0], hasher.compress(layers[0][0], layers[0][1]));
}
