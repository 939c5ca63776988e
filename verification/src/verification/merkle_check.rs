//! Verification of Merkle proofs.

use vstd::arithmetic::power2::*;
use vstd::prelude::*;
use vstd::std_specs::cmp::PartialEqSpec;

use crate::bits::{lemma_next_pow2, next_pow2};
use crate::hasher::MerkleHasher;
use crate::matrix::ColMajorMatrix;
use crate::merkle_tree::{
    is_tree_over, opened_by, opened_rows_verify, row_hash, LeafElement, MerkleTree,
};
use crate::poseidon2::Digest;
use crate::tree::{
    auth_path, has_path, lemma_stride_is_pow2, openings_bind, path_root, paths_collide, tree_root,
};
use crate::verification::whir::VerifyWhirError;

verus! {

/// Whether `path` leads from `leaf` at `idx` to `root`.
pub open spec fn path_holds<H: MerkleHasher>(
    hasher: &H,
    root: H::Digest,
    idx: int,
    leaf: H::Digest,
    path: Seq<H::Digest>,
) -> bool where H::Digest: Eq {
    root.eq_spec(&path_root(hasher.node(), leaf, idx, path))
}

/// Whether `==` on digests is equality.
pub open spec fn compares_exactly<D: Eq>() -> bool {
    forall|a: D, b: D| #[trigger] a.eq_spec(&b) <==> a == b
}

/// The digest that a query of the tree opens: the rows that the query reads are hashed and the
/// digests combined.
pub open spec fn opened_digest<H: MerkleHasher, E: LeafElement<H::F>>(
    hasher: &H,
    tree: &MerkleTree<E, H::Digest>,
    q: int,
) -> H::Digest {
    let opened = opened_by(
        &tree.backing_matrix,
        tree.rows_per_query as nat,
        tree.layers()[0].len(),
        q,
    );
    tree_root(hasher.node(), opened.map_values(|row: Seq<E>| row_hash::<H, E>(hasher, row)))
}

/// What a tree opens, the verifier accepts, for any hasher: for every query, the Merkle proof read
/// out of a tree leads from the combined hashes of the opened rows to the tree's root. Of `==` on
/// digests nothing is asked but that the root is equal to itself.
pub proof fn opened_rows_are_accepted<H: MerkleHasher, E: LeafElement<H::F>>(
    hasher: &H,
    matrix: ColMajorMatrix<E>,
    rows_per_query: usize,
    tree: MerkleTree<E, H::Digest>,
    q: int,
) where H::Digest: Eq
    requires
        is_tree_over(hasher, matrix, rows_per_query, Ok(tree)),
        0 <= q < tree.layers()[0].len(),
        tree.layers().last()[0].eq_spec(&tree.layers().last()[0]),
    ensures
        has_path(tree.layers(), q),
        path_holds(
            hasher,
            tree.layers().last()[0],
            q,
            opened_digest::<H, E>(hasher, &tree, q),
            auth_path(tree.layers(), q),
        ),
{
    let n = next_pow2(matrix.height as nat);
    lemma_next_pow2(matrix.height as nat);
    lemma_stride_is_pow2(n, rows_per_query as nat);
    opened_rows_verify::<H, E>(hasher, &matrix, rows_per_query as nat, 0);
    opened_rows_verify::<H, E>(hasher, &matrix, rows_per_query as nat, q);
}

/// With Poseidon2 digests, what a tree opens is accepted without more ado.
pub proof fn opened_rows_with_digests_are_accepted<
    H: MerkleHasher<Digest = Digest>,
    E: LeafElement<H::F>,
>(
    hasher: &H,
    matrix: ColMajorMatrix<E>,
    rows_per_query: usize,
    tree: MerkleTree<E, Digest>,
    q: int,
)
    requires
        is_tree_over(hasher, matrix, rows_per_query, Ok(tree)),
        0 <= q < tree.layers()[0].len(),
    ensures
        path_holds(
            hasher,
            tree.layers().last()[0],
            q,
            opened_digest::<H, E>(hasher, &tree, q),
            auth_path(tree.layers(), q),
        ),
{
    digests_compare_exactly();
    opened_rows_are_accepted::<H, E>(hasher, matrix, rows_per_query, tree, q);
}

/// What the verifier accepts is bound: two accepted proofs of one index and length under one root
/// are of the same leaf, or they show a collision of the compression function on their way up.
pub proof fn accepted_paths_bind<H: MerkleHasher>(
    hasher: &H,
    root: H::Digest,
    idx: int,
    leaf1: H::Digest,
    path1: Seq<H::Digest>,
    leaf2: H::Digest,
    path2: Seq<H::Digest>,
) where H::Digest: Eq
    requires
        compares_exactly::<H::Digest>(),
        idx >= 0,
        path1.len() == path2.len(),
        path_holds(hasher, root, idx, leaf1, path1),
        path_holds(hasher, root, idx, leaf2, path2),
    ensures
        (leaf1 == leaf2 && path1 == path2) || paths_collide(
            hasher.node(),
            idx,
            leaf1,
            path1,
            leaf2,
            path2,
        ),
{
    openings_bind(hasher.node(), idx, leaf1, path1, leaf2, path2);
}

/// Checks that the siblings in `merkle_proof` lead from `leaf_hash` at `idx` to `root`.
pub fn merkle_verify<H: MerkleHasher>(
    hasher: &H,
    root: H::Digest,
    idx: u32,
    leaf_hash: H::Digest,
    merkle_proof: &[H::Digest],
) -> (r: Result<(), VerifyWhirError>) where H::Digest: Eq
    requires
        <H::Digest as PartialEqSpec>::obeys_eq_spec(),
    ensures
        r == (if path_holds(hasher, root, idx as int, leaf_hash, merkle_proof@) {
            Ok(())
        } else {
            Err::<(), VerifyWhirError>(VerifyWhirError::MerkleVerify)
        }),
{
    let ghost end = path_root(hasher.node(), leaf_hash, idx as int, merkle_proof@);
    let mut cur = leaf_hash;
    let mut pos: u32 = idx;
    let mut i: usize = 0;
    proof {
        assert(merkle_proof@.skip(0) =~= merkle_proof@);
    }
    while i < merkle_proof.len()
        invariant
            i <= merkle_proof@.len(),
            path_root(hasher.node(), cur, pos as int, merkle_proof@.skip(i as int)) == end,
        decreases merkle_proof@.len() - i,
    {
        let sibling = merkle_proof[i];
        proof {
            assert(merkle_proof@.skip(i as int).skip(1) =~= merkle_proof@.skip(i + 1));
        }
        cur = if pos % 2 == 0 {
            hasher.compress(cur, sibling)
        } else {
            hasher.compress(sibling, cur)
        };
        pos = pos / 2;
        i = i + 1;
    }
    if root == cur {
        Ok(())
    } else {
        Err(VerifyWhirError::MerkleVerify)
    }
}

/// Poseidon2 digests are compared exactly.
pub proof fn digests_compare_exactly()
    ensures
        compares_exactly::<Digest>(),
        <Digest as PartialEqSpec>::obeys_eq_spec(),
{
    assert forall|a: Digest, b: Digest| #[trigger] a.eq_spec(&b) implies a == b by {
        assert(a.limbs =~= b.limbs);
    }
}

} // verus!
