//! Construction of the digest layers of a Merkle tree from the hashes of its rows.

use vstd::arithmetic::div_mod::lemma_fundamental_div_mod;
use vstd::arithmetic::power2::*;
use vstd::prelude::*;

use crate::bits::{lemma_pow2_log2, log2_strict_usize};
use crate::hasher::MerkleHasher;
use crate::tree::{
    all_layers, digest_layers, interleaved, lemma_interleaved, lemma_interleaved_bounds, pair_up,
    query_layer, strided, tree_root,
};

verus! {

/// The contents of a vector of vectors.
pub open spec fn views<D>(layers: Seq<Vec<D>>) -> Seq<Seq<D>> {
    Seq::new(layers.len(), |i: int| layers[i]@)
}

/// One round of combining rows that lie `stride` apart.
fn combine_interleaved<H: MerkleHasher>(
    prev: &Vec<H::Digest>,
    stride: usize,
    hasher: &H,
    Ghost(m): Ghost<nat>,
) -> (r: Vec<H::Digest>)
    requires
        stride > 0,
        prev@.len() == 2 * m * stride,
    ensures
        r@ == interleaved(hasher.node(), prev@, stride as nat),
{
    let n = prev.len() / 2;
    let mut next: Vec<H::Digest> = Vec::with_capacity(n);
    let mut i: usize = 0;
    while i < n
        invariant
            n == prev.len() / 2,
            i <= n,
            stride > 0,
            prev@.len() == 2 * m * stride,
            next@.len() == i,
            forall|j: int|
                0 <= j < i ==> #[trigger] next@[j] == interleaved(
                    hasher.node(),
                    prev@,
                    stride as nat,
                )[j],
        decreases n - i,
    {
        let x = i / stride;
        let y = i % stride;
        proof {
            lemma_interleaved_bounds(prev@.len() as int, stride as int, m as int, i as int);
            assert(2 * x + 1 <= (2 * x + 1) * stride && 0 <= 2 * x * stride && 2 * x * stride <= (2
                * x + 1) * stride) by (nonlinear_arith)
                requires
                    stride >= 1,
                    x >= 0,
            ;
        }
        let left = prev[2 * x * stride + y];
        let right = prev[(2 * x + 1) * stride + y];
        next.push(hasher.compress(left, right));
        i = i + 1;
    }
    assert(next@ =~= interleaved(hasher.node(), prev@, stride as nat));
    next
}

/// The layer above `prev`: each two neighbours compressed.
fn combine_pairs<H: MerkleHasher>(prev: &Vec<H::Digest>, hasher: &H) -> (r: Vec<H::Digest>)
    ensures
        r@ == pair_up(hasher.node(), prev@),
{
    let n = prev.len() / 2;
    let mut next: Vec<H::Digest> = Vec::with_capacity(n);
    let mut i: usize = 0;
    while i < n
        invariant
            n == prev.len() / 2,
            i <= n,
            next@.len() == i,
            forall|j: int| 0 <= j < i ==> #[trigger] next@[j] == pair_up(hasher.node(), prev@)[j],
        decreases n - i,
    {
        next.push(hasher.compress(prev[2 * i], prev[2 * i + 1]));
        i = i + 1;
    }
    assert(next@ =~= pair_up(hasher.node(), prev@));
    next
}

/// Builds the digest layers over `row_hashes`. The rows of one query lie as far apart as there
/// are queries; they are combined first and only their roots are kept.
pub fn build_digest_layers_scalar<H: MerkleHasher>(
    row_hashes: Vec<H::Digest>,
    rows_per_query: usize,
    hasher: &H,
) -> (r: Vec<Vec<H::Digest>>)
    requires
        is_pow2(rows_per_query as int),
        row_hashes@.len() > 0,
        row_hashes@.len() % (rows_per_query as nat) == 0,
    ensures
        views(r@) == digest_layers(hasher.node(), row_hashes@, rows_per_query as nat),
{
    let ghost node = hasher.node();
    let ghost leaves = row_hashes@;
    let num_leaves = row_hashes.len();
    proof {
        lemma_pow2_log2(rows_per_query as nat);
        lemma_fundamental_div_mod(num_leaves as int, rows_per_query as int);
    }
    let stride = num_leaves / rows_per_query;
    assert(stride > 0) by (nonlinear_arith)
        requires
            num_leaves > 0,
            num_leaves == rows_per_query * stride,
            rows_per_query >= 1,
    ;
    let rounds = log2_strict_usize(rows_per_query);
    let mut layer = row_hashes;
    let ghost mut m = rows_per_query as nat;
    let mut i: usize = 0;
    while i < rounds
        invariant
            i <= rounds,
            stride > 0,
            node == hasher.node(),
            m == pow2((rounds - i) as nat),
            layer@.len() == m * stride,
            forall|y: int|
                0 <= y < stride ==> tree_root(
                    node,
                    #[trigger] strided(layer@, stride as nat, y, m),
                ) == tree_root(node, strided(leaves, stride as nat, y, rows_per_query as nat)),
        decreases rounds - i,
    {
        let ghost half = pow2((rounds - i - 1) as nat);
        proof {
            lemma_pow2_unfold((rounds - i) as nat);
            lemma_pow2_pos((rounds - i - 1) as nat);
            assert(m * stride == 2 * half * stride);
            lemma_interleaved(node, layer@, stride as nat, half);
        }
        layer = combine_interleaved(&layer, stride, hasher, Ghost(half));
        proof {
            m = half;
        }
        i = i + 1;
    }
    proof {
        lemma2_to64();
        assert(m * stride == stride) by (nonlinear_arith)
            requires
                m == 1,
        ;
        let q = query_layer(node, leaves, rows_per_query as nat);
        assert forall|y: int| 0 <= y < stride implies #[trigger] layer@[y] == q[y] by {
            assert(strided(layer@, stride as nat, y, 1)[0] == layer@[y]);
        }
        assert(layer@ =~= q);
    }
    let ghost q = layer@;
    let mut layers: Vec<Vec<H::Digest>> = Vec::new();
    while layer.len() > 1
        invariant
            layer@.len() >= 1,
            node == hasher.node(),
            all_layers(node, q) == views(layers@) + all_layers(node, layer@),
        decreases layer@.len(),
    {
        let above = combine_pairs(&layer, hasher);
        let ghost before = layers@;
        layers.push(layer);
        proof {
            assert(views(layers@) =~= views(before) + seq![layer@]);
            assert(all_layers(node, q) =~= views(layers@) + all_layers(node, above@));
        }
        layer = above;
    }
    let ghost before = layers@;
    layers.push(layer);
    assert(views(layers@) =~= views(before) + seq![layer@]);
    layers
}

} // verus!
