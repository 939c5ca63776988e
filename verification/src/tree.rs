//! Binary hash trees over sequences of digests.

use vstd::arithmetic::div_mod::lemma_div_denominator;
use vstd::arithmetic::power2::*;
use vstd::prelude::*;

use crate::bits::{lemma_log2_pow2, lemma_pow2_divides, lemma_pow2_log2, log2};

verus! {

/// The layer above `s`: each two neighbours combined, an unpaired last element dropped.
pub open spec fn pair_up<D>(node: spec_fn(D, D) -> D, s: Seq<D>) -> Seq<D> {
    Seq::new(s.len() / 2, |i: int| node(s[2 * i], s[2 * i + 1]))
}

/// The root of the tree with leaves `s`.
pub open spec fn tree_root<D>(node: spec_fn(D, D) -> D, s: Seq<D>) -> D
    decreases s.len(),
{
    if s.len() <= 1 {
        s[0]
    } else {
        tree_root(node, pair_up(node, s))
    }
}

/// All layers of the tree with leaves `s`, from the leaves up to the root.
pub open spec fn all_layers<D>(node: spec_fn(D, D) -> D, s: Seq<D>) -> Seq<Seq<D>>
    decreases s.len(),
{
    if s.len() <= 1 {
        seq![s]
    } else {
        seq![s] + all_layers(node, pair_up(node, s))
    }
}

/// The rows of `s` that one query opens: those at `y`, `y + stride`, `y + 2 * stride`, ...
pub open spec fn strided<D>(s: Seq<D>, stride: nat, y: int, count: nat) -> Seq<D> {
    Seq::new(count, |t: int| s[t * stride + y])
}

/// The digests of the queries: entry `y` is the root over the rows that query `y` opens.
pub open spec fn query_layer<D>(
    node: spec_fn(D, D) -> D,
    leaves: Seq<D>,
    rows_per_query: nat,
) -> Seq<D> {
    let stride = leaves.len() / rows_per_query;
    Seq::new(stride, |y: int| tree_root(node, strided(leaves, stride, y, rows_per_query)))
}

/// The digest layers of the tree that batches `rows_per_query` of the `leaves` into each query.
pub open spec fn digest_layers<D>(
    node: spec_fn(D, D) -> D,
    leaves: Seq<D>,
    rows_per_query: nat,
) -> Seq<Seq<D>> {
    all_layers(node, query_layer(node, leaves, rows_per_query))
}

/// The other child of the parent of entry `i`.
pub open spec fn sibling(i: int) -> int {
    if i % 2 == 0 {
        i + 1
    } else {
        i - 1
    }
}

/// The siblings on the way from entry `idx` of the lowest layer up to the root.
pub open spec fn auth_path<D>(layers: Seq<Seq<D>>, idx: int) -> Seq<D> {
    Seq::new(
        (layers.len() - 1) as nat,
        |i: int| layers[i][sibling(idx / (pow2(i as nat) as int))],
    )
}

/// Whether every sibling of [`auth_path`] exists.
pub open spec fn has_path<D>(layers: Seq<Seq<D>>, idx: int) -> bool {
    forall|i: int|
        0 <= i < layers.len() - 1 ==> sibling(idx / (pow2(i as nat) as int))
            < (#[trigger] layers[i]).len()
}

/// The root that a leaf at `idx` and its siblings lead to.
pub open spec fn path_root<D>(node: spec_fn(D, D) -> D, leaf: D, idx: int, path: Seq<D>) -> D
    decreases path.len(),
{
    if path.len() == 0 {
        leaf
    } else {
        let up = if idx % 2 == 0 {
            node(leaf, path[0])
        } else {
            node(path[0], leaf)
        };
        path_root(node, up, idx / 2, path.skip(1))
    }
}

/// One round of combining rows that lie `stride` apart: entry `x * stride + y` of the result
/// combines the entries `2x * stride + y` and `(2x + 1) * stride + y`.
pub open spec fn interleaved<D>(node: spec_fn(D, D) -> D, s: Seq<D>, stride: nat) -> Seq<D> {
    Seq::new(
        s.len() / 2,
        |i: int|
            node(
                s[2 * (i / (stride as int)) * stride + i % (stride as int)],
                s[(2 * (i / (stride as int)) + 1) * stride + i % (stride as int)],
            ),
    )
}

/// The two entries that [`interleaved`] combines lie inside a layer of whole row pairs.
pub proof fn lemma_interleaved_bounds(len: int, stride: int, m: int, i: int)
    requires
        stride > 0,
        m >= 0,
        len == 2 * m * stride,
        0 <= i < len / 2,
    ensures
        0 <= i / stride < m,
        0 <= i % stride < stride,
        0 <= 2 * (i / stride) * stride + i % stride,
        (2 * (i / stride) + 1) * stride + i % stride < len,
        2 * (i / stride) * stride + i % stride < len,
        (2 * (i / stride) + 1) * stride <= len,
{
    let x = i / stride;
    assert(len / 2 == m * stride) by (nonlinear_arith)
        requires
            len == 2 * m * stride,
    ;
    assert(0 <= x && x < m && 0 <= i % stride && i % stride < stride) by (nonlinear_arith)
        requires
            stride > 0,
            0 <= i < m * stride,
            x == i / stride,
    ;
    assert(0 <= 2 * x * stride && (2 * x + 1) * stride + stride <= 2 * m * stride)
        by (nonlinear_arith)
        requires
            0 <= x < m,
            stride > 0,
    ;
    assert((2 * x + 1) * stride == 2 * x * stride + stride) by (nonlinear_arith);
}

/// Combining rows once halves what a query opens and keeps its root.
pub proof fn lemma_interleaved<D>(node: spec_fn(D, D) -> D, s: Seq<D>, stride: nat, m: nat)
    requires
        stride > 0,
        m >= 1,
        s.len() == 2 * m * stride,
    ensures
        interleaved(node, s, stride).len() == m * stride,
        forall|y: int|
            0 <= y < stride ==> tree_root(
                node,
                #[trigger] strided(interleaved(node, s, stride), stride, y, m),
            ) == tree_root(node, strided(s, stride, y, 2 * m)),
{
    let t = interleaved(node, s, stride);
    assert(t.len() == m * stride) by (nonlinear_arith)
        requires
            t.len() == s.len() / 2,
            s.len() == 2 * m * stride,
    ;
    assert forall|y: int| 0 <= y < stride implies tree_root(
        node,
        #[trigger] strided(t, stride, y, m),
    ) == tree_root(node, strided(s, stride, y, 2 * m)) by {
        let low = strided(t, stride, y, m);
        let high = strided(s, stride, y, 2 * m);
        assert forall|x: int| 0 <= x < m implies #[trigger] low[x] == pair_up(node, high)[x] by {
            let i = x * stride + y;
            assert(i / (stride as int) == x && i % (stride as int) == y) by (nonlinear_arith)
                requires
                    i == x * stride + y,
                    0 <= y < stride,
            ;
            assert(0 <= i < m * stride) by (nonlinear_arith)
                requires
                    i == x * stride + y,
                    0 <= x < m,
                    0 <= y < stride,
            ;
            assert(low[x] == t[i]);
        }
        assert(low =~= pair_up(node, high));
    }
}

/// The layers end in the one that holds the root alone.
pub proof fn lemma_all_layers<D>(node: spec_fn(D, D) -> D, s: Seq<D>)
    requires
        s.len() >= 1,
    ensures
        all_layers(node, s).len() >= 1,
        all_layers(node, s)[0] == s,
        all_layers(node, s).last() == seq![tree_root(node, s)],
    decreases s.len(),
{
    if s.len() <= 1 {
        assert(s =~= seq![s[0]]);
    } else {
        lemma_all_layers(node, pair_up(node, s));
    }
}

/// Layer `i` of a tree over `2^h` digests has `2^(h - i)` entries, and there are `h + 1` layers.
pub proof fn lemma_layer_lens<D>(node: spec_fn(D, D) -> D, s: Seq<D>, h: nat)
    requires
        s.len() == pow2(h),
    ensures
        all_layers(node, s).len() == h + 1,
        forall|i: int|
            0 <= i <= h ==> (#[trigger] all_layers(node, s)[i]).len() == pow2((h - i) as nat),
    decreases h,
{
    lemma2_to64();
    if h == 0 {
    } else {
        lemma_pow2_unfold(h);
        lemma_pow2_pos((h - 1) as nat);
        let up = pair_up(node, s);
        lemma_layer_lens(node, up, (h - 1) as nat);
        assert forall|i: int| 0 <= i <= h implies (#[trigger] all_layers(node, s)[i]).len()
            == pow2((h - i) as nat) by {
            if i > 0 {
                assert(all_layers(node, s)[i] == all_layers(node, up)[i - 1]);
            }
        }
    }
}

/// Every query of a tree over a power of two of digests has all its siblings.
pub proof fn lemma_has_path<D>(node: spec_fn(D, D) -> D, s: Seq<D>, idx: int)
    requires
        is_pow2(s.len() as int),
        0 <= idx < s.len(),
    ensures
        has_path(all_layers(node, s), idx),
{
    let h = log2(s.len());
    lemma_pow2_log2(s.len());
    lemma_layer_lens(node, s, h);
    let layers = all_layers(node, s);
    assert forall|i: int| 0 <= i < layers.len() - 1 implies sibling(
        idx / (pow2(i as nat) as int),
    ) < (#[trigger] layers[i]).len() by {
        let d = pow2(i as nat) as int;
        let r = pow2((h - i) as nat) as int;
        lemma_pow2_adds((h - i) as nat, i as nat);
        lemma_pow2_pos(i as nat);
        lemma_pow2_unfold((h - i) as nat);
        assert(0 <= idx / d < r) by (nonlinear_arith)
            requires
                0 <= idx < r * d,
                d > 0,
        ;
    }
}

proof fn lemma_path_shift<D>(node: spec_fn(D, D) -> D, s: Seq<D>, idx: int)
    requires
        s.len() > 1,
        idx >= 0,
    ensures
        auth_path(all_layers(node, s), idx).len() >= 1,
        auth_path(all_layers(node, s), idx)[0] == s[sibling(idx)],
        auth_path(all_layers(node, s), idx).skip(1) == auth_path(
            all_layers(node, pair_up(node, s)),
            idx / 2,
        ),
{
    let up = pair_up(node, s);
    let layers = all_layers(node, s);
    let above = all_layers(node, up);
    lemma_all_layers(node, up);
    lemma2_to64();
    assert(auth_path(layers, idx)[0] == s[sibling(idx / 1)]);
    assert forall|i: int| 0 <= i < above.len() - 1 implies #[trigger] auth_path(layers, idx).skip(
        1,
    )[i] == auth_path(above, idx / 2)[i] by {
        assert(layers[i + 1] == above[i]);
        lemma_pow2_unfold((i + 1) as nat);
        lemma_pow2_pos(i as nat);
        vstd::arithmetic::div_mod::lemma_div_denominator(idx, 2, pow2(i as nat) as int);
    }
    assert(auth_path(layers, idx).skip(1) =~= auth_path(above, idx / 2));
}

/// A path read out of a tree leads from its entry to the root of the tree.
pub proof fn lemma_path_leads_to_root<D>(node: spec_fn(D, D) -> D, s: Seq<D>, idx: int)
    requires
        is_pow2(s.len() as int),
        0 <= idx < s.len(),
    ensures
        path_root(node, s[idx], idx, auth_path(all_layers(node, s), idx)) == tree_root(node, s),
    decreases s.len(),
{
    reveal_with_fuel(is_pow2, 2);
    let path = auth_path(all_layers(node, s), idx);
    if s.len() > 1 {
        let up = pair_up(node, s);
        lemma_path_shift(node, s, idx);
        lemma_path_leads_to_root(node, up, idx / 2);
        assert(up[idx / 2] == node(s[2 * (idx / 2)], s[2 * (idx / 2) + 1]));
    }
}

/// The number of queries of a tree over a power of two of leaves is itself one.
pub proof fn lemma_stride_is_pow2(leaves: nat, rows_per_query: nat)
    requires
        is_pow2(leaves as int),
        is_pow2(rows_per_query as int),
        rows_per_query <= leaves,
    ensures
        leaves % rows_per_query == 0,
        is_pow2((leaves / rows_per_query) as int),
        (leaves / rows_per_query) * rows_per_query == leaves,
        leaves / rows_per_query >= 1,
{
    lemma_pow2_log2(leaves);
    lemma_pow2_log2(rows_per_query);
    let a = log2(rows_per_query);
    let b = log2(leaves);
    if b < a {
        lemma_pow2_strictly_increases(b, a);
    }
    lemma_pow2_divides(a, b);
    lemma_log2_pow2((b - a) as nat);
    lemma_pow2_pos((b - a) as nat);
}

/// Opening and verifying agree: the rows that a query opens, hashed and combined, lead along the
/// query's path to the root of the tree.
pub proof fn lemma_opening_leads_to_root<D>(
    node: spec_fn(D, D) -> D,
    leaves: Seq<D>,
    rows_per_query: nat,
    q: int,
)
    requires
        is_pow2(leaves.len() as int),
        is_pow2(rows_per_query as int),
        rows_per_query <= leaves.len(),
        0 <= q < leaves.len() / rows_per_query,
    ensures
        ({
            let layers = digest_layers(node, leaves, rows_per_query);
            let stride = leaves.len() / rows_per_query;
            let opened = tree_root(node, strided(leaves, stride, q, rows_per_query));
            &&& layers[0].len() == stride
            &&& layers.last().len() == 1
            &&& has_path(layers, q)
            &&& path_root(node, opened, q, auth_path(layers, q)) == layers.last()[0]
        }),
{
    let queries = query_layer(node, leaves, rows_per_query);
    lemma_stride_is_pow2(leaves.len(), rows_per_query);
    lemma_all_layers(node, queries);
    lemma_has_path(node, queries, q);
    lemma_path_leads_to_root(node, queries, q);
}

/// Whether two different pairs combine to the same digest.
pub open spec fn pairs_collide<D>(node: spec_fn(D, D) -> D, p: (D, D), q: (D, D)) -> bool {
    p != q && node(p.0, p.1) == node(q.0, q.1)
}

/// Neighbours number `i` of a layer.
pub open spec fn neighbours<D>(s: Seq<D>, i: int) -> (D, D) {
    (s[2 * i], s[2 * i + 1])
}

/// Whether the trees over two sequences of leaves show a collision: somewhere at the same place
/// of both trees two different pairs of neighbours combine to the same digest.
pub open spec fn trees_collide<D>(node: spec_fn(D, D) -> D, s: Seq<D>, t: Seq<D>) -> bool
    decreases s.len(),
{
    s.len() > 1 && {
        ||| exists|i: int|
            0 <= i < s.len() / 2 && pairs_collide(
                node,
                #[trigger] neighbours(s, i),
                neighbours(t, i),
            )
        ||| trees_collide(node, pair_up(node, s), pair_up(node, t))
    }
}

/// A root and a number of leaves fix the leaves: two different sequences of as many leaves with
/// one root show a collision in their trees.
pub proof fn roots_bind<D>(node: spec_fn(D, D) -> D, s: Seq<D>, t: Seq<D>)
    requires
        is_pow2(s.len() as int),
        s.len() == t.len(),
        tree_root(node, s) == tree_root(node, t),
    ensures
        s == t || trees_collide(node, s, t),
    decreases s.len(),
{
    reveal_with_fuel(is_pow2, 2);
    if s.len() == 1 {
        assert(s =~= t);
    } else {
        let (a, b) = (pair_up(node, s), pair_up(node, t));
        roots_bind(node, a, b);
        if a == b && !trees_collide(node, s, t) {
            assert forall|i: int| 0 <= i < s.len() implies #[trigger] s[i] == t[i] by {
                let j = i / 2;
                assert(a[j] == b[j]);
                assert(neighbours(s, j) == neighbours(t, j));
            }
            assert(s =~= t);
        }
    }
}

/// The pair that the digest at `idx` and its sibling form.
pub open spec fn joined<D>(idx: int, digest: D, sibling: D) -> (D, D) {
    if idx % 2 == 0 {
        (digest, sibling)
    } else {
        (sibling, digest)
    }
}

/// Whether two openings of one index show a collision: at some step on the way up, both combine
/// a pair to the same digest, and the pairs are different.
pub open spec fn paths_collide<D>(
    node: spec_fn(D, D) -> D,
    idx: int,
    leaf1: D,
    path1: Seq<D>,
    leaf2: D,
    path2: Seq<D>,
) -> bool
    decreases path1.len(),
{
    path1.len() > 0 && {
        let p = joined(idx, leaf1, path1[0]);
        let q = joined(idx, leaf2, path2[0]);
        ||| pairs_collide(node, p, q)
        ||| paths_collide(
            node,
            idx / 2,
            node(p.0, p.1),
            path1.skip(1),
            node(q.0, q.1),
            path2.skip(1),
        )
    }
}

/// A root, an index and a path length fix the leaf and the path: two different openings of one
/// index under one root, with paths of one length, show a collision on their way up.
pub proof fn openings_bind<D>(
    node: spec_fn(D, D) -> D,
    idx: int,
    leaf1: D,
    path1: Seq<D>,
    leaf2: D,
    path2: Seq<D>,
)
    requires
        idx >= 0,
        path1.len() == path2.len(),
        path_root(node, leaf1, idx, path1) == path_root(node, leaf2, idx, path2),
    ensures
        (leaf1 == leaf2 && path1 == path2) || paths_collide(
            node,
            idx,
            leaf1,
            path1,
            leaf2,
            path2,
        ),
    decreases path1.len(),
{
    if path1.len() == 0 {
        assert(path1 =~= path2);
    } else {
        let p = joined(idx, leaf1, path1[0]);
        let q = joined(idx, leaf2, path2[0]);
        openings_bind(
            node,
            idx / 2,
            node(p.0, p.1),
            path1.skip(1),
            node(q.0, q.1),
            path2.skip(1),
        );
        assert(path1 =~= seq![path1[0]] + path1.skip(1));
        assert(path2 =~= seq![path2[0]] + path2.skip(1));
    }
}

/// The layers of a tree: the lowest has an entry for every query, each layer above has one for
/// every two neighbours below it, which combines the left one with the right one, and the highest
/// has the root alone.
pub proof fn layers_combine_neighbours<D>(node: spec_fn(D, D) -> D, s: Seq<D>, k: int, i: int)
    requires
        is_pow2(s.len() as int),
    ensures
        ({
            let layers = all_layers(node, s);
            &&& layers.len() >= 1
            &&& layers[0] == s
            &&& layers.last().len() == 1
            &&& layers.last()[0] == tree_root(node, s)
            &&& 0 <= k < layers.len() - 1 ==> {
                &&& 2 * layers[k + 1].len() == layers[k].len()
                &&& 0 <= i < layers[k + 1].len() ==> layers[k + 1][i] == node(
                    layers[k][2 * i],
                    layers[k][2 * i + 1],
                )
            }
        }),
    decreases s.len(),
{
    reveal_with_fuel(is_pow2, 2);
    if s.len() > 1 {
        let up = pair_up(node, s);
        layers_combine_neighbours(node, up, k - 1, i);
        let above = all_layers(node, up);
        let layers = all_layers(node, s);
        assert(layers =~= seq![s] + above);
        assert(layers.last() == above.last());
        if 0 < k < layers.len() - 1 {
            assert(layers[k + 1] == above[k]);
            assert(layers[k] == above[k - 1]);
        }
    }
}

/// Each step of a path combines what it has with the sibling, in the order in which they stand:
/// from an even place the sibling is on the right, from an odd one on the left.
pub proof fn path_steps_keep_sides<D>(
    node: spec_fn(D, D) -> D,
    leaf: D,
    idx: int,
    path: Seq<D>,
    sibling: D,
)
    requires
        idx >= 0,
    ensures
        path_root(node, leaf, idx, Seq::empty()) == leaf,
        path_root(node, leaf, idx, path.push(sibling)) == (if idx / (pow2(path.len()) as int) % 2
            == 0 {
            node(path_root(node, leaf, idx, path), sibling)
        } else {
            node(sibling, path_root(node, leaf, idx, path))
        }),
    decreases path.len(),
{
    if path.len() == 0 {
        lemma2_to64();
        assert(path.push(sibling).skip(1) =~= Seq::empty());
        assert(idx / 1 == idx);
        reveal_with_fuel(path_root, 2);
    } else {
        let up = if idx % 2 == 0 {
            node(leaf, path[0])
        } else {
            node(path[0], leaf)
        };
        let rest = path.skip(1);
        path_steps_keep_sides(node, up, idx / 2, rest, sibling);
        assert(path.push(sibling).skip(1) =~= rest.push(sibling));
        lemma_pow2_unfold(path.len());
        lemma_pow2_pos(rest.len());
        lemma_div_denominator(idx, 2, pow2(rest.len()) as int);
    }
}

} // verus!
