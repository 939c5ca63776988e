//! Hashing of several rows, and compression of several pairs, at once.
//!
//! How many the machine takes at once is the pack width of `p3_baby_bear`. No digest depends on
//! it, but for those of padding rows in a pack that is not full.

use p3_baby_bear::{default_babybear_poseidon2_16, BabyBear as P3BabyBear};
use p3_field::{Field, PackedValue, PrimeCharacteristicRing, PrimeField32};
use p3_symmetric::{
    CryptographicHasher, PaddingFreeSponge, PseudoCompressionFunction, TruncatedPermutation,
};
use vstd::arithmetic::div_mod::*;
use vstd::arithmetic::power2::*;
use vstd::prelude::*;

use crate::bits::{lemma_pow2_log2, log2_strict_usize};
use crate::digest_layers::views;
use crate::field::{bb, BabyBear};
use crate::hasher::{Compression, LeafHash};
use crate::poseidon2::{
    compressed, digest_from, sponge_digest, zero_state, Compress, Digest, Perm, Sponge,
};
use crate::tree::{
    all_layers, digest_layers, interleaved, lemma_interleaved, lemma_interleaved_bounds, pair_up,
    query_layer, strided, tree_root,
};

verus! {

type Packing = <P3BabyBear as Field>::Packing;

/// Reads the constant `WIDTH` of the packing of `p3_baby_bear::BabyBear`, which is how many
/// elements the machine computes on at once. It is never zero; nothing else is said of it,
/// since it depends on the machine.
#[verifier::external_body]
fn pack_width() -> (r: usize)
    ensures
        r > 0,
{
    Packing::WIDTH
}

/// The cell in column `col` of row `row`; zero in rows from `height` on.
pub open spec fn cell_of(
    vals: Seq<BabyBear>,
    width: int,
    height: int,
    row: int,
    col: int,
) -> BabyBear {
    if row < height && row * width + col < vals.len() {
        vals[row * width + col]
    } else {
        bb(0)
    }
}

/// Row `row` of the values; a row of zeros from row `height` on.
pub open spec fn row_of(vals: Seq<BabyBear>, width: int, height: int, row: int) -> Seq<BabyBear> {
    Seq::new(width as nat, |col: int| cell_of(vals, width, height, row, col))
}

/// The cell in column `col` of the row that lies `lane` below row `base`.
fn padded_cell(
    vals: &[BabyBear],
    width: usize,
    height: usize,
    base: usize,
    lane: usize,
    col: usize,
) -> (r: BabyBear)
    ensures
        r == cell_of(vals@, width as int, height as int, base + lane, col as int),
{
    let zero = BabyBear::zero();
    let row = match base.checked_add(lane) {
        Some(row) => row,
        None => return zero,
    };
    if row >= height {
        return zero;
    }
    assert(vals@.len() == vals.len());
    assert(row * width >= 0) by (nonlinear_arith);
    match row.checked_mul(width) {
        Some(start) => match start.checked_add(col) {
            Some(idx) => if idx < vals.len() {
                vals[idx]
            } else {
                zero
            },
            None => zero,
        },
        None => zero,
    }
}

/// Calls `hash_slice` of `p3_symmetric::PaddingFreeSponge` on packed elements. Each lane of the
/// packing is hashed by itself, so lane `i` of the result is the digest of the row that lies `i`
/// below row `base`.
#[verifier::external_body]
fn hash_packed_rows(vals: &[BabyBear], width: usize, height: usize, base: usize) -> (r: Vec<
    Digest,
>)
    ensures
        forall|lane: int|
            0 <= lane < r@.len() ==> #[trigger] r@[lane] == sponge_digest(
                row_of(vals@, width as int, height as int, base + lane),
            ),
{
    let sponge = PaddingFreeSponge::<_, 16, 8, 8>::new(default_babybear_poseidon2_16());
    let cell = |lane, col| padded_cell(vals, width, height, base, lane, col).value;
    let row: Vec<Packing> = (0..width)
        .map(|col| Packing::from_fn(|lane| P3BabyBear::from_u32(cell(lane, col))))
        .collect();
    let d: [Packing; 8] = sponge.hash_slice(&row);
    let limb = |p: Packing, lane: usize| BabyBear { value: p.as_slice()[lane].as_canonical_u32() };
    (0..Packing::WIDTH).map(|lane| Digest { limbs: d.map(|p| limb(p, lane)) }).collect()
}

/// The digest of all zeros.
pub open spec fn zero_digest() -> Digest {
    digest_from(zero_state())
}

/// Whether row `r` is in a pack that is full when rows are taken `pack` at a time.
pub open spec fn in_full_pack(num_leaves: int, pack: int, r: int) -> bool {
    (r / pack + 1) * pack <= num_leaves
}

/// The digests of the rows, taken `pack` at a time: below the last row, a full pack holds the
/// digests of rows of zeros, and a pack that is not full holds digests of all zeros.
pub open spec fn packed_row_hashes(
    vals: Seq<BabyBear>,
    width: int,
    height: int,
    num_leaves: int,
    pack: int,
) -> Seq<Digest> {
    Seq::new(
        num_leaves as nat,
        |r: int|
            if r < height || in_full_pack(num_leaves, pack, r) {
                sponge_digest(row_of(vals, width, height, r))
            } else {
                zero_digest()
            },
    )
}

/// The digest of row `r`, which is above row `height`.
fn hash_row(vals: &[BabyBear], width: usize, height: usize, r: usize) -> (d: Digest)
    ensures
        d == sponge_digest(row_of(vals@, width as int, height as int, r as int)),
{
    let mut row: Vec<BabyBear> = Vec::with_capacity(width);
    let mut col: usize = 0;
    while col < width
        invariant
            col <= width,
            row@.len() == col,
            forall|c: int|
                0 <= c < col ==> #[trigger] row@[c] == cell_of(
                    vals@,
                    width as int,
                    height as int,
                    r as int,
                    c,
                ),
        decreases width - col,
    {
        row.push(padded_cell(vals, width, height, r, 0, col));
        col = col + 1;
    }
    assert(row@ =~= row_of(vals@, width as int, height as int, r as int));
    let sponge = Sponge { perm: Perm };
    sponge.hash_slice(row.as_slice())
}

/// Hashes rows `pack` at a time.
pub fn hash_rows_in_packs(
    vals: &[BabyBear],
    width: usize,
    height: usize,
    num_leaves: usize,
    pack: usize,
) -> (r: Vec<Digest>)
    requires
        pack > 0,
    ensures
        r@ == packed_row_hashes(
            vals@,
            width as int,
            height as int,
            num_leaves as int,
            pack as int,
        ),
{
    let ghost all = packed_row_hashes(
        vals@,
        width as int,
        height as int,
        num_leaves as int,
        pack as int,
    );
    let mut digests: Vec<Digest> = Vec::with_capacity(num_leaves);
    while digests.len() < num_leaves
        invariant
            pack > 0,
            all == packed_row_hashes(
                vals@,
                width as int,
                height as int,
                num_leaves as int,
                pack as int,
            ),
            digests@.len() <= num_leaves,
            forall|i: int| 0 <= i < digests@.len() ==> #[trigger] digests@[i] == all[i],
        decreases num_leaves - digests@.len(),
    {
        let base = digests.len();
        proof {
            lemma_mod_decreases(base as nat, pack as nat);
        }
        let start = base - base % pack;
        let full = num_leaves >= pack && start <= num_leaves - pack;
        proof {
            lemma_fundamental_div_mod(base as int, pack as int);
            assert(start == base / pack * pack) by (nonlinear_arith)
                requires
                    base == pack * (base as int / pack as int) + base % pack,
                    start == base - base % pack,
            ;
            assert((base / pack + 1) * pack == start + pack) by (nonlinear_arith)
                requires
                    start == base / pack * pack,
            ;
            assert(full == in_full_pack(num_leaves as int, pack as int, base as int));
        }
        let mut packed: Vec<Digest> = Vec::new();
        if full && start == base {
            packed = hash_packed_rows(vals, width, height, base);
        }
        if packed.len() == pack {
            let ghost before = digests@;
            let ghost lanes = packed@;
            digests.append(&mut packed);
            proof {
                assert forall|i: int| 0 <= i < digests@.len() implies #[trigger] digests@[i]
                    == all[i] by {
                    if i >= base {
                        assert(digests@[i] == lanes[i - base]);
                        lemma_same_pack(base as int, pack as int, i);
                    } else {
                        assert(digests@[i] == before[i]);
                    }
                }
            }
        } else if base < height || full {
            digests.push(hash_row(vals, width, height, base));
        } else {
            let zero = BabyBear::zero();
            let d = Digest { limbs: [zero; 8] };
            assert(d.limbs =~= zero_digest().limbs);
            digests.push(d);
        }
    }
    assert(digests@ =~= all);
    digests
}

/// Hashes rows as many at a time as the machine takes at once.
pub fn hash_rows_packed_babybear(
    rm_vals: &[BabyBear],
    width: usize,
    codeword_height: usize,
    num_leaves: usize,
) -> (r: Vec<Digest>)
    requires
        codeword_height * width <= rm_vals@.len() || num_leaves * width <= rm_vals@.len(),
    ensures
        r@.len() == num_leaves,
        forall|row: int|
            0 <= row < codeword_height && row < num_leaves ==> #[trigger] r@[row]
                == sponge_digest(rm_vals@.subrange(row * width, row * width + width)),
        exists|pack: int|
            pack > 0 && r@ == #[trigger] packed_row_hashes(
                rm_vals@,
                width as int,
                codeword_height as int,
                num_leaves as int,
                pack,
            ),
{
    let pack = pack_width();
    let r = hash_rows_in_packs(rm_vals, width, codeword_height, num_leaves, pack);
    proof {
        let w = width as int;
        assert forall|row: int|
            0 <= row < codeword_height && row < num_leaves implies #[trigger] r@[row]
            == sponge_digest(rm_vals@.subrange(row * width, row * width + width)) by {
            let len = rm_vals@.len() as int;
            let (h, n) = (codeword_height as int, num_leaves as int);
            assert(0 <= row * w && row * w + w <= len) by (nonlinear_arith)
                requires
                    0 <= row < h,
                    row < n,
                    0 <= w,
                    h * w <= len || n * w <= len,
            ;
            assert(row_of(rm_vals@, w, codeword_height as int, row) =~= rm_vals@.subrange(
                row * width,
                row * width + width,
            ));
        }
    }
    r
}

/// Where the digest lies that is the left (`side` 0) or the right (`side` 1) half of pair `i`,
/// when pairs lie `stride` apart.
pub open spec fn pair_index(stride: int, i: int, side: int) -> int {
    (2 * (i / stride) + side) * stride + i % stride
}

/// That digest; the digest of all zeros where there is none.
pub open spec fn half_of(prev: Seq<Digest>, stride: int, i: int, side: int) -> Digest {
    if pair_index(stride, i, side) < prev.len() {
        prev[pair_index(stride, i, side)]
    } else {
        zero_digest()
    }
}

/// The left or the right half of the pair that lies `lane` behind pair `base`.
fn pair_half(prev: &Vec<Digest>, stride: usize, base: usize, lane: usize, side: bool) -> (r: Digest)
    requires
        stride > 0,
    ensures
        r == half_of(prev@, stride as int, base + lane, if side { 1 } else { 0 }),
{
    let zero = BabyBear::zero();
    let none = Digest { limbs: [zero; 8] };
    assert(none.limbs =~= zero_digest().limbs);
    assert(prev@.len() == prev.len());
    let i: u128 = base as u128 + lane as u128;
    let stride: u128 = stride as u128;
    let x = i / stride;
    let y = i % stride;
    let len = prev.len() as u128;
    let side: u128 = if side {
        1
    } else {
        0
    };
    proof {
        assert(x <= i) by (nonlinear_arith)
            requires
                x == i / stride,
                stride >= 1,
        ;
        assert((2 * x + side) * stride >= 2 * x + side) by (nonlinear_arith)
            requires
                stride >= 1,
                x >= 0,
                side >= 0,
        ;
    }
    if 2 * x + side >= len {
        return none;
    }
    proof {
        let bound = usize::MAX as int;
        assert((2 * x + side) * stride <= bound * bound) by (nonlinear_arith)
            requires
                0 <= 2 * x + side <= bound,
                0 <= stride <= bound,
        ;
        assert(bound * bound + bound <= u128::MAX) by (nonlinear_arith)
            requires
                0 <= bound <= 0xffff_ffff_ffff_ffff,
        ;
    }
    let idx = (2 * x + side) * stride + y;
    if idx < len {
        prev[idx as usize]
    } else {
        none
    }
}

/// Calls `compress` of `p3_symmetric::TruncatedPermutation` on packed elements. Each lane of the
/// packing is compressed by itself, so lane `i` of the result is what comes of the pair that
/// lies `i` behind pair `base`.
#[verifier::external_body]
fn compress_packed_pairs(prev: &Vec<Digest>, stride: usize, base: usize) -> (r: Vec<Digest>)
    requires
        stride > 0,
    ensures
        forall|lane: int|
            0 <= lane < r@.len() ==> #[trigger] r@[lane] == compressed(
                half_of(prev@, stride as int, base + lane, 0),
                half_of(prev@, stride as int, base + lane, 1),
            ),
{
    let compress = TruncatedPermutation::<_, 2, 8, 16>::new(default_babybear_poseidon2_16());
    let half = |lane, side| pair_half(prev, stride, base, lane, side);
    let limb = |lane, side, d: usize| P3BabyBear::from_u32(half(lane, side).limbs[d].value);
    let pack = |side| core::array::from_fn(|d| Packing::from_fn(|lane| limb(lane, side, d)));
    let c: [Packing; 8] = compress.compress([pack(false), pack(true)]);
    let limb = |p: Packing, lane: usize| BabyBear { value: p.as_slice()[lane].as_canonical_u32() };
    (0..Packing::WIDTH).map(|lane| Digest { limbs: c.map(|p| limb(p, lane)) }).collect()
}

/// The digests that the first `n` pairs are compressed to, `pack` at a time.
fn combine_in_packs(prev: &Vec<Digest>, stride: usize, n: usize, pack: usize) -> (r: Vec<Digest>)
    requires
        stride > 0,
        pack > 0,
    ensures
        r@ == Seq::new(
            n as nat,
            |i: int|
                compressed(
                    half_of(prev@, stride as int, i, 0),
                    half_of(prev@, stride as int, i, 1),
                ),
        ),
{
    let ghost all = Seq::new(
        n as nat,
        |i: int|
            compressed(
                half_of(prev@, stride as int, i, 0),
                half_of(prev@, stride as int, i, 1),
            ),
    );
    let compress = Compress { perm: Perm };
    let mut next: Vec<Digest> = Vec::with_capacity(n);
    while next.len() < n
        invariant
            stride > 0,
            pack > 0,
            all == Seq::new(
                n as nat,
                |i: int|
                    compressed(
                        half_of(prev@, stride as int, i, 0),
                        half_of(prev@, stride as int, i, 1),
                    ),
            ),
            next@.len() <= n,
            forall|i: int| 0 <= i < next@.len() ==> #[trigger] next@[i] == all[i],
        decreases n - next@.len(),
    {
        let base = next.len();
        let mut packed: Vec<Digest> = Vec::new();
        if n - base >= pack {
            packed = compress_packed_pairs(prev, stride, base);
        }
        if packed.len() == pack {
            let ghost before = next@;
            let ghost lanes = packed@;
            next.append(&mut packed);
            proof {
                assert forall|i: int| 0 <= i < next@.len() implies #[trigger] next@[i]
                    == all[i] by {
                    if i >= base {
                        assert(next@[i] == lanes[i - base]);
                    } else {
                        assert(next@[i] == before[i]);
                    }
                }
            }
        } else {
            let left = pair_half(prev, stride, base, 0, false);
            let right = pair_half(prev, stride, base, 0, true);
            next.push(compress.compress(left, right));
        }
    }
    assert(next@ =~= all);
    next
}

/// The node function of trees over the truncated permutation.
pub open spec fn poseidon2_node() -> spec_fn(Digest, Digest) -> Digest {
    Compress { perm: Perm }.combine()
}

/// One round of combining rows that lie `stride` apart.
fn combine_interleaved_in_packs(
    prev: &Vec<Digest>,
    stride: usize,
    pack: usize,
    Ghost(m): Ghost<nat>,
) -> (r: Vec<Digest>)
    requires
        stride > 0,
        pack > 0,
        prev@.len() == 2 * m * stride,
    ensures
        r@ == interleaved(poseidon2_node(), prev@, stride as nat),
{
    let r = combine_in_packs(prev, stride, prev.len() / 2, pack);
    proof {
        let st = stride as int;
        let all = interleaved(poseidon2_node(), prev@, stride as nat);
        assert forall|i: int| 0 <= i < all.len() implies #[trigger] r@[i] == all[i] by {
            lemma_interleaved_bounds(prev@.len() as int, st, m as int, i);
            assert((2 * (i / st) + 0) * st == 2 * (i / st) * st);
        }
        assert(r@ =~= all);
    }
    r
}

/// The layer above `prev`: each two neighbours compressed.
fn combine_pairs_in_packs(prev: &Vec<Digest>, pack: usize) -> (r: Vec<Digest>)
    requires
        pack > 0,
    ensures
        r@ == pair_up(poseidon2_node(), prev@),
{
    let r = combine_in_packs(prev, 1, prev.len() / 2, pack);
    proof {
        let all = pair_up(poseidon2_node(), prev@);
        assert forall|i: int| 0 <= i < all.len() implies #[trigger] r@[i] == all[i] by {
            assert(i / 1 == i && i % 1 == 0);
            assert(pair_index(1, i, 0) == 2 * i);
            assert(pair_index(1, i, 1) == 2 * i + 1);
        }
        assert(r@ =~= all);
    }
    r
}

/// Builds the digest layers over `row_hashes`, compressing as many pairs at a time as the machine
/// takes at once.
pub fn build_digest_layers_packed_babybear(
    row_hashes: Vec<Digest>,
    rows_per_query: usize,
) -> (r: Vec<Vec<Digest>>)
    requires
        is_pow2(rows_per_query as int),
        row_hashes@.len() > 0,
        row_hashes@.len() % (rows_per_query as nat) == 0,
    ensures
        views(r@) == digest_layers(poseidon2_node(), row_hashes@, rows_per_query as nat),
{
    let pack = pack_width();
    let ghost node = poseidon2_node();
    let ghost leaves = row_hashes@;
    let num_leaves = row_hashes.len();
    proof {
        lemma_pow2_log2(rows_per_query as nat);
        lemma_fundamental_div_mod(num_leaves as int, rows_per_query as int);
    }
    let stride = num_leaves / rows_per_query;
    assert(stride > 0) by (nonlinear_arith)
        requires
            num_leaves > 0,
            num_leaves == rows_per_query * stride,
            rows_per_query >= 1,
    ;
    let rounds = log2_strict_usize(rows_per_query);
    let mut layer = row_hashes;
    let ghost mut m = rows_per_query as nat;
    let mut i: usize = 0;
    while i < rounds
        invariant
            i <= rounds,
            pack > 0,
            stride > 0,
            node == poseidon2_node(),
            m == pow2((rounds - i) as nat),
            layer@.len() == m * stride,
            forall|y: int|
                0 <= y < stride ==> tree_root(
                    node,
                    #[trigger] strided(layer@, stride as nat, y, m),
                ) == tree_root(node, strided(leaves, stride as nat, y, rows_per_query as nat)),
        decreases rounds - i,
    {
        let ghost half = pow2((rounds - i - 1) as nat);
        proof {
            lemma_pow2_unfold((rounds - i) as nat);
            lemma_pow2_pos((rounds - i - 1) as nat);
            assert(m * stride == 2 * half * stride);
            lemma_interleaved(node, layer@, stride as nat, half);
        }
        layer = combine_interleaved_in_packs(&layer, stride, pack, Ghost(half));
        proof {
            m = half;
        }
        i = i + 1;
    }
    proof {
        lemma2_to64();
        assert(m * stride == stride) by (nonlinear_arith)
            requires
                m == 1,
        ;
        let q = query_layer(node, leaves, rows_per_query as nat);
        assert forall|y: int| 0 <= y < stride implies #[trigger] layer@[y] == q[y] by {
            assert(strided(layer@, stride as nat, y, 1)[0] == layer@[y]);
        }
        assert(layer@ =~= q);
    }
    let ghost q = layer@;
    let mut layers: Vec<Vec<Digest>> = Vec::new();
    while layer.len() > 1
        invariant
            layer@.len() >= 1,
            pack > 0,
            node == poseidon2_node(),
            all_layers(node, q) == views(layers@) + all_layers(node, layer@),
        decreases layer@.len(),
    {
        let above = combine_pairs_in_packs(&layer, pack);
        let ghost before = layers@;
        layers.push(layer);
        proof {
            assert(views(layers@) =~= views(before) + seq![layer@]);
            assert(all_layers(node, q) =~= views(layers@) + all_layers(node, above@));
        }
        layer = above;
    }
    let ghost before = layers@;
    layers.push(layer);
    assert(views(layers@) =~= views(before) + seq![layer@]);
    layers
}

/// Where rows fill whole packs, or none lies below the last row, packing changes nothing: each
/// digest is that of its row, or of a row of zeros below the last one.
pub proof fn packed_row_hashes_are_row_hashes(
    vals: Seq<BabyBear>,
    width: int,
    height: int,
    num_leaves: int,
    pack: int,
)
    requires
        pack > 0,
        num_leaves >= 0,
        num_leaves <= height || num_leaves % pack == 0,
    ensures
        packed_row_hashes(vals, width, height, num_leaves, pack) == Seq::new(
            num_leaves as nat,
            |r: int| sponge_digest(row_of(vals, width, height, r)),
        ),
{
    assert forall|r: int| height <= r < num_leaves implies in_full_pack(num_leaves, pack, r) by {
        lemma_fundamental_div_mod(num_leaves, pack);
        lemma_fundamental_div_mod(r, pack);
        let n = num_leaves / pack;
        assert((r / pack + 1) * pack <= num_leaves) by (nonlinear_arith)
            requires
                num_leaves == pack * n,
                r < num_leaves,
                r == pack * (r / pack) + r % pack,
                r % pack >= 0,
                pack > 0,
        ;
    }
    assert(packed_row_hashes(vals, width, height, num_leaves, pack) =~= Seq::new(
        num_leaves as nat,
        |r: int| sponge_digest(row_of(vals, width, height, r)),
    ));
}

/// Numbers that lie less than `pack` above a multiple of it have the same quotient.
proof fn lemma_same_pack(base: int, pack: int, i: int)
    requires
        pack > 0,
        base == base / pack * pack,
        base <= i < base + pack,
    ensures
        i / pack == base / pack,
{
    let q = base / pack;
    lemma_fundamental_div_mod_converse(i, pack, q, i - base);
}

} // verus!
