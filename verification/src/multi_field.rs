//! A sponge over one field that takes in elements of a smaller one.

use std::marker::PhantomData;

use vstd::arithmetic::div_mod::*;
use vstd::prelude::*;
use vstd::slice::slice_subrange;

use crate::field::{BabyBear, Zero};
use crate::poseidon2::{
    absorbed, digest_from, overwritten, permuted, sponge_digest, values, zero_state, Perm,
};

verus! {

/// A field that one or more elements of `F` are packed into.
pub trait PackingField<F>: Zero {
    /// How many elements of `F` are packed into one of these.
    spec fn spec_num_f_elms() -> nat;

    /// What a chunk of at most that many elements is packed into.
    spec fn packed(chunk: Seq<F>) -> Self;

    fn num_f_elms() -> (r: usize)
        ensures
            r == Self::spec_num_f_elms(),
            r > 0,
    ;

    fn pack(chunk: &[F]) -> (r: Self)
        requires
            0 < chunk@.len() <= Self::spec_num_f_elms(),
        ensures
            r == Self::packed(chunk@),
    ;
}

/// A permutation of a fixed number of elements.
pub trait WidePermutation<PF> {
    spec fn width(&self) -> nat;

    spec fn permuted(&self, state: Seq<PF>) -> Seq<PF>;

    fn permute(&self, state: Vec<PF>) -> (r: Vec<PF>)
        requires
            state@.len() == self.width(),
        ensures
            r@ == self.permuted(state@),
            r@.len() == self.width(),
    ;
}

/// The number of chunks of at most `n` elements that `len` elements make.
pub open spec fn num_chunks(len: nat, n: nat) -> nat {
    ((len + n - 1) / (n as int)) as nat
}

/// Chunk `i` of the block.
pub open spec fn chunk_of<F>(block: Seq<F>, n: nat, i: int) -> Seq<F> {
    block.subrange(
        i * n,
        if (i + 1) * n <= block.len() {
            (i + 1) * n
        } else {
            block.len() as int
        },
    )
}

/// The state with its first elements replaced by the packed chunks of the block.
pub open spec fn packed_into<F, PF: PackingField<F>>(
    state: Seq<PF>,
    block: Seq<F>,
    n: nat,
) -> Seq<PF> {
    Seq::new(
        state.len(),
        |i: int|
            if i < num_chunks(block.len(), n) {
                PF::packed(chunk_of(block, n, i))
            } else {
                state[i]
            },
    )
}

/// The state after `vals` were absorbed: blocks of `rate` elements are packed into the state one
/// after another, and each is followed by a permutation. The last block may be shorter.
pub open spec fn multi_absorbed<F, PF: PackingField<F>, P: WidePermutation<PF>>(
    permutation: P,
    rate: nat,
    n: nat,
    state: Seq<PF>,
    vals: Seq<F>,
) -> Seq<PF>
    decreases vals.len(),
{
    if vals.len() == 0 || rate == 0 {
        state
    } else if vals.len() <= rate {
        permutation.permuted(packed_into(state, vals, n))
    } else {
        multi_absorbed(
            permutation,
            rate,
            n,
            permutation.permuted(packed_into(state, vals.take(rate as int), n)),
            vals.skip(rate as int),
        )
    }
}

/// A padding-free sponge that overwrites its state. It works on `WIDTH` elements of `PF`, takes
/// in `RATE` elements of `F` with each permutation, and gives out `OUT` elements of `PF`.
pub struct MultiFieldHasher<F, PF, P, const WIDTH: usize, const RATE: usize, const OUT: usize> {
    pub permutation: P,
    pub num_f_elms: usize,
    pub _phantom: PhantomData<(F, PF)>,
}

impl<F, PF: PackingField<F>, P, const WIDTH: usize, const RATE: usize, const OUT: usize>
    MultiFieldHasher<F, PF, P, WIDTH, RATE, OUT>
{
    pub fn new(permutation: P) -> (r: Self)
        ensures
            r.permutation == permutation,
            r.num_f_elms == PF::spec_num_f_elms(),
            r.num_f_elms > 0,
    {
        MultiFieldHasher { permutation, num_f_elms: PF::num_f_elms(), _phantom: PhantomData }
    }
}

impl<
    F,
    PF: PackingField<F>,
    P: WidePermutation<PF>,
    const WIDTH: usize,
    const RATE: usize,
    const OUT: usize,
> MultiFieldHasher<F, PF, P, WIDTH, RATE, OUT> {
    /// The hash of `vals`.
    pub open spec fn hash_of(&self, vals: Seq<F>) -> Seq<PF> {
        multi_absorbed(
            self.permutation,
            RATE as nat,
            self.num_f_elms as nat,
            Seq::new(WIDTH as nat, |i: int| PF::spec_zero()),
            vals,
        ).take(OUT as int)
    }

    /// Whether the state is as wide as what is permuted, and at least as wide as what is given
    /// out.
    pub open spec fn wf(&self) -> bool {
        &&& self.num_f_elms == PF::spec_num_f_elms()
        &&& self.num_f_elms > 0
        &&& self.permutation.width() == WIDTH
        &&& 0 < RATE
        &&& OUT <= WIDTH
    }

    /// Whether the packed chunks of a block of `len` elements fit into the state.
    pub open spec fn block_fits(&self, len: nat) -> bool {
        num_chunks(len, self.num_f_elms as nat) <= WIDTH
    }

    /// Hashes `vals`.
    pub fn hash_slice(&self, vals: &[F]) -> (r: Vec<PF>)
        requires
            self.wf(),
            self.block_fits(
                if vals@.len() <= RATE {
                    vals@.len()
                } else {
                    RATE as nat
                },
            ),
        ensures
            r@ == self.hash_of(vals@),
    {
        let ghost n = self.num_f_elms as nat;
        let ghost all = vals@;
        let mut state: Vec<PF> = Vec::with_capacity(WIDTH);
        while state.len() < WIDTH
            invariant
                state@.len() <= WIDTH,
                forall|i: int| 0 <= i < state@.len() ==> #[trigger] state@[i] == PF::spec_zero(),
            decreases WIDTH - state@.len(),
        {
            state.push(PF::zero());
        }
        let ghost start = Seq::new(WIDTH as nat, |i: int| PF::spec_zero());
        let mut pos: usize = 0;
        proof {
            assert(state@ =~= start);
            assert(all.skip(0) =~= all);
        }
        while pos < vals.len()
            invariant
                self.wf(),
                self.block_fits(
                    if all.len() <= RATE {
                        all.len()
                    } else {
                        RATE as nat
                    },
                ),
                n == self.num_f_elms,
                all == vals@,
                pos <= all.len(),
                state@.len() == WIDTH,
                multi_absorbed(self.permutation, RATE as nat, n, start, all) == multi_absorbed(
                    self.permutation,
                    RATE as nat,
                    n,
                    state@,
                    all.skip(pos as int),
                ),
            decreases all.len() - pos,
        {
            let end = if vals.len() - pos <= RATE {
                vals.len()
            } else {
                pos + RATE
            };
            let block = slice_subrange(vals, pos, end);
            let ghost rest = all.skip(pos as int);
            proof {
                assert(block@.len() <= RATE && block@.len() <= all.len());
                let most: int = if all.len() <= RATE {
                    all.len() as int
                } else {
                    RATE as int
                };
                lemma_div_is_ordered(block@.len() + n - 1, most + n - 1, n as int);
                if rest.len() <= RATE {
                    assert(block@ =~= rest);
                    assert(all.skip(end as int) =~= Seq::empty());
                } else {
                    assert(block@ =~= rest.take(RATE as int));
                    assert(all.skip(end as int) =~= rest.skip(RATE as int));
                }
            }
            state = self.permutation.permute(self.pack_block(state, block));
            pos = end;
        }
        proof {
            assert(all.skip(pos as int).len() == 0);
        }
        let ghost done = state@;
        let mut out: Vec<PF> = Vec::with_capacity(OUT);
        while out.len() < OUT
            invariant
                OUT <= WIDTH == state@.len(),
                out@.len() <= OUT,
                forall|i: int| 0 <= i < out@.len() ==> #[trigger] out@[i] == state@[i],
            decreases OUT - out@.len(),
        {
            let i = out.len();
            out.push(state[i]);
        }
        assert(out@ =~= done.take(OUT as int));
        out
    }

    /// Packs the chunks of the block into the first elements of the state.
    fn pack_block(&self, state: Vec<PF>, block: &[F]) -> (r: Vec<PF>)
        requires
            self.wf(),
            state@.len() == WIDTH,
            0 < block@.len(),
            self.block_fits(block@.len()),
        ensures
            r@ == packed_into(state@, block@, self.num_f_elms as nat),
            r@.len() == WIDTH,
    {
        let n = self.num_f_elms;
        let ghost goal = packed_into(state@, block@, n as nat);
        let ghost chunks = num_chunks(block@.len(), n as nat) as int;
        let mut state = state;
        let ghost before = state@;
        let mut chunk_id: usize = 0;
        let mut at: usize = 0;
        while at < block.len()
            invariant
                self.wf(),
                n == self.num_f_elms,
                n > 0,
                goal == packed_into(before, block@, n as nat),
                chunks == num_chunks(block@.len(), n as nat),
                chunks <= WIDTH,
                before.len() == WIDTH,
                state@.len() == WIDTH,
                0 < block@.len(),
                chunk_id <= chunks,
                at == (if chunk_id * n <= block@.len() {
                    chunk_id * n
                } else {
                    block@.len() as int
                }),
                at == block@.len() ==> chunk_id == chunks,
                forall|i: int| 0 <= i < chunk_id ==> #[trigger] state@[i] == goal[i],
                forall|i: int| chunk_id <= i < WIDTH ==> #[trigger] state@[i] == before[i],
            decreases block@.len() - at,
        {
            let len = block.len();
            proof {
                lemma_chunk_bounds(len as int, n as int, chunk_id as int);
            }
            let end = if len - at <= n {
                len
            } else {
                at + n
            };
            let chunk = slice_subrange(block, at, end);
            assert((chunk_id + 1) * n == chunk_id * n + n) by (nonlinear_arith);
            assert(chunk@ =~= chunk_of(block@, n as nat, chunk_id as int));
            let packed = PF::pack(chunk);
            let ghost prev = state@;
            state.set(chunk_id, packed);
            at = end;
            chunk_id = chunk_id + 1;
        }
        assert(state@ =~= goal);
        state
    }
}

/// A chunk that starts inside the block is one of its chunks, and the last if it ends it.
proof fn lemma_chunk_bounds(len: int, n: int, i: int)
    requires
        n > 0,
        i >= 0,
        i * n < len,
    ensures
        i < (len + n - 1) / n,
        i * n + n >= len ==> i + 1 == (len + n - 1) / n,
{
    let q = (len + n - 1) / n;
    lemma_fundamental_div_mod(len + n - 1, n);
    assert(i < q) by (nonlinear_arith)
        requires
            n > 0,
            i * n < len,
            len + n - 1 == n * q + (len + n - 1) % n,
            (len + n - 1) % n < n,
    ;
    if i * n + n >= len {
        assert(q <= i + 1) by (nonlinear_arith)
            requires
                n > 0,
                i * n + n >= len,
                len + n - 1 == n * q + (len + n - 1) % n,
                (len + n - 1) % n >= 0,
        ;
    }
}

/// An element of 31 bits holds one element of 31 bits.
impl PackingField<BabyBear> for BabyBear {
    open spec fn spec_num_f_elms() -> nat {
        1
    }

    open spec fn packed(chunk: Seq<BabyBear>) -> Self {
        chunk[0]
    }

    fn num_f_elms() -> (r: usize) {
        1
    }

    fn pack(chunk: &[BabyBear]) -> (r: Self) {
        chunk[0]
    }
}

impl WidePermutation<BabyBear> for Perm {
    open spec fn width(&self) -> nat {
        16
    }

    open spec fn permuted(&self, state: Seq<BabyBear>) -> Seq<BabyBear> {
        permuted(values(state)).map_values(|v: u32| BabyBear { value: v })
    }

    fn permute(&self, state: Vec<BabyBear>) -> (r: Vec<BabyBear>) {
        let s = &state;
        let array: [BabyBear; 16] = [
            s[0],
            s[1],
            s[2],
            s[3],
            s[4],
            s[5],
            s[6],
            s[7],
            s[8],
            s[9],
            s[10],
            s[11],
            s[12],
            s[13],
            s[14],
            s[15],
        ];
        assert(array@ =~= state@);
        let p = Perm::permute(self, array);
        let mut r: Vec<BabyBear> = Vec::with_capacity(16);
        while r.len() < 16
            invariant
                r@.len() <= 16,
                forall|i: int| 0 <= i < r@.len() ==> #[trigger] r@[i] == p@[i],
            decreases 16 - r@.len(),
        {
            let i = r.len();
            r.push(p[i]);
        }
        proof {
            assert(values(p@) =~= permuted(values(state@)));
            assert forall|i: int| 0 <= i < 16 implies #[trigger] r@[i] == self.permuted(
                state@,
            )[i] by {
                assert(values(p@)[i] == p@[i].value);
            }
            assert(r@ =~= self.permuted(state@));
        }
        r
    }
}

/// Over BabyBear itself, the sponge is the padding-free sponge that hashes leaves: both leave the
/// same elements in the state.
pub proof fn multi_field_sponge_is_sponge(state: Seq<BabyBear>, vals: Seq<BabyBear>)
    requires
        state.len() == 16,
    ensures
        values(multi_absorbed::<BabyBear, BabyBear, Perm>(Perm, 8, 1, state, vals)) == absorbed(
            values(state),
            values(vals),
        ),
    decreases vals.len(),
{
    if vals.len() == 0 {
    } else if vals.len() <= 8 {
        lemma_packed_is_overwritten(state, vals);
        let next = packed_into::<BabyBear, BabyBear>(state, vals, 1);
        assert(values(Perm.permuted(next)) =~= permuted(values(next)));
    } else {
        let block = vals.take(8);
        lemma_packed_is_overwritten(state, block);
        let next = packed_into::<BabyBear, BabyBear>(state, block, 1);
        assert(values(Perm.permuted(next)) =~= permuted(values(next)));
        assert(values(vals).take(8) =~= values(block));
        assert(values(vals).skip(8) =~= values(vals.skip(8)));
        multi_field_sponge_is_sponge(Perm.permuted(next), vals.skip(8));
    }
}

/// Packing single elements overwrites the state with them.
proof fn lemma_packed_is_overwritten(state: Seq<BabyBear>, block: Seq<BabyBear>)
    requires
        state.len() == 16,
        block.len() <= 8,
    ensures
        values(packed_into::<BabyBear, BabyBear>(state, block, 1)) == overwritten(
            values(state),
            values(block),
        ),
{
    let next = packed_into::<BabyBear, BabyBear>(state, block, 1);
    assert forall|i: int| 0 <= i < block.len() implies #[trigger] next[i] == block[i] by {
        assert(chunk_of(block, 1, i)[0] == block[i]);
    }
    assert(values(next) =~= overwritten(values(state), values(block)));
}

/// The chunks make up the block: element `i` of the block is in chunk `i / n`, at place `i % n`,
/// and all chunks have `n` elements but the last, which has what is left.
pub proof fn chunks_make_up_block<F>(block: Seq<F>, n: nat, i: int)
    requires
        n > 0,
        0 <= i < block.len(),
    ensures
        0 <= i / n as int,
        i / (n as int) < num_chunks(block.len(), n),
        i % (n as int) < chunk_of(block, n, i / n as int).len() <= n,
        chunk_of(block, n, i / n as int)[i % n as int] == block[i],
        chunk_of(block, n, i / n as int).len() == (if i - i % (n as int) + n <= block.len() {
            n as int
        } else {
            block.len() - i + i % (n as int)
        }),
{
    let q = i / n as int;
    lemma_fundamental_div_mod(i, n as int);
    lemma_div_pos_is_pos(i, n as int);
    assert(q * n == n * q && (q + 1) * n == q * n + n) by (nonlinear_arith);
    lemma_chunk_bounds(block.len() as int, n as int, q);
}

/// Blocks are told apart: where packing tells chunks of one length apart, blocks of one length
/// that leave the same state are the same. What they do not reach stays as it was.
pub proof fn blocks_are_told_apart<F, PF: PackingField<F>>(
    state: Seq<PF>,
    x: Seq<F>,
    y: Seq<F>,
    n: nat,
)
    requires
        n > 0,
        x.len() == y.len(),
        num_chunks(x.len(), n) <= state.len(),
        packed_into::<F, PF>(state, x, n) == packed_into::<F, PF>(state, y, n),
        forall|c: Seq<F>, d: Seq<F>|
            0 < c.len() <= n && c.len() == d.len() && #[trigger] PF::packed(c)
                == #[trigger] PF::packed(d) ==> c == d,
    ensures
        x == y,
        forall|i: int|
            num_chunks(x.len(), n) <= i < state.len() ==> #[trigger] packed_into::<F, PF>(
                state,
                x,
                n,
            )[i] == state[i],
{
    let (s, t) = (packed_into::<F, PF>(state, x, n), packed_into::<F, PF>(state, y, n));
    assert forall|i: int| 0 <= i < x.len() implies x[i] == y[i] by {
        let q = i / n as int;
        chunks_make_up_block(x, n, i);
        chunks_make_up_block(y, n, i);
        assert(s[q] == PF::packed(chunk_of(x, n, q)));
        assert(t[q] == PF::packed(chunk_of(y, n, q)));
        assert(chunk_of(x, n, q).len() == chunk_of(y, n, q).len());
    }
    assert(x =~= y);
}

/// Values are absorbed block by block: to absorb `x` and then `y`, where `x` fills whole blocks, is
/// to absorb them together; and no more than a block goes into one permutation.
pub proof fn values_are_absorbed_in_blocks<F, PF: PackingField<F>, P: WidePermutation<PF>>(
    permutation: P,
    rate: nat,
    n: nat,
    state: Seq<PF>,
    x: Seq<F>,
    y: Seq<F>,
)
    requires
        rate > 0,
        x.len() % rate == 0,
    ensures
        multi_absorbed(permutation, rate, n, state, x + y) == multi_absorbed(
            permutation,
            rate,
            n,
            multi_absorbed(permutation, rate, n, state, x),
            y,
        ),
        0 < y.len() <= rate ==> multi_absorbed(permutation, rate, n, state, y)
            == permutation.permuted(packed_into(state, y, n)),
        y.len() == 0 ==> multi_absorbed(permutation, rate, n, state, y) == state,
    decreases x.len(),
{
    let r = rate as int;
    if x.len() == 0 {
        assert(x + y =~= y);
    } else {
        assert(x.len() >= rate) by {
            if x.len() < rate {
                lemma_small_mod(x.len(), rate);
            }
        }
        let first = x.take(r);
        let rest = x.skip(r);
        let next = permutation.permuted(packed_into(state, first, n));
        lemma_mod_sub_multiples_vanish(x.len() as int, r);
        assert((x.len() - r) % r == 0);
        values_are_absorbed_in_blocks(permutation, rate, n, next, rest, y);
        assert((x + y).take(r) =~= first);
        assert((x + y).skip(r) =~= rest + y);
        if x.len() == rate {
            assert(first =~= x);
            assert(rest =~= Seq::empty());
            assert(rest + y =~= y);
            if y.len() == 0 {
                assert(x + y =~= x);
            }
        }
    }
}

/// Over BabyBear itself, with the sizes of the leaf hash, what is given out is the digest of a
/// leaf.
pub proof fn multi_field_hash_is_digest(
    hasher: MultiFieldHasher<BabyBear, BabyBear, Perm, 16, 8, 8>,
    vals: Seq<BabyBear>,
    i: int,
)
    requires
        hasher.num_f_elms == 1,
        0 <= i < 8,
    ensures
        hasher.hash_of(vals).len() == 8,
        hasher.hash_of(vals)[i].value == sponge_digest(vals).limbs[i].value,
{
    let start = Seq::new(16, |j: int| BabyBear::spec_zero());
    multi_field_sponge_is_sponge(start, vals);
    assert(values(start) =~= zero_state());
    assert(hasher.permutation == Perm);
    let done = multi_absorbed::<BabyBear, BabyBear, Perm>(Perm, 8, 1, start, vals);
    let state = absorbed(zero_state(), values(vals));
    lemma_absorbed_len(zero_state(), values(vals));
    assert(values(done).len() == done.len());
    assert(values(done)[i] == done[i].value);
    assert(digest_from(state).limbs[i].value == state[i]);
}

/// A state stays as wide as it is.
proof fn lemma_absorbed_len(state: Seq<u32>, vals: Seq<u32>)
    requires
        state.len() == 16,
    ensures
        absorbed(state, vals).len() == 16,
    decreases vals.len(),
{
    if vals.len() > 8 {
        lemma_absorbed_len(permuted(overwritten(state, vals.take(8))), vals.skip(8));
    }
}

} // verus!
