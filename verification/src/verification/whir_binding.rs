//! What an accepted WHIR proof opens is bound by its commitments.

use vstd::arithmetic::power2::*;
use vstd::prelude::*;

use crate::bits::lemma_log2_pow2;
use crate::digest_layers::views;
use crate::field::{BabyBear, EF};
use crate::hasher::MerkleHasher;
use crate::transcript::{
    bits_challenge, ext_challenge, ext_sampled, witness_checked, FiatShamirTranscript,
};
use crate::tree::{paths_collide, roots_bind, tree_root, trees_collide};
use crate::verification::merkle_check::{accepted_paths_bind, compares_exactly};
use crate::verification::whir::{
    folded_observed, folding, lemma_folding_len, lemma_querying_stops, lemma_rounds_stop,
    openings_shape, path_holds, query_opens, querying, rows_digest, values_digest, whir_outcome,
    whir_round, whir_rounds, whir_shape, Querying, WhirInputs, WhirRun,
};

verus! {

/// Whether two different leaves have the same digest.
pub open spec fn leaves_collide<H: MerkleHasher>(hasher: &H, a: Seq<H::F>, b: Seq<H::F>) -> bool {
    a != b && hasher.leaf(a) == hasher.leaf(b)
}

/// Whether hashing the leaves `a` and `b` and combining the digests shows a collision: of two
/// leaves at the same place, or in the trees over their digests.
pub open spec fn hashes_collide<H: MerkleHasher>(
    hasher: &H,
    a: Seq<Seq<H::F>>,
    b: Seq<Seq<H::F>>,
) -> bool {
    ||| exists|i: int| 0 <= i < a.len() && leaves_collide(hasher, #[trigger] a[i], b[i])
    ||| trees_collide(
        hasher.node(),
        Seq::new(a.len(), |i: int| hasher.leaf(a[i])),
        Seq::new(b.len(), |i: int| hasher.leaf(b[i])),
    )
}

/// Leaves are fixed by their number and the root over their digests.
proof fn lemma_hashes_bind<H: MerkleHasher>(hasher: &H, a: Seq<Seq<H::F>>, b: Seq<Seq<H::F>>)
    requires
        is_pow2(a.len() as int),
        a.len() == b.len(),
        tree_root(hasher.node(), Seq::new(a.len(), |i: int| hasher.leaf(a[i]))) == tree_root(
            hasher.node(),
            Seq::new(b.len(), |i: int| hasher.leaf(b[i])),
        ),
    ensures
        a == b || hashes_collide(hasher, a, b),
{
    let x = Seq::new(a.len(), |i: int| hasher.leaf(a[i]));
    let y = Seq::new(b.len(), |i: int| hasher.leaf(b[i]));
    roots_bind(hasher.node(), x, y);
    if !hashes_collide(hasher, a, b) {
        assert forall|i: int| 0 <= i < a.len() implies #[trigger] a[i] == b[i] by {
            assert(x[i] == y[i]);
            assert(!leaves_collide(hasher, a[i], b[i]));
        }
        assert(a =~= b);
    }
}

/// The leaves that opened values are hashed as: the coefficients of each.
pub open spec fn value_leaves(values: Seq<EF>) -> Seq<Seq<BabyBear>> {
    Seq::new(values.len(), |i: int| values[i].basis())
}

/// Rows are fixed by their number and their digest.
proof fn lemma_rows_bind<H: MerkleHasher<F = BabyBear>>(
    hasher: &H,
    a: Seq<Vec<BabyBear>>,
    b: Seq<Vec<BabyBear>>,
)
    requires
        is_pow2(a.len() as int),
        a.len() == b.len(),
        rows_digest(hasher, a) == rows_digest(hasher, b),
    ensures
        views(a) == views(b) || hashes_collide(hasher, views(a), views(b)),
{
    let (x, y) = (views(a), views(b));
    assert(Seq::new(a.len(), |i: int| hasher.leaf(a[i]@)) =~= Seq::new(
        x.len(),
        |i: int| hasher.leaf(x[i]),
    ));
    assert(Seq::new(b.len(), |i: int| hasher.leaf(b[i]@)) =~= Seq::new(
        y.len(),
        |i: int| hasher.leaf(y[i]),
    ));
    lemma_hashes_bind(hasher, x, y);
}

/// Values are fixed by their number and their digest.
proof fn lemma_values_bind<H: MerkleHasher<F = BabyBear>>(hasher: &H, a: Seq<EF>, b: Seq<EF>)
    requires
        is_pow2(a.len() as int),
        a.len() == b.len(),
        values_digest(hasher, a) == values_digest(hasher, b),
    ensures
        a == b || hashes_collide(hasher, value_leaves(a), value_leaves(b)),
{
    let (x, y) = (value_leaves(a), value_leaves(b));
    assert(Seq::new(a.len(), |i: int| hasher.leaf(a[i].basis())) =~= Seq::new(
        x.len(),
        |i: int| hasher.leaf(x[i]),
    ));
    assert(Seq::new(b.len(), |i: int| hasher.leaf(b[i].basis())) =~= Seq::new(
        y.len(),
        |i: int| hasher.leaf(y[i]),
    ));
    lemma_hashes_bind(hasher, x, y);
    if x == y {
        assert forall|i: int| 0 <= i < a.len() implies #[trigger] a[i] == b[i] by {
            let (v, w) = (x[i], y[i]);
            assert(v[0] == w[0] && v[1] == w[1] && v[2] == w[2] && v[3] == w[3]);
        }
        assert(a =~= b);
    }
}

/// The rounds before round `i` of a verification from the state `s`, and the batching challenge.
pub open spec fn rounds_before<H: MerkleHasher<F = BabyBear>, TS: FiatShamirTranscript<H::Digest>>(
    inputs: WhirInputs<H>,
    s: TS::State,
    i: nat,
) -> (WhirRun<TS::State>, EF) where H::Digest: Eq {
    let s1 = witness_checked::<H::Digest, TS>(
        s,
        inputs.params.whir.mu_pow_bits as nat,
        inputs.proof.mu_pow_witness,
    );
    let mu = ext_challenge::<H::Digest, TS>(s1);
    (whir_rounds::<H, TS>(inputs, mu, ext_sampled::<H::Digest, TS>(s1), i), mu)
}

/// The first `q` queries of round `i` of a verification from the state `s`.
pub open spec fn queries_before<
    H: MerkleHasher<F = BabyBear>,
    TS: FiatShamirTranscript<H::Digest>,
>(inputs: WhirInputs<H>, s: TS::State, i: int, q: nat) -> Querying<TS::State> where H::Digest: Eq {
    let params = inputs.params;
    let proof = inputs.proof;
    let (prev, mu) = rounds_before::<H, TS>(inputs, s, i as nat);
    let f = folding::<H::Digest, TS>(
        prev.state,
        prev.claim,
        proof,
        params.whir.folding_pow_bits as nat,
        i * params.whir.k,
        params.whir.k as nat,
    );
    let start = witness_checked::<H::Digest, TS>(
        folded_observed::<H, TS>(inputs, f.state, i),
        params.whir.query_phase_pow_bits as nat,
        proof.query_phase_pow_witnesses@[i],
    );
    querying::<H, TS>(
        start,
        inputs.hasher,
        proof,
        inputs.commitments@,
        inputs.openings@,
        mu,
        f.alphas,
        (params.num_vars() + params.log_blowup - i) as nat,
        i,
        q,
    )
}

/// The index that query `q` of round `i` opens.
pub open spec fn query_index<H: MerkleHasher<F = BabyBear>, TS: FiatShamirTranscript<H::Digest>>(
    inputs: WhirInputs<H>,
    s: TS::State,
    i: int,
    q: int,
) -> int where H::Digest: Eq {
    let params = inputs.params;
    bits_challenge::<H::Digest, TS>(
        queries_before::<H, TS>(inputs, s, i, q as nat).state,
        (params.num_vars() + params.log_blowup - i - params.whir.k) as nat,
    )
}

/// What the queries of an accepted proof open lies under the commitments.
pub proof fn accepted_queries_open<
    H: MerkleHasher<F = BabyBear>,
    TS: FiatShamirTranscript<H::Digest>,
>(inputs: WhirInputs<H>, s: TS::State, u: Seq<EF>, i: int, q: int) where H::Digest: Eq
    requires
        inputs.params.wf(),
        whir_outcome::<H, TS>(inputs, s, u).1 is None,
        0 <= i < inputs.params.whir.rounds@.len(),
        0 <= q < inputs.params.whir.rounds@[i].num_queries,
    ensures
        query_opens(
            inputs.hasher,
            inputs.proof,
            inputs.commitments@,
            i,
            q,
            query_index::<H, TS>(inputs, s, i, q),
        ),
{
    let params = inputs.params;
    let proof = inputs.proof;
    let k = params.whir.k as nat;
    let n = params.whir.rounds@.len();
    let s1 = witness_checked::<H::Digest, TS>(
        s,
        params.whir.mu_pow_bits as nat,
        proof.mu_pow_witness,
    );
    let mu = ext_challenge::<H::Digest, TS>(s1);
    let s2 = ext_sampled::<H::Digest, TS>(s1);
    assert(whir_rounds::<H, TS>(inputs, mu, s2, n).err is None);
    let prev = whir_rounds::<H, TS>(inputs, mu, s2, i as nat);
    let next = whir_rounds::<H, TS>(inputs, mu, s2, (i + 1) as nat);
    if next.err is Some {
        lemma_rounds_stop::<H, TS>(inputs, mu, s2, (i + 1) as nat, n);
    }
    assert(prev.err is None);
    assert(next == whir_round::<H, TS>(inputs, mu, prev, i));
    let f = folding::<H::Digest, TS>(
        prev.state,
        prev.claim,
        proof,
        params.whir.folding_pow_bits as nat,
        i * k,
        k,
    );
    lemma_folding_len::<H::Digest, TS>(
        prev.state,
        prev.claim,
        proof,
        params.whir.folding_pow_bits as nat,
        i * k,
        k,
    );
    let start = witness_checked::<H::Digest, TS>(
        folded_observed::<H, TS>(inputs, f.state, i),
        params.whir.query_phase_pow_bits as nat,
        proof.query_phase_pow_witnesses@[i],
    );
    let num = params.whir.rounds@[i].num_queries as nat;
    assert(queries_before::<H, TS>(inputs, s, i, num).ok);
    let after = queries_before::<H, TS>(inputs, s, i, (q + 1) as nat);
    if !after.ok {
        lemma_querying_stops::<H, TS>(
            start,
            inputs.hasher,
            proof,
            inputs.commitments@,
            inputs.openings@,
            mu,
            f.alphas,
            (params.num_vars() + params.log_blowup - i) as nat,
            i,
            (q + 1) as nat,
            num,
        );
    }
    assert(queries_before::<H, TS>(inputs, s, i, q as nat).ok);
    // Each round folds at least one variable.
    assert(i + k <= k * n) by (nonlinear_arith)
        requires
            0 <= i < n,
            k >= 1,
    ;
}

/// Whether two accepted proofs of the right sizes, from the states `s1` and `s2`, are for the same
/// parameters and hash function, and query `q1` of round `i` of the one opens the same index as
/// query `q2` of that round of the other.
pub open spec fn open_same_index<
    H: MerkleHasher<F = BabyBear>,
    TS: FiatShamirTranscript<H::Digest>,
>(
    a: WhirInputs<H>,
    s1: TS::State,
    u1: Seq<EF>,
    q1: int,
    b: WhirInputs<H>,
    s2: TS::State,
    u2: Seq<EF>,
    q2: int,
    i: int,
) -> bool where H::Digest: Eq {
    &&& a.params.wf()
    &&& a.params.same(b.params)
    &&& *a.hasher == *b.hasher
    &&& whir_shape(a.params, a.proof, a.openings@, a.commitments@.len())
    &&& whir_shape(b.params, b.proof, b.openings@, b.commitments@.len())
    &&& whir_outcome::<H, TS>(a, s1, u1).1 is None
    &&& whir_outcome::<H, TS>(b, s2, u2).1 is None
    &&& 0 <= i < a.params.whir.rounds@.len()
    &&& 0 <= q1 < a.params.whir.rounds@[i].num_queries
    &&& 0 <= q2 < a.params.whir.rounds@[i].num_queries
    &&& query_index::<H, TS>(a, s1, i, q1) == query_index::<H, TS>(b, s2, i, q2)
}

/// What is accepted in the first round is bound: where two accepted proofs open one index under
/// one commitment, they open the same rows, or hashing what they open and walking up from there
/// shows a collision.
pub proof fn accepted_rows_bind<
    H: MerkleHasher<F = BabyBear>,
    TS: FiatShamirTranscript<H::Digest>,
>(
    a: WhirInputs<H>,
    s1: TS::State,
    u1: Seq<EF>,
    q1: int,
    c1: int,
    b: WhirInputs<H>,
    s2: TS::State,
    u2: Seq<EF>,
    q2: int,
    c2: int,
) where H::Digest: Eq
    requires
        compares_exactly::<H::Digest>(),
        open_same_index::<H, TS>(a, s1, u1, q1, b, s2, u2, q2, 0),
        0 <= c1 < a.commitments@.len(),
        0 <= c2 < b.commitments@.len(),
        a.commitments@[c1] == b.commitments@[c2],
    ensures
        ({
            let x = a.proof.initial_round_opened_rows@[c1]@[q1]@;
            let y = b.proof.initial_round_opened_rows@[c2]@[q2]@;
            ||| views(x) == views(y)
            ||| hashes_collide(a.hasher, views(x), views(y))
            ||| paths_collide(
                a.hasher.node(),
                query_index::<H, TS>(a, s1, 0, q1),
                rows_digest(a.hasher, x),
                a.proof.initial_round_merkle_proofs@[c1]@[q1]@,
                rows_digest(a.hasher, y),
                b.proof.initial_round_merkle_proofs@[c2]@[q2]@,
            )
        }),
{
    let params = a.params;
    let k = params.whir.k as nat;
    let log_domain = (params.num_vars() + params.log_blowup) as nat;
    let num = params.whir.rounds@[0].num_queries as nat;
    let index = query_index::<H, TS>(a, s1, 0, q1);
    accepted_queries_open::<H, TS>(a, s1, u1, 0, q1);
    accepted_queries_open::<H, TS>(b, s2, u2, 0, q2);
    assert(openings_shape(a.proof, a.openings@, a.commitments@.len(), num, log_domain, k, 0));
    assert(b.params.whir.rounds@[0].num_queries == num);
    assert(openings_shape(
        b.proof,
        b.openings@,
        b.commitments@.len(),
        b.params.whir.rounds@[0].num_queries as nat,
        (b.params.num_vars() + b.params.log_blowup) as nat,
        b.params.whir.k as nat,
        0,
    ));
    let (x, y) = (
        a.proof.initial_round_opened_rows@[c1]@[q1]@,
        b.proof.initial_round_opened_rows@[c2]@[q2]@,
    );
    let (p, r) = (
        a.proof.initial_round_merkle_proofs@[c1]@[q1]@,
        b.proof.initial_round_merkle_proofs@[c2]@[q2]@,
    );
    assert(x.len() == pow2(k) && y.len() == pow2(k));
    assert(p.len() == log_domain - k && r.len() == log_domain - k);
    assert(path_holds(a.hasher, a.commitments@[c1], index, rows_digest(a.hasher, x), p));
    assert(path_holds(b.hasher, b.commitments@[c2], index, rows_digest(b.hasher, y), r));
    lemma_pow2_pos((log_domain - k) as nat);
    accepted_paths_bind(
        a.hasher,
        a.commitments@[c1],
        index,
        rows_digest(a.hasher, x),
        p,
        rows_digest(a.hasher, y),
        r,
    );
    lemma_log2_pow2(k);
    if rows_digest(a.hasher, x) == rows_digest(a.hasher, y) {
        lemma_rows_bind(a.hasher, x, y);
    }
}

/// What is accepted in a later round is bound: where two accepted proofs have the same commitment
/// of the round before and open one index under it, they open the same values, or hashing what
/// they open and walking up from there shows a collision.
pub proof fn accepted_values_bind<
    H: MerkleHasher<F = BabyBear>,
    TS: FiatShamirTranscript<H::Digest>,
>(
    a: WhirInputs<H>,
    s1: TS::State,
    u1: Seq<EF>,
    q1: int,
    b: WhirInputs<H>,
    s2: TS::State,
    u2: Seq<EF>,
    q2: int,
    i: int,
) where H::Digest: Eq
    requires
        compares_exactly::<H::Digest>(),
        i >= 1,
        open_same_index::<H, TS>(a, s1, u1, q1, b, s2, u2, q2, i),
        a.proof.codeword_commits@[i - 1] == b.proof.codeword_commits@[i - 1],
    ensures
        ({
            let x = a.proof.codeword_opened_values@[i - 1]@[q1]@;
            let y = b.proof.codeword_opened_values@[i - 1]@[q2]@;
            ||| x == y
            ||| hashes_collide(a.hasher, value_leaves(x), value_leaves(y))
            ||| paths_collide(
                a.hasher.node(),
                query_index::<H, TS>(a, s1, i, q1),
                values_digest(a.hasher, x),
                a.proof.codeword_merkle_proofs@[i - 1]@[q1]@,
                values_digest(a.hasher, y),
                b.proof.codeword_merkle_proofs@[i - 1]@[q2]@,
            )
        }),
{
    let params = a.params;
    let k = params.whir.k as nat;
    let log_domain = (params.num_vars() + params.log_blowup) as nat;
    let num = params.whir.rounds@[i].num_queries as nat;
    let index = query_index::<H, TS>(a, s1, i, q1);
    accepted_queries_open::<H, TS>(a, s1, u1, i, q1);
    accepted_queries_open::<H, TS>(b, s2, u2, i, q2);
    assert(openings_shape(a.proof, a.openings@, a.commitments@.len(), num, log_domain, k, i));
    assert(b.params.whir.rounds@[i].num_queries == num);
    assert(openings_shape(
        b.proof,
        b.openings@,
        b.commitments@.len(),
        b.params.whir.rounds@[i].num_queries as nat,
        (b.params.num_vars() + b.params.log_blowup) as nat,
        b.params.whir.k as nat,
        i,
    ));
    let (x, y) = (
        a.proof.codeword_opened_values@[i - 1]@[q1]@,
        b.proof.codeword_opened_values@[i - 1]@[q2]@,
    );
    let (p, r) = (
        a.proof.codeword_merkle_proofs@[i - 1]@[q1]@,
        b.proof.codeword_merkle_proofs@[i - 1]@[q2]@,
    );
    assert(x.len() == pow2(k) && y.len() == pow2(k));
    assert(p.len() == r.len());
    lemma_pow2_pos((params.num_vars() + params.log_blowup - i - params.whir.k) as nat);
    accepted_paths_bind(
        a.hasher,
        a.proof.codeword_commits@[i - 1],
        index,
        values_digest(a.hasher, x),
        p,
        values_digest(a.hasher, y),
        r,
    );
    lemma_log2_pow2(k);
    if values_digest(a.hasher, x) == values_digest(a.hasher, y) {
        lemma_values_bind(a.hasher, x, y);
    }
}

} // verus!
