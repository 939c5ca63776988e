//! What the acceptance of a WHIR proof means.

use vstd::arithmetic::power2::*;
use vstd::prelude::*;

use crate::algebra::lemma_e_wf;
use crate::field::{
    bb, e_add, e_mul, e_scale, e_sub, e_zero, f_generator, f_half, f_pow, BabyBear, EF,
};
use crate::hasher::MerkleHasher;
use crate::multilinear::lemma_ext_poly_wf;
use crate::poly::{ext_poly_eval, quadratic_at};
use crate::proofs::WhirProof;
use crate::transcript::{
    ext_challenge, ext_observed, ext_sampled, witness_checked, FiatShamirTranscript,
};
use crate::verification::conversation::{
    draws, ext_values, lemma_ext_observed, lemma_ext_sampled, lemma_exts_observed,
    lemma_replay_concat, lemma_replay_push, lemma_witness_checked, replayed, work, Event,
};
use crate::verification::fold::k_fold;
use crate::verification::power_sums::{openings_are_coefficients, round_claim_is_value};
use crate::verification::whir::{
    final_claim, flat, folded_observed, folding, query_opens, query_values, querying,
    whir_outcome, whir_round, whir_rounds, WhirInputs, WhirRun,
};

verus! {

/// Whether `witness` shows `bits` bits of work in the state `s`: the challenge that follows it ends
/// in as many zero bits.
pub open spec fn work_done<D, TS: FiatShamirTranscript<D>>(
    s: TS::State,
    bits: nat,
    witness: BabyBear,
) -> bool {
    TS::challenge(TS::observed(s, witness)).value as int % (pow2(bits) as int) == 0
}

/// The messages of folding step `i`.
pub open spec fn fold_messages<D>(proof: &WhirProof<D>, i: int) -> Seq<Event<D>> {
    ext_values(seq![proof.whir_sumcheck_polys@[i][0], proof.whir_sumcheck_polys@[i][1]])
}

/// The first `n` folding steps after the first `from` ones: the messages, the work, and the draws
/// of the challenge, of each.
pub open spec fn folds<D>(proof: &WhirProof<D>, bits: nat, from: int, n: nat) -> Seq<Event<D>>
    decreases n,
{
    if n == 0 {
        Seq::empty()
    } else {
        let i = from + n - 1;
        folds(proof, bits, from, (n - 1) as nat) + fold_messages(proof, i) + work(
            bits,
            proof.folding_pow_witnesses@[i],
        ) + draws(4)
    }
}

/// What round `i` folds to is sent: in the last round all coefficients, before a commitment and,
/// once the random point was drawn, the value there.
pub open spec fn folded<H: MerkleHasher<F = BabyBear>>(inputs: WhirInputs<H>, i: int) -> Seq<
    Event<H::Digest>,
> {
    let proof = inputs.proof;
    if i == inputs.params.whir.rounds@.len() - 1 {
        ext_values(proof.final_poly@)
    } else {
        seq![Event::Commit(proof.codeword_commits@[i])] + draws(4) + ext_values(
            seq![proof.ood_values@[i]],
        )
    }
}

/// All that happens before the work for the queries of round `i`.
pub open spec fn before_queries<H: MerkleHasher<F = BabyBear>>(
    inputs: WhirInputs<H>,
    i: nat,
) -> Seq<Event<H::Digest>>
    decreases i, 1nat,
{
    let k = inputs.params.whir.k as nat;
    let bits = inputs.params.whir.folding_pow_bits as nat;
    before_round(inputs, i) + folds(inputs.proof, bits, (i * k) as int, k) + folded(
        inputs,
        i as int,
    )
}

/// All that happens before round `i`: the work and the draws of the batching challenge, and for
/// each round before, the folding, the work and the draws of its queries, and those of the
/// challenge that batches them.
pub open spec fn before_round<H: MerkleHasher<F = BabyBear>>(
    inputs: WhirInputs<H>,
    i: nat,
) -> Seq<Event<H::Digest>>
    decreases i, 0nat,
{
    let params = inputs.params;
    let proof = inputs.proof;
    if i == 0 {
        work(params.whir.mu_pow_bits as nat, proof.mu_pow_witness) + draws(4)
    } else {
        let j = (i - 1) as nat;
        before_query(inputs, j, params.whir.rounds@[j as int].num_queries as nat) + draws(4)
    }
}

/// All that happens before query `q` of round `i`.
pub open spec fn before_query<H: MerkleHasher<F = BabyBear>>(
    inputs: WhirInputs<H>,
    i: nat,
    q: nat,
) -> Seq<Event<H::Digest>>
    decreases i, 2nat,
{
    let bits = inputs.params.whir.query_phase_pow_bits as nat;
    before_queries(inputs, i) + work(
        bits,
        inputs.proof.query_phase_pow_witnesses@[i as int],
    ) + draws(q)
}

/// All that happens before the work of folding step `j` of round `i`.
pub open spec fn before_fold<H: MerkleHasher<F = BabyBear>>(
    inputs: WhirInputs<H>,
    i: nat,
    j: nat,
) -> Seq<Event<H::Digest>> {
    let k = inputs.params.whir.k as nat;
    let bits = inputs.params.whir.folding_pow_bits as nat;
    before_round(inputs, i) + folds(inputs.proof, bits, (i * k) as int, j) + fold_messages(
        inputs.proof,
        (i * k + j) as int,
    )
}

/// The challenge that is drawn once `events` have happened.
pub open spec fn drawn<D, TS: FiatShamirTranscript<D>>(
    s: TS::State,
    events: Seq<Event<D>>,
) -> EF {
    ext_challenge::<D, TS>(replayed::<D, TS>(s, events))
}

/// Whether the work of folding step `j` was done once its messages were sent, and `alpha` is the
/// challenge that is drawn after that.
spec fn fold_follows<D, TS: FiatShamirTranscript<D>>(
    s: TS::State,
    proof: &WhirProof<D>,
    bits: nat,
    from: int,
    j: int,
    alpha: EF,
) -> bool {
    let before = folds(proof, bits, from, j as nat) + fold_messages(proof, from + j);
    let witness = proof.folding_pow_witnesses@[from + j];
    &&& bits > 0 ==> work_done::<D, TS>(replayed::<D, TS>(s, before), bits, witness)
    &&& alpha == drawn::<D, TS>(s, before + work(bits, witness))
}

/// A folding step: its messages, its work and its challenge.
proof fn lemma_folds<D, TS: FiatShamirTranscript<D>>(
    s: TS::State,
    claim: EF,
    proof: &WhirProof<D>,
    bits: nat,
    from: int,
    n: nat,
)
    requires
        folding::<D, TS>(s, claim, proof, bits, from, n).ok,
    ensures
        ({
            let f = folding::<D, TS>(s, claim, proof, bits, from, n);
            &&& f.state == replayed::<D, TS>(s, folds(proof, bits, from, n))
            &&& f.alphas.len() == n
            &&& forall|j: int|
                0 <= j < n ==> fold_follows::<D, TS>(
                    s,
                    proof,
                    bits,
                    from,
                    j,
                    #[trigger] f.alphas[j],
                )
        }),
    decreases n,
{
    if n > 0 {
        let m = (n - 1) as nat;
        lemma_folds::<D, TS>(s, claim, proof, bits, from, m);
        let prev = folding::<D, TS>(s, claim, proof, bits, from, m);
        let f = folding::<D, TS>(s, claim, proof, bits, from, n);
        let i = from + n - 1;
        let evals = proof.whir_sumcheck_polys@[i];
        let witness = proof.folding_pow_witnesses@[i];
        let a = folds(proof, bits, from, m);
        let b = a + fold_messages(proof, i);
        let c = b + work::<D>(bits, witness);
        assert(exts2::<D>(evals[0], evals[1]) =~= fold_messages(proof, i));
        lemma_ext_observed::<D, TS>(prev.state, evals[0]);
        let s0 = ext_observed::<D, TS>(prev.state, evals[0]);
        lemma_ext_observed::<D, TS>(s0, evals[1]);
        lemma_replay_concat::<D, TS>(
            prev.state,
            ext_values(seq![evals[0]]),
            ext_values(seq![evals[1]]),
        );
        lemma_replay_concat::<D, TS>(s, a, fold_messages(proof, i));
        let s1 = ext_observed::<D, TS>(s0, evals[1]);
        assert(s1 == replayed::<D, TS>(s, b));
        lemma_witness_checked::<D, TS>(s1, bits, witness);
        lemma_replay_concat::<D, TS>(s, b, work(bits, witness));
        let s2 = witness_checked::<D, TS>(s1, bits, witness);
        lemma_ext_sampled::<D, TS>(s2);
        lemma_replay_concat::<D, TS>(s, c, draws(4));
        assert(f.alphas == prev.alphas.push(ext_challenge::<D, TS>(s2)));
        assert forall|j: int| 0 <= j < n implies fold_follows::<D, TS>(
            s,
            proof,
            bits,
            from,
            j,
            #[trigger] f.alphas[j],
        ) by {
            if j < m {
                assert(f.alphas[j] == prev.alphas[j]);
            }
        }
    }
}

/// The messages of a folding step, one behind the other.
spec fn exts2<D>(a: EF, b: EF) -> Seq<Event<D>> {
    ext_values(seq![a]) + ext_values(seq![b])
}

/// Whether query `q` reads the index that is drawn after the queries before it, what it opens lies
/// there under the commitments, `z` is the point that the opened entries fold to, and `y` is what
/// they fold to.
pub open spec fn query_follows<H: MerkleHasher<F = BabyBear>, TS: FiatShamirTranscript<H::Digest>>(
    s: TS::State,
    inputs: WhirInputs<H>,
    mu: EF,
    alphas: Seq<EF>,
    log_domain: nat,
    round: int,
    q: int,
    z: BabyBear,
    y: EF,
) -> bool where H::Digest: Eq {
    let k = alphas.len();
    let challenge = TS::challenge(replayed::<H::Digest, TS>(s, draws(q as nat)));
    let index = challenge.value as int % (pow2((log_domain - k) as nat) as int);
    let root = f_pow(f_generator(log_domain), index as nat);
    &&& query_opens(inputs.hasher, inputs.proof, inputs.commitments@, round, q, index)
    &&& z == f_pow(root, pow2(k))
    &&& y == k_fold(
        query_values(inputs.proof, inputs.openings@, mu, k, round, q),
        alphas,
        root,
    )
}

proof fn lemma_queries<H: MerkleHasher<F = BabyBear>, TS: FiatShamirTranscript<H::Digest>>(
    s: TS::State,
    inputs: WhirInputs<H>,
    mu: EF,
    alphas: Seq<EF>,
    log_domain: nat,
    round: int,
    n: nat,
) where H::Digest: Eq
    requires
        querying::<H, TS>(
            s,
            inputs.hasher,
            inputs.proof,
            inputs.commitments@,
            inputs.openings@,
            mu,
            alphas,
            log_domain,
            round,
            n,
        ).ok,
    ensures
        ({
            let r = querying::<H, TS>(
                s,
                inputs.hasher,
                inputs.proof,
                inputs.commitments@,
                inputs.openings@,
                mu,
                alphas,
                log_domain,
                round,
                n,
            );
            &&& r.state == replayed::<H::Digest, TS>(s, draws(n))
            &&& r.zs.len() == n
            &&& r.ys.len() == n
            &&& forall|q: int|
                0 <= q < n ==> query_follows::<H, TS>(
                    s,
                    inputs,
                    mu,
                    alphas,
                    log_domain,
                    round,
                    q,
                    #[trigger] r.zs[q],
                    r.ys[q],
                )
        }),
    decreases n,
{
    if n == 0 {
        assert(draws::<H::Digest>(0) =~= Seq::empty());
    } else {
        let m = (n - 1) as nat;
        lemma_queries::<H, TS>(s, inputs, mu, alphas, log_domain, round, m);
        let prev = querying::<H, TS>(
            s,
            inputs.hasher,
            inputs.proof,
            inputs.commitments@,
            inputs.openings@,
            mu,
            alphas,
            log_domain,
            round,
            m,
        );
        let r = querying::<H, TS>(
            s,
            inputs.hasher,
            inputs.proof,
            inputs.commitments@,
            inputs.openings@,
            mu,
            alphas,
            log_domain,
            round,
            n,
        );
        assert(draws::<H::Digest>(n) =~= draws::<H::Digest>(m).push(Event::Draw));
        lemma_replay_push::<H::Digest, TS>(s, draws(m), Event::Draw);
        assert forall|q: int| 0 <= q < n implies query_follows::<H, TS>(
            s,
            inputs,
            mu,
            alphas,
            log_domain,
            round,
            q,
            #[trigger] r.zs[q],
            r.ys[q],
        ) by {
            if q < m {
                assert(r.zs[q] == prev.zs[q]);
                assert(r.ys[q] == prev.ys[q]);
            }
        }
    }
}

/// The claim that folding leaves: each step replaces it by the value at its challenge of the
/// quadratic polynomial that adds up to it over zero and one and has the two values sent at one
/// and two.
pub open spec fn folded_claim<D>(
    claim: EF,
    proof: &WhirProof<D>,
    from: int,
    alphas: Seq<EF>,
) -> EF
    decreases alphas.len(),
{
    if alphas.len() == 0 {
        claim
    } else {
        let before = folded_claim(claim, proof, from, alphas.drop_last());
        let evals = proof.whir_sumcheck_polys@[from + alphas.len() - 1];
        quadratic_at(e_sub(before, evals[0]), evals[0], evals[1], alphas.last())
    }
}

proof fn lemma_folded_claim<D, TS: FiatShamirTranscript<D>>(
    s: TS::State,
    claim: EF,
    proof: &WhirProof<D>,
    bits: nat,
    from: int,
    n: nat,
)
    requires
        folding::<D, TS>(s, claim, proof, bits, from, n).ok,
    ensures
        ({
            let f = folding::<D, TS>(s, claim, proof, bits, from, n);
            &&& f.alphas.len() == n
            &&& f.claim == folded_claim(claim, proof, from, f.alphas)
        }),
    decreases n,
{
    if n > 0 {
        lemma_folded_claim::<D, TS>(s, claim, proof, bits, from, (n - 1) as nat);
        let prev = folding::<D, TS>(s, claim, proof, bits, from, (n - 1) as nat);
        let f = folding::<D, TS>(s, claim, proof, bits, from, n);
        assert(f.alphas.drop_last() =~= prev.alphas);
    }
}

/// The out-of-domain value of round `i`, and zero for the last round, which has none.
pub open spec fn ood_value<H: MerkleHasher<F = BabyBear>>(inputs: WhirInputs<H>, i: int) -> EF {
    if i == inputs.params.whir.rounds@.len() - 1 {
        e_zero()
    } else {
        inputs.proof.ood_values@[i]
    }
}

/// Whether the work of folding step `j` of round `i` was done once its messages were sent, and
/// `alpha` is the challenge that is drawn after that.
pub open spec fn fold_of_round_follows<
    H: MerkleHasher<F = BabyBear>,
    TS: FiatShamirTranscript<H::Digest>,
>(inputs: WhirInputs<H>, s: TS::State, i: int, j: int, alpha: EF) -> bool {
    let bits = inputs.params.whir.folding_pow_bits as nat;
    let before = before_fold(inputs, i as nat, j as nat);
    let witness = inputs.proof.folding_pow_witnesses@[i * inputs.params.whir.k + j];
    &&& bits > 0 ==> work_done::<H::Digest, TS>(
        replayed::<H::Digest, TS>(s, before),
        bits,
        witness,
    )
    &&& alpha == drawn::<H::Digest, TS>(s, before + work(bits, witness))
}

/// Whether round `i` of a verification from the state `s` leads from `prev` to `next` with the
/// folding challenges `alphas` and the folded values `ys`. Each folding challenge is drawn once the
/// messages of its step were sent and its work was done; the queries are drawn once what the round
/// folds to was sent and their work was done, and as many as the parameters ask for; each of them
/// opens what is committed to; and the claim that is left is the value, at the challenge that is
/// drawn last, of the polynomial whose coefficients are the folded claim, the out-of-domain value,
/// and what each query folds to.
#[verifier::opaque]
pub open spec fn round_follows<H: MerkleHasher<F = BabyBear>, TS: FiatShamirTranscript<H::Digest>>(
    inputs: WhirInputs<H>,
    s: TS::State,
    mu: EF,
    prev: WhirRun<TS::State>,
    next: WhirRun<TS::State>,
    i: int,
    alphas: Seq<EF>,
    ys: Seq<EF>,
) -> bool where H::Digest: Eq {
    let params = inputs.params;
    let proof = inputs.proof;
    let k = params.whir.k as nat;
    let is_last = i == params.whir.rounds@.len() - 1;
    let fold_bits = params.whir.folding_pow_bits as nat;
    let query_bits = params.whir.query_phase_pow_bits as nat;
    let num = params.whir.rounds@[i].num_queries as nat;
    let log_domain = (params.num_vars() + params.log_blowup - i) as nat;
    let r = i as nat;
    let zs = next.zs.last();
    let gamma = drawn::<H::Digest, TS>(s, before_query(inputs, r, num));
    &&& prev.err is None
    &&& next.err is None
    &&& prev.state == replayed::<H::Digest, TS>(s, before_round(inputs, r))
    &&& next.state == replayed::<H::Digest, TS>(s, before_round(inputs, r + 1))
    &&& alphas.len() == k
    &&& next.alphas == prev.alphas + alphas
    &&& forall|j: int|
        0 <= j < k ==> fold_of_round_follows::<H, TS>(inputs, s, i, j, #[trigger] alphas[j])
    &&& query_bits > 0 ==> work_done::<H::Digest, TS>(
        replayed::<H::Digest, TS>(s, before_queries(inputs, r)),
        query_bits,
        proof.query_phase_pow_witnesses@[i],
    )
    &&& next.zs == prev.zs.push(zs)
    &&& zs.len() == num
    &&& ys.len() == num
    &&& forall|q: int|
        0 <= q < num ==> query_follows::<H, TS>(
            replayed::<H::Digest, TS>(s, before_query(inputs, r, 0)),
            inputs,
            mu,
            alphas,
            log_domain,
            i,
            q,
            #[trigger] zs[q],
            ys[q],
        )
    &&& next.gammas == prev.gammas.push(gamma)
    &&& next.z0s == (if is_last {
        prev.z0s
    } else {
        prev.z0s.push(
            drawn::<H::Digest, TS>(
                s,
                before_round(inputs, r) + folds(proof, fold_bits, i * k, k) + seq![
                    Event::Commit(proof.codeword_commits@[i]),
                ],
            ),
        )
    })
    &&& next.claim == ext_poly_eval(
        seq![folded_claim(prev.claim, proof, i * k, alphas), ood_value(inputs, i)] + ys,
        gamma,
    )
}

/// What a round folds to is observed.
proof fn lemma_folded<H: MerkleHasher<F = BabyBear>, TS: FiatShamirTranscript<H::Digest>>(
    inputs: WhirInputs<H>,
    s: TS::State,
    a: Seq<Event<H::Digest>>,
    i: int,
)
    ensures
        folded_observed::<H, TS>(inputs, replayed::<H::Digest, TS>(s, a), i) == replayed::<
            H::Digest,
            TS,
        >(s, a + folded(inputs, i)),
{
    let proof = inputs.proof;
    let s0 = replayed::<H::Digest, TS>(s, a);
    if i == inputs.params.whir.rounds@.len() - 1 {
        lemma_exts_observed::<H::Digest, TS>(s0, proof.final_poly@);
        lemma_replay_concat::<H::Digest, TS>(s, a, ext_values(proof.final_poly@));
    } else {
        let e = Event::Commit(proof.codeword_commits@[i]);
        let ood = ext_values::<H::Digest>(seq![proof.ood_values@[i]]);
        lemma_replay_push::<H::Digest, TS>(s, a, e);
        let s1 = replayed::<H::Digest, TS>(s, a.push(e));
        lemma_ext_sampled::<H::Digest, TS>(s1);
        lemma_replay_concat::<H::Digest, TS>(s, a.push(e), draws(4));
        let s2 = ext_sampled::<H::Digest, TS>(s1);
        lemma_ext_observed::<H::Digest, TS>(s2, proof.ood_values@[i]);
        lemma_replay_concat::<H::Digest, TS>(s, a.push(e) + draws(4), ood);
        assert(a + folded(inputs, i) =~= a.push(e) + draws(4) + ood);
    }
}

proof fn lemma_round<H: MerkleHasher<F = BabyBear>, TS: FiatShamirTranscript<H::Digest>>(
    inputs: WhirInputs<H>,
    s: TS::State,
    mu: EF,
    prev: WhirRun<TS::State>,
    i: int,
) -> (r: (Seq<EF>, Seq<EF>)) where H::Digest: Eq
    requires
        inputs.params.whir.k >= 1,
        0 <= i < inputs.params.whir.rounds@.len(),
        prev.err is None,
        prev.claim.wf(),
        prev.state == replayed::<H::Digest, TS>(s, before_round(inputs, i as nat)),
        whir_round::<H, TS>(inputs, mu, prev, i).err is None,
    ensures
        round_follows::<H, TS>(
            inputs,
            s,
            mu,
            prev,
            whir_round::<H, TS>(inputs, mu, prev, i),
            i,
            r.0,
            r.1,
        ),
        whir_round::<H, TS>(inputs, mu, prev, i).claim.wf(),
{
    let params = inputs.params;
    let proof = inputs.proof;
    let k = params.whir.k as nat;
    let fold_bits = params.whir.folding_pow_bits as nat;
    let bits = params.whir.query_phase_pow_bits as nat;
    let num = params.whir.rounds@[i].num_queries as nat;
    let log_domain = (params.num_vars() + params.log_blowup - i) as nat;
    let n = i as nat;
    let next = whir_round::<H, TS>(inputs, mu, prev, i);
    let f = folding::<H::Digest, TS>(prev.state, prev.claim, proof, fold_bits, i * k, k);
    assert(f.ok);
    lemma_folds::<H::Digest, TS>(prev.state, prev.claim, proof, fold_bits, i * k, k);
    lemma_folded_claim::<H::Digest, TS>(prev.state, prev.claim, proof, fold_bits, i * k, k);
    let start = before_round(inputs, n);
    let all = folds(proof, fold_bits, i * k, k);
    lemma_replay_concat::<H::Digest, TS>(s, start, all);
    assert forall|j: int| 0 <= j < k implies fold_of_round_follows::<H, TS>(
        inputs,
        s,
        i,
        j,
        #[trigger] f.alphas[j],
    ) by {
        let witness = proof.folding_pow_witnesses@[i * k + j];
        let some = folds(proof, fold_bits, i * k, j as nat) + fold_messages(proof, i * k + j);
        assert(fold_follows::<H::Digest, TS>(
            prev.state,
            proof,
            fold_bits,
            i * k,
            j,
            f.alphas[j],
        ));
        lemma_replay_concat::<H::Digest, TS>(s, start, some);
        assert(before_fold(inputs, n, j as nat) =~= start + some);
        let w = work::<H::Digest>(fold_bits, witness);
        lemma_replay_concat::<H::Digest, TS>(s, start, some + w);
        assert(before_fold(inputs, n, j as nat) + w =~= start + (some + w));
    }
    lemma_folded::<H, TS>(inputs, s, start + all, i);
    let s1 = folded_observed::<H, TS>(inputs, f.state, i);
    let mid = before_queries(inputs, n);
    assert(s1 == replayed::<H::Digest, TS>(s, mid));
    let witness = proof.query_phase_pow_witnesses@[i];
    lemma_witness_checked::<H::Digest, TS>(s1, bits, witness);
    let w = work::<H::Digest>(bits, witness);
    lemma_replay_concat::<H::Digest, TS>(s, mid, w);
    let s2 = witness_checked::<H::Digest, TS>(s1, bits, witness);
    assert(before_query(inputs, n, 0) =~= mid + w);
    assert(s2 == replayed::<H::Digest, TS>(s, before_query(inputs, n, 0)));
    let q = querying::<H, TS>(
        s2,
        inputs.hasher,
        proof,
        inputs.commitments@,
        inputs.openings@,
        mu,
        f.alphas,
        log_domain,
        i,
        num,
    );
    assert(q.ok);
    lemma_queries::<H, TS>(s2, inputs, mu, f.alphas, log_domain, i, num);
    lemma_replay_concat::<H::Digest, TS>(s, mid + w, draws(num));
    let last = before_query(inputs, n, num);
    assert(last == mid + w + draws(num));
    lemma_ext_sampled::<H::Digest, TS>(q.state);
    lemma_replay_concat::<H::Digest, TS>(s, last, draws(4));
    assert(before_round(inputs, n + 1) == last + draws(4));
    let e = Event::Commit(proof.codeword_commits@[i]);
    lemma_replay_push::<H::Digest, TS>(s, start + all, e);
    assert((start + all).push(e) =~= start + all + seq![e]);
    assert(next.zs.last() == q.zs);
    let gamma = ext_challenge::<H::Digest, TS>(q.state);
    lemma_folded_claim_wf(prev.claim, proof, i * k, f.alphas);
    round_claim_is_value(f.claim, proof.ood_values@[i], q.ys, gamma);
    lemma_ext_poly_wf(seq![f.claim, ood_value(inputs, i)] + q.ys, gamma);
    reveal(round_follows);
    (f.alphas, q.ys)
}

proof fn lemma_folded_claim_wf<D>(
    claim: EF,
    proof: &WhirProof<D>,
    from: int,
    alphas: Seq<EF>,
)
    requires
        claim.wf(),
    ensures
        folded_claim(claim, proof, from, alphas).wf(),
{
    if alphas.len() > 0 {
        let before = folded_claim(claim, proof, from, alphas.drop_last());
        let evals = proof.whir_sumcheck_polys@[from + alphas.len() - 1];
        let e0 = e_sub(before, evals[0]);
        let c2 = e_scale(
            e_add(e_sub(e_sub(evals[1], evals[0]), evals[0]), e0),
            f_half(bb(1)),
        );
        let c1 = e_sub(e_sub(evals[0], e0), c2);
        let x = alphas.last();
        lemma_e_wf(e0, e_mul(e_add(c1, e_mul(c2, x)), x), bb(0));
    }
}

/// Whether round `i` of a verification follows the protocol, with some folding challenges and
/// folded values.
pub open spec fn some_round_follows<
    H: MerkleHasher<F = BabyBear>,
    TS: FiatShamirTranscript<H::Digest>,
>(inputs: WhirInputs<H>, s: TS::State, mu: EF, s0: TS::State, i: int) -> bool where
    H::Digest: Eq,
 {
    exists|alphas: Seq<EF>, ys: Seq<EF>| #[trigger]
        round_follows::<H, TS>(
            inputs,
            s,
            mu,
            whir_rounds::<H, TS>(inputs, mu, s0, i as nat),
            whir_rounds::<H, TS>(inputs, mu, s0, (i + 1) as nat),
            i,
            alphas,
            ys,
        )
}

/// The rounds of an accepted verification, one by one.
proof fn lemma_rounds<H: MerkleHasher<F = BabyBear>, TS: FiatShamirTranscript<H::Digest>>(
    inputs: WhirInputs<H>,
    s: TS::State,
    mu: EF,
    s0: TS::State,
    n: nat,
) where H::Digest: Eq
    requires
        inputs.params.whir.k >= 1,
        n <= inputs.params.whir.rounds@.len(),
        s0 == replayed::<H::Digest, TS>(s, before_round(inputs, 0)),
        whir_rounds::<H, TS>(inputs, mu, s0, n).err is None,
    ensures
        whir_rounds::<H, TS>(inputs, mu, s0, n).claim.wf(),
        whir_rounds::<H, TS>(inputs, mu, s0, n).state == replayed::<H::Digest, TS>(
            s,
            before_round(inputs, n),
        ),
        forall|i: int| 0 <= i < n ==> #[trigger] some_round_follows::<H, TS>(inputs, s, mu, s0, i),
    decreases n,
{
    if n == 0 {
        openings_are_coefficients(mu, flat(inputs.openings@));
        lemma_ext_poly_wf(flat(inputs.openings@), mu);
    } else {
        let m = (n - 1) as nat;
        let prev = whir_rounds::<H, TS>(inputs, mu, s0, m);
        assert(prev.err is None);
        lemma_rounds::<H, TS>(inputs, s, mu, s0, m);
        let (alphas, ys) = lemma_round::<H, TS>(inputs, s, mu, prev, n - 1);
        assert(round_follows::<H, TS>(
            inputs,
            s,
            mu,
            prev,
            whir_rounds::<H, TS>(inputs, mu, s0, n),
            n - 1,
            alphas,
            ys,
        ));
        assert(some_round_follows::<H, TS>(inputs, s, mu, s0, n - 1));
        assert(whir_rounds::<H, TS>(inputs, mu, s0, n).state == replayed::<H::Digest, TS>(
            s,
            before_round(inputs, n),
        )) by {
            reveal(round_follows);
        }
    }
}

/// What the acceptance of a WHIR proof means. The work before the batching challenge was done. The
/// first claim is the value at that challenge of the polynomial whose coefficients are all
/// openings. Every round, from the first to the last, follows the protocol, with all its work,
/// challenges and queries. The final polynomial has as many coefficients as there are left to
/// fold, and says of the claim that the last round leaves that it is right.
pub proof fn accepted_rounds_follow_protocol<
    H: MerkleHasher<F = BabyBear>,
    TS: FiatShamirTranscript<H::Digest>,
>(inputs: WhirInputs<H>, s: TS::State, u: Seq<EF>) where H::Digest: Eq
    requires
        inputs.params.wf(),
        whir_outcome::<H, TS>(inputs, s, u).1 is None,
    ensures
        ({
            let params = inputs.params;
            let proof = inputs.proof;
            let bits = params.whir.mu_pow_bits as nat;
            let n = params.whir.rounds@.len();
            let mu = drawn::<H::Digest, TS>(s, work(bits, proof.mu_pow_witness));
            let s0 = replayed::<H::Digest, TS>(s, before_round(inputs, 0));
            let run = whir_rounds::<H, TS>(inputs, mu, s0, n);
            &&& bits > 0 ==> work_done::<H::Digest, TS>(s, bits, proof.mu_pow_witness)
            &&& whir_rounds::<H, TS>(inputs, mu, s0, 0).claim == ext_poly_eval(
                flat(inputs.openings@),
                mu,
            )
            &&& forall|i: int|
                0 <= i < n ==> #[trigger] some_round_follows::<H, TS>(inputs, s, mu, s0, i)
            &&& whir_outcome::<H, TS>(inputs, s, u).0 == replayed::<H::Digest, TS>(
                s,
                before_round(inputs, n),
            )
            &&& proof.final_poly@.len() == pow2((params.num_vars() - params.num_folds()) as nat)
            &&& run.claim == final_claim(
                run,
                params.whir.k as int,
                n as int,
                u,
                proof.final_poly@,
                n as int,
            )
        }),
{
    let params = inputs.params;
    let proof = inputs.proof;
    let bits = params.whir.mu_pow_bits as nat;
    let n = params.whir.rounds@.len();
    let w = work::<H::Digest>(bits, proof.mu_pow_witness);
    lemma_witness_checked::<H::Digest, TS>(s, bits, proof.mu_pow_witness);
    let s1 = witness_checked::<H::Digest, TS>(s, bits, proof.mu_pow_witness);
    lemma_ext_sampled::<H::Digest, TS>(s1);
    lemma_replay_concat::<H::Digest, TS>(s, w, draws(4));
    let s0 = ext_sampled::<H::Digest, TS>(s1);
    assert(before_round(inputs, 0) == w + draws(4));
    let mu = ext_challenge::<H::Digest, TS>(s1);
    openings_are_coefficients(mu, flat(inputs.openings@));
    lemma_rounds::<H, TS>(inputs, s, mu, s0, n);
}

/// All work was done: where a WHIR proof is accepted, every witness, that before the batching
/// challenge, that of each folding step of each round and that before the queries of each round,
/// is followed by a challenge that ends in as many zero bits as the parameters ask for, in the
/// state that all messages before it have led to.
pub proof fn accepted_work_was_done<
    H: MerkleHasher<F = BabyBear>,
    TS: FiatShamirTranscript<H::Digest>,
>(inputs: WhirInputs<H>, s: TS::State, u: Seq<EF>, i: int, j: int) where H::Digest: Eq
    requires
        inputs.params.wf(),
        whir_outcome::<H, TS>(inputs, s, u).1 is None,
        0 <= i < inputs.params.whir.rounds@.len(),
        0 <= j < inputs.params.whir.k,
    ensures
        ({
            let whir = inputs.params.whir;
            let proof = inputs.proof;
            let k = whir.k as int;
            &&& whir.mu_pow_bits > 0 ==> work_done::<H::Digest, TS>(
                s,
                whir.mu_pow_bits as nat,
                proof.mu_pow_witness,
            )
            &&& whir.folding_pow_bits > 0 ==> work_done::<H::Digest, TS>(
                replayed::<H::Digest, TS>(s, before_fold(inputs, i as nat, j as nat)),
                whir.folding_pow_bits as nat,
                proof.folding_pow_witnesses@[i * k + j],
            )
            &&& whir.query_phase_pow_bits > 0 ==> work_done::<H::Digest, TS>(
                replayed::<H::Digest, TS>(s, before_queries(inputs, i as nat)),
                whir.query_phase_pow_bits as nat,
                proof.query_phase_pow_witnesses@[i],
            )
        }),
{
    accepted_rounds_follow_protocol::<H, TS>(inputs, s, u);
    let bits = inputs.params.whir.mu_pow_bits as nat;
    let mu = drawn::<H::Digest, TS>(s, work(bits, inputs.proof.mu_pow_witness));
    let s0 = replayed::<H::Digest, TS>(s, before_round(inputs, 0));
    let prev = whir_rounds::<H, TS>(inputs, mu, s0, i as nat);
    let next = whir_rounds::<H, TS>(inputs, mu, s0, (i + 1) as nat);
    assert(some_round_follows::<H, TS>(inputs, s, mu, s0, i));
    let (alphas, ys) = choose|alphas: Seq<EF>, ys: Seq<EF>| #[trigger]
        round_follows::<H, TS>(inputs, s, mu, prev, next, i, alphas, ys);
    reveal(round_follows);
    assert(fold_of_round_follows::<H, TS>(inputs, s, i, j, alphas[j]));
}

} // verus!
