//! Verification of WHIR proofs.

use vstd::arithmetic::power2::*;
use vstd::prelude::*;
use vstd::std_specs::cmp::PartialEqSpec;

use crate::algebra::lemma_generator_power_nonzero;
use crate::bits::{lemma_log2_pow2, lemma_pow2_mono, lemma_usize_bits, pow2_usize};
use crate::field::{
    e_add, e_from, e_mul, e_pow, e_scale, e_sub, e_zero, f_generator, f_pow, BabyBear,
    BabyBearExt4, Zero, EF,
};
use crate::hasher::MerkleHasher;
use crate::params::{StarkProtocolConfig, SystemParams};
use crate::poly::{
    eq_mle, eval_eq_mle, eval_mle_evals_at_point, eval_mobius_eq_mle, exp_powers_of_2,
    ext_poly_eval, ext_powers, horner_eval, interpolate_quadratic_at_012, mle_eval,
    mobius_eq_mle, powers, quadratic_at, repeated_squares,
};
use crate::proofs::WhirProof;
use crate::transcript::{
    bits_challenge, check_witness, ext_challenge, ext_observed, ext_sampled, exts_observed,
    observe_ext, observe_exts, sample_bits, sample_ext, witness_checked, witness_holds,
    FiatShamirTranscript,
};
use crate::tree::tree_root;
use crate::verification::fold::k_fold;

pub use crate::verification::fold::binary_k_fold;
pub use crate::verification::merkle_check::{merkle_verify, path_holds};

verus! {

#[derive(Copy, Clone, Debug, PartialEq, Eq, Structural)]
pub enum VerifyWhirError {
    /// The final polynomial has the wrong degree.
    FinalPolyDegree,
    /// The proof of work before the batching challenge fails.
    MuPoWInvalid,
    /// The proof of work of a folding step fails.
    FoldingPoWInvalid,
    /// The proof of work before the queries fails.
    QueryPhasePoWInvalid,
    /// The final polynomial does not explain the queries.
    FinalPolyQueryMismatch,
    /// The final polynomial is not in the final constrained code.
    FinalPolyConstraint,
    /// A Merkle path does not lead to its root.
    MerkleVerify,
}

/// `Ok` where `cond` holds, else `err`.
pub fn ensure(cond: bool, err: VerifyWhirError) -> (r: Result<(), VerifyWhirError>)
    ensures
        r == (if cond {
            Ok(())
        } else {
            Err::<(), VerifyWhirError>(err)
        }),
{
    if cond {
        Ok(())
    } else {
        Err(err)
    }
}

/// All values, in order.
pub open spec fn flat(openings: Seq<Vec<EF>>) -> Seq<EF>
    decreases openings.len(),
{
    if openings.len() == 0 {
        Seq::empty()
    } else {
        flat(openings.drop_last()) + openings.last()@
    }
}

/// The sum of the values, each weighted with the next power of `mu`.
pub open spec fn batch_ext(mu: EF, values: Seq<EF>) -> EF
    decreases values.len(),
{
    if values.len() == 0 {
        e_zero()
    } else {
        e_add(
            batch_ext(mu, values.drop_last()),
            e_mul(e_pow(mu, (values.len() - 1) as nat), values.last()),
        )
    }
}

/// The sum of base field values, each weighted with the next power of `mu`.
pub open spec fn batch_base(mu: EF, values: Seq<BabyBear>) -> EF
    decreases values.len(),
{
    if values.len() == 0 {
        e_zero()
    } else {
        e_add(
            batch_base(mu, values.drop_last()),
            e_scale(e_pow(mu, (values.len() - 1) as nat), values.last()),
        )
    }
}

/// What folding steps lead to: whether their proofs of work hold, and if so the state of the
/// transcript, the claim that is left and the challenges.
pub struct Folding<S> {
    pub ok: bool,
    pub state: S,
    pub claim: EF,
    pub alphas: Seq<EF>,
}

/// The first `n` folding steps after the first `from` ones. Each observes the values at one and
/// two of the sumcheck polynomial, whose value at zero follows from the claim, and reduces the
/// claim to the value of that polynomial at a challenge.
pub open spec fn folding<D, TS: FiatShamirTranscript<D>>(
    s: TS::State,
    claim: EF,
    proof: &WhirProof<D>,
    pow_bits: nat,
    from: int,
    n: nat,
) -> Folding<TS::State>
    decreases n,
{
    if n == 0 {
        Folding { ok: true, state: s, claim, alphas: Seq::empty() }
    } else {
        let prev = folding::<D, TS>(s, claim, proof, pow_bits, from, (n - 1) as nat);
        if !prev.ok {
            prev
        } else {
            let i = from + n - 1;
            let evals = proof.whir_sumcheck_polys@[i];
            let witness = proof.folding_pow_witnesses@[i];
            let s1 = ext_observed::<D, TS>(
                ext_observed::<D, TS>(prev.state, evals[0]),
                evals[1],
            );
            let s2 = witness_checked::<D, TS>(s1, pow_bits, witness);
            if !witness_holds::<D, TS>(s1, pow_bits, witness) {
                Folding { ok: false, state: s2, claim: prev.claim, alphas: prev.alphas }
            } else {
                let alpha = ext_challenge::<D, TS>(s2);
                Folding {
                    ok: true,
                    state: ext_sampled::<D, TS>(s2),
                    claim: quadratic_at(e_sub(prev.claim, evals[0]), evals[0], evals[1], alpha),
                    alphas: prev.alphas.push(alpha),
                }
            }
        }
    }
}

fn run_folding<D, TS: FiatShamirTranscript<D>>(
    transcript: &mut TS,
    claim: EF,
    proof: &WhirProof<D>,
    pow_bits: usize,
    from: usize,
    n: usize,
) -> (r: Result<(EF, Vec<EF>), VerifyWhirError>)
    requires
        pow_bits <= 30,
        from + n <= proof.whir_sumcheck_polys@.len(),
        from + n <= proof.folding_pow_witnesses@.len(),
    ensures
        ({
            let f = folding::<D, TS>(
                old(transcript).state(),
                claim,
                proof,
                pow_bits as nat,
                from as int,
                n as nat,
            );
            &&& final(transcript).state() == f.state
            &&& match r {
                Ok((c, alphas)) => f.ok && c == f.claim && alphas@ == f.alphas,
                Err(e) => !f.ok && e == VerifyWhirError::FoldingPoWInvalid,
            }
        }),
{
    let ghost s0 = transcript.state();
    let mut cur = claim;
    let mut alphas: Vec<EF> = Vec::with_capacity(n);
    let mut i: usize = 0;
    while i < n
        invariant
            i <= n,
            s0 == old(transcript).state(),
            pow_bits <= 30,
            from + n <= proof.whir_sumcheck_polys@.len(),
            from + n <= proof.folding_pow_witnesses@.len(),
            ({
                let f = folding::<D, TS>(s0, claim, proof, pow_bits as nat, from as int, i as nat);
                &&& f.ok
                &&& transcript.state() == f.state
                &&& cur == f.claim
                &&& alphas@ == f.alphas
            }),
        decreases n - i,
    {
        proof {
            assert(proof.whir_sumcheck_polys@.len() == proof.whir_sumcheck_polys.len());
        }
        let ev1 = proof.whir_sumcheck_polys[from + i][0];
        let ev2 = proof.whir_sumcheck_polys[from + i][1];
        observe_ext::<D, TS>(transcript, ev1);
        observe_ext::<D, TS>(transcript, ev2);
        let witness = proof.folding_pow_witnesses[from + i];
        if !check_witness::<D, TS>(transcript, pow_bits, witness) {
            proof {
                let f = folding::<D, TS>(
                    s0,
                    claim,
                    proof,
                    pow_bits as nat,
                    from as int,
                    (i + 1) as nat,
                );
                assert(!f.ok);
                lemma_folding_stops::<D, TS>(
                    s0,
                    claim,
                    proof,
                    pow_bits as nat,
                    from as int,
                    (i + 1) as nat,
                    n as nat,
                );
            }
            return Err(VerifyWhirError::FoldingPoWInvalid);
        }
        let alpha = sample_ext::<D, TS>(transcript);
        alphas.push(alpha);
        let ev0 = cur.sub(ev1);
        cur = interpolate_quadratic_at_012(ev0, ev1, ev2, alpha);
        i = i + 1;
    }
    Ok((cur, alphas))
}

/// After a step whose proof of work fails there are no more.
proof fn lemma_folding_stops<D, TS: FiatShamirTranscript<D>>(
    s: TS::State,
    claim: EF,
    proof: &WhirProof<D>,
    pow_bits: nat,
    from: int,
    m: nat,
    n: nat,
)
    requires
        m <= n,
        !folding::<D, TS>(s, claim, proof, pow_bits, from, m).ok,
    ensures
        folding::<D, TS>(s, claim, proof, pow_bits, from, n) == folding::<D, TS>(
            s,
            claim,
            proof,
            pow_bits,
            from,
            m,
        ),
    decreases n - m,
{
    if m < n {
        lemma_folding_stops::<D, TS>(s, claim, proof, pow_bits, from, m, (n - 1) as nat);
    }
}

pub proof fn lemma_folding_len<D, TS: FiatShamirTranscript<D>>(
    s: TS::State,
    claim: EF,
    proof: &WhirProof<D>,
    pow_bits: nat,
    from: int,
    n: nat,
)
    ensures
        ({
            let f = folding::<D, TS>(s, claim, proof, pow_bits, from, n);
            f.ok ==> f.alphas.len() == n
        }),
    decreases n,
{
    if n > 0 {
        lemma_folding_len::<D, TS>(s, claim, proof, pow_bits, from, (n - 1) as nat);
    }
}

/// The digest of opened rows: the root over their hashes.
pub open spec fn rows_digest<H: MerkleHasher<F = BabyBear>>(
    hasher: &H,
    rows: Seq<Vec<BabyBear>>,
) -> H::Digest {
    tree_root(hasher.node(), Seq::new(rows.len(), |i: int| hasher.leaf(rows[i]@)))
}

/// The digest of opened values: the root over the hashes of their coefficients.
pub open spec fn values_digest<H: MerkleHasher<F = BabyBear>>(
    hasher: &H,
    values: Seq<EF>,
) -> H::Digest {
    tree_root(hasher.node(), Seq::new(values.len(), |i: int| hasher.leaf(values[i].basis())))
}

fn digest_of_rows<H: MerkleHasher<F = BabyBear>>(hasher: &H, rows: &Vec<Vec<BabyBear>>) -> (r:
    H::Digest)
    requires
        is_pow2(rows@.len() as int),
    ensures
        r == rows_digest(hasher, rows@),
{
    let ghost expected = Seq::new(rows@.len(), |i: int| hasher.leaf(rows@[i]@));
    let mut hashes: Vec<H::Digest> = Vec::with_capacity(rows.len());
    let mut i: usize = 0;
    while i < rows.len()
        invariant
            i <= rows@.len(),
            hashes@.len() == i,
            expected == Seq::new(rows@.len(), |i: int| hasher.leaf(rows@[i]@)),
            forall|j: int| 0 <= j < i ==> #[trigger] hashes@[j] == expected[j],
        decreases rows@.len() - i,
    {
        hashes.push(hasher.hash_slice(rows[i].as_slice()));
        i = i + 1;
    }
    assert(hashes@ =~= expected);
    hasher.tree_compress(hashes)
}

fn digest_of_values<H: MerkleHasher<F = BabyBear>>(hasher: &H, values: &Vec<EF>) -> (r: H::Digest)
    requires
        is_pow2(values@.len() as int),
    ensures
        r == values_digest(hasher, values@),
{
    let ghost expected = Seq::new(values@.len(), |i: int| hasher.leaf(values@[i].basis()));
    let mut hashes: Vec<H::Digest> = Vec::with_capacity(values.len());
    let mut i: usize = 0;
    while i < values.len()
        invariant
            i <= values@.len(),
            hashes@.len() == i,
            expected == Seq::new(values@.len(), |i: int| hasher.leaf(values@[i].basis())),
            forall|j: int| 0 <= j < i ==> #[trigger] hashes@[j] == expected[j],
        decreases values@.len() - i,
    {
        let v = values[i];
        let coeffs: [BabyBear; 4] = [v.c0, v.c1, v.c2, v.c3];
        assert(coeffs@ =~= v.basis());
        hashes.push(hasher.hash_slice(coeffs.as_slice()));
        i = i + 1;
    }
    assert(hashes@ =~= expected);
    hasher.tree_compress(hashes)
}

/// The number of columns under the first `n` commitments.
pub open spec fn total_width(openings: Seq<Vec<EF>>, n: int) -> nat
    decreases n,
{
    if n <= 0 {
        0
    } else {
        total_width(openings, n - 1) + openings[n - 1]@.len()
    }
}

/// Row `j` of what query `q` of the first round opens under the first `n` commitments, as one.
pub open spec fn flat_row<D>(
    proof: &WhirProof<D>,
    openings: Seq<Vec<EF>>,
    q: int,
    j: int,
    n: int,
) -> Seq<BabyBear>
    decreases n,
{
    if n <= 0 {
        Seq::empty()
    } else {
        flat_row(proof, openings, q, j, n - 1)
            + proof.initial_round_opened_rows@[n - 1]@[q]@[j]@.take(openings[n - 1]@.len() as int)
    }
}

/// Whether what query `q` of a round opens at `index` lies under the commitments of that round:
/// in the first round under each of the initial ones, later under that of the round before.
pub open spec fn query_opens<H: MerkleHasher<F = BabyBear>>(
    hasher: &H,
    proof: &WhirProof<H::Digest>,
    commitments: Seq<H::Digest>,
    round: int,
    q: int,
    index: int,
) -> bool where H::Digest: Eq {
    if round == 0 {
        forall|c: int|
            0 <= c < commitments.len() ==> path_holds(
                hasher,
                #[trigger] commitments[c],
                index,
                rows_digest(hasher, proof.initial_round_opened_rows@[c]@[q]@),
                proof.initial_round_merkle_proofs@[c]@[q]@,
            )
    } else {
        path_holds(
            hasher,
            proof.codeword_commits@[round - 1],
            index,
            values_digest(hasher, proof.codeword_opened_values@[round - 1]@[q]@),
            proof.codeword_merkle_proofs@[round - 1]@[q]@,
        )
    }
}

/// The values of the round's polynomial that query `q` opens: in the first round the batched
/// rows, later the opened values themselves.
pub open spec fn query_values<D>(
    proof: &WhirProof<D>,
    openings: Seq<Vec<EF>>,
    mu: EF,
    k: nat,
    round: int,
    q: int,
) -> Seq<EF> {
    if round == 0 {
        Seq::new(
            pow2(k),
            |j: int|
                batch_base(mu, flat_row(proof, openings, q, j, openings.len() as int)),
        )
    } else {
        proof.codeword_opened_values@[round - 1]@[q]@
    }
}

/// Whether the parts of the proof that the queries of the first round read have the right sizes.
/// The codewords have `2^log_domain` entries, of which each query opens `2^k`.
pub open spec fn initial_openings_shape<D>(
    proof: &WhirProof<D>,
    openings: Seq<Vec<EF>>,
    num_commits: nat,
    num_queries: nat,
    log_domain: nat,
    k: nat,
) -> bool {
    &&& openings.len() == num_commits
    &&& proof.initial_round_opened_rows@.len() == num_commits
    &&& proof.initial_round_merkle_proofs@.len() == num_commits
    &&& total_width(openings, num_commits as int) <= usize::MAX
    &&& forall|c: int|
        0 <= c < num_commits ==> (#[trigger] proof.initial_round_opened_rows@[c])@.len()
            == num_queries
    &&& forall|c: int|
        0 <= c < num_commits ==> (#[trigger] proof.initial_round_merkle_proofs@[c])@.len()
            == num_queries
    &&& forall|c: int, q: int|
        0 <= c < num_commits && 0 <= q < num_queries ==> (
        #[trigger] proof.initial_round_opened_rows@[c]@[q])@.len() == pow2(k)
    &&& forall|c: int, q: int, j: int|
        0 <= c < num_commits && 0 <= q < num_queries && 0 <= j < pow2(k) ==> (
        #[trigger] proof.initial_round_opened_rows@[c]@[q]@[j])@.len() == openings[c]@.len()
    &&& forall|c: int, q: int|
        0 <= c < num_commits && 0 <= q < num_queries ==> (
        #[trigger] proof.initial_round_merkle_proofs@[c]@[q])@.len() == log_domain - k
}

proof fn lemma_total_width_mono(openings: Seq<Vec<EF>>, a: int, b: int)
    requires
        a <= b,
    ensures
        total_width(openings, a) <= total_width(openings, b),
    decreases b - a,
{
    if a < b {
        lemma_total_width_mono(openings, a, b - 1);
    }
}

proof fn lemma_flat_row_len<D>(
    proof: &WhirProof<D>,
    openings: Seq<Vec<EF>>,
    num_commits: nat,
    num_queries: nat,
    log_domain: nat,
    k: nat,
    q: int,
    j: int,
    n: int,
)
    requires
        initial_openings_shape(proof, openings, num_commits, num_queries, log_domain, k),
        0 <= q < num_queries,
        0 <= j < pow2(k),
        0 <= n <= num_commits,
    ensures
        flat_row(proof, openings, q, j, n).len() == total_width(openings, n),
    decreases n,
{
    if n > 0 {
        lemma_flat_row_len(
            proof,
            openings,
            num_commits,
            num_queries,
            log_domain,
            k,
            q,
            j,
            n - 1,
        );
        assert(proof.initial_round_opened_rows@[n - 1]@[q]@[j]@.len() == openings[n - 1]@.len());
    }
}

/// Adds to each of `vals` column `col` of `rows`, weighted with `weight`.
fn add_column(
    vals: &mut Vec<EF>,
    rows: &Vec<Vec<BabyBear>>,
    col: usize,
    weight: EF,
)
    requires
        old(vals)@.len() == rows@.len(),
        forall|j: int| 0 <= j < rows@.len() ==> col < (#[trigger] rows@[j])@.len(),
    ensures
        final(vals)@.len() == rows@.len(),
        forall|j: int|
            0 <= j < rows@.len() ==> #[trigger] final(vals)@[j] == e_add(
                old(vals)@[j],
                e_scale(weight, rows@[j]@[col as int]),
            ),
{
    let ghost before = vals@;
    let mut j: usize = 0;
    while j < rows.len()
        invariant
            j <= rows@.len() == vals@.len(),
            before.len() == rows@.len(),
            forall|i: int| 0 <= i < rows@.len() ==> col < (#[trigger] rows@[i])@.len(),
            forall|i: int|
                0 <= i < j ==> #[trigger] vals@[i] == e_add(
                    before[i],
                    e_scale(weight, rows@[i]@[col as int]),
                ),
            forall|i: int| j <= i < rows@.len() ==> #[trigger] vals@[i] == before[i],
        decreases rows@.len() - j,
    {
        let v = vals[j].add(weight.scale(rows[j][col]));
        vals.set(j, v);
        j = j + 1;
    }
}

/// Checks what query `q` of the first round opens, and batches it.
fn open_initial_query<H: MerkleHasher<F = BabyBear>>(
    hasher: &H,
    proof: &WhirProof<H::Digest>,
    commitments: &[H::Digest],
    openings: &[Vec<EF>],
    mu_pows: &Vec<EF>,
    k: usize,
    q: usize,
    index: u32,
    Ghost(mu): Ghost<EF>,
    Ghost(num_queries): Ghost<nat>,
    Ghost(log_domain): Ghost<nat>,
) -> (r: Result<Vec<EF>, VerifyWhirError>) where H::Digest: Eq
    requires
        <H::Digest as PartialEqSpec>::obeys_eq_spec(),
        k < usize::BITS,
        q < num_queries,
        initial_openings_shape(
            proof,
            openings@,
            commitments@.len(),
            num_queries,
            log_domain,
            k as nat,
        ),
        mu_pows@ == ext_powers(mu, total_width(openings@, commitments@.len() as int)),
    ensures
        match r {
            Ok(values) => query_opens(hasher, proof, commitments@, 0, q as int, index as int)
                && values@ == query_values(proof, openings@, mu, k as nat, 0, q as int),
            Err(e) => !query_opens(hasher, proof, commitments@, 0, q as int, index as int) && e
                == VerifyWhirError::MerkleVerify,
        },
{
    let size = pow2_usize(k);
    let ghost n = commitments@.len() as int;
    let ghost kk = k as nat;
    let mut vals: Vec<EF> = Vec::with_capacity(size);
    let mut i: usize = 0;
    while i < size
        invariant
            i <= size,
            vals@.len() == i,
            forall|j: int| 0 <= j < i ==> #[trigger] vals@[j] == e_zero(),
        decreases size - i,
    {
        vals.push(BabyBearExt4::zero());
        i = i + 1;
    }
    let mut next_pow: usize = 0;
    let mut c: usize = 0;
    while c < commitments.len()
        invariant
            c <= commitments@.len(),
            n == commitments@.len(),
            kk == k,
            size == pow2(kk),
            <H::Digest as PartialEqSpec>::obeys_eq_spec(),
            q < num_queries,
            initial_openings_shape(
                proof,
                openings@,
                commitments@.len(),
                num_queries,
                log_domain,
                kk,
            ),
            mu_pows@ == ext_powers(mu, total_width(openings@, n)),
            next_pow == total_width(openings@, c as int),
            vals@.len() == size,
            forall|j: int|
                0 <= j < size ==> #[trigger] vals@[j] == batch_base(
                    mu,
                    flat_row(proof, openings@, q as int, j, c as int),
                ),
            forall|d: int|
                0 <= d < c ==> path_holds(
                    hasher,
                    #[trigger] commitments@[d],
                    index as int,
                    rows_digest(hasher, proof.initial_round_opened_rows@[d]@[q as int]@),
                    proof.initial_round_merkle_proofs@[d]@[q as int]@,
                ),
        decreases commitments@.len() - c,
    {
        let ghost ci = c as int;
        let rows = &proof.initial_round_opened_rows[c][q];
        proof {
            assert(rows@.len() == pow2(kk));
            lemma_log2_pow2(kk);
        }
        let digest = digest_of_rows(hasher, rows);
        let path = &proof.initial_round_merkle_proofs[c][q];
        match merkle_verify(hasher, commitments[c], index, digest, path.as_slice()) {
            Ok(_) => {},
            Err(e) => {
                proof {
                    assert(!path_holds(
                        hasher,
                        commitments@[ci],
                        index as int,
                        rows_digest(hasher, proof.initial_round_opened_rows@[ci]@[q as int]@),
                        proof.initial_round_merkle_proofs@[ci]@[q as int]@,
                    ));
                }
                return Err(e);
            },
        }
        let width = openings[c].len();
        let mut col: usize = 0;
        proof {
            assert forall|j: int| 0 <= j < size implies #[trigger] vals@[j] == batch_base(
                mu,
                flat_row(proof, openings@, q as int, j, ci) + rows@[j]@.take(0),
            ) by {
                assert(flat_row(proof, openings@, q as int, j, ci) + rows@[j]@.take(0) =~= flat_row(
                    proof,
                    openings@,
                    q as int,
                    j,
                    ci,
                ));
            }
            lemma_total_width_mono(openings@, ci + 1, n);
        }
        while col < width
            invariant
                col <= width,
                c == ci,
                ci < n,
                n == commitments@.len(),
                width == openings@[ci]@.len(),
                size == pow2(kk),
                q < num_queries,
                initial_openings_shape(
                    proof,
                    openings@,
                    commitments@.len(),
                    num_queries,
                    log_domain,
                    kk,
                ),
                rows@ == proof.initial_round_opened_rows@[ci]@[q as int]@,
                mu_pows@ == ext_powers(mu, total_width(openings@, n)),
                total_width(openings@, ci + 1) <= total_width(openings@, n),
                next_pow == total_width(openings@, ci) + col,
                vals@.len() == size,
                forall|j: int|
                    0 <= j < size ==> #[trigger] vals@[j] == batch_base(
                        mu,
                        flat_row(proof, openings@, q as int, j, ci) + rows@[j]@.take(col as int),
                    ),
            decreases width - col,
        {
            let ghost before = vals@;
            proof {
                assert(rows@.len() == pow2(kk));
                assert forall|j: int| 0 <= j < rows@.len() implies col < (
                #[trigger] rows@[j])@.len() by {
                    assert(proof.initial_round_opened_rows@[ci]@[q as int]@[j]@.len()
                        == openings@[ci]@.len());
                }
            }
            add_column(&mut vals, rows, col, mu_pows[next_pow]);
            proof {
                assert forall|j: int| 0 <= j < size implies #[trigger] vals@[j] == batch_base(
                    mu,
                    flat_row(proof, openings@, q as int, j, ci) + rows@[j]@.take(col + 1),
                ) by {
                    lemma_flat_row_len(
                        proof,
                        openings@,
                        commitments@.len(),
                        num_queries,
                        log_domain,
                        kk,
                        q as int,
                        j,
                        ci,
                    );
                    let head = flat_row(proof, openings@, q as int, j, ci);
                    let longer = head + rows@[j]@.take(col + 1);
                    assert(longer.drop_last() =~= head + rows@[j]@.take(col as int));
                    assert(longer.last() == rows@[j]@[col as int]);
                    assert(vals@[j] == e_add(
                        before[j],
                        e_scale(mu_pows@[next_pow as int], rows@[j]@[col as int]),
                    ));
                }
            }
            next_pow = next_pow + 1;
            col = col + 1;
        }
        c = c + 1;
    }
    proof {
        assert(vals@ =~= query_values(proof, openings@, mu, kk, 0, q as int));
    }
    Ok(vals)
}

/// Whether the parts of the proof that the queries of a later round read have the right sizes.
/// Each round halves the codeword, which starts out with `2^log_domain` entries.
pub open spec fn later_openings_shape<D>(
    proof: &WhirProof<D>,
    round: int,
    num_queries: nat,
    log_domain: nat,
    k: nat,
) -> bool {
    &&& 1 <= round
    &&& round - 1 < proof.codeword_commits@.len()
    &&& round - 1 < proof.codeword_opened_values@.len()
    &&& round - 1 < proof.codeword_merkle_proofs@.len()
    &&& proof.codeword_opened_values@[round - 1]@.len() == num_queries
    &&& proof.codeword_merkle_proofs@[round - 1]@.len() == num_queries
    &&& forall|q: int|
        0 <= q < num_queries ==> (
        #[trigger] proof.codeword_opened_values@[round - 1]@[q])@.len() == pow2(k)
    &&& forall|q: int|
        0 <= q < num_queries ==> (
        #[trigger] proof.codeword_merkle_proofs@[round - 1]@[q])@.len() == log_domain - round - k
}

/// Whether the parts of the proof that the queries of a round read have the right sizes.
pub open spec fn openings_shape<D>(
    proof: &WhirProof<D>,
    openings: Seq<Vec<EF>>,
    num_commits: nat,
    num_queries: nat,
    log_domain: nat,
    k: nat,
    round: int,
) -> bool {
    if round == 0 {
        initial_openings_shape(proof, openings, num_commits, num_queries, log_domain, k)
    } else {
        later_openings_shape(proof, round, num_queries, log_domain, k)
    }
}

/// Checks what query `q` of a later round opens.
fn open_later_query<H: MerkleHasher<F = BabyBear>>(
    hasher: &H,
    proof: &WhirProof<H::Digest>,
    commitments: &[H::Digest],
    openings: &[Vec<EF>],
    round: usize,
    q: usize,
    index: u32,
    Ghost(k): Ghost<nat>,
    Ghost(mu): Ghost<EF>,
    Ghost(num_queries): Ghost<nat>,
    Ghost(log_domain): Ghost<nat>,
) -> (r: Result<Vec<EF>, VerifyWhirError>) where H::Digest: Eq
    requires
        <H::Digest as PartialEqSpec>::obeys_eq_spec(),
        q < num_queries,
        later_openings_shape(proof, round as int, num_queries, log_domain, k),
    ensures
        match r {
            Ok(values) => query_opens(
                hasher,
                proof,
                commitments@,
                round as int,
                q as int,
                index as int,
            ) && values@ == query_values(proof, openings@, mu, k, round as int, q as int),
            Err(e) => !query_opens(
                hasher,
                proof,
                commitments@,
                round as int,
                q as int,
                index as int,
            ) && e == VerifyWhirError::MerkleVerify,
        },
{
    let opened = &proof.codeword_opened_values[round - 1][q];
    let path = &proof.codeword_merkle_proofs[round - 1][q];
    proof {
        assert(opened@.len() == pow2(k));
        lemma_log2_pow2(k);
    }
    let digest = digest_of_values(hasher, opened);
    match merkle_verify(hasher, proof.codeword_commits[round - 1], index, digest, path.as_slice()) {
        Ok(_) => {},
        Err(e) => {
            return Err(e);
        },
    }
    let mut values: Vec<EF> = Vec::with_capacity(opened.len());
    let mut i: usize = 0;
    while i < opened.len()
        invariant
            i <= opened@.len(),
            values@ == opened@.take(i as int),
        decreases opened@.len() - i,
    {
        values.push(opened[i]);
        assert(opened@.take(i + 1) =~= opened@.take(i as int).push(opened@[i as int]));
        i = i + 1;
    }
    assert(values@ =~= opened@);
    Ok(values)
}

/// What the queries of a round lead to: whether all openings hold, and if so the points at which
/// the folded polynomial is queried and its values there.
pub struct Querying<S> {
    pub ok: bool,
    pub state: S,
    pub zs: Seq<BabyBear>,
    pub ys: Seq<EF>,
}

/// The first `n` queries of a round. A query samples an index into the domain of order
/// `2^log_domain`, of which each `2^k` points fold to one; it opens the round's polynomial on
/// them and folds what it finds.
pub open spec fn querying<H: MerkleHasher<F = BabyBear>, TS: FiatShamirTranscript<H::Digest>>(
    s: TS::State,
    hasher: &H,
    proof: &WhirProof<H::Digest>,
    commitments: Seq<H::Digest>,
    openings: Seq<Vec<EF>>,
    mu: EF,
    alphas: Seq<EF>,
    log_domain: nat,
    round: int,
    n: nat,
) -> Querying<TS::State> where H::Digest: Eq
    decreases n,
{
    if n == 0 {
        Querying { ok: true, state: s, zs: Seq::empty(), ys: Seq::empty() }
    } else {
        let prev = querying::<H, TS>(
            s,
            hasher,
            proof,
            commitments,
            openings,
            mu,
            alphas,
            log_domain,
            round,
            (n - 1) as nat,
        );
        if !prev.ok {
            prev
        } else {
            let k = alphas.len();
            let index = bits_challenge::<H::Digest, TS>(prev.state, (log_domain - k) as nat);
            let root = f_pow(f_generator(log_domain), index as nat);
            let state = TS::sampled(prev.state);
            if !query_opens(hasher, proof, commitments, round, n - 1, index) {
                Querying { ok: false, state, zs: prev.zs, ys: prev.ys }
            } else {
                let values = query_values(proof, openings, mu, k, round, n - 1);
                Querying {
                    ok: true,
                    state,
                    zs: prev.zs.push(f_pow(root, pow2(k))),
                    ys: prev.ys.push(k_fold(values, alphas, root)),
                }
            }
        }
    }
}

/// After a query whose opening fails there are no more.
pub proof fn lemma_querying_stops<
    H: MerkleHasher<F = BabyBear>,
    TS: FiatShamirTranscript<H::Digest>,
>(
    s: TS::State,
    hasher: &H,
    proof: &WhirProof<H::Digest>,
    commitments: Seq<H::Digest>,
    openings: Seq<Vec<EF>>,
    mu: EF,
    alphas: Seq<EF>,
    log_domain: nat,
    round: int,
    m: nat,
    n: nat,
) where H::Digest: Eq
    requires
        m <= n,
        !querying::<H, TS>(
            s,
            hasher,
            proof,
            commitments,
            openings,
            mu,
            alphas,
            log_domain,
            round,
            m,
        ).ok,
    ensures
        querying::<H, TS>(
            s,
            hasher,
            proof,
            commitments,
            openings,
            mu,
            alphas,
            log_domain,
            round,
            n,
        ) == querying::<H, TS>(
            s,
            hasher,
            proof,
            commitments,
            openings,
            mu,
            alphas,
            log_domain,
            round,
            m,
        ),
    decreases n - m,
{
    if m < n {
        lemma_querying_stops::<H, TS>(
            s,
            hasher,
            proof,
            commitments,
            openings,
            mu,
            alphas,
            log_domain,
            round,
            m,
            (n - 1) as nat,
        );
    }
}

proof fn lemma_querying_len<H: MerkleHasher<F = BabyBear>, TS: FiatShamirTranscript<H::Digest>>(
    s: TS::State,
    hasher: &H,
    proof: &WhirProof<H::Digest>,
    commitments: Seq<H::Digest>,
    openings: Seq<Vec<EF>>,
    mu: EF,
    alphas: Seq<EF>,
    log_domain: nat,
    round: int,
    n: nat,
) where H::Digest: Eq
    ensures
        ({
            let q = querying::<H, TS>(
                s,
                hasher,
                proof,
                commitments,
                openings,
                mu,
                alphas,
                log_domain,
                round,
                n,
            );
            q.ok ==> q.zs.len() == n && q.ys.len() == n
        }),
    decreases n,
{
    if n > 0 {
        lemma_querying_len::<H, TS>(
            s,
            hasher,
            proof,
            commitments,
            openings,
            mu,
            alphas,
            log_domain,
            round,
            (n - 1) as nat,
        );
    }
}

/// `x^(2^k)`.
fn exp_power_of_2(x: BabyBear, k: usize) -> (r: BabyBear)
    requires
        k < 64,
    ensures
        r == f_pow(x, pow2(k as nat)),
{
    let mut e: u64 = 1;
    let mut i: usize = 0;
    proof {
        lemma2_to64();
        lemma2_to64_rest();
    }
    while i < k
        invariant
            i <= k < 64,
            e == pow2(i as nat),
        decreases k - i,
    {
        proof {
            lemma_pow2_unfold((i + 1) as nat);
            lemma_pow2_mono((i + 1) as nat, 63);
            lemma2_to64();
            lemma2_to64_rest();
        }
        e = e * 2;
        i = i + 1;
    }
    x.exp_u64(e)
}

fn run_queries<H: MerkleHasher<F = BabyBear>, TS: FiatShamirTranscript<H::Digest>>(
    transcript: &mut TS,
    hasher: &H,
    proof: &WhirProof<H::Digest>,
    commitments: &[H::Digest],
    openings: &[Vec<EF>],
    mu_pows: &Vec<EF>,
    alphas: &Vec<EF>,
    log_domain: usize,
    round: usize,
    n: usize,
    Ghost(mu): Ghost<EF>,
    Ghost(first_log_domain): Ghost<nat>,
) -> (r: Result<(Vec<BabyBear>, Vec<EF>), VerifyWhirError>) where H::Digest: Eq
    requires
        <H::Digest as PartialEqSpec>::obeys_eq_spec(),
        1 <= alphas@.len() <= log_domain <= 27,
        openings_shape(
            proof,
            openings@,
            commitments@.len(),
            n as nat,
            first_log_domain,
            alphas@.len(),
            round as int,
        ),
        mu_pows@ == ext_powers(mu, total_width(openings@, openings@.len() as int)),
    ensures
        ({
            let f = querying::<H, TS>(
                old(transcript).state(),
                hasher,
                proof,
                commitments@,
                openings@,
                mu,
                alphas@,
                log_domain as nat,
                round as int,
                n as nat,
            );
            &&& final(transcript).state() == f.state
            &&& match r {
                Ok((zs, ys)) => f.ok && zs@ == f.zs && ys@ == f.ys,
                Err(e) => !f.ok && e == VerifyWhirError::MerkleVerify,
            }
        }),
{
    let ghost s0 = transcript.state();
    let k = alphas.len();
    let omega = BabyBear::two_adic_generator(log_domain);
    let mut zs: Vec<BabyBear> = Vec::with_capacity(n);
    let mut ys: Vec<EF> = Vec::with_capacity(n);
    let mut q: usize = 0;
    while q < n
        invariant
            q <= n,
            s0 == old(transcript).state(),
            <H::Digest as PartialEqSpec>::obeys_eq_spec(),
            k == alphas@.len(),
            1 <= k <= log_domain <= 27,
            omega == f_generator(log_domain as nat),
            openings_shape(
                proof,
                openings@,
                commitments@.len(),
                n as nat,
                first_log_domain,
                k as nat,
                round as int,
            ),
            mu_pows@ == ext_powers(mu, total_width(openings@, openings@.len() as int)),
            ({
                let f = querying::<H, TS>(
                    s0,
                    hasher,
                    proof,
                    commitments@,
                    openings@,
                    mu,
                    alphas@,
                    log_domain as nat,
                    round as int,
                    q as nat,
                );
                &&& f.ok
                &&& transcript.state() == f.state
                &&& zs@ == f.zs
                &&& ys@ == f.ys
            }),
        decreases n - q,
    {
        let index = sample_bits::<H::Digest, TS>(transcript, log_domain - k);
        proof {
            lemma_pow2_mono((log_domain - k) as nat, 27);
            lemma2_to64();
            lemma_generator_power_nonzero(log_domain as nat, index as nat);
        }
        let zi_root = omega.exp_u64(index);
        let zi = exp_power_of_2(zi_root, k);
        let opened = if round == 0 {
            open_initial_query(
                hasher,
                proof,
                commitments,
                openings,
                mu_pows,
                k,
                q,
                index as u32,
                Ghost(mu),
                Ghost(n as nat),
                Ghost(first_log_domain),
            )
        } else {
            open_later_query(
                hasher,
                proof,
                commitments,
                openings,
                round,
                q,
                index as u32,
                Ghost(k as nat),
                Ghost(mu),
                Ghost(n as nat),
                Ghost(first_log_domain),
            )
        };
        let values = match opened {
            Ok(values) => values,
            Err(e) => {
                proof {
                    lemma_querying_stops::<H, TS>(
                        s0,
                        hasher,
                        proof,
                        commitments@,
                        openings@,
                        mu,
                        alphas@,
                        log_domain as nat,
                        round as int,
                        (q + 1) as nat,
                        n as nat,
                    );
                }
                return Err(e);
            },
        };
        proof {
            if round > 0 {
                assert(proof.codeword_opened_values@[round - 1]@[q as int]@.len() == pow2(
                    k as nat,
                ));
            }
        }
        let yi = binary_k_fold(values, alphas.as_slice(), zi_root);
        zs.push(zi);
        ys.push(yi);
        q = q + 1;
    }
    Ok((zs, ys))
}

/// What a WHIR proof is verified against.
pub struct WhirInputs<'a, H: MerkleHasher> {
    pub params: &'a SystemParams,
    pub hasher: &'a H,
    pub proof: &'a WhirProof<H::Digest>,
    /// For each commitment the claimed values of its columns.
    pub openings: &'a [Vec<EF>],
    pub commitments: &'a [H::Digest],
}

/// What the rounds lead to: the error that they stop with, if any, the state of the transcript
/// and what they leave behind for the final check.
pub struct WhirRun<S> {
    pub err: Option<VerifyWhirError>,
    pub state: S,
    pub claim: EF,
    pub alphas: Seq<EF>,
    /// The query points of each round.
    pub zs: Seq<Seq<BabyBear>>,
    /// The out-of-domain points of all rounds but the last.
    pub z0s: Seq<EF>,
    pub gammas: Seq<EF>,
}

/// The claim plus the values, weighted with the powers of `gamma` from the square up.
pub open spec fn add_weighted(claim: EF, ys: Seq<EF>, gamma: EF) -> EF
    decreases ys.len(),
{
    if ys.len() == 0 {
        claim
    } else {
        e_add(
            add_weighted(claim, ys.drop_last(), gamma),
            e_mul(ys.last(), e_pow(gamma, (ys.len() + 1) as nat)),
        )
    }
}

/// The state after the polynomial that round `i` folds to was observed: the last one in full, any
/// other through a commitment and its value at a random point.
pub open spec fn folded_observed<
    H: MerkleHasher<F = BabyBear>,
    TS: FiatShamirTranscript<H::Digest>,
>(inputs: WhirInputs<H>, s: TS::State, i: int) -> TS::State {
    let proof = inputs.proof;
    if i == inputs.params.whir.rounds@.len() - 1 {
        exts_observed::<H::Digest, TS>(s, proof.final_poly@)
    } else {
        ext_observed::<H::Digest, TS>(
            ext_sampled::<H::Digest, TS>(TS::committed(s, proof.codeword_commits@[i])),
            proof.ood_values@[i],
        )
    }
}

/// Round `i` after the rounds `prev`: fold `k` times, observe the result, and query it.
pub open spec fn whir_round<H: MerkleHasher<F = BabyBear>, TS: FiatShamirTranscript<H::Digest>>(
    inputs: WhirInputs<H>,
    mu: EF,
    prev: WhirRun<TS::State>,
    i: int,
) -> WhirRun<TS::State> where H::Digest: Eq {
    let params = inputs.params;
    let proof = inputs.proof;
    let k = params.whir.k as nat;
    let is_last = i == params.whir.rounds@.len() - 1;
    let f = folding::<H::Digest, TS>(
        prev.state,
        prev.claim,
        proof,
        params.whir.folding_pow_bits as nat,
        i * k,
        k,
    );
    if !f.ok {
        WhirRun { err: Some(VerifyWhirError::FoldingPoWInvalid), state: f.state, ..prev }
    } else {
        let s1 = folded_observed::<H, TS>(inputs, f.state, i);
        let z0 = ext_challenge::<H::Digest, TS>(TS::committed(f.state, proof.codeword_commits@[i]));
        let y0 = proof.ood_values@[i];
        let bits = params.whir.query_phase_pow_bits as nat;
        let witness = proof.query_phase_pow_witnesses@[i];
        let s2 = witness_checked::<H::Digest, TS>(s1, bits, witness);
        if !witness_holds::<H::Digest, TS>(s1, bits, witness) {
            WhirRun { err: Some(VerifyWhirError::QueryPhasePoWInvalid), state: s2, ..prev }
        } else {
            let q = querying::<H, TS>(
                s2,
                inputs.hasher,
                proof,
                inputs.commitments@,
                inputs.openings@,
                mu,
                f.alphas,
                (params.num_vars() + params.log_blowup - i) as nat,
                i,
                params.whir.rounds@[i].num_queries as nat,
            );
            if !q.ok {
                WhirRun { err: Some(VerifyWhirError::MerkleVerify), state: q.state, ..prev }
            } else {
                let gamma = ext_challenge::<H::Digest, TS>(q.state);
                let claim = if is_last {
                    f.claim
                } else {
                    e_add(f.claim, e_mul(y0, gamma))
                };
                WhirRun {
                    err: None,
                    state: ext_sampled::<H::Digest, TS>(q.state),
                    claim: add_weighted(claim, q.ys, gamma),
                    alphas: prev.alphas + f.alphas,
                    zs: prev.zs.push(q.zs),
                    z0s: if is_last {
                        prev.z0s
                    } else {
                        prev.z0s.push(z0)
                    },
                    gammas: prev.gammas.push(gamma),
                }
            }
        }
    }
}

/// The first `n` rounds.
pub open spec fn whir_rounds<H: MerkleHasher<F = BabyBear>, TS: FiatShamirTranscript<H::Digest>>(
    inputs: WhirInputs<H>,
    mu: EF,
    s: TS::State,
    n: nat,
) -> WhirRun<TS::State> where H::Digest: Eq
    decreases n,
{
    if n == 0 {
        WhirRun {
            err: None,
            state: s,
            claim: batch_ext(mu, flat(inputs.openings@)),
            alphas: Seq::empty(),
            zs: Seq::empty(),
            z0s: Seq::empty(),
            gammas: Seq::empty(),
        }
    } else {
        let prev = whir_rounds::<H, TS>(inputs, mu, s, (n - 1) as nat);
        if prev.err is Some {
            prev
        } else {
            whir_round::<H, TS>(inputs, mu, prev, n - 1)
        }
    }
}

/// Whether the proof has the sizes that the parameters ask for.
pub open spec fn whir_shape<D>(
    params: &SystemParams,
    proof: &WhirProof<D>,
    openings: Seq<Vec<EF>>,
    num_commits: nat,
) -> bool {
    let n = params.whir.rounds@.len();
    &&& proof.whir_sumcheck_polys@.len() == params.num_folds()
    &&& proof.folding_pow_witnesses@.len() == params.num_folds()
    &&& proof.query_phase_pow_witnesses@.len() == n
    &&& proof.codeword_commits@.len() == n - 1
    &&& proof.ood_values@.len() == n - 1
    &&& proof.codeword_opened_values@.len() == n - 1
    &&& proof.codeword_merkle_proofs@.len() == n - 1
    &&& openings.len() == num_commits
    &&& total_width(openings, openings.len() as int) <= usize::MAX
    &&& forall|i: int|
        0 <= i < n ==> #[trigger] openings_shape(
            proof,
            openings,
            num_commits,
            params.whir.rounds@[i].num_queries as nat,
            (params.num_vars() + params.log_blowup) as nat,
            params.whir.k as nat,
            i,
        )
}

/// What one round leaves behind.
struct RoundOutcome {
    claim: EF,
    alphas: Vec<EF>,
    zs: Vec<BabyBear>,
    z0: Option<EF>,
    gamma: EF,
}

proof fn lemma_round_index(i: int, n: int, k: int)
    requires
        0 <= i < n,
        k >= 0,
    ensures
        0 <= i * k,
        i * k + k == (i + 1) * k,
        (i + 1) * k <= n * k,
        n * k == k * n,
{
    assert(0 <= i * k && i * k + k == (i + 1) * k && (i + 1) * k <= n * k && n * k == k * n)
        by (nonlinear_arith)
        requires
            0 <= i < n,
            k >= 0,
    ;
}

fn run_round<H: MerkleHasher<F = BabyBear>, TS: FiatShamirTranscript<H::Digest>>(
    transcript: &mut TS,
    inputs: &WhirInputs<H>,
    mu_pows: &Vec<EF>,
    claim: EF,
    round: usize,
    Ghost(mu): Ghost<EF>,
    Ghost(prev): Ghost<WhirRun<TS::State>>,
) -> (r: Result<RoundOutcome, VerifyWhirError>) where H::Digest: Eq
    requires
        <H::Digest as PartialEqSpec>::obeys_eq_spec(),
        inputs.params.wf(),
        whir_shape(
            inputs.params,
            inputs.proof,
            inputs.openings@,
            inputs.commitments@.len(),
        ),
        round < inputs.params.whir.rounds@.len(),
        prev.state == old(transcript).state(),
        prev.claim == claim,
        mu_pows@ == ext_powers(mu, total_width(inputs.openings@, inputs.openings@.len() as int)),
    ensures
        ({
            let run = whir_round::<H, TS>(*inputs, mu, prev, round as int);
            &&& final(transcript).state() == run.state
            &&& match r {
                Ok(out) => {
                    &&& run.err is None
                    &&& run.claim == out.claim
                    &&& run.alphas == prev.alphas + out.alphas@
                    &&& out.alphas@.len() == inputs.params.whir.k
                    &&& run.zs == prev.zs.push(out.zs@)
                    &&& out.zs@.len() == inputs.params.whir.rounds@[round as int].num_queries
                    &&& run.gammas == prev.gammas.push(out.gamma)
                    &&& (out.z0 is None) == (round == inputs.params.whir.rounds@.len() - 1)
                    &&& run.z0s == (match out.z0 {
                        Some(z0) => prev.z0s.push(z0),
                        None => prev.z0s,
                    })
                },
                Err(e) => run.err == Some(e),
            }
        }),
{
    let params = inputs.params;
    let proof = inputs.proof;
    let k = params.whir.k;
    let n = params.whir.rounds.len();
    proof {
        lemma_round_index(round as int, n as int, k as int);
        assert(openings_shape(
            proof,
            inputs.openings@,
            inputs.commitments@.len(),
            params.whir.rounds@[round as int].num_queries as nat,
            (params.num_vars() + params.log_blowup) as nat,
            k as nat,
            round as int,
        ));
        lemma_folding_len::<H::Digest, TS>(
            transcript.state(),
            claim,
            proof,
            params.whir.folding_pow_bits as nat,
            round * k,
            k as nat,
        );
    }
    let ghost f = folding::<H::Digest, TS>(
        transcript.state(),
        claim,
        proof,
        params.whir.folding_pow_bits as nat,
        round * k,
        k as nat,
    );
    let (claim, alphas) = match run_folding::<H::Digest, TS>(
        transcript,
        claim,
        proof,
        params.whir.folding_pow_bits,
        round * k,
        k,
    ) {
        Ok(folded) => folded,
        Err(e) => {
            return Err(e);
        },
    };
    let is_last = round == n - 1;
    let mut z0: Option<EF> = None;
    if is_last {
        observe_exts::<H::Digest, TS>(transcript, proof.final_poly.as_slice());
    } else {
        transcript.observe_commit(proof.codeword_commits[round]);
        z0 = Some(sample_ext::<H::Digest, TS>(transcript));
        observe_ext::<H::Digest, TS>(transcript, proof.ood_values[round]);
    }
    if !check_witness::<H::Digest, TS>(
        transcript,
        params.whir.query_phase_pow_bits,
        proof.query_phase_pow_witnesses[round],
    ) {
        return Err(VerifyWhirError::QueryPhasePoWInvalid);
    }
    proof {
        // Each round folds at least one variable.
        assert(round + k <= (round + 1) * k) by (nonlinear_arith)
            requires
                k >= 1,
                round >= 0,
        ;
        assert(round + k <= params.num_vars());
    }
    let log_domain = params.l_skip + params.n_stack + params.log_blowup - round;
    let num_queries = params.whir.rounds[round].num_queries;
    proof {
        lemma_querying_len::<H, TS>(
            transcript.state(),
            inputs.hasher,
            proof,
            inputs.commitments@,
            inputs.openings@,
            mu,
            alphas@,
            log_domain as nat,
            round as int,
            num_queries as nat,
        );
    }
    let (zs, ys) = match run_queries::<H, TS>(
        transcript,
        inputs.hasher,
        proof,
        inputs.commitments,
        inputs.openings,
        mu_pows,
        &alphas,
        log_domain,
        round,
        num_queries,
        Ghost(mu),
        Ghost((params.num_vars() + params.log_blowup) as nat),
    ) {
        Ok(queried) => queried,
        Err(e) => {
            return Err(e);
        },
    };
    let gamma = sample_ext::<H::Digest, TS>(transcript);
    let first = if is_last {
        claim
    } else {
        claim.add(proof.ood_values[round].mul(gamma))
    };
    let claim = sum_weighted(first, &ys, gamma);
    Ok(RoundOutcome { claim, alphas, zs, z0, gamma })
}

fn sum_weighted(claim: EF, ys: &Vec<EF>, gamma: EF) -> (r: EF)
    ensures
        r == add_weighted(claim, ys@, gamma),
{
    let mut acc = claim;
    let mut gamma_pow = BabyBearExt4::one().mul(gamma).mul(gamma);
    let mut i: usize = 0;
    proof {
        assert(ys@.take(0).len() == 0);
        assert(e_pow(gamma, 1) == e_mul(e_pow(gamma, 0), gamma));
    }
    while i < ys.len()
        invariant
            i <= ys@.len(),
            gamma_pow == e_pow(gamma, (i + 2) as nat),
            acc == add_weighted(claim, ys@.take(i as int), gamma),
        decreases ys@.len() - i,
    {
        acc = acc.add(ys[i].mul(gamma_pow));
        gamma_pow = gamma_pow.mul(gamma);
        proof {
            assert(ys@.take(i + 1).drop_last() =~= ys@.take(i as int));
        }
        i = i + 1;
    }
    assert(ys@.take(i as int) =~= ys@);
    acc
}

/// What a query point adds to the final check: its weight, times how the later challenges
/// `alphas` agree with the squares of the point, times the value of the final polynomial at the
/// last of these squares.
pub open spec fn point_term(weight: EF, alphas: Seq<EF>, z: EF, final_poly: Seq<EF>) -> EF {
    let squares = repeated_squares(z, alphas.len() + 1);
    e_mul(
        e_mul(weight, eq_mle(alphas, squares.drop_last())),
        ext_poly_eval(final_poly, squares.last()),
    )
}

/// The sum `acc` plus the terms of the query points `zs`, weighted with the powers of `gamma`
/// from the square up.
pub open spec fn add_points(
    acc: EF,
    gamma: EF,
    alphas: Seq<EF>,
    zs: Seq<BabyBear>,
    final_poly: Seq<EF>,
) -> EF
    decreases zs.len(),
{
    if zs.len() == 0 {
        acc
    } else {
        e_add(
            add_points(acc, gamma, alphas, zs.drop_last(), final_poly),
            point_term(
                e_pow(gamma, (zs.len() + 1) as nat),
                alphas,
                e_from(zs.last()),
                final_poly,
            ),
        )
    }
}

/// What the final polynomial says the claim should be, as far as the opening point `u` and the
/// first `n` rounds go.
pub open spec fn final_claim<S>(
    run: WhirRun<S>,
    k: int,
    num_rounds: int,
    u: Seq<EF>,
    final_poly: Seq<EF>,
    n: int,
) -> EF
    decreases n,
{
    let t = k * num_rounds;
    if n <= 0 {
        e_mul(mobius_eq_mle(u.take(t), run.alphas), mle_eval(final_poly, u.skip(t)))
    } else {
        let i = n - 1;
        let acc = final_claim(run, k, num_rounds, u, final_poly, n - 1);
        let later = run.alphas.subrange(k * n, t);
        let first = if i == num_rounds - 1 {
            acc
        } else {
            e_add(acc, point_term(run.gammas[i], later, run.z0s[i], final_poly))
        };
        add_points(first, run.gammas[i], later, run.zs[i], final_poly)
    }
}

/// The outcome of the verification of a WHIR proof from the state `s`: the state of the
/// transcript at the end, and the error, if any.
pub open spec fn whir_outcome<H: MerkleHasher<F = BabyBear>, TS: FiatShamirTranscript<H::Digest>>(
    inputs: WhirInputs<H>,
    s: TS::State,
    u: Seq<EF>,
) -> (TS::State, Option<VerifyWhirError>) where H::Digest: Eq {
    let params = inputs.params;
    let proof = inputs.proof;
    let bits = params.whir.mu_pow_bits as nat;
    let s1 = witness_checked::<H::Digest, TS>(s, bits, proof.mu_pow_witness);
    if !witness_holds::<H::Digest, TS>(s, bits, proof.mu_pow_witness) {
        (s1, Some(VerifyWhirError::MuPoWInvalid))
    } else {
        let mu = ext_challenge::<H::Digest, TS>(s1);
        let n = params.whir.rounds@.len();
        let run = whir_rounds::<H, TS>(inputs, mu, ext_sampled::<H::Digest, TS>(s1), n);
        if run.err is Some {
            (run.state, run.err)
        } else if proof.final_poly@.len() != pow2((params.num_vars() - params.num_folds()) as nat) {
            (run.state, Some(VerifyWhirError::FinalPolyDegree))
        } else if final_claim(
            run,
            params.whir.k as int,
            n as int,
            u,
            proof.final_poly@,
            n as int,
        ) != run.claim {
            (run.state, Some(VerifyWhirError::FinalPolyConstraint))
        } else {
            (run.state, None)
        }
    }
}

fn eval_point_term(weight: EF, alphas: &[EF], z: EF, final_poly: &Vec<EF>) -> (r: EF)
    requires
        alphas@.len() < usize::MAX,
    ensures
        r == point_term(weight, alphas@, z, final_poly@),
{
    let n = alphas.len();
    let squares = exp_powers_of_2(z, n + 1);
    let last = squares[n];
    let left = vstd::slice::slice_subrange(squares.as_slice(), 0, n);
    proof {
        assert(left@ =~= squares@.drop_last());
    }
    weight.mul(eval_eq_mle(alphas, left)).mul(horner_eval(final_poly.as_slice(), last))
}

fn eval_points(
    acc: EF,
    gamma: EF,
    alphas: &[EF],
    zs: &Vec<BabyBear>,
    final_poly: &Vec<EF>,
) -> (r: EF)
    requires
        alphas@.len() < usize::MAX,
    ensures
        r == add_points(acc, gamma, alphas@, zs@, final_poly@),
{
    let mut sum = acc;
    let mut gamma_pow = BabyBearExt4::one().mul(gamma).mul(gamma);
    let mut i: usize = 0;
    proof {
        assert(zs@.take(0).len() == 0);
        assert(e_pow(gamma, 1) == e_mul(e_pow(gamma, 0), gamma));
    }
    while i < zs.len()
        invariant
            i <= zs@.len(),
            alphas@.len() < usize::MAX,
            gamma_pow == e_pow(gamma, (i + 2) as nat),
            sum == add_points(acc, gamma, alphas@, zs@.take(i as int), final_poly@),
        decreases zs@.len() - i,
    {
        let term = eval_point_term(gamma_pow, alphas, BabyBearExt4::from_base(zs[i]), final_poly);
        sum = sum.add(term);
        gamma_pow = gamma_pow.mul(gamma);
        proof {
            assert(zs@.take(i + 1).drop_last() =~= zs@.take(i as int));
        }
        i = i + 1;
    }
    assert(zs@.take(i as int) =~= zs@);
    sum
}

/// The contents of a vector of vectors of points.
spec fn point_views(zs: Seq<Vec<BabyBear>>) -> Seq<Seq<BabyBear>> {
    Seq::new(zs.len(), |i: int| zs[i]@)
}

fn eval_final_claim<S>(
    k: usize,
    num_rounds: usize,
    alphas: &Vec<EF>,
    zs: &Vec<Vec<BabyBear>>,
    z0s: &Vec<EF>,
    gammas: &Vec<EF>,
    u: &[EF],
    final_poly: &Vec<EF>,
    Ghost(run): Ghost<WhirRun<S>>,
) -> (r: EF)
    requires
        k * num_rounds <= u@.len(),
        final_poly@.len() == pow2((u@.len() - k * num_rounds) as nat),
        alphas@.len() == k * num_rounds,
        zs@.len() == num_rounds,
        z0s@.len() == num_rounds - 1,
        gammas@.len() == num_rounds,
        run.alphas == alphas@,
        run.zs == point_views(zs@),
        run.z0s == z0s@,
        run.gammas == gammas@,
    ensures
        r == final_claim(run, k as int, num_rounds as int, u@, final_poly@, num_rounds as int),
{
    let t = alphas.len();
    let head = vstd::slice::slice_subrange(u, 0, t);
    let tail = vstd::slice::slice_subrange(u, t, u.len());
    proof {
        assert(head@ =~= u@.take(t as int));
        assert(tail@ =~= u@.skip(t as int));
    }
    let prefix = eval_mobius_eq_mle(head, alphas.as_slice());
    let suffix_sum = eval_mle_evals_at_point(final_poly.as_slice(), tail);
    let mut acc = prefix.mul(suffix_sum);
    let mut j: usize = 0;
    let mut i: usize = 0;
    while i < num_rounds
        invariant
            i <= num_rounds,
            t == k * num_rounds,
            t == alphas@.len(),
            j == k * i,
            j <= t,
            zs@.len() == num_rounds,
            z0s@.len() == num_rounds - 1,
            gammas@.len() == num_rounds,
            run.alphas == alphas@,
            run.zs == point_views(zs@),
            run.z0s == z0s@,
            run.gammas == gammas@,
            acc == final_claim(run, k as int, num_rounds as int, u@, final_poly@, i as int),
        decreases num_rounds - i,
    {
        proof {
            assert(alphas@.len() == alphas.len());
            assert(k * i + k == k * (i + 1) && k * (i + 1) <= k * num_rounds) by (nonlinear_arith)
                requires
                    i < num_rounds,
            ;
        }
        j = j + k;
        let later = vstd::slice::slice_subrange(alphas.as_slice(), j, t);
        proof {
            if later@.len() == usize::MAX {
                assert(j == 0);
                assert(t == usize::MAX);
                assert(k == 0) by (nonlinear_arith)
                    requires
                        k * (i + 1) == 0,
                        i >= 0,
                ;
                assert(k * num_rounds == 0) by (nonlinear_arith)
                    requires
                        k == 0,
                ;
            }
        }
        if i != num_rounds - 1 {
            acc = acc.add(eval_point_term(gammas[i], later, z0s[i], final_poly));
        }
        acc = eval_points(acc, gammas[i], later, &zs[i], final_poly);
        i = i + 1;
    }
    acc
}

/// After a round that stops there are no more.
pub proof fn lemma_rounds_stop<H: MerkleHasher<F = BabyBear>, TS: FiatShamirTranscript<H::Digest>>(
    inputs: WhirInputs<H>,
    mu: EF,
    s: TS::State,
    m: nat,
    n: nat,
) where H::Digest: Eq
    requires
        m <= n,
        whir_rounds::<H, TS>(inputs, mu, s, m).err is Some,
    ensures
        whir_rounds::<H, TS>(inputs, mu, s, n) == whir_rounds::<H, TS>(inputs, mu, s, m),
    decreases n - m,
{
    if m < n {
        lemma_rounds_stop::<H, TS>(inputs, mu, s, m, (n - 1) as nat);
    }
}

/// The claim that the openings are batched to.
fn batch_openings(openings: &[Vec<EF>], mu_pows: &Vec<EF>, Ghost(mu): Ghost<EF>) -> (r: EF)
    requires
        mu_pows@ == ext_powers(mu, total_width(openings@, openings@.len() as int)),
    ensures
        r == batch_ext(mu, flat(openings@)),
{
    let ghost n = openings@.len() as int;
    let mut acc = BabyBearExt4::zero();
    let mut next_pow: usize = 0;
    let mut c: usize = 0;
    proof {
        assert(openings@.take(0).len() == 0);
    }
    while c < openings.len()
        invariant
            c <= openings@.len(),
            n == openings@.len(),
            mu_pows@ == ext_powers(mu, total_width(openings@, n)),
            next_pow == total_width(openings@, c as int),
            next_pow == flat(openings@.take(c as int)).len(),
            acc == batch_ext(mu, flat(openings@.take(c as int))),
        decreases openings@.len() - c,
    {
        let ghost before = flat(openings@.take(c as int));
        let row = &openings[c];
        proof {
            lemma_total_width_mono(openings@, c + 1, n);
            assert(openings@.take(c + 1).drop_last() =~= openings@.take(c as int));
            assert(before + row@.take(0) =~= before);
        }
        let mut j: usize = 0;
        while j < row.len()
            invariant
                j <= row@.len(),
                mu_pows@ == ext_powers(mu, total_width(openings@, n)),
                before.len() + row@.len() <= total_width(openings@, n),
                next_pow == before.len() + j,
                acc == batch_ext(mu, before + row@.take(j as int)),
            decreases row@.len() - j,
        {
            proof {
                assert(mu_pows@.len() == mu_pows.len());
                let longer = before + row@.take(j + 1);
                assert(longer.drop_last() =~= before + row@.take(j as int));
                assert(longer.last() == row@[j as int]);
            }
            acc = acc.add(mu_pows[next_pow].mul(row[j]));
            next_pow = next_pow + 1;
            j = j + 1;
        }
        proof {
            assert(row@.take(j as int) =~= row@);
        }
        c = c + 1;
    }
    proof {
        assert(openings@.take(c as int) =~= openings@);
    }
    acc
}

/// Verifies a WHIR proof that the columns under the `commitments` have the values
/// `stacking_openings` at the point `u`.
pub fn verify_whir<SC: StarkProtocolConfig, TS: FiatShamirTranscript<SC::Digest>>(
    transcript: &mut TS,
    config: &SC,
    whir_proof: &WhirProof<SC::Digest>,
    stacking_openings: &[Vec<EF>],
    commitments: &[SC::Digest],
    u: &[EF],
) -> (r: Result<(), VerifyWhirError>)
    requires
        <SC::Digest as PartialEqSpec>::obeys_eq_spec(),
        config.spec_params().wf(),
        u@.len() == config.spec_params().num_vars(),
        whir_shape(
            &config.spec_params(),
            whir_proof,
            stacking_openings@,
            commitments@.len(),
        ),
    ensures
        ({
            let outcome = whir_outcome::<SC::Hasher, TS>(
                WhirInputs {
                    params: &config.spec_params(),
                    hasher: &config.spec_hasher(),
                    proof: whir_proof,
                    openings: stacking_openings,
                    commitments,
                },
                old(transcript).state(),
                u@,
            );
            &&& final(transcript).state() == outcome.0
            &&& r == (match outcome.1 {
                Some(e) => Err::<(), VerifyWhirError>(e),
                None => Ok(()),
            })
        }),
{
    let params = config.params();
    let inputs = WhirInputs {
        params,
        hasher: config.hasher(),
        proof: whir_proof,
        openings: stacking_openings,
        commitments,
    };
    if !check_witness::<SC::Digest, TS>(
        transcript,
        params.whir.mu_pow_bits,
        whir_proof.mu_pow_witness,
    ) {
        return Err(VerifyWhirError::MuPoWInvalid);
    }
    let mu = sample_ext::<SC::Digest, TS>(transcript);
    let ghost s0 = transcript.state();
    let k = params.k_whir();
    let num_rounds = params.num_whir_rounds();
    let width = sum_widths(stacking_openings);
    let mu_pows = powers(mu, width);
    let mut claim = batch_openings(stacking_openings, &mu_pows, Ghost(mu));
    let mut gammas: Vec<EF> = Vec::with_capacity(num_rounds);
    let mut zs: Vec<Vec<BabyBear>> = Vec::with_capacity(num_rounds);
    let mut z0s: Vec<EF> = Vec::with_capacity(num_rounds);
    let mut alphas: Vec<EF> = Vec::new();
    let mut round: usize = 0;
    let ghost mut run = whir_rounds::<SC::Hasher, TS>(inputs, mu, s0, 0);
    proof {
        assert(point_views(zs@) =~= run.zs);
        assert(k * 0 == 0);
    }
    while round < num_rounds
        invariant
            round <= num_rounds,
            num_rounds == params.whir.rounds@.len(),
            k == params.whir.k,
            *inputs.params == *params,
            <SC::Digest as PartialEqSpec>::obeys_eq_spec(),
            params.wf(),
            whir_shape(
                inputs.params,
                inputs.proof,
                inputs.openings@,
                inputs.commitments@.len(),
            ),
            mu_pows@ == ext_powers(
                mu,
                total_width(inputs.openings@, inputs.openings@.len() as int),
            ),
            run == whir_rounds::<SC::Hasher, TS>(inputs, mu, s0, round as nat),
            run.err is None,
            run.state == transcript.state(),
            run.claim == claim,
            run.alphas == alphas@,
            run.zs == point_views(zs@),
            run.z0s == z0s@,
            run.gammas == gammas@,
            alphas@.len() == k * round,
            zs@.len() == round,
            gammas@.len() == round,
            z0s@.len() == (if round == num_rounds {
                round - 1
            } else {
                round as int
            }),
            s0 == ext_sampled::<SC::Digest, TS>(
                witness_checked::<SC::Digest, TS>(
                    old(transcript).state(),
                    params.whir.mu_pow_bits as nat,
                    whir_proof.mu_pow_witness,
                ),
            ),
            mu == ext_challenge::<SC::Digest, TS>(
                witness_checked::<SC::Digest, TS>(
                    old(transcript).state(),
                    params.whir.mu_pow_bits as nat,
                    whir_proof.mu_pow_witness,
                ),
            ),
            witness_holds::<SC::Digest, TS>(
                old(transcript).state(),
                params.whir.mu_pow_bits as nat,
                whir_proof.mu_pow_witness,
            ),
            inputs == (WhirInputs {
                params: &config.spec_params(),
                hasher: &config.spec_hasher(),
                proof: whir_proof,
                openings: stacking_openings,
                commitments,
            }),
        decreases num_rounds - round,
    {
        let ghost prev = run;
        match run_round::<SC::Hasher, TS>(
            transcript,
            &inputs,
            &mu_pows,
            claim,
            round,
            Ghost(mu),
            Ghost(prev),
        ) {
            Ok(out) => {
                let ghost alphas_before = alphas@;
                let ghost zs_before = zs@;
                claim = out.claim;
                if let Some(z0) = out.z0 {
                    z0s.push(z0);
                }
                gammas.push(out.gamma);
                zs.push(out.zs);
                let mut new_alphas = out.alphas;
                alphas.append(&mut new_alphas);
                proof {
                    run = whir_rounds::<SC::Hasher, TS>(inputs, mu, s0, (round + 1) as nat);
                    assert(point_views(zs@) =~= point_views(zs_before).push(out.zs@));
                    assert(k * round + k == k * (round + 1)) by (nonlinear_arith);
                }
            },
            Err(e) => {
                proof {
                    lemma_rounds_stop::<SC::Hasher, TS>(
                        inputs,
                        mu,
                        s0,
                        (round + 1) as nat,
                        num_rounds as nat,
                    );
                }
                return Err(e);
            },
        }
        round = round + 1;
    }
    let log_final = params.log_final_poly_len();
    proof {
        lemma_usize_bits();
    }
    match ensure(
        whir_proof.final_poly.len() == pow2_usize(log_final),
        VerifyWhirError::FinalPolyDegree,
    ) {
        Ok(_) => {},
        Err(e) => {
            return Err(e);
        },
    }
    let acc = eval_final_claim::<TS::State>(
        k,
        num_rounds,
        &alphas,
        &zs,
        &z0s,
        &gammas,
        u,
        &whir_proof.final_poly,
        Ghost(run),
    );
    ensure(acc == claim, VerifyWhirError::FinalPolyConstraint)
}

fn sum_widths(openings: &[Vec<EF>]) -> (r: usize)
    requires
        total_width(openings@, openings@.len() as int) <= usize::MAX,
    ensures
        r == total_width(openings@, openings@.len() as int),
{
    let mut sum: usize = 0;
    let mut c: usize = 0;
    while c < openings.len()
        invariant
            c <= openings@.len(),
            total_width(openings@, openings@.len() as int) <= usize::MAX,
            sum == total_width(openings@, c as int),
        decreases openings@.len() - c,
    {
        proof {
            lemma_total_width_mono(openings@, c + 1, openings@.len() as int);
        }
        sum = sum + openings[c].len();
        c = c + 1;
    }
    sum
}

} // verus!
