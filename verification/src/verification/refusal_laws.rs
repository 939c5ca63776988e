//! What a proof is refused for.

use vstd::arithmetic::power2::*;
use vstd::prelude::*;

use crate::field::{e_one, e_sub, e_zero, BabyBear, EF};
use crate::hasher::MerkleHasher;
use crate::keys::MultiStarkVerifyingKey0;
use crate::multilinear::all_wf;
use crate::poly::ext_poly_eval;
use crate::proofs::{BatchConstraintProof, GkrProof, Proof, WhirProof};
use crate::transcript::{ext_challenge, ext_sampled, witness_checked, FiatShamirTranscript};
use crate::verification::batch_constraints::{may_return, BatchConstraintError, BatchInputs};
use crate::verification::batch_soundness::{
    before_mu, lemma_difference, lemma_more, lemma_terms,
};
use crate::verification::batch_sumcheck::{
    sampled_more, sumcheck, terms_observed, SumcheckError,
};
use crate::verification::conversation::{
    draws, ext_values, lemma_ext_sampled, lemma_replay_concat, replayed,
};
use crate::verification::power_sums::{in_turn, terms_are_coefficients, terms_are_subtracted};
use crate::verification::proof_shape::{shape_error, ProofShapeError};
use crate::verification::subprotocols::{GkrVerificationError, SubProtocols};
use crate::verification::sumcheck_laws::{
    domain_sum_is_total, domain_values, lemma_total_wf, total,
};
use crate::verification::whir::{
    folding, whir_outcome, whir_rounds, VerifyWhirError, WhirInputs,
};
use crate::verification::whir_soundness::{drawn, work_done};

verus! {

/// A WHIR proof whose first work was not done is refused for that, and for that alone; and it is
/// refused for other work only where the parameters ask for it, for the length of its final
/// polynomial only where that is wrong, and for what that polynomial says only where it is right.
pub proof fn whir_refusals_have_reasons<
    H: MerkleHasher<F = BabyBear>,
    TS: FiatShamirTranscript<H::Digest>,
>(inputs: WhirInputs<H>, s: TS::State, u: Seq<EF>) where H::Digest: Eq
    ensures
        ({
            let params = inputs.params;
            let proof = inputs.proof;
            let bits = params.whir.mu_pow_bits as nat;
            let worked = bits == 0 || work_done::<H::Digest, TS>(s, bits, proof.mu_pow_witness);
            let length = proof.final_poly@.len();
            let expected = pow2((params.l_skip + params.n_stack - params.whir.k
                * params.whir.rounds@.len()) as nat);
            let err = whir_outcome::<H, TS>(inputs, s, u).1;
            &&& err == Some(VerifyWhirError::MuPoWInvalid) <==> !worked
            &&& err == Some(VerifyWhirError::FoldingPoWInvalid) ==> params.whir.folding_pow_bits > 0
            &&& err == Some(VerifyWhirError::QueryPhasePoWInvalid)
                ==> params.whir.query_phase_pow_bits > 0
            &&& err == Some(VerifyWhirError::FinalPolyDegree) ==> length != expected
            &&& err == Some(VerifyWhirError::FinalPolyConstraint) ==> length == expected
            &&& err != Some(VerifyWhirError::FinalPolyQueryMismatch)
        }),
{
    let params = inputs.params;
    let proof = inputs.proof;
    let bits = params.whir.mu_pow_bits as nat;
    let s1 = witness_checked::<H::Digest, TS>(s, bits, proof.mu_pow_witness);
    let mu = ext_challenge::<H::Digest, TS>(s1);
    let s0 = ext_sampled::<H::Digest, TS>(s1);
    lemma_round_errors::<H, TS>(inputs, mu, s0, params.whir.rounds@.len());
}

/// A folding step is refused only where work is asked for.
proof fn lemma_folding_errors<D, TS: FiatShamirTranscript<D>>(
    s: TS::State,
    claim: EF,
    proof: &WhirProof<D>,
    bits: nat,
    from: int,
    n: nat,
)
    ensures
        !folding::<D, TS>(s, claim, proof, bits, from, n).ok ==> bits > 0,
    decreases n,
{
    if n > 0 {
        lemma_folding_errors::<D, TS>(s, claim, proof, bits, from, (n - 1) as nat);
    }
}

/// The rounds stop for work that is asked for, or for a Merkle path.
proof fn lemma_round_errors<H: MerkleHasher<F = BabyBear>, TS: FiatShamirTranscript<H::Digest>>(
    inputs: WhirInputs<H>,
    mu: EF,
    s: TS::State,
    n: nat,
) where H::Digest: Eq
    ensures
        match whir_rounds::<H, TS>(inputs, mu, s, n).err {
            None => true,
            Some(VerifyWhirError::FoldingPoWInvalid) => inputs.params.whir.folding_pow_bits > 0,
            Some(VerifyWhirError::QueryPhasePoWInvalid) => inputs.params.whir.query_phase_pow_bits
                > 0,
            Some(e) => e == VerifyWhirError::MerkleVerify,
        },
    decreases n,
{
    if n > 0 {
        let m = (n - 1) as nat;
        lemma_round_errors::<H, TS>(inputs, mu, s, m);
        let prev = whir_rounds::<H, TS>(inputs, mu, s, m);
        let k = inputs.params.whir.k as nat;
        let bits = inputs.params.whir.folding_pow_bits as nat;
        lemma_folding_errors::<H::Digest, TS>(
            prev.state,
            prev.claim,
            inputs.proof,
            bits,
            (n - 1) * k,
            k,
        );
    }
}

/// The constraints are refused for the work before their challenges if and only if it was not
/// done, and for the claimed denominator where there are no interactions and it is not one.
pub proof fn constraint_refusals_have_reasons<
    Digest,
    TS: FiatShamirTranscript<Digest>,
    S: SubProtocols<TS>,
>(
    sub: &S,
    inputs: BatchInputs<Digest, S::Node>,
    gkr_proof: &GkrProof<S::Layers>,
    omega_skip_pows: &Vec<BabyBear>,
    s: TS::State,
    out: (TS, Result<Vec<EF>, BatchConstraintError<S::GkrRejection>>),
)
    requires
        may_return::<Digest, TS, S>(sub, inputs, gkr_proof, omega_skip_pows, s, out),
    ensures
        ({
            let bits = inputs.mvk.params.logup.pow_bits as nat;
            let worked = bits == 0 || work_done::<Digest, TS>(
                s,
                bits,
                gkr_proof.logup_pow_witness,
            );
            let e = out.1->Err_0;
            let nothing = forall|t: int|
                0 <= t < inputs.num_traces() ==> (#[trigger] inputs.interactions(t)).len() == 0;
            &&& (out.1 is Err && e is InvalidLogupPowWitness) <==> !worked
            &&& worked && nothing && gkr_proof.q0_claim != e_one() ==> {
                &&& out.1 is Err
                &&& e == BatchConstraintError::<S::GkrRejection>::GkrVerificationFailed(
                    GkrVerificationError::InvalidZeroRoundValue { actual: gkr_proof.q0_claim },
                )
            }
        }),
{
    let n = inputs.num_traces();
    if forall|t: int| 0 <= t < n ==> (#[trigger] inputs.interactions(t)).len() == 0 {
        lemma_no_rows(inputs, n);
    }
}

/// Traces without interactions have no rows of them.
proof fn lemma_no_rows<Digest, Node>(inputs: BatchInputs<Digest, Node>, n: int)
    requires
        n <= inputs.num_traces(),
        forall|t: int|
            0 <= t < inputs.num_traces() ==> (#[trigger] inputs.interactions(t)).len() == 0,
    ensures
        inputs.interaction_rows(n) == 0,
    decreases n,
{
    if n > 0 {
        lemma_no_rows(inputs, n - 1);
        assert(inputs.interactions(n - 1).len() == 0);
    }
}

/// The sumcheck stops where there is a difference, and names it: what the numerators leave of
/// their claim, if that is not zero; else what the denominators leave of theirs, if that is not
/// `alpha`; else the batched numerators and denominators and the sum over the univariate domain, if
/// these are not the same.
pub proof fn sumcheck_names_difference<D, TS: FiatShamirTranscript<D>>(
    s: TS::State,
    proof: &BatchConstraintProof,
    l_skip: nat,
    n_max: nat,
    xi: Seq<EF>,
    xi_len: nat,
    p: EF,
    q: EF,
    alpha: EF,
)
    requires
        l_skip <= 27,
        xi.len() <= xi_len,
        proof.numerator_term_per_air@.len() == proof.denominator_term_per_air@.len(),
        p.wf(),
        q.wf(),
        all_wf(proof.numerator_term_per_air@),
        all_wf(proof.denominator_term_per_air@),
    ensures
        ({
            let err = sumcheck::<D, TS>(s, proof, l_skip, n_max, xi, xi_len, p, q, alpha).err;
            let numerators = proof.numerator_term_per_air@;
            let denominators = proof.denominator_term_per_air@;
            let rest = e_sub(q, total(denominators));
            let mu = drawn::<D, TS>(s, before_mu(proof, (xi_len - xi.len()) as nat));
            let batched = ext_poly_eval(in_turn(numerators, denominators), mu);
            let sum = total(domain_values(proof.univariate_round_coeffs@, l_skip));
            err == (if p != total(numerators) {
                Some(SumcheckError::Numerator { claim: e_sub(p, total(numerators)) })
            } else if rest != alpha {
                Some(SumcheckError::Denominator { claim: rest })
            } else if batched != sum {
                Some(SumcheckError::SumClaim { sum_claim: batched, sum_univ_domain_s_0: sum })
            } else {
                None
            })
        }),
{
    let numerators = proof.numerator_term_per_air@;
    let denominators = proof.denominator_term_per_air@;
    let n = numerators.len();
    let count = (xi_len - xi.len()) as nat;
    terms_are_subtracted(p, numerators, n);
    terms_are_subtracted(q, denominators, n);
    assert(numerators.take(n as int) =~= numerators);
    assert(denominators.take(n as int) =~= denominators);
    lemma_total_wf(numerators);
    lemma_no_difference(p);
    if e_sub(p, total(numerators)) == e_zero() {
        lemma_difference(p, total(numerators));
    }
    domain_sum_is_total(proof.univariate_round_coeffs@, l_skip);
    let (s1, xi1) = sampled_more::<D, TS>(s, xi, count);
    lemma_more::<D, TS>(s, xi, count);
    let a0 = draws::<D>(4 * count);
    lemma_ext_sampled::<D, TS>(s1);
    lemma_replay_concat::<D, TS>(s, a0, draws(4));
    let s1a = ext_sampled::<D, TS>(s1);
    lemma_terms::<D, TS>(s1a, numerators, denominators, n);
    let turn = ext_values::<D>(in_turn(numerators, denominators));
    lemma_replay_concat::<D, TS>(s, a0 + draws(4), turn);
    let s2 = terms_observed::<D, TS>(s1a, numerators, denominators, n);
    assert(s2 == replayed::<D, TS>(s, before_mu(proof, count)));
    terms_are_coefficients(ext_challenge::<D, TS>(s2), numerators, denominators, n);
}

/// The difference of an element and itself is zero.
proof fn lemma_no_difference(a: EF)
    requires
        a.wf(),
    ensures
        e_sub(a, a) == e_zero(),
{
    reveal(e_sub);
    reveal(e_zero);
}

/// A wrong size is reported for the part that has it. A proof that differs from one of the right
/// shape in its WHIR proof alone is refused, if at all, for that; one that differs in the values
/// of the stacked columns alone is refused for these if there are more or fewer of them under some
/// commitment; one that differs in the proof of the constraints alone is refused, if at all, for
/// that; and so is one that differs in its public values alone.
pub proof fn shape_errors_name_the_part<D, N, L, R>(
    mvk: &MultiStarkVerifyingKey0<D, N>,
    x: &Proof<D, L, R>,
    y: &Proof<D, L, R>,
)
    requires
        shape_error(mvk, x) is None,
        y.trace_vdata == x.trace_vdata,
    ensures
        ({
            let err = shape_error(mvk, y);
            let public = y.public_values == x.public_values;
            let batch = y.batch_constraint_proof == x.batch_constraint_proof;
            let stacking = y.stacking_proof == x.stacking_proof;
            let whir = y.whir_proof == x.whir_proof;
            let (a, b) = (
                x.stacking_proof.stacking_openings@,
                y.stacking_proof.stacking_openings@,
            );
            &&& err != Some(ProofShapeError::TraceVData)
            &&& public && batch && stacking ==> err is None || err == Some(ProofShapeError::Whir)
            &&& public && batch && whir && (a.len() != b.len() || exists|c: int|
                0 <= c < a.len() && (#[trigger] a[c])@.len() != b[c]@.len()) ==> err == Some(
                ProofShapeError::Stacking,
            )
            &&& public && stacking && whir ==> err is None || err == Some(
                ProofShapeError::BatchConstraints,
            )
            &&& batch && stacking && whir ==> err is None || err == Some(
                ProofShapeError::PublicValues,
            )
        }),
{
}

} // verus!
