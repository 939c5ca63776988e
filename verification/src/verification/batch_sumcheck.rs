//! The sumcheck of the batched constraints and interactions.

use vstd::arithmetic::power2::*;
use vstd::prelude::*;

use crate::bits::pow2_usize;
use crate::field::{bb, e_add, e_from, e_mul, e_pow, e_sub, e_zero, BabyBearExt4, Zero, EF, P};
use crate::poly::{ext_poly_eval, horner_eval};
use crate::proofs::BatchConstraintProof;
use crate::transcript::{
    ext_challenge, ext_observed, ext_sampled, exts_observed, observe_ext, observe_exts, sample_ext,
    FiatShamirTranscript,
};
use crate::verification::interpolation::{interpolate, lagrange_eval};

verus! {

/// Why a sumcheck is refused.
#[derive(Copy, Clone, Debug, PartialEq, Eq)]
pub enum SumcheckError {
    /// The numerators of the traces do not add up; this is what is left.
    Numerator { claim: EF },
    /// The denominators of the traces do not add up; this is what they leave.
    Denominator { claim: EF },
    /// The polynomial of the univariate round does not add up to the claim.
    SumClaim { sum_claim: EF, sum_univ_domain_s_0: EF },
}

/// The state and the challenges after `count` more of them were sampled.
pub open spec fn sampled_more<D, TS: FiatShamirTranscript<D>>(
    s: TS::State,
    xi: Seq<EF>,
    count: nat,
) -> (TS::State, Seq<EF>)
    decreases count,
{
    if count == 0 {
        (s, xi)
    } else {
        let (s1, xi1) = sampled_more::<D, TS>(s, xi, (count - 1) as nat);
        (ext_sampled::<D, TS>(s1), xi1.push(ext_challenge::<D, TS>(s1)))
    }
}

/// The state after the first `n` numerators and denominators were observed in turn.
pub open spec fn terms_observed<D, TS: FiatShamirTranscript<D>>(
    s: TS::State,
    numerators: Seq<EF>,
    denominators: Seq<EF>,
    n: nat,
) -> TS::State
    decreases n,
{
    if n == 0 {
        s
    } else {
        ext_observed::<D, TS>(
            ext_observed::<D, TS>(
                terms_observed::<D, TS>(s, numerators, denominators, (n - 1) as nat),
                numerators[n - 1],
            ),
            denominators[n - 1],
        )
    }
}

/// The claim less the first `n` terms.
pub open spec fn minus_terms(claim: EF, terms: Seq<EF>, n: nat) -> EF
    decreases n,
{
    if n == 0 {
        claim
    } else {
        e_sub(minus_terms(claim, terms, (n - 1) as nat), terms[n - 1])
    }
}

/// The sum of the first `n` numerators and denominators, interleaved and weighted with the
/// powers of `mu`.
pub open spec fn batched_terms(mu: EF, numerators: Seq<EF>, denominators: Seq<EF>, n: nat) -> EF
    decreases n,
{
    if n == 0 {
        e_zero()
    } else {
        let sum = batched_terms(mu, numerators, denominators, (n - 1) as nat);
        e_add(
            e_add(sum, e_mul(numerators[n - 1], e_pow(mu, (2 * n - 2) as nat))),
            e_mul(denominators[n - 1], e_pow(mu, (2 * n - 1) as nat)),
        )
    }
}

/// The sum of the first `n` of every `step`-th coefficients.
pub open spec fn strided_sum(coeffs: Seq<EF>, step: nat, n: nat) -> EF
    decreases n,
{
    if n == 0 {
        e_zero()
    } else {
        e_add(strided_sum(coeffs, step, (n - 1) as nat), coeffs[(n - 1) * step])
    }
}

/// The sum of the polynomial with the given coefficients over the subgroup of order `2^l_skip`:
/// only the coefficients of multiples of the order count, each as many times as there are
/// points.
pub open spec fn domain_sum(coeffs: Seq<EF>, l_skip: nat) -> EF {
    let step = pow2(l_skip) as int;
    let n = (coeffs.len() + step - 1) / step;
    e_mul(strided_sum(coeffs, step as nat, n as nat), e_from(bb(step)))
}

/// What the multilinear rounds lead to.
pub struct Rounds<S> {
    pub state: S,
    pub cur_sum: EF,
    pub rs: Seq<EF>,
}

/// The first `n` multilinear rounds. A round observes the values of its polynomial at one, two,
/// and so on; the value at zero follows from the claim. The claim becomes the value of that
/// polynomial at a challenge.
pub open spec fn sumcheck_rounds<D, TS: FiatShamirTranscript<D>>(
    first: Rounds<TS::State>,
    polys: Seq<Vec<EF>>,
    n: nat,
) -> Rounds<TS::State>
    decreases n,
{
    if n == 0 {
        first
    } else {
        let prev = sumcheck_rounds::<D, TS>(first, polys, (n - 1) as nat);
        let evals = polys[n - 1]@;
        let s = exts_observed::<D, TS>(prev.state, evals);
        let r = ext_challenge::<D, TS>(s);
        Rounds {
            state: ext_sampled::<D, TS>(s),
            cur_sum: lagrange_eval(seq![e_sub(prev.cur_sum, evals[0])] + evals, r),
            rs: prev.rs.push(r),
        }
    }
}

/// What the sumcheck leads to: the error that it stops with, if any, and what it leaves behind.
pub struct Sumcheck<S> {
    pub err: Option<SumcheckError>,
    pub state: S,
    pub xi: Seq<EF>,
    pub lambda: EF,
    pub mu: EF,
    pub cur_sum: EF,
    pub rs: Seq<EF>,
}

/// The sumcheck, from claims `p` and `q` on the numerator and the denominator at a point that
/// `xi` starts with.
pub open spec fn sumcheck<D, TS: FiatShamirTranscript<D>>(
    s: TS::State,
    proof: &BatchConstraintProof,
    l_skip: nat,
    n_max: nat,
    xi: Seq<EF>,
    xi_len: nat,
    p: EF,
    q: EF,
    alpha: EF,
) -> Sumcheck<TS::State> {
    let numerators = proof.numerator_term_per_air@;
    let denominators = proof.denominator_term_per_air@;
    let n = numerators.len();
    let (s1, xi1) = sampled_more::<D, TS>(s, xi, (xi_len - xi.len()) as nat);
    let lambda = ext_challenge::<D, TS>(s1);
    let s2 = terms_observed::<D, TS>(
        ext_sampled::<D, TS>(s1),
        numerators,
        denominators,
        n,
    );
    let p_rest = minus_terms(p, numerators, n);
    let q_rest = minus_terms(q, denominators, n);
    let stopped = Sumcheck {
        err: None,
        state: s2,
        xi: xi1,
        lambda,
        mu: e_zero(),
        cur_sum: e_zero(),
        rs: Seq::empty(),
    };
    if p_rest != e_zero() {
        Sumcheck { err: Some(SumcheckError::Numerator { claim: p_rest }), ..stopped }
    } else if q_rest != alpha {
        Sumcheck { err: Some(SumcheckError::Denominator { claim: q_rest }), ..stopped }
    } else {
        let mu = ext_challenge::<D, TS>(s2);
        let s3 = exts_observed::<D, TS>(
            ext_sampled::<D, TS>(s2),
            proof.univariate_round_coeffs@,
        );
        let r_0 = ext_challenge::<D, TS>(s3);
        let s4 = ext_sampled::<D, TS>(s3);
        let sum_claim = batched_terms(mu, numerators, denominators, n);
        let sum_univ_domain_s_0 = domain_sum(proof.univariate_round_coeffs@, l_skip);
        if sum_claim != sum_univ_domain_s_0 {
            Sumcheck {
                err: Some(SumcheckError::SumClaim { sum_claim, sum_univ_domain_s_0 }),
                state: s4,
                ..stopped
            }
        } else {
            let first = Rounds {
                state: s4,
                cur_sum: ext_poly_eval(proof.univariate_round_coeffs@, r_0),
                rs: seq![r_0],
            };
            let last = sumcheck_rounds::<D, TS>(first, proof.sumcheck_round_polys@, n_max);
            Sumcheck {
                err: None,
                state: last.state,
                xi: xi1,
                lambda,
                mu,
                cur_sum: last.cur_sum,
                rs: last.rs,
            }
        }
    }
}

/// Whether the parts of the proof that the sumcheck reads have the right sizes, for polynomials
/// of degree `s_deg` in each variable.
pub open spec fn sumcheck_shape(
    proof: &BatchConstraintProof,
    l_skip: nat,
    s_deg: nat,
    n_max: nat,
) -> bool {
    &&& proof.numerator_term_per_air@.len() == proof.denominator_term_per_air@.len()
    &&& proof.univariate_round_coeffs@.len() == s_deg * (pow2(l_skip) - 1) + 1
    &&& proof.sumcheck_round_polys@.len() == n_max
    &&& forall|i: int|
        0 <= i < n_max ==> (#[trigger] proof.sumcheck_round_polys@[i])@.len() == s_deg
}

/// What is left behind by a sumcheck that does not stop.
pub struct SumcheckOutcome {
    pub xi: Vec<EF>,
    pub lambda: EF,
    pub mu: EF,
    pub cur_sum: EF,
    pub rs: Vec<EF>,
}

/// Observes the terms in turn and subtracts them from the claims.
fn observe_terms<D, TS: FiatShamirTranscript<D>>(
    transcript: &mut TS,
    proof: &BatchConstraintProof,
    p: EF,
    q: EF,
) -> (r: (EF, EF))
    requires
        proof.numerator_term_per_air@.len() == proof.denominator_term_per_air@.len(),
    ensures
        final(transcript).state() == terms_observed::<D, TS>(
            old(transcript).state(),
            proof.numerator_term_per_air@,
            proof.denominator_term_per_air@,
            proof.numerator_term_per_air@.len(),
        ),
        r.0 == minus_terms(p, proof.numerator_term_per_air@, proof.numerator_term_per_air@.len()),
        r.1 == minus_terms(
            q,
            proof.denominator_term_per_air@,
            proof.numerator_term_per_air@.len(),
        ),
{
    let ghost s0 = transcript.state();
    let mut p_rest = p;
    let mut q_rest = q;
    let mut i: usize = 0;
    while i < proof.numerator_term_per_air.len()
        invariant
            i <= proof.numerator_term_per_air@.len() == proof.denominator_term_per_air@.len(),
            s0 == old(transcript).state(),
            transcript.state() == terms_observed::<D, TS>(
                s0,
                proof.numerator_term_per_air@,
                proof.denominator_term_per_air@,
                i as nat,
            ),
            p_rest == minus_terms(p, proof.numerator_term_per_air@, i as nat),
            q_rest == minus_terms(q, proof.denominator_term_per_air@, i as nat),
        decreases proof.numerator_term_per_air@.len() - i,
    {
        let sum_claim_p = proof.numerator_term_per_air[i];
        let sum_claim_q = proof.denominator_term_per_air[i];
        p_rest = p_rest.sub(sum_claim_p);
        q_rest = q_rest.sub(sum_claim_q);
        observe_ext::<D, TS>(transcript, sum_claim_p);
        observe_ext::<D, TS>(transcript, sum_claim_q);
        i = i + 1;
    }
    (p_rest, q_rest)
}

fn batch_terms(mu: EF, proof: &BatchConstraintProof) -> (r: EF)
    requires
        proof.numerator_term_per_air@.len() == proof.denominator_term_per_air@.len(),
    ensures
        r == batched_terms(
            mu,
            proof.numerator_term_per_air@,
            proof.denominator_term_per_air@,
            proof.numerator_term_per_air@.len(),
        ),
{
    let mut sum = BabyBearExt4::zero();
    let mut cur_mu_pow = BabyBearExt4::one();
    let mut i: usize = 0;
    while i < proof.numerator_term_per_air.len()
        invariant
            i <= proof.numerator_term_per_air@.len() == proof.denominator_term_per_air@.len(),
            cur_mu_pow == e_pow(mu, (2 * i) as nat),
            sum == batched_terms(
                mu,
                proof.numerator_term_per_air@,
                proof.denominator_term_per_air@,
                i as nat,
            ),
        decreases proof.numerator_term_per_air@.len() - i,
    {
        proof {
            assert(e_pow(mu, (2 * i + 1) as nat) == e_mul(e_pow(mu, (2 * i) as nat), mu));
            assert(e_pow(mu, (2 * (i + 1)) as nat) == e_mul(e_pow(mu, (2 * i + 1) as nat), mu));
        }
        sum = sum.add(proof.numerator_term_per_air[i].mul(cur_mu_pow));
        cur_mu_pow = cur_mu_pow.mul(mu);
        sum = sum.add(proof.denominator_term_per_air[i].mul(cur_mu_pow));
        cur_mu_pow = cur_mu_pow.mul(mu);
        i = i + 1;
    }
    sum
}

/// Sums a polynomial over the subgroup of order `2^l_skip`.
pub fn sum_over_domain(coeffs: &Vec<EF>, l_skip: usize) -> (r: EF)
    requires
        l_skip < usize::BITS,
    ensures
        r == domain_sum(coeffs@, l_skip as nat),
{
    let step = pow2_usize(l_skip);
    let len = coeffs.len();
    let mut sum = BabyBearExt4::zero();
    let mut at: usize = 0;
    let mut left: usize = len;
    let ghost mut n: nat = 0;
    proof {
        assert(0 * step == 0);
    }
    while left > 0
        invariant
            step >= 1,
            len == coeffs.len(),
            n * step == at || left == 0,
            left > 0 ==> at + left == len,
            left == 0 ==> len <= n * step < len + step,
            sum == strided_sum(coeffs@, step as nat, n),
        decreases left,
    {
        proof {
            assert((n + 1) * step == n * step + step) by (nonlinear_arith);
        }
        sum = sum.add(coeffs[at]);
        if left > step {
            at = at + step;
            left = left - step;
        } else {
            left = 0;
        }
        proof {
            n = n + 1;
        }
    }
    proof {
        let st = step as int;
        let total = len + st - 1;
        assert(total == n * st + (total - n * st));
        if len == 0 {
            vstd::arithmetic::div_mod::lemma_fundamental_div_mod_converse(total, st, 0, total);
            assert(n == 0) by (nonlinear_arith)
                requires
                    n * st < st,
                    st >= 1,
                    n >= 0,
            ;
        } else {
            vstd::arithmetic::div_mod::lemma_fundamental_div_mod_converse(
                total,
                st,
                n as int,
                total - n * st,
            );
        }
    }
    sum.mul(BabyBearExt4::from_usize(step))
}

/// Runs the sumcheck.
pub fn run_sumcheck<D, TS: FiatShamirTranscript<D>>(
    transcript: &mut TS,
    proof: &BatchConstraintProof,
    l_skip: usize,
    s_deg: usize,
    n_max: usize,
    xi: Vec<EF>,
    xi_len: usize,
    p: EF,
    q: EF,
    alpha: EF,
) -> (r: Result<SumcheckOutcome, SumcheckError>)
    requires
        l_skip < usize::BITS,
        1 <= s_deg < P,
        xi@.len() <= xi_len,
        sumcheck_shape(proof, l_skip as nat, s_deg as nat, n_max as nat),
    ensures
        ({
            let f = sumcheck::<D, TS>(
                old(transcript).state(),
                proof,
                l_skip as nat,
                n_max as nat,
                xi@,
                xi_len as nat,
                p,
                q,
                alpha,
            );
            &&& final(transcript).state() == f.state
            &&& match r {
                Ok(out) => {
                    &&& f.err is None
                    &&& out.xi@ == f.xi
                    &&& out.lambda == f.lambda
                    &&& out.mu == f.mu
                    &&& out.cur_sum == f.cur_sum
                    &&& out.rs@ == f.rs
                    &&& out.xi@.len() == xi_len
                    &&& out.rs@.len() == n_max + 1
                },
                Err(e) => f.err == Some(e),
            }
        }),
{
    let ghost s0 = transcript.state();
    let ghost xi0 = xi@;
    let mut xi = xi;
    while xi.len() < xi_len
        invariant
            xi0.len() <= xi@.len() <= xi_len,
            (transcript.state(), xi@) == sampled_more::<D, TS>(
                s0,
                xi0,
                (xi@.len() - xi0.len()) as nat,
            ),
        decreases xi_len - xi@.len(),
    {
        let c = sample_ext::<D, TS>(transcript);
        xi.push(c);
    }
    let lambda = sample_ext::<D, TS>(transcript);
    let (p_rest, q_rest) = observe_terms::<D, TS>(transcript, proof, p, q);
    if p_rest != BabyBearExt4::zero() {
        return Err(SumcheckError::Numerator { claim: p_rest });
    }
    if q_rest != alpha {
        return Err(SumcheckError::Denominator { claim: q_rest });
    }
    let mu = sample_ext::<D, TS>(transcript);
    let sum_claim = batch_terms(mu, proof);
    observe_exts::<D, TS>(transcript, proof.univariate_round_coeffs.as_slice());
    let r_0 = sample_ext::<D, TS>(transcript);
    let sum_univ_domain_s_0 = sum_over_domain(&proof.univariate_round_coeffs, l_skip);
    if sum_claim != sum_univ_domain_s_0 {
        return Err(SumcheckError::SumClaim { sum_claim, sum_univ_domain_s_0 });
    }
    let mut cur_sum = horner_eval(proof.univariate_round_coeffs.as_slice(), r_0);
    let mut rs: Vec<EF> = Vec::with_capacity(1);
    rs.push(r_0);
    let ghost first = Rounds { state: transcript.state(), cur_sum, rs: seq![r_0] };
    assert(rs@ =~= seq![r_0]);
    let mut round: usize = 0;
    while round < n_max
        invariant
            round <= n_max,
            1 <= s_deg < P,
            sumcheck_shape(proof, l_skip as nat, s_deg as nat, n_max as nat),
            rs@.len() == round + 1,
            (Rounds { state: transcript.state(), cur_sum, rs: rs@ }) == sumcheck_rounds::<D, TS>(
                first,
                proof.sumcheck_round_polys@,
                round as nat,
            ),
        decreases n_max - round,
    {
        let evals = &proof.sumcheck_round_polys[round];
        proof {
            assert(evals@.len() == s_deg);
        }
        observe_exts::<D, TS>(transcript, evals.as_slice());
        let s_0 = cur_sum.sub(evals[0]);
        let mut all: Vec<EF> = Vec::with_capacity(s_deg);
        all.push(s_0);
        let mut i: usize = 0;
        while i < evals.len()
            invariant
                i <= evals@.len(),
                all@ == seq![s_0] + evals@.take(i as int),
            decreases evals@.len() - i,
        {
            all.push(evals[i]);
            assert(seq![s_0] + evals@.take(i + 1) =~= (seq![s_0] + evals@.take(i as int)).push(
                evals@[i as int],
            ));
            i = i + 1;
        }
        assert(evals@.take(i as int) =~= evals@);
        let r = sample_ext::<D, TS>(transcript);
        cur_sum = interpolate(&all, r);
        rs.push(r);
        round = round + 1;
    }
    Ok(SumcheckOutcome { xi, lambda, mu, cur_sum, rs })
}

} // verus!
