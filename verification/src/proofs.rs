//! The parts of a proof.

use vstd::prelude::*;

use crate::field::{e_zero, BabyBear, BabyBearExt4, Zero, EF};

verus! {

/// A WHIR opening proof.
pub struct WhirProof<Digest> {
    /// The proof of work before the batching challenge.
    pub mu_pow_witness: BabyBear,
    /// For each folding step the values at one and two of its sumcheck polynomial.
    pub whir_sumcheck_polys: Vec<[EF; 2]>,
    /// The commitments to the folded codewords of all rounds but the last.
    pub codeword_commits: Vec<Digest>,
    /// The out-of-domain values of the folded polynomials of all rounds but the last.
    pub ood_values: Vec<EF>,
    /// The proof of work of each folding step.
    pub folding_pow_witnesses: Vec<BabyBear>,
    /// The proof of work before the queries of each round.
    pub query_phase_pow_witnesses: Vec<BabyBear>,
    /// For each initial commitment and each query of the first round, the opened rows.
    pub initial_round_opened_rows: Vec<Vec<Vec<Vec<BabyBear>>>>,
    /// For each initial commitment and each query of the first round, the Merkle proof.
    pub initial_round_merkle_proofs: Vec<Vec<Vec<Digest>>>,
    /// For each later round and each of its queries, the opened values.
    pub codeword_opened_values: Vec<Vec<Vec<EF>>>,
    /// For each later round and each of its queries, the Merkle proof.
    pub codeword_merkle_proofs: Vec<Vec<Vec<Digest>>>,
    /// The coefficients of the final polynomial.
    pub final_poly: Vec<EF>,
}

/// A proof of the sum over all interactions. What its layers hold is up to the protocol that
/// verifies them.
pub struct GkrProof<Layers> {
    /// The proof of work before the challenges of the interaction argument.
    pub logup_pow_witness: BabyBear,
    /// The claimed denominator of the sum.
    pub q0_claim: EF,
    pub layers: Layers,
}

/// A proof of all constraints and interactions, batched.
pub struct BatchConstraintProof {
    /// The numerator that each present trace adds to the sum over the interactions.
    pub numerator_term_per_air: Vec<EF>,
    /// The denominator that each present trace adds.
    pub denominator_term_per_air: Vec<EF>,
    /// The coefficients of the polynomial of the univariate round.
    pub univariate_round_coeffs: Vec<EF>,
    /// For each multilinear round the values of its polynomial at one, two, and so on.
    pub sumcheck_round_polys: Vec<Vec<EF>>,
    /// For each present trace and each of its parts the claimed column values: those of the
    /// common main part, then the preprocessed ones, then those of the cached parts.
    pub column_openings: Vec<Vec<Vec<EF>>>,
}

/// A proof that reduces column values to values of the stacked columns. What its rounds hold is
/// up to the protocol that verifies them.
pub struct StackingProof<Rounds> {
    /// For each commitment the claimed values of its stacked columns.
    pub stacking_openings: Vec<Vec<EF>>,
    pub rounds: Rounds,
}

/// What the verifier is told of a trace.
pub struct TraceVData<Digest> {
    pub log_height: usize,
    pub cached_commitments: Vec<Digest>,
}

/// A proof for several traces. The lists that follow the verifying key have one entry for each
/// AIR.
pub struct Proof<Digest, Layers, Rounds> {
    pub common_main_commit: Digest,
    /// For each AIR what is told of its trace, if it has one.
    pub trace_vdata: Vec<Option<TraceVData<Digest>>>,
    pub public_values: Vec<Vec<BabyBear>>,
    pub gkr_proof: GkrProof<Layers>,
    pub batch_constraint_proof: BatchConstraintProof,
    pub stacking_proof: StackingProof<Rounds>,
    pub whir_proof: WhirProof<Digest>,
}

/// Column values, each with the value of the rotated column; zero where columns are not rotated.
pub open spec fn by_rot(values: Seq<EF>, need_rot: bool) -> Seq<(EF, EF)> {
    if need_rot {
        Seq::new(values.len() / 2, |i: int| (values[2 * i], values[2 * i + 1]))
    } else {
        Seq::new(values.len(), |i: int| (values[i], e_zero()))
    }
}

pub fn column_openings_by_rot(values: &Vec<EF>, need_rot: bool) -> (r: Vec<(EF, EF)>)
    ensures
        r@ == by_rot(values@, need_rot),
{
    let n = if need_rot {
        values.len() / 2
    } else {
        values.len()
    };
    let mut r: Vec<(EF, EF)> = Vec::with_capacity(n);
    let mut i: usize = 0;
    while i < n
        invariant
            i <= n,
            n == by_rot(values@, need_rot).len(),
            need_rot ==> 2 * n <= values.len(),
            r@.len() == i,
            forall|j: int| 0 <= j < i ==> #[trigger] r@[j] == by_rot(values@, need_rot)[j],
        decreases n - i,
    {
        if need_rot {
            r.push((values[2 * i], values[2 * i + 1]));
        } else {
            r.push((values[i], BabyBearExt4::zero()));
        }
        i = i + 1;
    }
    assert(r@ =~= by_rot(values@, need_rot));
    r
}

/// Every column value is handed over: without rotation, value `i` is that of column `i`, whose
/// rotated column counts as zero; with rotation, values `2i` and `2i + 1` are those of column `i`
/// and of its rotated column.
pub proof fn every_column_value_is_handed_over(values: Seq<EF>, i: int)
    requires
        0 <= i < values.len(),
    ensures
        by_rot(values, false).len() == values.len(),
        by_rot(values, false)[i] == (values[i], e_zero()),
        2 * by_rot(values, true).len() <= values.len() <= 2 * by_rot(values, true).len() + 1,
        values.len() % 2 == 0 && i % 2 == 0 ==> by_rot(values, true)[i / 2].0 == values[i],
        values.len() % 2 == 0 && i % 2 == 1 ==> by_rot(values, true)[i / 2].1 == values[i],
{
}

/// Different column values are handed over differently.
pub proof fn column_values_are_told_apart(x: Seq<EF>, y: Seq<EF>, need_rot: bool)
    requires
        x.len() == y.len(),
        need_rot ==> x.len() % 2 == 0,
        by_rot(x, need_rot) == by_rot(y, need_rot),
    ensures
        x == y,
{
    assert forall|i: int| 0 <= i < x.len() implies x[i] == y[i] by {
        every_column_value_is_handed_over(x, i);
        every_column_value_is_handed_over(y, i);
    }
    assert(x =~= y);
}

} // verus!
