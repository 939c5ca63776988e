//! What the acceptance of the batched constraints means.

use vstd::prelude::*;

use crate::algebra::{lemma_e_add_zero, lemma_linear, lemma_of_quad, q_add, q_sub, quad};
use crate::field::{e_one, e_sub, e_zero, BabyBear, EF};
use crate::multilinear::all_wf;
use crate::poly::ext_poly_eval;
use crate::proofs::{by_rot, BatchConstraintProof, GkrProof};
use crate::transcript::{
    ext_challenge, ext_observed, ext_sampled, exts_observed, witness_checked, FiatShamirTranscript,
};
use crate::verification::batch_constraints::{
    common_observed, ends_with, may_be_gkr, may_be_nodes, may_end_with, may_follow,
    may_go_on_with, may_return, others_observed, pairs_observed, parts_observed, trace_claims,
    BatchConstraintError, BatchInputs, Weights,
};
use crate::verification::batch_sumcheck::{
    sampled_more, sumcheck, sumcheck_rounds, terms_observed, Rounds,
};
use crate::verification::conversation::{
    draws, ext_values, lemma_ext_observed, lemma_ext_sampled, lemma_exts_observed,
    lemma_replay_concat, lemma_witness_checked, replayed, work, Event,
};
use crate::verification::interpolation::lagrange_eval;
use crate::verification::power_sums::{
    claim_coefficients, claims_are_coefficients, in_turn, terms_are_coefficients,
    terms_are_subtracted,
};
use crate::verification::subprotocols::{GkrVerificationError, SubProtocols};
use crate::verification::sumcheck_laws::{
    domain_sum_is_total, domain_values, lemma_total_wf, total,
};
use crate::verification::whir_soundness::{drawn, work_done};

verus! {

/// The first `n` multilinear rounds: the values of each polynomial are sent, and a challenge is
/// drawn.
pub open spec fn round_events<D>(polys: Seq<Vec<EF>>, n: nat) -> Seq<Event<D>>
    decreases n,
{
    if n == 0 {
        Seq::empty()
    } else {
        round_events(polys, (n - 1) as nat) + ext_values(polys[n - 1]@) + draws(4)
    }
}

/// All that happens before the batching challenge of the terms: the draws of `count` further
/// challenges and of the one that batches constraints, and the terms, numerator and denominator
/// of each trace in turn.
pub open spec fn before_mu<D>(proof: &BatchConstraintProof, count: nat) -> Seq<Event<D>> {
    draws(4 * count) + draws(4) + ext_values(
        in_turn(proof.numerator_term_per_air@, proof.denominator_term_per_air@),
    )
}

/// All that happens before the challenge of the univariate round.
pub open spec fn before_univariate<D>(proof: &BatchConstraintProof, count: nat) -> Seq<Event<D>> {
    before_mu(proof, count) + draws(4) + ext_values(proof.univariate_round_coeffs@)
}

/// All that happens before the challenge of multilinear round `i`.
pub open spec fn before_multilinear<D>(
    proof: &BatchConstraintProof,
    count: nat,
    i: nat,
) -> Seq<Event<D>> {
    before_univariate(proof, count) + draws(4) + round_events(proof.sumcheck_round_polys@, i)
        + ext_values(proof.sumcheck_round_polys@[i as int]@)
}

/// The claim that the multilinear rounds leave: each round replaces it by the value at its
/// challenge of the polynomial that adds up to it over zero and one and has the values sent at
/// one, two, and so on.
pub open spec fn summed_claim(claim: EF, polys: Seq<Vec<EF>>, rs: Seq<EF>) -> EF
    decreases rs.len(),
{
    if rs.len() == 0 {
        claim
    } else {
        let before = summed_claim(claim, polys, rs.drop_last());
        let evals = polys[rs.len() - 1]@;
        lagrange_eval(seq![e_sub(before, evals[0])] + evals, rs.last())
    }
}

pub proof fn lemma_more<D, TS: FiatShamirTranscript<D>>(s: TS::State, xi: Seq<EF>, count: nat)
    ensures
        ({
            let (s1, xi1) = sampled_more::<D, TS>(s, xi, count);
            &&& s1 == replayed::<D, TS>(s, draws(4 * count))
            &&& xi1.len() == xi.len() + count
            &&& forall|j: int| 0 <= j < xi.len() ==> #[trigger] xi1[j] == xi[j]
            &&& forall|j: int|
                xi.len() <= j < xi1.len() ==> #[trigger] xi1[j] == drawn::<D, TS>(
                    s,
                    draws((4 * (j - xi.len())) as nat),
                )
        }),
    decreases count,
{
    if count == 0 {
        assert(draws::<D>(0) =~= Seq::empty());
    } else {
        let m = (count - 1) as nat;
        lemma_more::<D, TS>(s, xi, m);
        let (s1, xi1) = sampled_more::<D, TS>(s, xi, m);
        lemma_ext_sampled::<D, TS>(s1);
        lemma_replay_concat::<D, TS>(s, draws(4 * m), draws(4));
        assert(draws::<D>(4 * m) + draws::<D>(4) =~= draws::<D>(4 * count));
    }
}

pub proof fn lemma_terms<D, TS: FiatShamirTranscript<D>>(
    s: TS::State,
    a: Seq<EF>,
    b: Seq<EF>,
    n: nat,
)
    requires
        n <= a.len(),
        n <= b.len(),
    ensures
        terms_observed::<D, TS>(s, a, b, n) == replayed::<D, TS>(
            s,
            ext_values(in_turn(a.take(n as int), b.take(n as int))),
        ),
    decreases n,
{
    let m = n as int;
    let all = in_turn(a.take(m), b.take(m));
    if n == 0 {
        assert(ext_values::<D>(all) =~= Seq::empty());
    } else {
        lemma_terms::<D, TS>(s, a, b, (n - 1) as nat);
        let before = in_turn(a.take(m - 1), b.take(m - 1));
        let s1 = terms_observed::<D, TS>(s, a, b, (n - 1) as nat);
        let (x, y) = (a[m - 1], b[m - 1]);
        lemma_ext_observed::<D, TS>(s1, x);
        lemma_ext_observed::<D, TS>(ext_observed::<D, TS>(s1, x), y);
        lemma_replay_concat::<D, TS>(s1, ext_values(seq![x]), ext_values(seq![y]));
        let two = ext_values::<D>(seq![x]) + ext_values::<D>(seq![y]);
        lemma_replay_concat::<D, TS>(s, ext_values(before), two);
        assert(ext_values::<D>(before) + two =~= ext_values::<D>(all));
    }
}

proof fn lemma_rounds<D, TS: FiatShamirTranscript<D>>(
    first: Rounds<TS::State>,
    polys: Seq<Vec<EF>>,
    n: nat,
)
    ensures
        ({
            let last = sumcheck_rounds::<D, TS>(first, polys, n);
            let l = first.rs.len() as int;
            &&& last.state == replayed::<D, TS>(first.state, round_events(polys, n))
            &&& last.rs.len() == l + n
            &&& last.rs.take(l) == first.rs
            &&& last.cur_sum == summed_claim(first.cur_sum, polys, last.rs.skip(l))
            &&& forall|i: int|
                0 <= i < n ==> #[trigger] last.rs[l + i] == drawn::<D, TS>(
                    first.state,
                    round_events(polys, i as nat) + ext_values(polys[i]@),
                )
        }),
    decreases n,
{
    let l = first.rs.len() as int;
    if n == 0 {
        assert(first.rs.take(l) =~= first.rs);
        assert(first.rs.skip(l) =~= Seq::empty());
    } else {
        let m = (n - 1) as nat;
        lemma_rounds::<D, TS>(first, polys, m);
        let prev = sumcheck_rounds::<D, TS>(first, polys, m);
        let last = sumcheck_rounds::<D, TS>(first, polys, n);
        let evals = polys[n - 1]@;
        let a = round_events::<D>(polys, m);
        lemma_exts_observed::<D, TS>(prev.state, evals);
        lemma_replay_concat::<D, TS>(first.state, a, ext_values(evals));
        let s = exts_observed::<D, TS>(prev.state, evals);
        lemma_ext_sampled::<D, TS>(s);
        lemma_replay_concat::<D, TS>(first.state, a + ext_values(evals), draws(4));
        assert(last.rs.take(l) =~= prev.rs.take(l));
        assert(last.rs.skip(l).drop_last() =~= prev.rs.skip(l));
        assert forall|i: int| 0 <= i < n implies #[trigger] last.rs[l + i] == drawn::<D, TS>(
            first.state,
            round_events(polys, i as nat) + ext_values(polys[i]@),
        ) by {
            if i < m {
                assert(last.rs[l + i] == prev.rs[l + i]);
            }
        }
    }
}

/// What it means that the sumcheck does not stop. The numerators of all traces add up to the claim
/// `p`, and the denominators to the claim `q` less `alpha`. The values of the univariate polynomial
/// on the whole domain add up to the value at `mu` of the polynomial whose coefficients are the
/// numerators and denominators in turn. Each challenge is drawn once all messages before it were
/// sent, and the claim that is left is the one that all rounds lead to.
pub proof fn finished_sumcheck_follows_protocol<D, TS: FiatShamirTranscript<D>>(
    s: TS::State,
    proof: &BatchConstraintProof,
    l_skip: nat,
    n_max: nat,
    xi: Seq<EF>,
    xi_len: nat,
    p: EF,
    q: EF,
    alpha: EF,
)
    requires
        l_skip <= 27,
        xi.len() <= xi_len,
        proof.numerator_term_per_air@.len() == proof.denominator_term_per_air@.len(),
        sumcheck::<D, TS>(s, proof, l_skip, n_max, xi, xi_len, p, q, alpha).err is None,
    ensures
        ({
            let out = sumcheck::<D, TS>(s, proof, l_skip, n_max, xi, xi_len, p, q, alpha);
            let numerators = proof.numerator_term_per_air@;
            let denominators = proof.denominator_term_per_air@;
            let coeffs = proof.univariate_round_coeffs@;
            let polys = proof.sumcheck_round_polys@;
            let count = (xi_len - xi.len()) as nat;
            &&& p.wf() && all_wf(numerators) ==> total(numerators) == p
            &&& q.wf() && all_wf(denominators) ==> e_sub(q, total(denominators)) == alpha
            &&& out.xi.len() == xi_len
            &&& forall|j: int| 0 <= j < xi.len() ==> #[trigger] out.xi[j] == xi[j]
            &&& forall|j: int|
                xi.len() <= j < xi_len ==> #[trigger] out.xi[j] == drawn::<D, TS>(
                    s,
                    draws((4 * (j - xi.len())) as nat),
                )
            &&& out.lambda == drawn::<D, TS>(s, draws(4 * count))
            &&& out.mu == drawn::<D, TS>(s, before_mu(proof, count))
            &&& ext_poly_eval(in_turn(numerators, denominators), out.mu) == total(
                domain_values(coeffs, l_skip),
            )
            &&& out.rs.len() == n_max + 1
            &&& out.rs[0] == drawn::<D, TS>(s, before_univariate(proof, count))
            &&& forall|i: int|
                0 <= i < n_max ==> #[trigger] out.rs[1 + i] == drawn::<D, TS>(
                    s,
                    before_multilinear(proof, count, i as nat),
                )
            &&& out.cur_sum == summed_claim(
                ext_poly_eval(coeffs, out.rs[0]),
                polys,
                out.rs.skip(1),
            )
            &&& out.state == replayed::<D, TS>(
                s,
                before_univariate(proof, count) + draws(4) + round_events(polys, n_max),
            )
        }),
{
    let numerators = proof.numerator_term_per_air@;
    let denominators = proof.denominator_term_per_air@;
    let n = numerators.len();
    let coeffs = proof.univariate_round_coeffs@;
    let polys = proof.sumcheck_round_polys@;
    let count = (xi_len - xi.len()) as nat;
    let out = sumcheck::<D, TS>(s, proof, l_skip, n_max, xi, xi_len, p, q, alpha);
    lemma_more::<D, TS>(s, xi, count);
    let (s1, xi1) = sampled_more::<D, TS>(s, xi, count);
    let a0 = draws::<D>(4 * count);
    lemma_ext_sampled::<D, TS>(s1);
    lemma_replay_concat::<D, TS>(s, a0, draws(4));
    let s1a = ext_sampled::<D, TS>(s1);
    lemma_terms::<D, TS>(s1a, numerators, denominators, n);
    assert(numerators.take(n as int) =~= numerators);
    assert(denominators.take(n as int) =~= denominators);
    let turn = ext_values::<D>(in_turn(numerators, denominators));
    lemma_replay_concat::<D, TS>(s, a0 + draws(4), turn);
    let s2 = terms_observed::<D, TS>(s1a, numerators, denominators, n);
    let a1 = before_mu::<D>(proof, count);
    assert(s2 == replayed::<D, TS>(s, a1));
    lemma_ext_sampled::<D, TS>(s2);
    lemma_replay_concat::<D, TS>(s, a1, draws(4));
    let s2a = ext_sampled::<D, TS>(s2);
    lemma_exts_observed::<D, TS>(s2a, coeffs);
    lemma_replay_concat::<D, TS>(s, a1 + draws(4), ext_values(coeffs));
    let s3 = exts_observed::<D, TS>(s2a, coeffs);
    let a2 = before_univariate::<D>(proof, count);
    assert(s3 == replayed::<D, TS>(s, a2));
    lemma_ext_sampled::<D, TS>(s3);
    lemma_replay_concat::<D, TS>(s, a2, draws(4));
    let s4 = ext_sampled::<D, TS>(s3);
    let r_0 = ext_challenge::<D, TS>(s3);
    terms_are_coefficients(out.mu, numerators, denominators, n);
    if p.wf() && all_wf(numerators) {
        terms_are_subtracted(p, numerators, n);
        lemma_total_wf(numerators);
        lemma_difference(p, total(numerators));
    }
    if q.wf() && all_wf(denominators) {
        terms_are_subtracted(q, denominators, n);
    }
    domain_sum_is_total(coeffs, l_skip);
    let first = Rounds { state: s4, cur_sum: ext_poly_eval(coeffs, r_0), rs: seq![r_0] };
    lemma_rounds::<D, TS>(first, polys, n_max);
    let last = sumcheck_rounds::<D, TS>(first, polys, n_max);
    assert(out.rs == last.rs);
    assert(last.rs.take(1)[0] == r_0);
    lemma_replay_concat::<D, TS>(s, a2 + draws(4), round_events(polys, n_max));
    assert forall|i: int| 0 <= i < n_max implies #[trigger] out.rs[1 + i] == drawn::<D, TS>(
        s,
        before_multilinear(proof, count, i as nat),
    ) by {
        let some = round_events::<D>(polys, i as nat) + ext_values::<D>(polys[i]@);
        lemma_replay_concat::<D, TS>(s, a2 + draws(4), some);
        assert(before_multilinear::<D>(proof, count, i as nat) =~= a2 + draws(4) + some);
        assert(last.rs[1 + i] == drawn::<D, TS>(s4, some));
    }
}

/// Elements whose difference is zero are equal.
pub proof fn lemma_difference(a: EF, b: EF)
    requires
        a.wf(),
        b.wf(),
        e_sub(a, b) == e_zero(),
    ensures
        a == b,
{
    lemma_of_quad(a);
    lemma_of_quad(b);
    let (x, y) = (quad(a), quad(b));
    lemma_linear(x, y);
    lemma_linear(q_sub(x, y), y);
    assert(q_add(q_sub(x, y), y) == x);
    lemma_e_add_zero(b);
}

/// The values of a part of a trace, each followed by that of the rotated column, or by zero where
/// columns are not rotated.
pub open spec fn with_rotations(part: Seq<EF>, need_rot: bool) -> Seq<EF> {
    if need_rot {
        part.take(2 * (part.len() as int / 2))
    } else {
        Seq::new(
            2 * part.len(),
            |i: int|
                if i % 2 == 0 {
                    part[i / 2]
                } else {
                    e_zero()
                },
        )
    }
}

/// The values of the parts `from` up to `n` of a trace are sent.
pub open spec fn part_events<D>(
    parts: Seq<Vec<EF>>,
    need_rot: bool,
    from: int,
    n: int,
) -> Seq<Event<D>>
    decreases n - from,
{
    if n <= from {
        Seq::empty()
    } else {
        part_events(parts, need_rot, from, n - 1) + ext_values(
            with_rotations(parts[n - 1]@, need_rot),
        )
    }
}

/// The values of the common parts of the first `n` traces are sent.
pub open spec fn common_events<D, Node>(inputs: BatchInputs<D, Node>, n: int) -> Seq<Event<D>>
    decreases n,
{
    if n <= 0 {
        Seq::empty()
    } else {
        common_events(inputs, n - 1) + ext_values(
            with_rotations(
                inputs.proof.column_openings@[n - 1]@[0]@,
                inputs.air(n - 1).params.need_rot,
            ),
        )
    }
}

/// The values of the other parts of the first `n` traces are sent.
pub open spec fn other_events<D, Node>(inputs: BatchInputs<D, Node>, n: int) -> Seq<Event<D>>
    decreases n,
{
    if n <= 0 {
        Seq::empty()
    } else {
        let parts = inputs.proof.column_openings@[n - 1]@;
        other_events(inputs, n - 1) + part_events(
            parts,
            inputs.air(n - 1).params.need_rot,
            1,
            parts.len() as int,
        )
    }
}

/// Both components of each pair, in order.
spec fn both(pairs: Seq<(EF, EF)>) -> Seq<EF> {
    Seq::new(
        2 * pairs.len(),
        |i: int|
            if i % 2 == 0 {
                pairs[i / 2].0
            } else {
                pairs[i / 2].1
            },
    )
}

proof fn lemma_pairs<D, TS: FiatShamirTranscript<D>>(s: TS::State, pairs: Seq<(EF, EF)>)
    ensures
        pairs_observed::<D, TS>(s, pairs) == replayed::<D, TS>(s, ext_values(both(pairs))),
    decreases pairs.len(),
{
    if pairs.len() == 0 {
        assert(ext_values::<D>(both(pairs)) =~= Seq::empty());
    } else {
        let before = pairs.drop_last();
        lemma_pairs::<D, TS>(s, before);
        let s1 = pairs_observed::<D, TS>(s, before);
        let (x, y) = pairs.last();
        lemma_ext_observed::<D, TS>(s1, x);
        lemma_ext_observed::<D, TS>(ext_observed::<D, TS>(s1, x), y);
        lemma_replay_concat::<D, TS>(s1, ext_values(seq![x]), ext_values(seq![y]));
        let two = ext_values::<D>(seq![x]) + ext_values::<D>(seq![y]);
        lemma_replay_concat::<D, TS>(s, ext_values(both(before)), two);
        assert(ext_values::<D>(both(before)) + two =~= ext_values::<D>(both(pairs)));
    }
}

proof fn lemma_parts<D, TS: FiatShamirTranscript<D>>(
    s: TS::State,
    parts: Seq<Vec<EF>>,
    need_rot: bool,
    from: int,
    n: int,
)
    ensures
        parts_observed::<D, TS>(s, parts, need_rot, from, n) == replayed::<D, TS>(
            s,
            part_events(parts, need_rot, from, n),
        ),
    decreases n - from,
{
    if n > from {
        lemma_parts::<D, TS>(s, parts, need_rot, from, n - 1);
        let s1 = parts_observed::<D, TS>(s, parts, need_rot, from, n - 1);
        let part = parts[n - 1]@;
        lemma_pairs::<D, TS>(s1, by_rot(part, need_rot));
        assert(both(by_rot(part, need_rot)) =~= with_rotations(part, need_rot));
        lemma_replay_concat::<D, TS>(
            s,
            part_events(parts, need_rot, from, n - 1),
            ext_values(with_rotations(part, need_rot)),
        );
    }
}

/// All column values are observed before anything is made of them: the values of the common parts
/// of all traces, and then those of all other parts, each with its rotated value.
pub proof fn column_values_are_observed<D, TS: FiatShamirTranscript<D>, Node>(
    s: TS::State,
    inputs: BatchInputs<D, Node>,
    n: int,
)
    ensures
        common_observed::<D, TS, Node>(s, inputs, n) == replayed::<D, TS>(
            s,
            common_events(inputs, n),
        ),
        others_observed::<D, TS, Node>(s, inputs, n) == replayed::<D, TS>(
            s,
            other_events(inputs, n),
        ),
    decreases n,
{
    if n > 0 {
        column_values_are_observed::<D, TS, Node>(s, inputs, n - 1);
        let parts = inputs.proof.column_openings@[n - 1]@;
        let rot = inputs.air(n - 1).params.need_rot;
        let a = common_observed::<D, TS, Node>(s, inputs, n - 1);
        lemma_parts::<D, TS>(a, parts, rot, 0, 1);
        let first = ext_values::<D>(with_rotations(parts[0]@, rot));
        assert(part_events::<D>(parts, rot, 0, 0) =~= Seq::empty());
        assert(part_events::<D>(parts, rot, 0, 1) =~= first);
        lemma_replay_concat::<D, TS>(s, common_events(inputs, n - 1), first);
        let b = others_observed::<D, TS, Node>(s, inputs, n - 1);
        let m = parts.len() as int;
        lemma_parts::<D, TS>(b, parts, rot, 1, m);
        lemma_replay_concat::<D, TS>(
            s,
            other_events(inputs, n - 1),
            part_events(parts, rot, 1, m),
        );
    }
}

/// Whether `gkr` is what is returned of the sum over all interactions when it is verified from the
/// state `state`, in `rounds` rounds.
pub open spec fn is_sum_verified<Digest, TS: FiatShamirTranscript<Digest>, S: SubProtocols<TS>>(
    sub: &S,
    gkr_proof: &GkrProof<S::Layers>,
    state: TS::State,
    rounds: usize,
    gkr: (TS, Result<(EF, EF, Vec<EF>), GkrVerificationError<S::GkrRejection>>),
) -> bool {
    exists|before: TS|
        before.state() == state && #[trigger] call_ensures(
            S::verify_gkr,
            (sub, gkr_proof, before, rounds),
            gkr,
        )
}

/// Whether `v` is what is returned of how the point `xi` of the hypercube agrees with the point `z`
/// of the univariate domain.
pub open spec fn is_eq_sharp<TS, S: SubProtocols<TS>>(
    sub: &S,
    omega_skip_pows: &Vec<BabyBear>,
    xi: Seq<EF>,
    z: EF,
    v: EF,
) -> bool {
    exists|x: Vec<EF>|
        x@ == xi && #[trigger] call_ensures(S::eval_eq_sharp_uni, (sub, omega_skip_pows, &x, z), v)
}

/// Whether the verification accepts by way of the claims `p` and `q` at a point that starts with
/// `xi`, from the state `st` that the interaction argument leaves, with the weights `w` and the
/// node values `nodes`. The work before the challenges was done. Without interactions the claimed
/// denominator is one and there is nothing to sum; with interactions their sum was verified. The
/// sumcheck does not stop. And the claim that it leaves is the value at its batching challenge of
/// the polynomial whose coefficients are the numerators and denominators of all traces in turn
/// and, behind them, the constraints of all traces, made of the column values.
pub open spec fn accepts_by<Digest, TS: FiatShamirTranscript<Digest>, S: SubProtocols<TS>>(
    sub: &S,
    inputs: BatchInputs<Digest, S::Node>,
    gkr_proof: &GkrProof<S::Layers>,
    omega_skip_pows: &Vec<BabyBear>,
    s: TS::State,
    out: (TS, Result<Vec<EF>, BatchConstraintError<S::GkrRejection>>),
    n_logup: usize,
    st: TS::State,
    p: EF,
    q: EF,
    xi: Seq<EF>,
    w: Weights,
    nodes: Seq<Seq<EF>>,
) -> bool {
    let l_skip = inputs.mvk.params.l_skip;
    let bits = inputs.mvk.params.logup.pow_bits as nat;
    let n = inputs.num_traces();
    let n_max = inputs.n_max();
    let n_global = if n_max >= n_logup {
        n_max
    } else {
        n_logup as nat
    };
    let total_rows = inputs.interaction_rows(n);
    let first = work::<Digest>(bits, gkr_proof.logup_pow_witness);
    let alpha = drawn::<Digest, TS>(s, first);
    let start = replayed::<Digest, TS>(s, first + draws(4) + draws(4));
    let c = sumcheck::<Digest, TS>(
        st,
        inputs.proof,
        l_skip as nat,
        n_max,
        xi,
        l_skip as nat + n_global,
        p,
        q,
        alpha,
    );
    &&& bits > 0 ==> work_done::<Digest, TS>(s, bits, gkr_proof.logup_pow_witness)
    &&& call_ensures(S::calculate_n_logup, (sub, l_skip, total_rows as u64), n_logup)
    &&& total_rows == 0 ==> {
        &&& gkr_proof.q0_claim == e_one()
        &&& st == start
        &&& p == e_zero()
        &&& q == alpha
        &&& xi == Seq::<EF>::empty()
    }
    &&& total_rows > 0 ==> exists|
        gkr: (TS, Result<(EF, EF, Vec<EF>), GkrVerificationError<S::GkrRejection>>),
    |
        {
            &&& #[trigger] is_sum_verified::<Digest, TS, S>(
                sub,
                gkr_proof,
                start,
                (l_skip + n_logup) as usize,
                gkr,
            )
            &&& gkr.0.state() == st
            &&& gkr.1 matches Ok(r) && r.0 == p && r.1 == q && r.2@ == xi
        }
    &&& c.err is None
    &&& w.lambda == c.lambda
    &&& w.beta == drawn::<Digest, TS>(s, first + draws(4))
    &&& w.xi == c.xi
    &&& w.rs == c.rs
    &&& w.n_logup == n_logup
    &&& call_ensures(S::eval_eq_uni, (sub, l_skip, c.xi[0], c.rs[0]), w.eq_uni)
    &&& is_eq_sharp::<TS, S>(
        sub,
        omega_skip_pows,
        c.xi.take(l_skip as int),
        c.rs[0],
        w.eq_sharp_uni,
    )
    &&& nodes.len() == n
    &&& forall|t: int|
        0 <= t < n ==> may_be_nodes::<Digest, TS, S>(sub, inputs, c.rs, t, #[trigger] nodes[t])
    &&& out.0.state() == replayed::<Digest, TS>(
        c.state,
        common_events(inputs, n) + other_events(inputs, n),
    )
    &&& out.1 matches Ok(rs) && rs@ == c.rs
    &&& c.cur_sum == ext_poly_eval(
        claim_coefficients(
            Seq::new(n as nat, |t: int| trace_claims(inputs, w, nodes[t], t)),
        ),
        c.mu,
    )
}

/// What the acceptance of the batched constraints means: the verification accepts only by way of
/// claims, weights and node values for which all its checks hold.
pub proof fn accepted_constraints_hold<
    Digest,
    TS: FiatShamirTranscript<Digest>,
    S: SubProtocols<TS>,
>(
    sub: &S,
    inputs: BatchInputs<Digest, S::Node>,
    gkr_proof: &GkrProof<S::Layers>,
    omega_skip_pows: &Vec<BabyBear>,
    s: TS::State,
    out: (TS, Result<Vec<EF>, BatchConstraintError<S::GkrRejection>>),
) -> (r: (usize, TS::State, EF, EF, Seq<EF>, Weights, Seq<Seq<EF>>))
    requires
        may_return::<Digest, TS, S>(sub, inputs, gkr_proof, omega_skip_pows, s, out),
        out.1 is Ok,
    ensures
        accepts_by::<Digest, TS, S>(
            sub,
            inputs,
            gkr_proof,
            omega_skip_pows,
            s,
            out,
            r.0,
            r.1,
            r.2,
            r.3,
            r.4,
            r.5,
            r.6,
        ),
{
    let l_skip = inputs.mvk.params.l_skip;
    let bits = inputs.mvk.params.logup.pow_bits as nat;
    let n = inputs.num_traces();
    let first = work::<Digest>(bits, gkr_proof.logup_pow_witness);
    lemma_witness_checked::<Digest, TS>(s, bits, gkr_proof.logup_pow_witness);
    let s1 = witness_checked::<Digest, TS>(s, bits, gkr_proof.logup_pow_witness);
    let alpha = ext_challenge::<Digest, TS>(s1);
    lemma_ext_sampled::<Digest, TS>(s1);
    lemma_replay_concat::<Digest, TS>(s, first, draws(4));
    let s2 = ext_sampled::<Digest, TS>(s1);
    let beta = ext_challenge::<Digest, TS>(s2);
    lemma_ext_sampled::<Digest, TS>(s2);
    lemma_replay_concat::<Digest, TS>(s, first + draws(4), draws(4));
    let s3 = ext_sampled::<Digest, TS>(s2);
    let total_rows = inputs.interaction_rows(n);
    let n_logup = choose|n_logup: usize| #[trigger]
        call_ensures(S::calculate_n_logup, (sub, l_skip, total_rows as u64), n_logup)
            && may_follow::<Digest, TS, S>(
            sub,
            inputs,
            gkr_proof,
            omega_skip_pows,
            alpha,
            beta,
            s3,
            n_logup,
            out,
        );
    let (st, p, q, xi) = lemma_interactions::<Digest, TS, S>(
        sub,
        inputs,
        gkr_proof,
        omega_skip_pows,
        alpha,
        beta,
        s3,
        n_logup,
        out,
    );
    let n_max = inputs.n_max();
    let n_global = if n_max >= n_logup {
        n_max
    } else {
        n_logup as nat
    };
    let c = sumcheck::<Digest, TS>(
        st,
        inputs.proof,
        l_skip as nat,
        n_max,
        xi,
        l_skip as nat + n_global,
        p,
        q,
        alpha,
    );
    assert(may_end_with::<Digest, TS, S>(
        sub,
        inputs,
        omega_skip_pows,
        beta,
        n_logup as nat,
        c,
        out,
    ));
    let (w, nodes) = choose|w: Weights, nodes: Seq<Seq<EF>>|
        {
            &&& w.lambda == c.lambda
            &&& w.beta == beta
            &&& w.xi == c.xi
            &&& w.rs == c.rs
            &&& w.n_logup == n_logup
            &&& #[trigger] ends_with::<Digest, TS, S>(
                sub,
                inputs,
                omega_skip_pows,
                w,
                nodes,
                c,
                out,
            )
        };
    if total_rows > 0 {
        let rounds = (l_skip + n_logup) as usize;
        let gkr = choose|
            gkr: (TS, Result<(EF, EF, Vec<EF>), GkrVerificationError<S::GkrRejection>>),
        |
            {
                &&& #[trigger] may_be_gkr::<Digest, TS, S>(sub, gkr_proof, s3, rounds, gkr)
                &&& gkr.0.state() == st
                &&& gkr.1 matches Ok(r) && r.0 == p && r.1 == q && r.2@ == xi
            };
        assert(is_sum_verified::<Digest, TS, S>(sub, gkr_proof, s3, rounds, gkr));
    }
    assert(is_eq_sharp::<TS, S>(
        sub,
        omega_skip_pows,
        c.xi.take(l_skip as int),
        c.rs[0],
        w.eq_sharp_uni,
    ));
    let common = common_observed::<Digest, TS, S::Node>(c.state, inputs, n);
    column_values_are_observed::<Digest, TS, S::Node>(c.state, inputs, n);
    column_values_are_observed::<Digest, TS, S::Node>(common, inputs, n);
    lemma_replay_concat::<Digest, TS>(c.state, common_events(inputs, n), other_events(inputs, n));
    claims_are_coefficients(
        c.mu,
        Seq::new(n as nat, |t: int| trace_claims(inputs, w, nodes[t], t)),
    );
    (n_logup, st, p, q, xi, w, nodes)
}

/// What an acceptance says of the interaction argument.
proof fn lemma_interactions<Digest, TS: FiatShamirTranscript<Digest>, S: SubProtocols<TS>>(
    sub: &S,
    inputs: BatchInputs<Digest, S::Node>,
    gkr_proof: &GkrProof<S::Layers>,
    omega_skip_pows: &Vec<BabyBear>,
    alpha: EF,
    beta: EF,
    start: TS::State,
    n_logup: usize,
    out: (TS, Result<Vec<EF>, BatchConstraintError<S::GkrRejection>>),
) -> (r: (TS::State, EF, EF, Seq<EF>))
    requires
        may_follow::<Digest, TS, S>(
            sub,
            inputs,
            gkr_proof,
            omega_skip_pows,
            alpha,
            beta,
            start,
            n_logup,
            out,
        ),
        out.1 is Ok,
    ensures
        inputs.interaction_rows(inputs.num_traces()) == 0 ==> {
            &&& gkr_proof.q0_claim == e_one()
            &&& r.0 == start
            &&& r.1 == e_zero()
            &&& r.2 == alpha
            &&& r.3 == Seq::<EF>::empty()
        },
        inputs.interaction_rows(inputs.num_traces()) > 0 ==> exists|
            gkr: (TS, Result<(EF, EF, Vec<EF>), GkrVerificationError<S::GkrRejection>>),
        |
            {
                &&& #[trigger] may_be_gkr::<Digest, TS, S>(
                    sub,
                    gkr_proof,
                    start,
                    (inputs.mvk.params.l_skip + n_logup) as usize,
                    gkr,
                )
                &&& gkr.0.state() == r.0
                &&& gkr.1 matches Ok(x) && x.0 == r.1 && x.1 == r.2 && x.2@ == r.3
            },
        may_go_on_with::<Digest, TS, S>(
            sub,
            inputs,
            omega_skip_pows,
            alpha,
            beta,
            n_logup as nat,
            r.0,
            r.1,
            r.2,
            r.3,
            out,
        ),
{
    let rounds = (inputs.mvk.params.l_skip + n_logup) as usize;
    if inputs.interaction_rows(inputs.num_traces()) > 0 {
        let gkr = choose|
            gkr: (TS, Result<(EF, EF, Vec<EF>), GkrVerificationError<S::GkrRejection>>),
        |
            {
                &&& #[trigger] may_be_gkr::<Digest, TS, S>(sub, gkr_proof, start, rounds, gkr)
                &&& match gkr.1 {
                    Ok((p, q, xi)) => may_go_on_with::<Digest, TS, S>(
                        sub,
                        inputs,
                        omega_skip_pows,
                        alpha,
                        beta,
                        n_logup as nat,
                        gkr.0.state(),
                        p,
                        q,
                        xi@,
                        out,
                    ),
                    Err(e) => out.0.state() == gkr.0.state() && out.1 == Err::<
                        Vec<EF>,
                        BatchConstraintError<S::GkrRejection>,
                    >(BatchConstraintError::GkrVerificationFailed(e)),
                }
            };
        let x = gkr.1->Ok_0;
        (gkr.0.state(), x.0, x.1, x.2@)
    } else {
        (start, e_zero(), alpha, Seq::empty())
    }
}

} // verus!
