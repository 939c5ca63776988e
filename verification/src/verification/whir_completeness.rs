//! A WHIR proof that follows the protocol is accepted.

use vstd::arithmetic::power2::*;
use vstd::prelude::*;

use crate::algebra::{
    lemma_e_mul_associates, lemma_e_mul_commutes, lemma_e_mul_one, lemma_e_wf, lemma_f_pow_wf,
    lemma_generator_power_nonzero,
};
use crate::bits::lemma_pow2_divides;
use crate::field::{bb, e_add, e_from, e_mul, e_one, e_pow, f_generator, f_pow, BabyBear, EF};
use crate::hasher::MerkleHasher;
use crate::multilinear::{
    all_wf, cube_sum, lemma_cube_sum_same, mobius_sum_is_mle_of_coefficients, mobius_terms,
};
use crate::params::SystemParams;
use crate::poly::{eq_mle, ext_poly_eval, mle_eval, repeated_squares};
use crate::prime::is_unit;
use crate::proofs::WhirProof;
use crate::transcript::{
    bits_challenge, ext_challenge, ext_sampled, witness_checked, witness_holds,
    FiatShamirTranscript,
};
use crate::verification::final_check::{
    add_point_weights, final_claim_is_weighted_sum, lemma_add_points, lemma_point_term,
    lemma_weights_add, point_weight, weight_at,
};
use crate::verification::fold::coset_point;
use crate::verification::line_sums::{
    first_is, first_is_line, folding_keeps_claim, front, in_first, is_line, sum_at, weighted_values,
};
use crate::verification::polynomial_fold::{
    bind_all, bind_first, k_fold_binds_first_variables, lemma_bind_all_step,
};
use crate::verification::weight_lines::{lemma_line_same, lemma_weight_line};
use crate::verification::whir::{
    add_points, add_weighted, batch_ext, flat, folded_observed, folding, lemma_folding_len,
    point_term, query_values, querying, whir_outcome, whir_round, whir_rounds, WhirInputs, WhirRun,
};

verus! {

/// The function `weight` with its first variables set to `a`.
pub open spec fn bound(weight: spec_fn(Seq<EF>) -> EF, a: Seq<EF>) -> spec_fn(Seq<EF>) -> EF {
    |b: Seq<EF>| weight(a + b)
}

/// Whether the two values of folding step `i` are the weighted sums of the polynomial with the
/// first of its `n` variables set to one and to two.
pub open spec fn honest_fold<D>(
    proof: &WhirProof<D>,
    i: int,
    c: Seq<EF>,
    weight: spec_fn(Seq<EF>) -> EF,
    n: nat,
) -> bool {
    let evals = proof.whir_sumcheck_polys@[i];
    &&& evals[0] == sum_at(c, weight, n, e_one())
    &&& evals[1] == sum_at(c, weight, n, e_add(e_one(), e_one()))
}

/// Whether the folding steps from `from` on, which get the challenges `alphas`, are those of a
/// polynomial in `n` variables and its weight.
pub open spec fn honest_folds<D>(
    proof: &WhirProof<D>,
    from: int,
    c: Seq<EF>,
    weight: spec_fn(Seq<EF>) -> EF,
    n: nat,
    alphas: Seq<EF>,
) -> bool {
    forall|j: int|
        0 <= j < alphas.len() ==> #[trigger] honest_fold(
            proof,
            from + j,
            bind_all(c, alphas.take(j)),
            bound(weight, alphas.take(j)),
            (n - j) as nat,
        )
}

/// Setting variables one by one halves the table each time.
proof fn lemma_bind_all_shape(c: Seq<EF>, alphas: Seq<EF>, n: nat)
    requires
        alphas.len() <= n,
        c.len() == pow2(n),
        all_wf(c),
    ensures
        bind_all(c, alphas).len() == pow2((n - alphas.len()) as nat),
        all_wf(bind_all(c, alphas)),
    decreases alphas.len(),
{
    if alphas.len() > 0 {
        let c1 = bind_first(c, alphas[0]);
        lemma_pow2_unfold(n);
        assert forall|i: int| 0 <= i < c1.len() implies (#[trigger] c1[i]).wf() by {
            lemma_e_wf(c[2 * i], e_mul(c[2 * i + 1], alphas[0]), bb(0));
        }
        lemma_bind_all_shape(c1, alphas.skip(1), (n - 1) as nat);
    }
}

/// Setting some variables, and then some more.
proof fn lemma_bind_all_concat(c: Seq<EF>, a: Seq<EF>, b: Seq<EF>)
    ensures
        bind_all(bind_all(c, a), b) == bind_all(c, a + b),
    decreases a.len(),
{
    if a.len() == 0 {
        assert(a + b =~= b);
    } else {
        let c1 = bind_first(c, a[0]);
        lemma_bind_all_concat(c1, a.skip(1), b);
        assert((a + b).skip(1) =~= a.skip(1) + b);
    }
}

/// Folding steps keep the claim.
proof fn lemma_folding_claim<D, TS: FiatShamirTranscript<D>>(
    s: TS::State,
    claim: EF,
    proof: &WhirProof<D>,
    pow_bits: nat,
    from: int,
    steps: nat,
    c: Seq<EF>,
    weight: spec_fn(Seq<EF>) -> EF,
    n: nat,
)
    requires
        steps <= n,
        c.len() == pow2(n),
        all_wf(c),
        claim == cube_sum(n, weighted_values(c, weight)),
        ({
            let f = folding::<D, TS>(s, claim, proof, pow_bits, from, steps);
            &&& f.ok
            &&& all_wf(f.alphas)
            &&& honest_folds(proof, from, c, weight, n, f.alphas)
            &&& forall|j: int|
                0 <= j < steps ==> first_is_line(
                    #[trigger] bound(weight, f.alphas.take(j)),
                    (n - j) as nat,
                )
        }),
    ensures
        ({
            let f = folding::<D, TS>(s, claim, proof, pow_bits, from, steps);
            &&& f.alphas.len() == steps
            &&& f.claim == cube_sum(
                (n - steps) as nat,
                weighted_values(bind_all(c, f.alphas), bound(weight, f.alphas)),
            )
        }),
    decreases steps,
{
    let f = folding::<D, TS>(s, claim, proof, pow_bits, from, steps);
    if steps == 0 {
        let (g, h) = (
            weighted_values(bind_all(c, f.alphas), bound(weight, f.alphas)),
            weighted_values(c, weight),
        );
        assert forall|b: Seq<EF>| b.len() == n implies #[trigger] h(b) == g(b) by {
            assert(f.alphas + b =~= b);
        }
        lemma_cube_sum_same(n, h, g);
    } else {
        let last = steps - 1;
        let prev = folding::<D, TS>(s, claim, proof, pow_bits, from, last as nat);
        assert(prev.ok);
        assert(f.alphas.drop_last() =~= prev.alphas);
        lemma_folding_len::<D, TS>(s, claim, proof, pow_bits, from, last as nat);
        assert forall|i: int| 0 <= i < prev.alphas.len() implies (
        #[trigger] prev.alphas[i]).wf() by {
            assert(prev.alphas[i] == f.alphas[i]);
        }
        assert forall|j: int| 0 <= j < prev.alphas.len() implies #[trigger] honest_fold(
            proof,
            from + j,
            bind_all(c, prev.alphas.take(j)),
            bound(weight, prev.alphas.take(j)),
            (n - j) as nat,
        ) by {
            assert(prev.alphas.take(j) =~= f.alphas.take(j));
            assert(honest_fold(
                proof,
                from + j,
                bind_all(c, f.alphas.take(j)),
                bound(weight, f.alphas.take(j)),
                (n - j) as nat,
            ));
        }
        assert forall|j: int| 0 <= j < last implies first_is_line(
            #[trigger] bound(weight, prev.alphas.take(j)),
            (n - j) as nat,
        ) by {
            assert(prev.alphas.take(j) =~= f.alphas.take(j));
            assert(first_is_line(bound(weight, f.alphas.take(j)), (n - j) as nat));
        }
        lemma_folding_claim::<D, TS>(
            s,
            claim,
            proof,
            pow_bits,
            from,
            last as nat,
            c,
            weight,
            n,
        );
        let alpha = f.alphas.last();
        assert(prev.alphas =~= f.alphas.take(last));
        assert(f.alphas.take(last + 1) =~= f.alphas);
        let (d, w) = (bind_all(c, prev.alphas), bound(weight, prev.alphas));
        let m = (n - last) as nat;
        lemma_bind_all_shape(c, prev.alphas, n);
        assert(honest_fold(proof, from + last, d, w, m));
        assert(first_is_line(bound(weight, f.alphas.take(last)), m));
        folding_keeps_claim(d, w, m, prev.claim, alpha);
        lemma_bind_all_step(c, f.alphas, last);
        let (g, h) = (
            weighted_values(bind_first(d, alpha), first_is(w, alpha)),
            weighted_values(bind_all(c, f.alphas), bound(weight, f.alphas)),
        );
        assert forall|b: Seq<EF>| b.len() == m - 1 implies #[trigger] g(b) == h(b) by {
            assert(prev.alphas + front(alpha, b) =~= f.alphas + b);
        }
        lemma_cube_sum_same((m - 1) as nat, g, h);
    }
}

/// Whether the values that a query opens are those of the polynomial on the coset of `x`.
pub open spec fn honest_values(c: Seq<EF>, values: Seq<EF>, k: nat, x: BabyBear) -> bool {
    &&& values.len() == pow2(k)
    &&& forall|j: int|
        0 <= j < values.len() ==> #[trigger] values[j] == ext_poly_eval(
            c,
            e_from(coset_point(k, x, j)),
        )
}

/// The point of the domain that query `q` of a round samples.
pub open spec fn query_root<H: MerkleHasher<F = BabyBear>, TS: FiatShamirTranscript<H::Digest>>(
    s: TS::State,
    inputs: WhirInputs<H>,
    mu: EF,
    alphas: Seq<EF>,
    log_domain: nat,
    round: int,
    q: nat,
) -> BabyBear where H::Digest: Eq {
    let before = querying::<H, TS>(
        s,
        inputs.hasher,
        inputs.proof,
        inputs.commitments@,
        inputs.openings@,
        mu,
        alphas,
        log_domain,
        round,
        q,
    );
    let index = bits_challenge::<H::Digest, TS>(before.state, (log_domain - alphas.len()) as nat);
    f_pow(f_generator(log_domain), index as nat)
}

/// Whether the first `n` queries of a round open values of the polynomial.
pub open spec fn honest_queries<
    H: MerkleHasher<F = BabyBear>,
    TS: FiatShamirTranscript<H::Digest>,
>(
    s: TS::State,
    inputs: WhirInputs<H>,
    mu: EF,
    alphas: Seq<EF>,
    log_domain: nat,
    round: int,
    n: nat,
    c: Seq<EF>,
) -> bool where H::Digest: Eq {
    forall|q: int|
        0 <= q < n ==> honest_values(
            c,
            #[trigger] query_values(inputs.proof, inputs.openings@, mu, alphas.len(), round, q),
            alphas.len(),
            query_root::<H, TS>(s, inputs, mu, alphas, log_domain, round, q as nat),
        )
}

/// Folding what the queries open gives values of the folded polynomial at the query points.
proof fn lemma_query_values<H: MerkleHasher<F = BabyBear>, TS: FiatShamirTranscript<H::Digest>>(
    s: TS::State,
    inputs: WhirInputs<H>,
    mu: EF,
    alphas: Seq<EF>,
    log_domain: nat,
    round: int,
    n: nat,
    c: Seq<EF>,
) where H::Digest: Eq
    requires
        alphas.len() <= log_domain <= 27,
        c.len() % pow2(alphas.len()) == 0,
        honest_queries::<H, TS>(s, inputs, mu, alphas, log_domain, round, n, c),
        querying::<H, TS>(
            s,
            inputs.hasher,
            inputs.proof,
            inputs.commitments@,
            inputs.openings@,
            mu,
            alphas,
            log_domain,
            round,
            n,
        ).ok,
    ensures
        ({
            let f = querying::<H, TS>(
                s,
                inputs.hasher,
                inputs.proof,
                inputs.commitments@,
                inputs.openings@,
                mu,
                alphas,
                log_domain,
                round,
                n,
            );
            &&& f.zs.len() == n
            &&& f.ys.len() == n
            &&& forall|q: int|
                0 <= q < n ==> #[trigger] f.ys[q] == ext_poly_eval(
                    bind_all(c, alphas),
                    e_from(f.zs[q]),
                )
        }),
    decreases n,
{
    if n > 0 {
        let last = n - 1;
        lemma_query_values::<H, TS>(
            s,
            inputs,
            mu,
            alphas,
            log_domain,
            round,
            last as nat,
            c,
        );
        let k = alphas.len();
        let values = query_values(inputs.proof, inputs.openings@, mu, k, round, last);
        let x = query_root::<H, TS>(s, inputs, mu, alphas, log_domain, round, last as nat);
        let before = querying::<H, TS>(
            s,
            inputs.hasher,
            inputs.proof,
            inputs.commitments@,
            inputs.openings@,
            mu,
            alphas,
            log_domain,
            round,
            last as nat,
        );
        assert(before.ok);
        let index = bits_challenge::<H::Digest, TS>(before.state, (log_domain - k) as nat);
        assert(honest_values(c, values, k, x));
        lemma_generator_power_nonzero(log_domain, index as nat);
        lemma_f_pow_wf(f_generator(log_domain), index as nat);
        assert(is_unit(x));
        k_fold_binds_first_variables(c, values, alphas, x);
    }
}

/// The weighted values of a polynomial at the query points are what these points add to the final
/// check.
proof fn lemma_values_are_points(
    claim: EF,
    ys: Seq<EF>,
    gamma: EF,
    zs: Seq<BabyBear>,
    c: Seq<EF>,
)
    requires
        ys.len() == zs.len(),
        forall|q: int|
            0 <= q < ys.len() ==> #[trigger] ys[q] == ext_poly_eval(c, e_from(zs[q])),
    ensures
        add_weighted(claim, ys, gamma) == add_points(claim, gamma, Seq::empty(), zs, c),
    decreases ys.len(),
{
    if ys.len() > 0 {
        lemma_values_are_points(claim, ys.drop_last(), gamma, zs.drop_last(), c);
        let g = e_pow(gamma, (ys.len() + 1) as nat);
        lemma_value_is_point(g, e_from(zs.last()), c);
        lemma_e_mul_commutes(ys.last(), g);
        assert(ys.last() == ext_poly_eval(c, e_from(zs[ys.len() - 1])));
    }
}

/// The value of a polynomial at a point, times its weight, is what the point adds.
proof fn lemma_value_is_point(weight: EF, z: EF, c: Seq<EF>)
    ensures
        point_term(weight, Seq::empty(), z, c) == e_mul(weight, ext_poly_eval(c, z)),
{
    let none = Seq::<EF>::empty();
    let squares = repeated_squares(z, 1);
    assert(eq_mle(none, squares.drop_last()) == e_one());
    assert(squares.last() == z);
    lemma_e_mul_one_scaled(weight, ext_poly_eval(c, z));
}

/// `(w 1) v == w v`, also where `w` is not canonical.
proof fn lemma_e_mul_one_scaled(w: EF, v: EF)
    ensures
        e_mul(e_mul(w, e_one()), v) == e_mul(w, v),
{
    lemma_e_mul_associates(w, e_one(), v);
    lemma_e_mul_commutes(e_one(), v);
    lemma_e_mul_associates(w, v, e_one());
    lemma_e_wf(w, v, bb(0));
    lemma_e_mul_one(e_mul(w, v));
}

/// The weight polynomial of the first `n` rounds.
pub open spec fn weight_of<S>(
    run: WhirRun<S>,
    params: &SystemParams,
    u: Seq<EF>,
    n: int,
) -> spec_fn(Seq<EF>) -> EF {
    |x: Seq<EF>|
        weight_at(run, params.whir.k as int, params.whir.rounds@.len() as int, u, n, x)
}

/// Whether the claim after `n` rounds is the weighted sum of the polynomial with the coefficients
/// `c`, its first variables set to the challenges of these rounds.
pub open spec fn claim_holds<S>(
    run: WhirRun<S>,
    params: &SystemParams,
    u: Seq<EF>,
    c: Seq<EF>,
    n: int,
) -> bool {
    run.claim == cube_sum(
        (params.num_vars() - params.whir.k * n) as nat,
        weighted_values(
            bind_all(c, run.alphas),
            bound(weight_of(run, params, u, n), run.alphas),
        ),
    )
}

/// Whether round `i` after the rounds `prev` follows the protocol for the polynomial with the
/// coefficients `c`: its folding steps send the weighted sums of what the rounds before have left
/// of the polynomial, its queries open values of that, and its claim at the random point is the
/// value of what it folds to.
pub open spec fn honest_round<H: MerkleHasher<F = BabyBear>, TS: FiatShamirTranscript<H::Digest>>(
    inputs: WhirInputs<H>,
    mu: EF,
    prev: WhirRun<TS::State>,
    i: int,
    u: Seq<EF>,
    c: Seq<EF>,
) -> bool where H::Digest: Eq {
    let params = inputs.params;
    let proof = inputs.proof;
    let k = params.whir.k as nat;
    let left = bind_all(c, prev.alphas);
    let f = folding::<H::Digest, TS>(
        prev.state,
        prev.claim,
        proof,
        params.whir.folding_pow_bits as nat,
        i * k,
        k,
    );
    let z0 = ext_challenge::<H::Digest, TS>(TS::committed(f.state, proof.codeword_commits@[i]));
    let start = witness_checked::<H::Digest, TS>(
        folded_observed::<H, TS>(inputs, f.state, i),
        params.whir.query_phase_pow_bits as nat,
        proof.query_phase_pow_witnesses@[i],
    );
    &&& honest_folds(
        proof,
        i * k,
        left,
        bound(weight_of(prev, params, u, i), prev.alphas),
        (params.num_vars() - k * i) as nat,
        f.alphas,
    )
    &&& i != params.whir.rounds@.len() - 1 ==> proof.ood_values@[i] == ext_poly_eval(
        bind_all(left, f.alphas),
        z0,
    )
    &&& honest_queries::<H, TS>(
        start,
        inputs,
        mu,
        f.alphas,
        (params.num_vars() + params.log_blowup - i) as nat,
        i,
        params.whir.rounds@[i].num_queries as nat,
        left,
    )
}

/// Whether `n` rounds have left behind as much as they should.
spec fn right_lens<S>(run: WhirRun<S>, params: &SystemParams, n: int) -> bool {
    &&& run.alphas.len() == params.whir.k * n
    &&& run.zs.len() == n
    &&& run.gammas.len() == n
    &&& run.z0s.len() == (if n == params.whir.rounds@.len() {
        n - 1
    } else {
        n
    })
}

/// The weight polynomial of the first rounds does not depend on later ones.
proof fn lemma_weight_prefix<S>(
    prev: WhirRun<S>,
    run: WhirRun<S>,
    k: int,
    num_rounds: int,
    u: Seq<EF>,
    n: int,
    x: Seq<EF>,
)
    requires
        n < num_rounds,
        forall|j: int| 0 <= j < n ==> #[trigger] prev.gammas[j] == run.gammas[j],
        forall|j: int| 0 <= j < n ==> #[trigger] prev.zs[j] == run.zs[j],
        forall|j: int| 0 <= j < n ==> #[trigger] prev.z0s[j] == run.z0s[j],
    ensures
        weight_at(prev, k, num_rounds, u, n, x) == weight_at(run, k, num_rounds, u, n, x),
    decreases n,
{
    if n > 0 {
        lemma_weight_prefix(prev, run, k, num_rounds, u, n - 1, x);
        assert(prev.gammas[n - 1] == run.gammas[n - 1]);
        assert(prev.zs[n - 1] == run.zs[n - 1]);
        assert(prev.z0s[n - 1] == run.z0s[n - 1]);
    }
}

/// What the rounds before leave of the weight polynomial is a line in each variable that is
/// folded.
proof fn lemma_bound_is_line<S>(
    run: WhirRun<S>,
    params: &SystemParams,
    u: Seq<EF>,
    i: int,
    a: Seq<EF>,
)
    requires
        params.wf(),
        0 <= i < params.whir.rounds@.len(),
        right_lens(run, params, i),
        u.len() == params.num_vars(),
        all_wf(u),
        all_wf(run.z0s),
        params.whir.k * i + a.len() < params.num_vars(),
    ensures
        first_is_line(
            bound(bound(weight_of(run, params, u, i), run.alphas), a),
            (params.num_vars() - params.whir.k * i - a.len()) as nat,
        ),
{
    let k = params.whir.k as int;
    let num_rounds = params.whir.rounds@.len() as int;
    let weight = bound(bound(weight_of(run, params, u, i), run.alphas), a);
    let n = (params.num_vars() - k * i - a.len()) as nat;
    assert forall|b: Seq<EF>| b.len() == n - 1 implies is_line(#[trigger] in_first(weight, b)) by {
        let set = run.alphas + a;
        lemma_weight_line(run, k, num_rounds, u, i, set, b);
        let line = |x: EF| weight_at(run, k, num_rounds, u, i, set + front(x, b));
        let g = in_first(weight, b);
        assert forall|x: EF| x.wf() implies #[trigger] g(x) == line(x) by {
            assert(run.alphas + (a + front(x, b)) =~= set + front(x, b));
        }
        lemma_line_same(line, g);
    }
}

/// A round that follows the protocol keeps the claim.
proof fn lemma_round_keeps_claim<
    H: MerkleHasher<F = BabyBear>,
    TS: FiatShamirTranscript<H::Digest>,
>(
    inputs: WhirInputs<H>,
    mu: EF,
    prev: WhirRun<TS::State>,
    i: int,
    u: Seq<EF>,
    c: Seq<EF>,
) where H::Digest: Eq
    requires
        inputs.params.wf(),
        0 <= i < inputs.params.whir.rounds@.len(),
        u.len() == inputs.params.num_vars(),
        c.len() == pow2(u.len()),
        all_wf(u),
        all_wf(c),
        right_lens(prev, inputs.params, i),
        claim_holds(prev, inputs.params, u, c, i),
        honest_round::<H, TS>(inputs, mu, prev, i, u, c),
        ({
            let run = whir_round::<H, TS>(inputs, mu, prev, i);
            &&& run.err is None
            &&& all_wf(run.alphas)
            &&& all_wf(run.z0s)
        }),
    ensures
        ({
            let run = whir_round::<H, TS>(inputs, mu, prev, i);
            &&& right_lens(run, inputs.params, i + 1)
            &&& claim_holds(run, inputs.params, u, c, i + 1)
        }),
{
    let params = inputs.params;
    let proof = inputs.proof;
    let k = params.whir.k as nat;
    let num_rounds = params.whir.rounds@.len() as int;
    let is_last = i == num_rounds - 1;
    let run = whir_round::<H, TS>(inputs, mu, prev, i);
    let m = params.num_vars();
    assert(k * i + k == k * (i + 1) && k * (i + 1) <= k * num_rounds && i * k == k * i && k * i
        >= i) by (nonlinear_arith)
        requires
            0 <= i < num_rounds,
            k >= 1,
    ;
    let n = (m - k * i) as nat;
    let r = (n - k) as nat;
    let left = bind_all(c, prev.alphas);
    let weight = bound(weight_of(prev, params, u, i), prev.alphas);
    let f = folding::<H::Digest, TS>(
        prev.state,
        prev.claim,
        proof,
        params.whir.folding_pow_bits as nat,
        i * k,
        k,
    );
    lemma_folding_len::<H::Digest, TS>(
        prev.state,
        prev.claim,
        proof,
        params.whir.folding_pow_bits as nat,
        i * k,
        k,
    );
    assert(f.ok);
    assert(run.alphas =~= prev.alphas + f.alphas);
    assert forall|j: int| 0 <= j < f.alphas.len() implies (#[trigger] f.alphas[j]).wf() by {
        assert(run.alphas[prev.alphas.len() + j] == f.alphas[j]);
    }
    assert forall|j: int| 0 <= j < prev.z0s.len() implies (#[trigger] prev.z0s[j]).wf() by {
        assert(run.z0s[j] == prev.z0s[j]);
    }
    // The folding steps.
    lemma_bind_all_shape(c, prev.alphas, m as nat);
    assert forall|j: int| 0 <= j < k implies first_is_line(
        #[trigger] bound(weight, f.alphas.take(j)),
        (n - j) as nat,
    ) by {
        lemma_bound_is_line(prev, params, u, i, f.alphas.take(j));
    }
    lemma_folding_claim::<H::Digest, TS>(
        prev.state,
        prev.claim,
        proof,
        params.whir.folding_pow_bits as nat,
        i * k,
        k,
        left,
        weight,
        n,
    );
    let next = bind_all(left, f.alphas);
    lemma_bind_all_concat(c, prev.alphas, f.alphas);
    lemma_bind_all_shape(left, f.alphas, n);
    // The queries.
    let log_domain = (m + params.log_blowup - i) as nat;
    let start = witness_checked::<H::Digest, TS>(
        folded_observed::<H, TS>(inputs, f.state, i),
        params.whir.query_phase_pow_bits as nat,
        proof.query_phase_pow_witnesses@[i],
    );
    let num_queries = params.whir.rounds@[i].num_queries as nat;
    let q = querying::<H, TS>(
        start,
        inputs.hasher,
        proof,
        inputs.commitments@,
        inputs.openings@,
        mu,
        f.alphas,
        log_domain,
        i,
        num_queries,
    );
    assert(q.ok);
    lemma_pow2_divides(k, n);
    lemma_query_values::<H, TS>(
        start,
        inputs,
        mu,
        f.alphas,
        log_domain,
        i,
        num_queries,
        left,
    );
    let gamma = ext_challenge::<H::Digest, TS>(q.state);
    // The weights.
    let folded = bound(weight, f.alphas);
    let none = Seq::<EF>::empty();
    let z0 = ext_challenge::<H::Digest, TS>(TS::committed(f.state, proof.codeword_commits@[i]));
    let y0 = proof.ood_values@[i];
    let one = |b: Seq<EF>| point_weight(gamma, none + b, z0);
    let (first, first_weight) = if is_last {
        (f.claim, folded)
    } else {
        (
            e_add(f.claim, e_mul(y0, gamma)),
            |b: Seq<EF>| e_add(folded(b), point_weight(gamma, none + b, z0)),
        )
    };
    if !is_last {
        assert(run.z0s[i] == z0);
        lemma_point_term(gamma, none, z0, next, r);
        lemma_value_is_point(gamma, z0, next);
        lemma_e_mul_commutes(y0, gamma);
        lemma_weights_add(next, r, folded, one, first_weight);
    }
    assert(first == cube_sum(r, weighted_values(next, first_weight)));
    lemma_values_are_points(first, q.ys, gamma, q.zs, next);
    lemma_add_points(first, first_weight, gamma, none, q.zs, next, r);
    let (g, h) = (
        weighted_values(
            next,
            |b: Seq<EF>| add_point_weights(first_weight(b), gamma, none + b, q.zs),
        ),
        weighted_values(
            bind_all(c, run.alphas),
            bound(weight_of(run, params, u, i + 1), run.alphas),
        ),
    );
    assert forall|b: Seq<EF>| b.len() == r implies #[trigger] g(b) == h(b) by {
        let x = run.alphas + b;
        assert(prev.alphas + (f.alphas + b) =~= x);
        lemma_weight_prefix(prev, run, k as int, num_rounds, u, i, x);
        assert(x.skip(k * (i + 1)) =~= b);
        assert(none + b =~= b);
    }
    lemma_cube_sum_same(r, g, h);
}

/// Rounds that follow the protocol keep the claim.
proof fn lemma_rounds_keep_claim<
    H: MerkleHasher<F = BabyBear>,
    TS: FiatShamirTranscript<H::Digest>,
>(
    inputs: WhirInputs<H>,
    mu: EF,
    s: TS::State,
    u: Seq<EF>,
    c: Seq<EF>,
    n: nat,
) where H::Digest: Eq
    requires
        inputs.params.wf(),
        n <= inputs.params.whir.rounds@.len(),
        u.len() == inputs.params.num_vars(),
        c.len() == pow2(u.len()),
        all_wf(u),
        all_wf(c),
        mle_eval(c, u) == batch_ext(mu, flat(inputs.openings@)),
        honest_rounds::<H, TS>(inputs, mu, s, u, c, n),
        ({
            let run = whir_rounds::<H, TS>(inputs, mu, s, n);
            &&& run.err is None
            &&& all_wf(run.alphas)
            &&& all_wf(run.z0s)
        }),
    ensures
        ({
            let run = whir_rounds::<H, TS>(inputs, mu, s, n);
            &&& right_lens(run, inputs.params, n as int)
            &&& claim_holds(run, inputs.params, u, c, n as int)
        }),
    decreases n,
{
    let params = inputs.params;
    let run = whir_rounds::<H, TS>(inputs, mu, s, n);
    if n == 0 {
        assert(params.whir.k * 0 == 0);
        mobius_sum_is_mle_of_coefficients(c, u);
        let (g, h) = (
            mobius_terms(c, u),
            weighted_values(
                bind_all(c, run.alphas),
                bound(weight_of(run, params, u, 0), run.alphas),
            ),
        );
        assert forall|b: Seq<EF>| b.len() == u.len() implies #[trigger] g(b) == h(b) by {
            assert(run.alphas + b =~= b);
        }
        lemma_cube_sum_same(u.len(), g, h);
    } else {
        let i = n - 1;
        let prev = whir_rounds::<H, TS>(inputs, mu, s, i as nat);
        assert(prev.err is None);
        assert(run == whir_round::<H, TS>(inputs, mu, prev, i));
        assert forall|j: int| 0 <= j < prev.alphas.len() implies (
        #[trigger] prev.alphas[j]).wf() by {
            assert(run.alphas[j] == prev.alphas[j]);
        }
        assert forall|j: int| 0 <= j < prev.z0s.len() implies (#[trigger] prev.z0s[j]).wf() by {
            assert(run.z0s[j] == prev.z0s[j]);
        }
        lemma_rounds_keep_claim::<H, TS>(inputs, mu, s, u, c, i as nat);
        assert(honest_round::<H, TS>(inputs, mu, prev, i, u, c));
        lemma_round_keeps_claim::<H, TS>(inputs, mu, prev, i, u, c);
    }
}

/// Whether the first `n` rounds follow the protocol for the polynomial with the coefficients `c`.
pub open spec fn honest_rounds<H: MerkleHasher<F = BabyBear>, TS: FiatShamirTranscript<H::Digest>>(
    inputs: WhirInputs<H>,
    mu: EF,
    s: TS::State,
    u: Seq<EF>,
    c: Seq<EF>,
    n: nat,
) -> bool where H::Digest: Eq {
    forall|i: int|
        0 <= i < n ==> honest_round::<H, TS>(
            inputs,
            mu,
            #[trigger] whir_rounds::<H, TS>(inputs, mu, s, i as nat),
            i,
            u,
            c,
        )
}

/// A proof that follows the protocol is accepted. Let the multilinear polynomial with the
/// coefficients `c` be what the committed columns are batched to: its table of coefficients has
/// the batched openings as value at `u`. Where the proofs of work hold, the openings lie under
/// their commitments, each round follows the protocol for that polynomial, and the final
/// polynomial is what the rounds fold it to, the verification succeeds.
pub proof fn honest_proof_is_accepted<
    H: MerkleHasher<F = BabyBear>,
    TS: FiatShamirTranscript<H::Digest>,
>(inputs: WhirInputs<H>, s: TS::State, u: Seq<EF>, c: Seq<EF>) where H::Digest: Eq
    requires
        inputs.params.wf(),
        u.len() == inputs.params.num_vars(),
        c.len() == pow2(u.len()),
        all_wf(u),
        all_wf(c),
        ({
            let params = inputs.params;
            let proof = inputs.proof;
            let bits = params.whir.mu_pow_bits as nat;
            let s1 = witness_checked::<H::Digest, TS>(s, bits, proof.mu_pow_witness);
            let mu = ext_challenge::<H::Digest, TS>(s1);
            let s2 = ext_sampled::<H::Digest, TS>(s1);
            let n = params.whir.rounds@.len();
            let run = whir_rounds::<H, TS>(inputs, mu, s2, n);
            &&& witness_holds::<H::Digest, TS>(s, bits, proof.mu_pow_witness)
            &&& run.err is None
            &&& all_wf(run.alphas)
            &&& all_wf(run.z0s)
            &&& mle_eval(c, u) == batch_ext(mu, flat(inputs.openings@))
            &&& honest_rounds::<H, TS>(inputs, mu, s2, u, c, n)
            &&& proof.final_poly@ == bind_all(c, run.alphas)
        }),
    ensures
        whir_outcome::<H, TS>(inputs, s, u).1 is None,
{
    let params = inputs.params;
    let proof = inputs.proof;
    let s1 = witness_checked::<H::Digest, TS>(
        s,
        params.whir.mu_pow_bits as nat,
        proof.mu_pow_witness,
    );
    let mu = ext_challenge::<H::Digest, TS>(s1);
    let s2 = ext_sampled::<H::Digest, TS>(s1);
    let k = params.whir.k as int;
    let n = params.whir.rounds@.len();
    let run = whir_rounds::<H, TS>(inputs, mu, s2, n);
    lemma_rounds_keep_claim::<H, TS>(inputs, mu, s2, u, c, n);
    lemma_bind_all_shape(c, run.alphas, u.len());
    final_claim_is_weighted_sum(run, k, n as int, u, proof.final_poly@, n as int);
    let (g, h) = (
        weighted_values(
            proof.final_poly@,
            |b: Seq<EF>| weight_at(run, k, n as int, u, n as int, run.alphas + b),
        ),
        weighted_values(
            bind_all(c, run.alphas),
            bound(weight_of(run, params, u, n as int), run.alphas),
        ),
    );
    let r = (u.len() - k * n) as nat;
    assert forall|b: Seq<EF>| b.len() == r implies #[trigger] g(b) == h(b) by {
    }
    lemma_cube_sum_same(r, g, h);
}

} // verus!
