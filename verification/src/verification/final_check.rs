//! What the final check of the WHIR protocol computes.

use vstd::arithmetic::power2::*;
use vstd::prelude::*;

use crate::algebra::{
    lemma_e_mul_associates, lemma_e_mul_commutes, lemma_e_mul_distributes, lemma_e_wf,
};
use crate::field::{bb, e_add, e_from, e_mul, e_pow, BabyBear, EF};
use crate::multilinear::{
    all_wf, coeff_eval, cube_sum, eq_kernel_factors, eq_sum_is_value, eq_terms, lemma_cube_sum_adds,
    lemma_cube_sum_same, lemma_cube_sum_scales, lemma_squares_continue, mobius_kernel_factors,
    mobius_sum_is_mle_of_coefficients, mobius_terms, multilinear_at_squares_is_univariate,
};
use crate::poly::{eq_mle, mobius_eq_mle, repeated_squares, square_times};
use crate::verification::line_sums::weighted_values;
use crate::verification::whir::{add_points, final_claim, point_term, WhirRun};

verus! {

/// The weight at the point `x` of the claim that a polynomial has a given value at the squares of
/// `z`.
pub open spec fn point_weight(weight: EF, x: Seq<EF>, z: EF) -> EF {
    e_mul(weight, eq_mle(x, repeated_squares(z, x.len())))
}

/// The weight `acc` plus those of the query points `zs`, weighted with the powers of `gamma` from
/// the square up.
pub open spec fn add_point_weights(acc: EF, gamma: EF, x: Seq<EF>, zs: Seq<BabyBear>) -> EF
    decreases zs.len(),
{
    if zs.len() == 0 {
        acc
    } else {
        e_add(
            add_point_weights(acc, gamma, x, zs.drop_last()),
            point_weight(e_pow(gamma, (zs.len() + 1) as nat), x, e_from(zs.last())),
        )
    }
}

/// The weight polynomial of the protocol at the point `x`, as far as the opening point `u` and
/// the first `n` rounds go: the Moebius kernel at `u`, and for each point of each round the
/// equality kernel at its squares, in the variables that this round leaves.
pub open spec fn weight_at<S>(
    run: WhirRun<S>,
    k: int,
    num_rounds: int,
    u: Seq<EF>,
    n: int,
    x: Seq<EF>,
) -> EF
    decreases n,
{
    if n <= 0 {
        mobius_eq_mle(u, x)
    } else {
        let i = n - 1;
        let acc = weight_at(run, k, num_rounds, u, n - 1, x);
        let left = x.skip(k * n);
        let first = if i == num_rounds - 1 {
            acc
        } else {
            e_add(acc, point_weight(run.gammas[i], left, run.z0s[i]))
        };
        add_point_weights(first, run.gammas[i], left, run.zs[i])
    }
}

pub proof fn lemma_square_wf(z: EF, k: nat)
    requires
        z.wf(),
    ensures
        square_times(z, k).wf(),
{
    if k > 0 {
        let s = square_times(z, (k - 1) as nat);
        lemma_e_wf(s, s, bb(0));
    }
}

/// `f (w (e q)) == (w e) (f q)`.
proof fn lemma_gather(f: EF, w: EF, e: EF, q: EF)
    ensures
        e_mul(f, e_mul(w, e_mul(e, q))) == e_mul(e_mul(w, e), e_mul(f, q)),
{
    let k = e_mul(w, e);
    lemma_e_mul_associates(w, e, q);
    lemma_e_mul_associates(f, k, q);
    lemma_e_mul_commutes(f, k);
    lemma_e_mul_associates(k, f, q);
}

/// What a point adds to the final check is the sum over the hypercube of the values of the final
/// polynomial, each times the weight of the point.
pub proof fn lemma_point_term(weight: EF, alphas: Seq<EF>, z: EF, final_poly: Seq<EF>, r: nat)
    requires
        final_poly.len() == pow2(r),
        all_wf(final_poly),
        z.wf(),
    ensures
        point_term(weight, alphas, z, final_poly) == cube_sum(
            r,
            weighted_values(final_poly, |b: Seq<EF>| point_weight(weight, alphas + b, z)),
        ),
{
    let a = alphas.len();
    let z1 = square_times(z, a);
    let rest = repeated_squares(z1, r);
    let e = eq_mle(alphas, repeated_squares(z, a));
    let terms = weighted_values(final_poly, |b: Seq<EF>| point_weight(weight, alphas + b, z));
    lemma_square_wf(z, a);
    assert forall|i: int| 0 <= i < rest.len() implies (#[trigger] rest[i]).wf() by {
        lemma_square_wf(z1, i as nat);
    }
    assert forall|b: Seq<EF>| b.len() == r implies #[trigger] terms(b) == e_mul(
        e_mul(weight, e),
        eq_terms(final_poly, rest)(b),
    ) by {
        let s = repeated_squares(z, a + r);
        eq_kernel_factors(alphas, b, s);
        assert(s.take(a as int) =~= repeated_squares(z, a));
        assert forall|i: int| 0 <= i < r implies #[trigger] s.skip(a as int)[i] == rest[i] by {
            lemma_squares_continue(z, a, i as nat);
        }
        assert(s.skip(a as int) =~= rest);
        lemma_gather(coeff_eval(final_poly, b), weight, e, eq_mle(b, rest));
    }
    lemma_cube_sum_scales(r, e_mul(weight, e), eq_terms(final_poly, rest), terms);
    eq_sum_is_value(final_poly, rest);
    multilinear_at_squares_is_univariate(final_poly, z1, r);
    let squares = repeated_squares(z, a + 1);
    assert(squares.drop_last() =~= repeated_squares(z, a));
}

/// Adding weights adds sums.
pub proof fn lemma_weights_add(
    final_poly: Seq<EF>,
    r: nat,
    v: spec_fn(Seq<EF>) -> EF,
    w: spec_fn(Seq<EF>) -> EF,
    both: spec_fn(Seq<EF>) -> EF,
)
    requires
        forall|b: Seq<EF>| b.len() == r ==> #[trigger] both(b) == e_add(v(b), w(b)),
    ensures
        cube_sum(r, weighted_values(final_poly, both)) == e_add(
            cube_sum(r, weighted_values(final_poly, v)),
            cube_sum(r, weighted_values(final_poly, w)),
        ),
{
    assert forall|b: Seq<EF>| b.len() == r implies #[trigger] weighted_values(final_poly, both)(b)
        == e_add(weighted_values(final_poly, v)(b), weighted_values(final_poly, w)(b)) by {
        assert(both(b) == e_add(v(b), w(b)));
        lemma_e_mul_distributes(coeff_eval(final_poly, b), v(b), w(b));
    }
    lemma_cube_sum_adds(
        r,
        weighted_values(final_poly, v),
        weighted_values(final_poly, w),
        weighted_values(final_poly, both),
    );
}

/// What the query points of a round add to the final check.
pub proof fn lemma_add_points(
    acc: EF,
    weight: spec_fn(Seq<EF>) -> EF,
    gamma: EF,
    alphas: Seq<EF>,
    zs: Seq<BabyBear>,
    final_poly: Seq<EF>,
    r: nat,
)
    requires
        final_poly.len() == pow2(r),
        all_wf(final_poly),
        acc == cube_sum(r, weighted_values(final_poly, weight)),
    ensures
        add_points(acc, gamma, alphas, zs, final_poly) == cube_sum(
            r,
            weighted_values(
                final_poly,
                |b: Seq<EF>| add_point_weights(weight(b), gamma, alphas + b, zs),
            ),
        ),
    decreases zs.len(),
{
    let after = |b: Seq<EF>| add_point_weights(weight(b), gamma, alphas + b, zs);
    if zs.len() == 0 {
        assert forall|b: Seq<EF>| b.len() == r implies #[trigger] weighted_values(
            final_poly,
            after,
        )(b) == weighted_values(final_poly, weight)(b) by {
            assert(after(b) == weight(b));
        }
        lemma_cube_sum_same(
            r,
            weighted_values(final_poly, after),
            weighted_values(final_poly, weight),
        );
    } else {
        let init = zs.drop_last();
        let g = e_pow(gamma, (zs.len() + 1) as nat);
        let z = e_from(zs.last());
        lemma_add_points(acc, weight, gamma, alphas, init, final_poly, r);
        lemma_e_wf(z, z, zs.last());
        lemma_point_term(g, alphas, z, final_poly, r);
        let before = |b: Seq<EF>| add_point_weights(weight(b), gamma, alphas + b, init);
        let one = |b: Seq<EF>| point_weight(g, alphas + b, z);
        lemma_weights_add(final_poly, r, before, one, after);
    }
}

/// The final check compares the claim with a sum over a hypercube: the values of the final
/// polynomial, read as coefficients of a multilinear polynomial, each times the weight polynomial
/// of the protocol with its first variables set to the folding challenges.
pub proof fn final_claim_is_weighted_sum<S>(
    run: WhirRun<S>,
    k: int,
    num_rounds: int,
    u: Seq<EF>,
    final_poly: Seq<EF>,
    n: int,
)
    requires
        0 <= n <= num_rounds,
        0 < k,
        run.alphas.len() == k * num_rounds,
        run.z0s.len() == num_rounds - 1,
        k * num_rounds <= u.len(),
        final_poly.len() == pow2((u.len() - k * num_rounds) as nat),
        all_wf(final_poly),
        all_wf(u),
        all_wf(run.z0s),
    ensures
        final_claim(run, k, num_rounds, u, final_poly, n) == cube_sum(
            (u.len() - k * num_rounds) as nat,
            weighted_values(
                final_poly,
                |b: Seq<EF>| weight_at(run, k, num_rounds, u, n, run.alphas + b),
            ),
        ),
    decreases n,
{
    let t = k * num_rounds;
    let r = (u.len() - t) as nat;
    let goal = |b: Seq<EF>| weight_at(run, k, num_rounds, u, n, run.alphas + b);
    if n <= 0 {
        let prefix = mobius_eq_mle(u.take(t), run.alphas);
        let rest = u.skip(t);
        assert(t >= 0);
        assert forall|i: int| 0 <= i < rest.len() implies (#[trigger] rest[i]).wf() by {
            assert(rest[i] == u[t + i]);
        }
        assert forall|b: Seq<EF>| b.len() == r implies #[trigger] weighted_values(
            final_poly,
            goal,
        )(b) == e_mul(prefix, mobius_terms(final_poly, rest)(b)) by {
            mobius_kernel_factors(u, run.alphas, b);
            let (f, m) = (coeff_eval(final_poly, b), mobius_eq_mle(rest, b));
            assert(goal(b) == e_mul(prefix, m));
            lemma_e_mul_associates(f, prefix, m);
            lemma_e_mul_commutes(f, prefix);
            lemma_e_mul_associates(prefix, f, m);
        }
        lemma_cube_sum_scales(
            r,
            prefix,
            mobius_terms(final_poly, rest),
            weighted_values(final_poly, goal),
        );
        mobius_sum_is_mle_of_coefficients(final_poly, rest);
    } else {
        let i = n - 1;
        final_claim_is_weighted_sum(run, k, num_rounds, u, final_poly, n - 1);
        let acc = final_claim(run, k, num_rounds, u, final_poly, n - 1);
        let acc_weight = |b: Seq<EF>| weight_at(run, k, num_rounds, u, n - 1, run.alphas + b);
        let later = run.alphas.subrange(k * n, t);
        let (first, first_weight) = if i == num_rounds - 1 {
            (acc, acc_weight)
        } else {
            (
                e_add(acc, point_term(run.gammas[i], later, run.z0s[i], final_poly)),
                |b: Seq<EF>|
                    e_add(acc_weight(b), point_weight(run.gammas[i], later + b, run.z0s[i])),
            )
        };
        if i != num_rounds - 1 {
            lemma_point_term(run.gammas[i], later, run.z0s[i], final_poly, r);
            let one = |b: Seq<EF>| point_weight(run.gammas[i], later + b, run.z0s[i]);
            lemma_weights_add(final_poly, r, acc_weight, one, first_weight);
        }
        lemma_add_points(first, first_weight, run.gammas[i], later, run.zs[i], final_poly, r);
        let after = |b: Seq<EF>|
            add_point_weights(first_weight(b), run.gammas[i], later + b, run.zs[i]);
        assert forall|b: Seq<EF>| b.len() == r implies #[trigger] weighted_values(
            final_poly,
            after,
        )(b) == weighted_values(final_poly, goal)(b) by {
            assert(k * n <= t) by (nonlinear_arith)
                requires
                    n <= num_rounds,
                    k > 0,
                    t == k * num_rounds,
            ;
            assert(0 <= k * n) by (nonlinear_arith)
                requires
                    n >= 0,
                    k > 0,
            ;
            assert((run.alphas + b).skip(k * n) =~= later + b);
            assert(after(b) == goal(b));
        }
        lemma_cube_sum_same(
            r,
            weighted_values(final_poly, after),
            weighted_values(final_poly, goal),
        );
    }
}

} // verus!
