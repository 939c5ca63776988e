//! Sums weighted with the powers of a challenge are values of polynomials at the challenge.

use vstd::arithmetic::div_mod::*;
use vstd::prelude::*;

use crate::algebra::{
    lemma_bb_add, lemma_bb_value, lemma_e_add_commutes, lemma_e_add_zero,
    lemma_e_from_ring, lemma_e_mul_associates, lemma_e_mul_commutes, lemma_e_mul_distributes,
    lemma_e_mul_distributes_sub, lemma_e_mul_one, lemma_e_mul_reduced, lemma_e_mul_zero,
    lemma_e_scale, lemma_e_wf,
    lemma_f_mul_commutes, lemma_linear, lemma_of_quad, q_add, q_sub, quad,
};
use crate::extension::nonzero_powers;
use crate::field::{
    bb, e_add, e_from, e_mul, e_one, e_pow, e_sub, e_zero, f_mul, BabyBear, EF, P,
};
use crate::keys::SymbolicInteraction;
use crate::multilinear::{lemma_e_pow_wf, lemma_ext_poly_splits, lemma_ext_poly_wf};
use crate::poly::{eq_mle, ext_poly_eval, repeated_squares, square_times};
use crate::prime::nonzero_is_unit;
use crate::proofs::WhirProof;
use crate::verification::batch_constraints::{
    claims_sum, constraint_sum, denominator, denominator_sum, numerator_sum, TraceClaims,
};
use crate::verification::batch_sumcheck::{batched_terms, minus_terms};
use crate::verification::polynomial_fold::in_extension;
use crate::verification::sumcheck_laws::{lemma_total_wf, total};
use crate::verification::whir::{
    add_points, add_weighted, batch_base, batch_ext, flat, flat_row, point_term, total_width,
};

verus! {

/// Adding zero and multiplying with one both reduce.
proof fn lemma_reduced(v: EF)
    ensures
        e_add(v, e_zero()) == e_mul(v, e_one()),
        e_add(e_zero(), v) == e_mul(v, e_one()),
{
    // v * 1 == v * 1 + 0, and v + 0 == (v + 0) * 1 == v * 1 + 0 * 1
    lemma_e_wf(v, e_zero(), bb(0));
    lemma_e_mul_one(e_add(v, e_zero()));
    lemma_e_mul_distributes(e_one(), v, e_zero());
    lemma_e_wf(v, e_one(), bb(0));
    lemma_e_mul_one(e_one());
    lemma_e_mul_zero(e_one());
    lemma_e_add_zero(e_mul(v, e_one()));
    lemma_e_add_commutes(v, e_zero());
}

/// One more coefficient adds its product with the next power.
pub proof fn lemma_push(c: Seq<EF>, v: EF, x: EF)
    ensures
        ext_poly_eval(c.push(v), x) == e_add(ext_poly_eval(c, x), e_mul(v, e_pow(x, c.len()))),
{
    let d = c.push(v);
    let n = c.len();
    lemma_ext_poly_splits(d, n, x);
    assert(d.take(n as int) =~= c);
    let last = d.skip(n as int);
    assert(last =~= seq![v]);
    assert(last.skip(1) =~= Seq::empty());
    assert(ext_poly_eval(Seq::<EF>::empty(), x) == e_zero());
    assert(ext_poly_eval(last, x) == e_add(v, e_mul(e_zero(), x)));
    lemma_e_mul_zero(x);
    lemma_reduced(v);
    let p = e_pow(x, n);
    lemma_e_mul_associates(v, e_one(), p);
    lemma_e_pow_wf(x, n);
    lemma_e_mul_one(p);
}

/// The values of the constraints of a trace.
pub open spec fn constraint_values(idx: Seq<usize>, nodes: Seq<EF>) -> Seq<EF> {
    Seq::new(idx.len(), |i: int| nodes[idx[i] as int])
}

/// Constraints are batched without loss: their sum is the value at `lambda` of the polynomial
/// whose coefficients are the values of all constraints, in order.
pub proof fn constraints_are_coefficients(idx: Seq<usize>, nodes: Seq<EF>, lambda: EF, n: nat)
    requires
        n <= idx.len(),
    ensures
        constraint_sum(idx, nodes, lambda, n) == ext_poly_eval(
            constraint_values(idx, nodes).take(n as int),
            lambda,
        ),
    decreases n,
{
    let values = constraint_values(idx, nodes);
    if n > 0 {
        constraints_are_coefficients(idx, nodes, lambda, (n - 1) as nat);
        let before = values.take(n - 1);
        assert(values.take(n as int) =~= before.push(values[n - 1]));
        lemma_push(before, values[n - 1], lambda);
    } else {
        assert(values.take(0) =~= Seq::empty());
    }
}

/// The message of an interaction and, behind it, the number of its bus, counted from one.
pub open spec fn message_and_bus(interaction: SymbolicInteraction, nodes: Seq<EF>) -> Seq<EF> {
    Seq::new(
        interaction.message@.len(),
        |i: int| nodes[interaction.message@[i] as int],
    ).push(e_from(bb(interaction.bus_index + 1)))
}

/// The denominator of an interaction is the value at `beta` of the polynomial whose coefficients
/// are the values of its message, in order, followed by the number of its bus, counted from one.
pub proof fn denominator_is_value(interaction: SymbolicInteraction, nodes: Seq<EF>, beta: EF)
    ensures
        denominator(interaction, nodes, beta) == ext_poly_eval(
            message_and_bus(interaction, nodes),
            beta,
        ),
{
    let idx = interaction.message@;
    let values = constraint_values(idx, nodes);
    let bus = bb(interaction.bus_index + 1);
    constraints_are_coefficients(idx, nodes, beta, idx.len());
    assert(values.take(idx.len() as int) =~= values);
    assert(message_and_bus(interaction, nodes) =~= values.push(e_from(bus)));
    lemma_push(values, e_from(bus), beta);
    lemma_bus(interaction.bus_index as int);
}

proof fn lemma_bus(b: int)
    ensures
        e_add(e_from(bb(b)), e_one()) == e_from(bb(b + 1)),
{
    lemma_bb_add(b, 1);
    lemma_e_from_ring(bb(b), bb(1));
    lemma_one();
}

/// From equal sums equal terms cancel.
proof fn lemma_cancel(m: EF, x: EF, y: EF)
    requires
        m.wf(),
        x.wf(),
        y.wf(),
        e_add(m, x) == e_add(m, y),
    ensures
        x == y,
{
    lemma_of_quad(m);
    lemma_of_quad(x);
    lemma_of_quad(y);
    let (a, b, c) = (quad(m), quad(x), quad(y));
    lemma_linear(a, b);
    lemma_linear(a, c);
    lemma_linear(q_add(a, b), a);
    lemma_linear(q_add(a, c), a);
    assert(q_sub(q_add(a, b), a) == b);
    assert(q_sub(q_add(a, c), a) == c);
}

/// Buses are told apart: where `beta` is not zero, two interactions whose messages have the same
/// values have the same denominator only if they are on the same bus.
pub proof fn buses_are_told_apart(
    a: SymbolicInteraction,
    nodes_a: Seq<EF>,
    b: SymbolicInteraction,
    nodes_b: Seq<EF>,
    beta: EF,
)
    requires
        beta.wf(),
        beta != e_zero(),
        a.message@.len() == b.message@.len(),
        forall|i: int|
            0 <= i < a.message@.len() ==> nodes_a[(#[trigger] a.message@[i]) as int]
                == nodes_b[b.message@[i] as int],
        denominator(a, nodes_a, beta) == denominator(b, nodes_b, beta),
    ensures
        a.bus_index == b.bus_index,
{
    let n = a.message@.len();
    let values = constraint_values(a.message@, nodes_a);
    let (i, j) = (a.bus_index + 1, b.bus_index + 1);
    let (x, y) = (e_from(bb(i)), e_from(bb(j)));
    let p = e_pow(beta, n);
    denominator_is_value(a, nodes_a, beta);
    denominator_is_value(b, nodes_b, beta);
    assert(message_and_bus(a, nodes_a) =~= values.push(x));
    assert(message_and_bus(b, nodes_b) =~= values.push(y));
    lemma_push(values, x, beta);
    lemma_push(values, y, beta);
    lemma_ext_poly_wf(values, beta);
    lemma_e_wf(x, p, bb(0));
    lemma_e_wf(y, p, bb(0));
    lemma_cancel(ext_poly_eval(values, beta), e_mul(x, p), e_mul(y, p));
    if i != j {
        // (i - j) p == 0, and i - j has an inverse
        lemma_e_mul_distributes_sub(p, x, y);
        lemma_e_add_zero(e_mul(x, p));
        lemma_e_from_ring(bb(i), bb(j));
        lemma_bb_add(i, j);
        let d = (i - j) % (P as int);
        lemma_bb_value(i - j);
        assert(0 < d < P) by {
            if i > j {
                lemma_small_mod((i - j) as nat, P as nat);
            } else {
                lemma_mod_add_multiples_vanish(i - j, P as int);
                lemma_small_mod((i - j + P) as nat, P as nat);
            }
        }
        nonzero_is_unit(d);
        assert(bb(d) == bb(i - j)) by {
            lemma_mod_twice(i - j, P as int);
        }
        let z = choose|z: BabyBear| #[trigger] f_mul(bb(d), z) == bb(1);
        let k = e_from(bb(i - j));
        assert(e_mul(k, p) == e_zero());
        lemma_e_from_ring(z, bb(d));
        lemma_f_mul_commutes(z, bb(d));
        lemma_e_mul_associates(e_from(z), k, p);
        lemma_e_mul_zero(e_from(z));
        lemma_e_pow_wf(beta, n);
        lemma_e_mul_one(p);
        lemma_one();
        nonzero_powers(beta, n);
    }
}

proof fn lemma_one()
    ensures
        e_from(bb(1)) == e_one(),
{
    reveal(e_from);
    assert(bb(1).value == 1);
}

/// Openings are batched without loss: their sum is the value at `mu` of the polynomial whose
/// coefficients are all of them, in order.
pub proof fn openings_are_coefficients(mu: EF, values: Seq<EF>)
    ensures
        batch_ext(mu, values) == ext_poly_eval(values, mu),
    decreases values.len(),
{
    if values.len() > 0 {
        let before = values.drop_last();
        openings_are_coefficients(mu, before);
        assert(before.push(values.last()) =~= values);
        lemma_push(before, values.last(), mu);
        lemma_e_mul_commutes(values.last(), e_pow(mu, before.len()));
    }
}

/// The entries of an opened row are batched without loss, in the same way.
pub proof fn row_entries_are_coefficients(mu: EF, values: Seq<BabyBear>)
    ensures
        batch_base(mu, values) == ext_poly_eval(in_extension(values), mu),
    decreases values.len(),
{
    if values.len() > 0 {
        let before = values.drop_last();
        row_entries_are_coefficients(mu, before);
        let v = e_from(values.last());
        assert(in_extension(before).push(v) =~= in_extension(values));
        lemma_push(in_extension(before), v, mu);
        lemma_e_scale(e_pow(mu, before.len()), values.last());
        lemma_e_mul_commutes(v, e_pow(mu, before.len()));
    } else {
        assert(in_extension(values) =~= Seq::empty());
    }
}

/// What the queries of a round open is batched without loss: with the claim that folding leaves,
/// the value `y0` at the random point and the values `ys` that the queries fold to, the next claim
/// is the value at `gamma` of the polynomial with these coefficients, in this order. In the last
/// round, which has no random point, zero stands in its place.
pub proof fn round_claim_is_value(claim: EF, y0: EF, ys: Seq<EF>, gamma: EF)
    requires
        claim.wf(),
    ensures
        add_weighted(e_add(claim, e_mul(y0, gamma)), ys, gamma) == ext_poly_eval(
            seq![claim, y0] + ys,
            gamma,
        ),
        add_weighted(claim, ys, gamma) == ext_poly_eval(seq![claim, e_zero()] + ys, gamma),
    decreases ys.len(),
{
    let zero = e_zero();
    if ys.len() == 0 {
        lemma_two(claim, y0, gamma);
        lemma_e_wf(claim, zero, bb(0));
        lemma_two(claim, zero, gamma);
        lemma_e_mul_zero(gamma);
        lemma_e_add_zero(claim);
        assert(seq![claim, y0] + ys =~= seq![claim, y0]);
        assert(seq![claim, zero] + ys =~= seq![claim, zero]);
    } else {
        let before = ys.drop_last();
        round_claim_is_value(claim, y0, before, gamma);
        assert((seq![claim, y0] + before).push(ys.last()) =~= seq![claim, y0] + ys);
        assert((seq![claim, zero] + before).push(ys.last()) =~= seq![claim, zero] + ys);
        lemma_push(seq![claim, y0] + before, ys.last(), gamma);
        lemma_push(seq![claim, zero] + before, ys.last(), gamma);
    }
}

proof fn lemma_two(a: EF, b: EF, x: EF)
    ensures
        ext_poly_eval(seq![a, b], x) == e_add(a, e_mul(b, x)),
{
    let c = seq![a, b];
    let d = c.skip(1);
    assert(d =~= seq![b]);
    assert(d.skip(1) =~= Seq::empty());
    assert(ext_poly_eval(Seq::<EF>::empty(), x) == e_zero());
    assert(ext_poly_eval(d, x) == e_add(b, e_mul(e_zero(), x)));
    lemma_e_mul_zero(x);
    lemma_e_mul_reduced(b, x);
}

/// Two sequences of one length in turn: the first of the one, the first of the other, and so on.
pub open spec fn in_turn(a: Seq<EF>, b: Seq<EF>) -> Seq<EF> {
    Seq::new(
        a.len() + a.len(),
        |i: int|
            if i % 2 == 0 {
                a[i / 2]
            } else {
                b[i / 2]
            },
    )
}

/// The terms of the traces are batched without loss: the sum is the value at `mu` of the
/// polynomial whose coefficients are numerators and denominators in turn.
pub proof fn terms_are_coefficients(mu: EF, numerators: Seq<EF>, denominators: Seq<EF>, n: nat)
    requires
        n <= numerators.len(),
        n <= denominators.len(),
    ensures
        batched_terms(mu, numerators, denominators, n) == ext_poly_eval(
            in_turn(numerators.take(n as int), denominators.take(n as int)),
            mu,
        ),
    decreases n,
{
    let m = n as int;
    let all = in_turn(numerators.take(m), denominators.take(m));
    if n == 0 {
        assert(all =~= Seq::empty());
    } else {
        terms_are_coefficients(mu, numerators, denominators, (n - 1) as nat);
        let before = in_turn(numerators.take(m - 1), denominators.take(m - 1));
        let (x, y) = (numerators[m - 1], denominators[m - 1]);
        assert(all =~= before.push(x).push(y));
        lemma_push(before, x, mu);
        lemma_push(before.push(x), y, mu);
    }
}

/// The coefficients that the claims of the traces are batched as: numerators and denominators of
/// all traces in turn, and behind them the constraints of all traces.
pub open spec fn claim_coefficients(claims: Seq<TraceClaims>) -> Seq<EF> {
    in_turn(
        Seq::new(claims.len(), |t: int| claims[t].numerator),
        Seq::new(claims.len(), |t: int| claims[t].denominator),
    ) + Seq::new(claims.len(), |t: int| claims[t].constraints)
}

/// What the traces add to the claim is batched without loss: the sum is the value at `mu` of the
/// polynomial whose coefficients are the numerators and denominators of all traces in turn and,
/// behind them, the constraints of all traces.
pub proof fn claims_are_coefficients(mu: EF, claims: Seq<TraceClaims>)
    ensures
        claims_sum(mu, claims, claims.len(), claims.len()) == ext_poly_eval(
            claim_coefficients(claims),
            mu,
        ),
{
    let n = claims.len();
    lemma_claims(mu, claims, n, n);
    let all = claim_coefficients(claims);
    assert(all.take((2 * n + n) as int) =~= all);
}

proof fn lemma_claims(mu: EF, claims: Seq<TraceClaims>, n: nat, m: nat)
    requires
        m <= n <= claims.len(),
        m > 0 ==> n == claims.len(),
    ensures
        claims_sum(mu, claims, n, m) == ext_poly_eval(
            claim_coefficients(claims).take((2 * n + m) as int),
            mu,
        ),
    decreases n, m,
{
    let all = claim_coefficients(claims);
    if m > 0 {
        lemma_claims(mu, claims, n, (m - 1) as nat);
        let before = all.take(2 * n + m - 1);
        let v = claims[m - 1].constraints;
        assert(all.take((2 * n + m) as int) =~= before.push(v));
        lemma_push(before, v, mu);
    } else if n > 0 {
        lemma_claims(mu, claims, (n - 1) as nat, 0);
        let before = all.take(2 * n - 2);
        let (x, y) = (claims[n - 1].numerator, claims[n - 1].denominator);
        assert(all.take((2 * n + m) as int) =~= before.push(x).push(y));
        lemma_push(before, x, mu);
        lemma_push(before.push(x), y, mu);
    } else {
        assert(all.take(0) =~= Seq::empty());
    }
}

/// What is left of a claim when its terms are subtracted is the claim less their sum.
pub proof fn terms_are_subtracted(claim: EF, terms: Seq<EF>, n: nat)
    requires
        claim.wf(),
        n <= terms.len(),
        forall|i: int| 0 <= i < terms.len() ==> (#[trigger] terms[i]).wf(),
    ensures
        minus_terms(claim, terms, n) == e_sub(claim, total(terms.take(n as int))),
        minus_terms(claim, terms, n).wf(),
    decreases n,
{
    let m = n as int;
    if n == 0 {
        assert(terms.take(0) =~= Seq::empty());
        lemma_e_add_zero(claim);
    } else {
        terms_are_subtracted(claim, terms, (n - 1) as nat);
        assert(terms.take(m).drop_last() =~= terms.take(m - 1));
        let (s, v) = (total(terms.take(m - 1)), terms[m - 1]);
        lemma_total_wf(terms.take(m - 1));
        lemma_of_quad(claim);
        lemma_of_quad(s);
        lemma_of_quad(v);
        let (a, b, c) = (quad(claim), quad(s), quad(v));
        lemma_linear(a, b);
        lemma_linear(q_sub(a, b), c);
        lemma_linear(b, c);
        lemma_linear(a, q_add(b, c));
        assert(q_sub(q_sub(a, b), c) == q_sub(a, q_add(b, c)));
        lemma_e_wf(minus_terms(claim, terms, (n - 1) as nat), v, bb(0));
    }
}

/// The numerators of all interactions of a trace are added up, each with its own weight.
pub proof fn numerators_add_up(
    interactions: Seq<SymbolicInteraction>,
    weights: Seq<EF>,
    nodes: Seq<EF>,
    n: nat,
)
    requires
        n <= interactions.len(),
    ensures
        numerator_sum(interactions, weights, nodes, n) == total(
            Seq::new(n, |i: int| e_mul(weights[i], nodes[interactions[i].count as int])),
        ),
    decreases n,
{
    let s = Seq::new(n, |i: int| e_mul(weights[i], nodes[interactions[i].count as int]));
    if n > 0 {
        numerators_add_up(interactions, weights, nodes, (n - 1) as nat);
        assert(s.drop_last() =~= Seq::new(
            (n - 1) as nat,
            |i: int| e_mul(weights[i], nodes[interactions[i].count as int]),
        ));
    }
}

/// The denominators of all interactions of a trace are added up, each with its own weight.
pub proof fn denominators_add_up(
    interactions: Seq<SymbolicInteraction>,
    weights: Seq<EF>,
    nodes: Seq<EF>,
    beta: EF,
    n: nat,
)
    requires
        n <= interactions.len(),
    ensures
        denominator_sum(interactions, weights, nodes, beta, n) == total(
            Seq::new(
                n,
                |i: int|
                    e_mul(weights[i], ext_poly_eval(message_and_bus(interactions[i], nodes), beta)),
            ),
        ),
    decreases n,
{
    let s = Seq::new(
        n,
        |i: int| e_mul(weights[i], ext_poly_eval(message_and_bus(interactions[i], nodes), beta)),
    );
    if n > 0 {
        denominators_add_up(interactions, weights, nodes, beta, (n - 1) as nat);
        denominator_is_value(interactions[n - 1], nodes, beta);
        assert(s.drop_last() =~= Seq::new(
            (n - 1) as nat,
            |i: int|
                e_mul(weights[i], ext_poly_eval(message_and_bus(interactions[i], nodes), beta)),
        ));
    }
}

/// What a point adds to the final check, but for its weight: how the later folding challenges
/// agree with the repeated squares of the point, times the value of the final polynomial at the
/// last of these squares.
pub open spec fn point_value(alphas: Seq<EF>, z: EF, final_poly: Seq<EF>) -> EF {
    e_mul(
        eq_mle(alphas, repeated_squares(z, alphas.len())),
        ext_poly_eval(final_poly, square_times(z, alphas.len())),
    )
}

proof fn lemma_point_term(weight: EF, alphas: Seq<EF>, z: EF, final_poly: Seq<EF>)
    ensures
        point_term(weight, alphas, z, final_poly) == e_mul(
            point_value(alphas, z, final_poly),
            weight,
        ),
{
    let squares = repeated_squares(z, alphas.len() + 1);
    assert(squares.drop_last() =~= repeated_squares(z, alphas.len()));
    assert(squares.last() == square_times(z, alphas.len()));
    let eq = eq_mle(alphas, squares.drop_last());
    let value = ext_poly_eval(final_poly, squares.last());
    lemma_e_mul_associates(weight, eq, value);
    lemma_e_mul_commutes(weight, e_mul(eq, value));
}

/// The final check holds the claim of a round against all of its points: what the round adds is
/// the value at its challenge `gamma` of the polynomial whose coefficients are what the rounds
/// before add, what the out-of-domain point adds (or zero in the last round, which has none), and
/// what each query point adds, in this order.
pub proof fn final_check_covers_points(
    acc: EF,
    gamma: EF,
    alphas: Seq<EF>,
    z0: EF,
    zs: Seq<BabyBear>,
    final_poly: Seq<EF>,
)
    requires
        acc.wf(),
    ensures
        ({
            let points = Seq::new(
                zs.len(),
                |q: int| point_value(alphas, e_from(zs[q]), final_poly),
            );
            &&& add_points(
                e_add(acc, point_term(gamma, alphas, z0, final_poly)),
                gamma,
                alphas,
                zs,
                final_poly,
            ) == ext_poly_eval(seq![acc, point_value(alphas, z0, final_poly)] + points, gamma)
            &&& add_points(acc, gamma, alphas, zs, final_poly) == ext_poly_eval(
                seq![acc, e_zero()] + points,
                gamma,
            )
        }),
    decreases zs.len(),
{
    let zero = e_zero();
    let v0 = point_value(alphas, z0, final_poly);
    let points = Seq::new(zs.len(), |q: int| point_value(alphas, e_from(zs[q]), final_poly));
    if zs.len() == 0 {
        lemma_point_term(gamma, alphas, z0, final_poly);
        lemma_two(acc, v0, gamma);
        lemma_two(acc, zero, gamma);
        lemma_e_mul_zero(gamma);
        lemma_e_add_zero(acc);
        assert(seq![acc, v0] + points =~= seq![acc, v0]);
        assert(seq![acc, zero] + points =~= seq![acc, zero]);
    } else {
        let some = zs.drop_last();
        final_check_covers_points(acc, gamma, alphas, z0, some, final_poly);
        let before = Seq::new(
            some.len(),
            |q: int| point_value(alphas, e_from(some[q]), final_poly),
        );
        let last = point_value(alphas, e_from(zs.last()), final_poly);
        lemma_point_term(
            e_pow(gamma, (zs.len() + 1) as nat),
            alphas,
            e_from(zs.last()),
            final_poly,
        );
        assert((seq![acc, v0] + before).push(last) =~= seq![acc, v0] + points);
        assert((seq![acc, zero] + before).push(last) =~= seq![acc, zero] + points);
        lemma_push(seq![acc, v0] + before, last, gamma);
        lemma_push(seq![acc, zero] + before, last, gamma);
    }
}

/// Openings and opened rows are put together alike: column `j` under commitment `c` is entry
/// number `j` behind all columns of the commitments before, both in the list of openings and in
/// every opened row.
pub proof fn openings_and_rows_are_aligned<D>(
    proof: &WhirProof<D>,
    openings: Seq<Vec<EF>>,
    q: int,
    r: int,
    c: int,
    j: int,
)
    requires
        0 <= c < openings.len(),
        0 <= j < openings[c]@.len(),
        forall|b: int|
            0 <= b < openings.len() ==> (
            #[trigger] proof.initial_round_opened_rows@[b])@[q]@[r]@.len() == openings[b]@.len(),
    ensures
        ({
            let place = total_width(openings, c) + j;
            let row = flat_row(proof, openings, q, r, openings.len() as int);
            &&& flat(openings).len() == total_width(openings, openings.len() as int)
            &&& row.len() == flat(openings).len()
            &&& place < row.len()
            &&& flat(openings)[place] == openings[c]@[j]
            &&& row[place] == proof.initial_round_opened_rows@[c]@[q]@[r]@[j]
        }),
{
    lemma_aligned(proof, openings, q, r, c, j, openings.len() as int);
    assert(openings.take(openings.len() as int) =~= openings);
}

proof fn lemma_aligned<D>(
    proof: &WhirProof<D>,
    openings: Seq<Vec<EF>>,
    q: int,
    r: int,
    c: int,
    j: int,
    n: int,
)
    requires
        0 <= n <= openings.len(),
        0 <= c < openings.len(),
        0 <= j < openings[c]@.len(),
        forall|b: int|
            0 <= b < openings.len() ==> (
            #[trigger] proof.initial_round_opened_rows@[b])@[q]@[r]@.len() == openings[b]@.len(),
    ensures
        ({
            let place = total_width(openings, c) + j;
            let all = flat(openings.take(n));
            let row = flat_row(proof, openings, q, r, n);
            &&& all.len() == total_width(openings, n)
            &&& row.len() == all.len()
            &&& c < n ==> {
                &&& place < row.len()
                &&& all[place] == openings[c]@[j]
                &&& row[place] == proof.initial_round_opened_rows@[c]@[q]@[r]@[j]
            }
        }),
    decreases n,
{
    if n > 0 {
        lemma_aligned(proof, openings, q, r, c, j, n - 1);
        assert(openings.take(n).drop_last() =~= openings.take(n - 1));
        assert(openings.take(n).last() == openings[n - 1]);
        let row = proof.initial_round_opened_rows@[n - 1]@[q]@[r]@;
        assert(row.take(openings[n - 1]@.len() as int) =~= row);
    } else {
        assert(openings.take(0) =~= Seq::empty());
    }
}

} // verus!
