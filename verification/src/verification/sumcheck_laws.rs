//! What the sumcheck of the batched constraints adds up.

use vstd::arithmetic::div_mod::*;
use vstd::arithmetic::power2::*;
use vstd::prelude::*;

use crate::algebra::{
    lemma_bb_add, lemma_bb_value, lemma_e_add_associates, lemma_e_add_zero, lemma_e_from_ring,
    lemma_e_mul_distributes, lemma_e_mul_distributes_sub, lemma_e_mul_one, lemma_e_mul_zero,
    lemma_e_wf, lemma_f_mul_one, lemma_f_pow_wf, lemma_linear, lemma_of_quad, q_add, q_sub, quad,
};
use crate::field::{
    bb, e_add, e_from, e_mul, e_one, e_pow, e_sub, e_zero, f_generator, f_pow, EF, P,
};
use crate::multilinear::{all_wf, lemma_e_add_swap, lemma_ext_poly_splits, lemma_ext_poly_wf};
use crate::poly::ext_poly_eval;
use crate::proofs::BatchConstraintProof;
use crate::transcript::{ext_challenge, ext_sampled, exts_observed, FiatShamirTranscript};
use crate::verification::batch_sumcheck::{
    batched_terms, domain_sum, minus_terms, sampled_more, strided_sum, sumcheck, sumcheck_rounds,
    terms_observed, Rounds,
};
use crate::verification::fold::{coset_point, f_neg, lemma_coset_points};
use crate::verification::interpolation::{interpolation_hits_values, lagrange_eval};
use crate::verification::interpolation_laws::{
    has_coefficients, interpolation_gives_polynomial_back, is_polynomial,
};
use crate::verification::polynomial_fold::{evens, lemma_even_odd, odds};

verus! {

/// The sum of a sequence.
pub open spec fn total(s: Seq<EF>) -> EF
    decreases s.len(),
{
    if s.len() == 0 {
        e_zero()
    } else {
        e_add(total(s.drop_last()), s.last())
    }
}

/// The values of the polynomial on the subgroup of order `2^bits`.
pub open spec fn domain_values(coeffs: Seq<EF>, bits: nat) -> Seq<EF> {
    Seq::new(
        pow2(bits),
        |i: int| ext_poly_eval(coeffs, e_from(f_pow(f_generator(bits), i as nat))),
    )
}

pub proof fn lemma_total_wf(s: Seq<EF>)
    ensures
        total(s).wf(),
{
    lemma_e_wf(e_zero(), e_zero(), bb(0));
    if s.len() > 0 {
        lemma_e_wf(total(s.drop_last()), s.last(), bb(0));
    }
}

/// The sum of two sequences put together.
proof fn lemma_total_concat(a: Seq<EF>, b: Seq<EF>)
    ensures
        total(a + b) == e_add(total(a), total(b)),
    decreases b.len(),
{
    if b.len() == 0 {
        assert(a + b =~= a);
        lemma_total_wf(a);
        lemma_e_add_zero(total(a));
    } else {
        assert((a + b).drop_last() =~= a + b.drop_last());
        lemma_total_concat(a, b.drop_last());
        lemma_e_add_associates(total(a), total(b.drop_last()), b.last());
    }
}

/// The sum of the sums of the entries of two sequences.
proof fn lemma_total_adds(a: Seq<EF>, b: Seq<EF>, both: Seq<EF>)
    requires
        a.len() == both.len(),
        b.len() == both.len(),
        forall|i: int| 0 <= i < both.len() ==> #[trigger] both[i] == e_add(a[i], b[i]),
    ensures
        total(both) == e_add(total(a), total(b)),
    decreases both.len(),
{
    if both.len() == 0 {
        lemma_e_wf(e_zero(), e_zero(), bb(0));
        lemma_e_add_zero(e_zero());
    } else {
        lemma_total_adds(a.drop_last(), b.drop_last(), both.drop_last());
        lemma_e_add_swap(total(a.drop_last()), total(b.drop_last()), a.last(), b.last());
    }
}

/// At one, a polynomial has the sum of its coefficients as value.
proof fn lemma_value_at_one(c: Seq<EF>)
    ensures
        ext_poly_eval(c, e_one()) == strided_sum(c, 1, c.len()),
    decreases c.len(),
{
    if c.len() > 0 {
        let n = (c.len() - 1) as nat;
        let init = c.take(n as int);
        lemma_value_at_one(init);
        lemma_ext_poly_splits(c, n, e_one());
        lemma_pow_of_one(n);
        let tail = c.skip(n as int);
        assert(tail.skip(1) =~= Seq::empty());
        assert(ext_poly_eval(tail.skip(1), e_one()) == e_zero());
        lemma_e_mul_zero(e_one());
        let last = ext_poly_eval(tail, e_one());
        assert(last == e_add(c[n as int], e_zero()));
        lemma_ext_poly_wf(tail, e_one());
        lemma_e_mul_one(last);
        lemma_strided_prefix(c, init, 1, n);
        lemma_ext_poly_wf(init, e_one());
        let s = ext_poly_eval(init, e_one());
        // s + (x + 0) == (s + x)
        lemma_e_add_associates(s, c[n as int], e_zero());
        lemma_e_wf(s, c[n as int], bb(0));
        lemma_e_add_zero(e_add(s, c[n as int]));
    }
}

proof fn lemma_pow_of_one(n: nat)
    ensures
        e_pow(e_one(), n) == e_one(),
    decreases n,
{
    if n > 0 {
        lemma_pow_of_one((n - 1) as nat);
        lemma_e_wf(e_one(), e_one(), bb(0));
        lemma_e_mul_one(e_one());
    }
}

/// Sums that read the same coefficients are the same.
proof fn lemma_strided_prefix(c: Seq<EF>, d: Seq<EF>, step: nat, n: nat)
    requires
        forall|i: int| 0 <= i < n ==> c[#[trigger] (i * step)] == d[i * step],
    ensures
        strided_sum(c, step, n) == strided_sum(d, step, n),
    decreases n,
{
    if n > 0 {
        lemma_strided_prefix(c, d, step, (n - 1) as nat);
        assert(c[(n - 1) * step] == d[(n - 1) * step]);
    }
}

/// Every `step`-th of the even coefficients is every `2 step`-th of all.
proof fn lemma_strided_evens(c: Seq<EF>, step: nat, n: nat)
    requires
        n > 0 ==> (n - 1) * step < (c.len() + 1) / 2,
    ensures
        strided_sum(evens(c), step, n) == strided_sum(c, 2 * step, n),
    decreases n,
{
    if n > 0 {
        let i = (n - 1) as int;
        assert(0 <= i * step) by (nonlinear_arith)
            requires
                i >= 0,
                step >= 0,
        ;
        assert(2 * (i * step) == i * (2 * step)) by (nonlinear_arith);
        if n > 1 {
            assert((i - 1) * step <= i * step) by (nonlinear_arith)
                requires
                    step >= 0,
            ;
        }
        lemma_strided_evens(c, step, (n - 1) as nat);
    }
}

/// The number of blocks of `2s` in `len` is that of blocks of `s` in half of it.
proof fn lemma_half_blocks(len: int, s: int)
    requires
        len >= 0,
        s > 0,
    ensures
        (len + 2 * s - 1) / (2 * s) == ((len + 1) / 2 + s - 1) / s,
        ((len + 1) / 2 + s - 1) / s > 0 ==> (((len + 1) / 2 + s - 1) / s - 1) * s < (len + 1) / 2,
{
    let h = (len + 1) / 2;
    let q = (h + s - 1) / s;
    lemma_fundamental_div_mod(h + s - 1, s);
    let r = (h + s - 1) % s;
    // len + 2s - 1 is 2 (h + s - 1) or 2 (h + s - 1) + 1
    let extra = len + 2 * s - 1 - 2 * (h + s - 1);
    assert(extra == 0 || extra == 1);
    assert(len + 2 * s - 1 == q * (2 * s) + (2 * r + extra)) by (nonlinear_arith)
        requires
            h + s - 1 == s * q + r,
            len + 2 * s - 1 == 2 * (h + s - 1) + extra,
    ;
    lemma_fundamental_div_mod_converse(len + 2 * s - 1, 2 * s, q, 2 * r + extra);
    assert((q - 1) * s < h || q <= 0) by (nonlinear_arith)
        requires
            h + s - 1 == s * q + r,
            r >= 0,
            s > 0,
    ;
}

/// The sum over the subgroup: the sum of the values of a polynomial on the subgroup of order
/// `2^bits` is `2^bits` times the sum of the coefficients of the multiples of that order.
pub proof fn domain_sum_is_total(coeffs: Seq<EF>, bits: nat)
    requires
        bits <= 27,
    ensures
        domain_sum(coeffs, bits) == total(domain_values(coeffs, bits)),
    decreases bits,
{
    lemma2_to64();
    let values = domain_values(coeffs, bits);
    if bits == 0 {
        assert(values.drop_last() =~= Seq::empty());
        assert(e_from(bb(1)) == e_one()) by {
            reveal(e_from);
            assert(bb(1).value == 1);
        }
        assert(f_pow(f_generator(0), 0) == bb(1));
        lemma_value_at_one(coeffs);
        let v = ext_poly_eval(coeffs, e_one());
        lemma_ext_poly_wf(coeffs, e_one());
        lemma_e_mul_one(v);
        lemma_e_add_zero(v);
        assert(total(values.drop_last()) == e_zero());
        assert((coeffs.len() + 1 - 1) / 1 == coeffs.len());
    } else {
        let m = pow2((bits - 1) as nat);
        lemma_pow2_unfold(bits);
        lemma_pow2_pos((bits - 1) as nat);
        let half = evens(coeffs);
        domain_sum_is_total(half, (bits - 1) as nat);
        let inner = domain_values(half, (bits - 1) as nat);
        let (lo, hi) = (values.take(m as int), values.skip(m as int));
        assert(values =~= lo + hi);
        lemma_total_concat(lo, hi);
        let doubled = Seq::new(m, |i: int| e_add(inner[i], inner[i]));
        let pairs = Seq::new(m, |i: int| e_add(lo[i], hi[i]));
        lemma_total_adds(lo, hi, pairs);
        lemma_total_adds(inner, inner, doubled);
        assert forall|i: int| 0 <= i < m implies #[trigger] pairs[i] == doubled[i] by {
            lemma_pair(coeffs, bits, i as nat);
        }
        assert(pairs =~= doubled);
        // twice the sum over the half
        let s = m as int;
        let len = coeffs.len() as int;
        lemma_half_blocks(len, s);
        let n = ((half.len() + s - 1) / s) as nat;
        lemma_strided_evens(coeffs, m, n);
        let sum = strided_sum(coeffs, 2 * m, n);
        assert(total(inner) == e_mul(sum, e_from(bb(s))));
        lemma_e_mul_distributes(sum, e_from(bb(s)), e_from(bb(s)));
        lemma_e_from_ring(bb(s), bb(s));
        lemma_bb_add(s, s);
    }
}

/// The values at a point and at its negative add up to twice the even part at the square.
proof fn lemma_pair(coeffs: Seq<EF>, bits: nat, i: nat)
    requires
        1 <= bits <= 27,
        i < pow2((bits - 1) as nat),
    ensures
        ({
            let m = pow2((bits - 1) as nat);
            let values = domain_values(coeffs, bits);
            let inner = domain_values(evens(coeffs), (bits - 1) as nat);
            &&& pow2(bits) == 2 * m
            &&& e_add(values[i as int], values[(m + i) as int]) == e_add(
                inner[i as int],
                inner[i as int],
            )
        }),
{
    let m = pow2((bits - 1) as nat);
    lemma_pow2_unfold(bits);
    let one = bb(1);
    lemma_bb_value(1);
    lemma_f_mul_one(one);
    let t = coset_point(bits, one, i as int);
    lemma_coset_points(bits, one, i);
    lemma_point(bits, i);
    lemma_point(bits, m + i);
    lemma_point((bits - 1) as nat, i);
    let (x, minus) = (e_from(t), e_from(f_neg(t)));
    lemma_e_from_ring(t, t);
    let y = e_mul(x, x);
    // the square of the negative is the same
    lemma_e_from_ring(bb(0), t);
    assert(e_from(bb(0)) == e_zero()) by {
        reveal(e_from);
        assert(bb(0).value == 0);
    }
    lemma_e_wf(x, x, t);
    lemma_minus_square(x);
    lemma_even_odd(coeffs, x);
    lemma_even_odd(coeffs, minus);
    let (e, o) = (ext_poly_eval(evens(coeffs), y), ext_poly_eval(odds(coeffs), y));
    lemma_ext_poly_wf(evens(coeffs), y);
    lemma_e_mul_distributes_sub(o, e_zero(), x);
    lemma_e_mul_zero(o);
    lemma_e_wf(o, x, t);
    let ox = e_mul(o, x);
    lemma_of_quad(e);
    lemma_of_quad(ox);
    lemma_e_wf(e_zero(), e_zero(), t);
    lemma_of_quad(e_zero());
    let (qe, qo, qz) = (quad(e), quad(ox), quad(e_zero()));
    assert(qz.c0 == 0 && qz.c1 == 0 && qz.c2 == 0 && qz.c3 == 0) by {
        assert(bb(0).value == 0);
    }
    lemma_linear(qe, qo);
    lemma_linear(qz, qo);
    lemma_linear(qe, q_sub(qz, qo));
    lemma_linear(q_add(qe, qo), q_add(qe, q_sub(qz, qo)));
    lemma_linear(qe, qe);
    assert(q_add(q_add(qe, qo), q_add(qe, q_sub(qz, qo))) == q_add(qe, qe));
}

/// The points of the subgroup are those of the coset of one.
proof fn lemma_point(bits: nat, i: nat)
    ensures
        coset_point(bits, bb(1), i as int) == f_pow(f_generator(bits), i),
{
    lemma_f_pow_wf(f_generator(bits), i);
    lemma_f_mul_one(f_pow(f_generator(bits), i));
}

/// `(0 - x) (0 - x) == x x`.
proof fn lemma_minus_square(x: EF)
    requires
        x.wf(),
    ensures
        e_mul(e_sub(e_zero(), x), e_sub(e_zero(), x)) == e_mul(x, x),
{
    let n = e_sub(e_zero(), x);
    let y = e_mul(x, x);
    lemma_e_wf(e_zero(), x, bb(0));
    lemma_e_wf(x, x, bb(0));
    lemma_e_mul_distributes_sub(n, e_zero(), x);
    lemma_e_mul_zero(n);
    lemma_e_mul_distributes_sub(x, e_zero(), x);
    lemma_e_mul_zero(x);
    // 0 - (0 - y) == y
    lemma_of_quad(y);
    lemma_e_wf(e_zero(), e_zero(), bb(0));
    lemma_of_quad(e_zero());
    let (qy, qz) = (quad(y), quad(e_zero()));
    assert(qz.c0 == 0 && qz.c1 == 0 && qz.c2 == 0 && qz.c3 == 0) by {
        assert(bb(0).value == 0);
    }
    lemma_linear(qz, qy);
    lemma_linear(qz, q_sub(qz, qy));
    assert(q_sub(qz, q_sub(qz, qy)) == qy);
}

/// The polynomial of a multilinear round adds up to the claim: it is made of the values that are
/// sent and of the value at zero that the claim leaves, and its values at zero and one sum to the
/// claim.
pub proof fn round_adds_up(claim: EF, evals: Seq<EF>)
    requires
        1 <= evals.len() < P,
        claim.wf(),
        evals[0].wf(),
    ensures
        ({
            let s = seq![e_sub(claim, evals[0])] + evals;
            e_add(lagrange_eval(s, e_from(bb(0))), lagrange_eval(s, e_from(bb(1)))) == claim
        }),
{
    let s = seq![e_sub(claim, evals[0])] + evals;
    lemma_e_wf(claim, evals[0], bb(0));
    interpolation_hits_values(s, 0);
    interpolation_hits_values(s, 1);
    lemma_of_quad(claim);
    lemma_of_quad(evals[0]);
    let (c, e) = (quad(claim), quad(evals[0]));
    lemma_linear(c, e);
    lemma_linear(q_sub(c, e), e);
    assert(q_add(q_sub(c, e), e) == c);
}

/// Whether a multilinear round sends the values at one, two, and so on of the partial sums `g` in
/// the variable after the point `rs`: `g` at `rs` is the sum of its values with that variable set
/// to zero and to one, and it is in that variable a polynomial with one more coefficient than
/// there are values.
pub open spec fn honest_sum_round(g: spec_fn(Seq<EF>) -> EF, rs: Seq<EF>, evals: Seq<EF>) -> bool {
    &&& 1 <= evals.len() < P
    &&& forall|j: int|
        0 <= j < evals.len() ==> #[trigger] evals[j] == g(rs.push(e_from(bb(j + 1))))
    &&& g(rs) == e_add(g(rs.push(e_from(bb(0)))), g(rs.push(e_from(bb(1)))))
    &&& is_polynomial(next_of(g, rs), evals.len() + 1)
}

/// The partial sums `g` as a function of the variable after the point `rs`.
pub open spec fn next_of(g: spec_fn(Seq<EF>) -> EF, rs: Seq<EF>) -> spec_fn(EF) -> EF {
    |x: EF| g(rs.push(x))
}

/// Multilinear rounds that follow the protocol keep the claim: where it starts out as the partial
/// sum `g` at the first point, and each round sends values of the partial sums, it ends as `g` at
/// the point that the rounds lead to.
pub proof fn honest_rounds_keep_claim<D, TS: FiatShamirTranscript<D>>(
    first: Rounds<TS::State>,
    polys: Seq<Vec<EF>>,
    n: nat,
    g: spec_fn(Seq<EF>) -> EF,
)
    requires
        first.cur_sum == g(first.rs),
        all_wf(sumcheck_rounds::<D, TS>(first, polys, n).rs),
        forall|i: int|
            0 <= i < n ==> honest_sum_round(
                g,
                (#[trigger] sumcheck_rounds::<D, TS>(first, polys, i as nat)).rs,
                polys[i]@,
            ),
    ensures
        ({
            let last = sumcheck_rounds::<D, TS>(first, polys, n);
            last.cur_sum == g(last.rs)
        }),
    decreases n,
{
    if n > 0 {
        let i = n - 1;
        let prev = sumcheck_rounds::<D, TS>(first, polys, i as nat);
        let last = sumcheck_rounds::<D, TS>(first, polys, n);
        let evals = polys[i]@;
        let r = last.rs.last();
        assert(last.rs =~= prev.rs.push(r));
        assert forall|j: int| 0 <= j < prev.rs.len() implies (#[trigger] prev.rs[j]).wf() by {
            assert(last.rs[j] == prev.rs[j]);
        }
        honest_rounds_keep_claim::<D, TS>(first, polys, i as nat, g);
        assert(honest_sum_round(g, prev.rs, evals));
        let h = next_of(g, prev.rs);
        let c = choose|c: Seq<EF>|
            #[trigger] has_coefficients(h, c) && c.len() == evals.len() + 1;
        let (v0, v1) = (h(e_from(bb(0))), h(e_from(bb(1))));
        lemma_e_wf(e_from(bb(0)), e_from(bb(0)), bb(0));
        lemma_e_wf(e_from(bb(1)), e_from(bb(1)), bb(1));
        lemma_ext_poly_wf(c, e_from(bb(0)));
        lemma_ext_poly_wf(c, e_from(bb(1)));
        assert(evals[0] == g(prev.rs.push(e_from(bb(0int + 1)))));
        // (v0 + v1) - v1 == v0
        lemma_of_quad(v0);
        lemma_of_quad(v1);
        let (a, b) = (quad(v0), quad(v1));
        lemma_linear(a, b);
        lemma_linear(q_add(a, b), b);
        assert(q_sub(q_add(a, b), b) == a);
        let s = seq![e_sub(prev.cur_sum, evals[0])] + evals;
        assert forall|j: int| 0 <= j < s.len() implies #[trigger] s[j] == h(e_from(bb(j))) by {
            if j > 0 {
                assert(evals[j - 1] == g(prev.rs.push(e_from(bb(j - 1 + 1)))));
            }
        }
        interpolation_gives_polynomial_back(h, s, r);
    }
}

/// A sumcheck that follows the protocol does not stop, and leaves the claim that the partial sums
/// `g` have the value `cur_sum` at the point `rs`: the terms add up to the claims `p` and `q`, the
/// batched terms are the sum of the univariate polynomial over the subgroup, that polynomial gives
/// the partial sums of the univariate variable, and the multilinear rounds send values of `g`.
pub proof fn honest_sumcheck_reaches_point<D, TS: FiatShamirTranscript<D>>(
    s: TS::State,
    proof: &BatchConstraintProof,
    l_skip: nat,
    n_max: nat,
    xi: Seq<EF>,
    xi_len: nat,
    p: EF,
    q: EF,
    alpha: EF,
    first: Rounds<TS::State>,
    g: spec_fn(Seq<EF>) -> EF,
)
    requires
        l_skip <= 27,
        ({
            let numerators = proof.numerator_term_per_air@;
            let denominators = proof.denominator_term_per_air@;
            let coeffs = proof.univariate_round_coeffs@;
            let n = numerators.len();
            let (s1, _) = sampled_more::<D, TS>(s, xi, (xi_len - xi.len()) as nat);
            let s2 = terms_observed::<D, TS>(
                ext_sampled::<D, TS>(s1),
                numerators,
                denominators,
                n,
            );
            let mu = ext_challenge::<D, TS>(s2);
            let s3 = exts_observed::<D, TS>(ext_sampled::<D, TS>(s2), coeffs);
            let r_0 = ext_challenge::<D, TS>(s3);
            &&& minus_terms(p, numerators, n) == e_zero()
            &&& minus_terms(q, denominators, n) == alpha
            &&& batched_terms(mu, numerators, denominators, n) == total(
                domain_values(coeffs, l_skip),
            )
            &&& ext_poly_eval(coeffs, r_0) == g(seq![r_0])
            &&& first == (Rounds {
                state: ext_sampled::<D, TS>(s3),
                cur_sum: ext_poly_eval(coeffs, r_0),
                rs: seq![r_0],
            })
        }),
        all_wf(sumcheck_rounds::<D, TS>(first, proof.sumcheck_round_polys@, n_max).rs),
        forall|i: int|
            0 <= i < n_max ==> honest_sum_round(
                g,
                (#[trigger] sumcheck_rounds::<D, TS>(
                    first,
                    proof.sumcheck_round_polys@,
                    i as nat,
                )).rs,
                proof.sumcheck_round_polys@[i]@,
            ),
    ensures
        ({
            let out = sumcheck::<D, TS>(s, proof, l_skip, n_max, xi, xi_len, p, q, alpha);
            &&& out.err is None
            &&& out.cur_sum == g(out.rs)
        }),
{
    domain_sum_is_total(proof.univariate_round_coeffs@, l_skip);
    honest_rounds_keep_claim::<D, TS>(first, proof.sumcheck_round_polys@, n_max, g);
}

} // verus!
