//! Polynomials are determined by their values, and interpolation gives them back.

use vstd::prelude::*;

use crate::algebra::{
    f_inv, lemma_bb_multiple, lemma_bb_value, lemma_e_add_associates, lemma_e_add_zero,
    lemma_e_mul_associates, lemma_e_mul_commutes, lemma_e_mul_distributes,
    lemma_e_mul_distributes_sub, lemma_e_mul_one, lemma_e_mul_zero, lemma_e_scale, lemma_e_wf,
    lemma_linear, lemma_of_quad, q_add, q_sub, quad,
};
use crate::field::{bb, e_add, e_from, e_mul, e_one, e_sub, e_zero, BabyBear, EF, P};
use crate::multilinear::lemma_ext_poly_wf;
use crate::poly::ext_poly_eval;
use crate::prime::{is_unit, nonzero_is_unit};
use crate::verification::batching::lemma_zero_poly;
use crate::verification::interpolation::{
    f_fact, falling, interpolation_hits_values, lagrange_eval, lagrange_sum, lagrange_term,
    lemma_cancel, lemma_from_difference, rising,
};
use crate::verification::polynomial_fold::lemma_poly_linear;

verus! {

/// The quotient of a polynomial by `x - a`.
pub open spec fn quotient(c: Seq<EF>, a: EF) -> Seq<EF>
    decreases c.len(),
{
    if c.len() <= 1 {
        Seq::empty()
    } else {
        seq![ext_poly_eval(c.skip(1), a)] + quotient(c.skip(1), a)
    }
}

/// A polynomial is its value at `a` plus the quotient times `x - a`.
proof fn lemma_divides(c: Seq<EF>, a: EF, x: EF)
    ensures
        ext_poly_eval(c, x) == e_add(
            ext_poly_eval(c, a),
            e_mul(e_sub(x, a), ext_poly_eval(quotient(c, a), x)),
        ),
        c.len() > 0 ==> quotient(c, a).len() == c.len() - 1,
    decreases c.len(),
{
    let d = e_sub(x, a);
    lemma_e_mul_zero(d);
    lemma_e_mul_zero(a);
    lemma_e_mul_zero(x);
    lemma_ext_poly_wf(c, a);
    lemma_e_add_zero(ext_poly_eval(c, a));
    if c.len() <= 1 {
        if c.len() == 1 {
            assert(c.skip(1) =~= Seq::empty());
            assert(ext_poly_eval(c.skip(1), x) == e_zero());
            assert(ext_poly_eval(c.skip(1), a) == e_zero());
        }
        assert(ext_poly_eval(quotient(c, a), x) == e_zero());
    } else {
        let rest = c.skip(1);
        lemma_divides(rest, a, x);
        let v = ext_poly_eval(rest, a);
        let inner = quotient(rest, a);
        let q = ext_poly_eval(inner, x);
        assert(quotient(c, a).skip(1) =~= inner);
        assert(ext_poly_eval(quotient(c, a), x) == e_add(v, e_mul(q, x)));
        // (v + d q) x == v x + t
        let t = e_mul(e_mul(d, q), x);
        lemma_e_mul_distributes(x, v, e_mul(d, q));
        // d (v + q x) == (v x - v a) + t
        lemma_e_mul_distributes(d, v, e_mul(q, x));
        lemma_e_mul_associates(d, q, x);
        lemma_e_mul_commutes(d, v);
        lemma_e_mul_distributes_sub(v, x, a);
        let (vx, va) = (e_mul(v, x), e_mul(v, a));
        lemma_e_wf(v, x, bb(0));
        lemma_e_wf(v, a, bb(0));
        lemma_e_wf(e_mul(d, q), x, bb(0));
        lemma_e_add_associates(c[0], va, e_add(e_sub(vx, va), t));
        lemma_of_quad(vx);
        lemma_of_quad(va);
        lemma_of_quad(t);
        let (p, r, s) = (quad(vx), quad(va), quad(t));
        lemma_linear(p, r);
        lemma_linear(q_sub(p, r), s);
        lemma_linear(r, q_add(q_sub(p, r), s));
        lemma_linear(p, s);
        assert(q_add(r, q_add(q_sub(p, r), s)) == q_add(p, s));
    }
}

/// A product with a unit of the base field vanishes only where the other factor does.
proof fn lemma_unit_factor(v: EF, f: BabyBear)
    requires
        v.wf(),
        is_unit(f),
        e_mul(e_from(f), v) == e_zero(),
    ensures
        v == e_zero(),
{
    lemma_cancel(v, f);
    lemma_e_mul_commutes(e_from(f), v);
    let inverse = f_inv(f);
    lemma_e_scale(e_zero(), inverse);
    lemma_e_mul_zero(e_from(inverse));
}

/// A polynomial with `n` coefficients that vanishes at zero, one, and so on up to `n - 1` is zero
/// everywhere.
proof fn lemma_vanishes(c: Seq<EF>, x: EF)
    requires
        c.len() <= P,
        forall|i: int|
            0 <= i < c.len() ==> ext_poly_eval(c, #[trigger] e_from(bb(i))) == e_zero(),
    ensures
        ext_poly_eval(c, x) == e_zero(),
    decreases c.len(),
{
    if c.len() > 0 {
        let n = c.len() - 1;
        let a = e_from(bb(n));
        let q = quotient(c, a);
        lemma_divides(c, a, x);
        assert forall|i: int| 0 <= i < q.len() implies ext_poly_eval(
            q,
            #[trigger] e_from(bb(i)),
        ) == e_zero() by {
            let b = e_from(bb(i));
            lemma_divides(c, a, b);
            let v = ext_poly_eval(q, b);
            lemma_ext_poly_wf(q, b);
            // 0 == 0 + (i - n) v
            assert(ext_poly_eval(c, e_from(bb(n))) == e_zero());
            assert(ext_poly_eval(c, e_from(bb(i))) == e_zero());
            lemma_e_wf(e_sub(b, a), v, bb(0));
            lemma_e_add_zero(e_mul(e_sub(b, a), v));
            lemma_from_difference(i, n);
            let k = i - n + P;
            assert(bb(i - n) == bb(k)) by {
                lemma_bb_multiple(i - n, 1);
            }
            nonzero_is_unit(k);
            lemma_unit_factor(v, bb(k));
        }
        lemma_vanishes(q, x);
        lemma_e_mul_zero(e_sub(x, a));
        lemma_e_wf(e_zero(), e_zero(), bb(0));
        lemma_e_add_zero(e_zero());
        assert(ext_poly_eval(c, e_from(bb(n))) == e_zero());
    }
}

/// Whether `g` is a polynomial with `n` coefficients.
pub open spec fn is_polynomial(g: spec_fn(EF) -> EF, n: nat) -> bool {
    exists|c: Seq<EF>| #[trigger] has_coefficients(g, c) && c.len() == n
}

/// Whether `g` is the polynomial with the coefficients `c`.
pub open spec fn has_coefficients(g: spec_fn(EF) -> EF, c: Seq<EF>) -> bool {
    forall|x: EF| x.wf() ==> #[trigger] g(x) == ext_poly_eval(c, x)
}

/// A multiple of a polynomial is one.
proof fn lemma_poly_scales(k: EF, g: spec_fn(EF) -> EF, s: spec_fn(EF) -> EF, n: nat)
    requires
        is_polynomial(g, n),
        forall|x: EF| x.wf() ==> #[trigger] s(x) == e_mul(k, g(x)),
    ensures
        is_polynomial(s, n),
{
    let c = choose|c: Seq<EF>| #[trigger] has_coefficients(g, c) && c.len() == n;
    let zeros = Seq::new(n, |i: int| e_zero());
    let scaled = Seq::new(n, |i: int| e_add(zeros[i], e_mul(c[i], k)));
    assert forall|x: EF| x.wf() implies #[trigger] s(x) == ext_poly_eval(scaled, x) by {
        lemma_poly_linear(zeros, c, scaled, k, x);
        lemma_zero_poly(n, x);
        let v = ext_poly_eval(c, x);
        assert(g(x) == v);
        lemma_e_wf(v, k, bb(0));
        lemma_e_add_zero(e_mul(v, k));
        lemma_e_mul_commutes(v, k);
    }
    assert(has_coefficients(s, scaled));
}

/// The sum of two polynomials is one.
proof fn lemma_poly_adds(
    g: spec_fn(EF) -> EF,
    h: spec_fn(EF) -> EF,
    s: spec_fn(EF) -> EF,
    n: nat,
)
    requires
        is_polynomial(g, n),
        is_polynomial(h, n),
        forall|x: EF| x.wf() ==> #[trigger] s(x) == e_add(g(x), h(x)),
    ensures
        is_polynomial(s, n),
{
    let c = choose|c: Seq<EF>| #[trigger] has_coefficients(g, c) && c.len() == n;
    let d = choose|d: Seq<EF>| #[trigger] has_coefficients(h, d) && d.len() == n;
    let sum = Seq::new(n, |i: int| e_add(c[i], e_mul(d[i], e_one())));
    assert forall|x: EF| x.wf() implies #[trigger] s(x) == ext_poly_eval(sum, x) by {
        lemma_poly_linear(c, d, sum, e_one(), x);
        assert(g(x) == ext_poly_eval(c, x));
        assert(h(x) == ext_poly_eval(d, x));
        lemma_ext_poly_wf(d, x);
        lemma_e_mul_one(ext_poly_eval(d, x));
    }
    assert(has_coefficients(s, sum));
}

/// A zero as highest coefficient changes nothing.
proof fn lemma_pad(c: Seq<EF>, x: EF)
    ensures
        ext_poly_eval(c.push(e_zero()), x) == ext_poly_eval(c, x),
    decreases c.len(),
{
    let padded = c.push(e_zero());
    if c.len() == 0 {
        assert(padded.skip(1) =~= Seq::empty());
        assert(ext_poly_eval(padded.skip(1), x) == e_zero());
        lemma_e_mul_zero(x);
        lemma_e_wf(e_zero(), e_zero(), bb(0));
        lemma_e_add_zero(e_zero());
    } else {
        lemma_pad(c.skip(1), x);
        assert(padded.skip(1) =~= c.skip(1).push(e_zero()));
    }
}

/// The product of a polynomial and `x - a` is a polynomial.
proof fn lemma_poly_times_difference(
    g: spec_fn(EF) -> EF,
    a: EF,
    s: spec_fn(EF) -> EF,
    n: nat,
)
    requires
        is_polynomial(g, n),
        forall|x: EF| x.wf() ==> #[trigger] s(x) == e_mul(g(x), e_sub(x, a)),
    ensures
        is_polynomial(s, n + 1),
{
    let c = choose|c: Seq<EF>| #[trigger] has_coefficients(g, c) && c.len() == n;
    let shifted = seq![e_zero()] + c;
    let padded = c.push(e_zero());
    let minus = e_sub(e_zero(), a);
    let product = Seq::new(n + 1, |i: int| e_add(shifted[i], e_mul(padded[i], minus)));
    assert forall|x: EF| x.wf() implies #[trigger] s(x) == ext_poly_eval(product, x) by {
        let v = ext_poly_eval(c, x);
        assert(g(x) == v);
        lemma_poly_linear(shifted, padded, product, minus, x);
        lemma_pad(c, x);
        assert(shifted.skip(1) =~= c);
        let (vx, va) = (e_mul(v, x), e_mul(v, a));
        lemma_e_wf(v, x, bb(0));
        lemma_e_wf(v, a, bb(0));
        lemma_e_add_zero(vx);
        assert(ext_poly_eval(shifted, x) == vx);
        // v x + v (0 - a) == v x - v a
        lemma_e_mul_distributes_sub(v, e_zero(), a);
        lemma_e_mul_distributes_sub(v, x, a);
        lemma_e_mul_zero(v);
        lemma_minus(vx, va);
    }
    assert(has_coefficients(s, product));
}

/// `p + (0 - q) == p - q`.
proof fn lemma_minus(p: EF, q: EF)
    requires
        p.wf(),
        q.wf(),
    ensures
        e_add(p, e_sub(e_zero(), q)) == e_sub(p, q),
{
    lemma_e_wf(e_zero(), e_zero(), bb(0));
    lemma_of_quad(p);
    lemma_of_quad(q);
    lemma_of_quad(e_zero());
    let (a, b, z) = (quad(p), quad(q), quad(e_zero()));
    assert(z.c0 == 0 && z.c1 == 0 && z.c2 == 0 && z.c3 == 0) by {
        lemma_bb_value(0);
    }
    lemma_linear(z, b);
    lemma_linear(a, q_sub(z, b));
    lemma_linear(a, b);
    assert(q_add(a, q_sub(z, b)) == q_sub(a, b));
}

/// The product of a polynomial and `a - x` is a polynomial.
proof fn lemma_poly_times_other_difference(
    g: spec_fn(EF) -> EF,
    a: EF,
    s: spec_fn(EF) -> EF,
    n: nat,
)
    requires
        is_polynomial(g, n),
        a.wf(),
        forall|x: EF| x.wf() ==> #[trigger] s(x) == e_mul(g(x), e_sub(a, x)),
    ensures
        is_polynomial(s, n + 1),
{
    let other = |x: EF| e_mul(g(x), e_sub(x, a));
    lemma_poly_times_difference(g, a, other, n);
    let minus = e_sub(e_zero(), e_one());
    assert forall|x: EF| x.wf() implies #[trigger] s(x) == e_mul(minus, other(x)) by {
        let v = g(x);
        let p = e_sub(x, a);
        // a - x == 0 - (x - a)
        lemma_e_wf(x, a, bb(0));
        lemma_e_wf(a, x, bb(0));
        lemma_of_quad(x);
        lemma_of_quad(a);
        lemma_of_quad(e_zero());
        let (qx, qa, z) = (quad(x), quad(a), quad(e_zero()));
        assert(z.c0 == 0 && z.c1 == 0 && z.c2 == 0 && z.c3 == 0) by {
            lemma_bb_value(0);
        }
        lemma_linear(qx, qa);
        lemma_linear(z, q_sub(qx, qa));
        lemma_linear(qa, qx);
        assert(q_sub(z, q_sub(qx, qa)) == q_sub(qa, qx));
        assert(e_sub(a, x) == e_sub(e_zero(), p));
        lemma_e_mul_distributes_sub(v, e_zero(), p);
        lemma_e_mul_zero(v);
        let vp = e_mul(v, p);
        lemma_e_wf(v, p, bb(0));
        lemma_e_mul_distributes_sub(vp, e_zero(), e_one());
        lemma_e_mul_zero(vp);
        lemma_e_mul_one(vp);
    }
    lemma_poly_scales(minus, other, s, n + 1);
}

proof fn lemma_falling_is_polynomial(n: nat)
    ensures
        is_polynomial(|x: EF| falling(x, n), n + 1),
    decreases n,
{
    let g = |x: EF| falling(x, n);
    if n == 0 {
        let one = seq![e_one()];
        assert forall|x: EF| x.wf() implies #[trigger] g(x) == ext_poly_eval(one, x) by {
            assert(one.skip(1) =~= Seq::empty());
            assert(ext_poly_eval(one.skip(1), x) == e_zero());
            lemma_e_mul_zero(x);
            lemma_e_wf(e_one(), e_one(), bb(0));
            lemma_e_add_zero(e_one());
        }
        assert(has_coefficients(g, one));
    } else {
        let m = (n - 1) as nat;
        lemma_falling_is_polynomial(m);
        lemma_poly_times_difference(|x: EF| falling(x, m), e_from(bb(m as int)), g, n);
    }
}

proof fn lemma_products_are_polynomial(i: nat, d: nat, n: nat)
    ensures
        is_polynomial(|x: EF| e_mul(falling(x, i), rising(x, d, n)), i + n + 1),
    decreases n,
{
    let g = |x: EF| e_mul(falling(x, i), rising(x, d, n));
    if n == 0 {
        lemma_falling_is_polynomial(i);
        let f = |x: EF| falling(x, i);
        lemma_e_wf(e_one(), e_one(), bb(0));
        assert forall|x: EF| x.wf() implies #[trigger] g(x) == e_mul(e_one(), f(x)) by {
            lemma_e_mul_commutes(f(x), e_one());
        }
        lemma_poly_scales(e_one(), f, g, i + 1);
    } else {
        let m = (n - 1) as nat;
        lemma_products_are_polynomial(i, d, m);
        let before = |x: EF| e_mul(falling(x, i), rising(x, d, m));
        let a = e_from(bb(d - m));
        lemma_e_wf(a, a, bb(d - m));
        assert forall|x: EF| x.wf() implies #[trigger] g(x) == e_mul(before(x), e_sub(a, x)) by {
            lemma_e_mul_associates(falling(x, i), rising(x, d, m), e_sub(a, x));
        }
        lemma_poly_times_other_difference(before, a, g, i + n);
    }
}

proof fn lemma_term_is_polynomial(evals: Seq<EF>, i: int)
    requires
        0 <= i < evals.len(),
    ensures
        is_polynomial(|x: EF| lagrange_term(evals, x, i), evals.len()),
{
    let d = (evals.len() - 1) as nat;
    let rest = (d - i) as nat;
    let g = |x: EF| lagrange_term(evals, x, i);
    lemma_products_are_polynomial(i as nat, d, rest);
    let product = |x: EF| e_mul(falling(x, i as nat), rising(x, d, rest));
    let (p, q) = (
        e_from(f_inv(f_fact(i as nat))),
        e_from(f_inv(f_fact(rest))),
    );
    let s1 = |x: EF| e_mul(evals[i], product(x));
    let s2 = |x: EF| e_mul(p, s1(x));
    lemma_poly_scales(evals[i], product, s1, evals.len());
    lemma_poly_scales(p, s1, s2, evals.len());
    assert forall|x: EF| x.wf() implies #[trigger] g(x) == e_mul(q, s2(x)) by {
        let (f, r) = (falling(x, i as nat), rising(x, d, rest));
        lemma_e_mul_associates(evals[i], f, r);
        lemma_e_scale(s1(x), f_inv(f_fact(i as nat)));
        lemma_e_mul_commutes(s1(x), p);
        lemma_e_scale(s2(x), f_inv(f_fact(rest)));
        lemma_e_mul_commutes(s2(x), q);
    }
    lemma_poly_scales(q, s2, g, evals.len());
}

proof fn lemma_sum_is_polynomial(evals: Seq<EF>, n: nat)
    requires
        n <= evals.len(),
    ensures
        is_polynomial(|x: EF| lagrange_sum(evals, x, n), evals.len()),
    decreases n,
{
    let g = |x: EF| lagrange_sum(evals, x, n);
    if n == 0 {
        let zeros = Seq::new(evals.len(), |i: int| e_zero());
        assert forall|x: EF| x.wf() implies #[trigger] g(x) == ext_poly_eval(zeros, x) by {
            lemma_zero_poly(evals.len(), x);
        }
        assert(has_coefficients(g, zeros));
    } else {
        let m = (n - 1) as nat;
        lemma_sum_is_polynomial(evals, m);
        lemma_term_is_polynomial(evals, m as int);
        lemma_poly_adds(
            |x: EF| lagrange_sum(evals, x, m),
            |x: EF| lagrange_term(evals, x, m as int),
            g,
            evals.len(),
        );
    }
}

/// Polynomials are determined by their values: two with `n` coefficients that agree at zero, one,
/// and so on up to `n - 1` agree everywhere.
pub proof fn values_determine_polynomial(
    g: spec_fn(EF) -> EF,
    h: spec_fn(EF) -> EF,
    n: nat,
    x: EF,
)
    requires
        n <= P,
        is_polynomial(g, n),
        is_polynomial(h, n),
        forall|i: int|
            0 <= i < n ==> g(#[trigger] e_from(bb(i))) == h(e_from(bb(i))),
        x.wf(),
    ensures
        g(x) == h(x),
{
    let c = choose|c: Seq<EF>| #[trigger] has_coefficients(g, c) && c.len() == n;
    let d = choose|d: Seq<EF>| #[trigger] has_coefficients(h, d) && d.len() == n;
    let minus = e_sub(e_zero(), e_one());
    let difference = Seq::new(n, |i: int| e_add(c[i], e_mul(d[i], minus)));
    assert forall|y: EF| y.wf() implies #[trigger] ext_poly_eval(difference, y) == e_sub(
        g(y),
        h(y),
    ) by {
        lemma_poly_linear(c, d, difference, minus, y);
        let (p, q) = (ext_poly_eval(c, y), ext_poly_eval(d, y));
        assert(g(y) == p && h(y) == q);
        lemma_ext_poly_wf(c, y);
        lemma_ext_poly_wf(d, y);
        lemma_e_mul_distributes_sub(q, e_zero(), e_one());
        lemma_e_mul_zero(q);
        lemma_e_mul_one(q);
        lemma_minus(p, q);
    }
    assert forall|i: int| 0 <= i < n implies ext_poly_eval(
        difference,
        #[trigger] e_from(bb(i)),
    ) == e_zero() by {
        let y = e_from(bb(i));
        lemma_e_wf(y, y, bb(i));
        assert(ext_poly_eval(difference, y) == e_sub(g(y), h(y)));
        assert(h(y) == ext_poly_eval(d, y));
        lemma_ext_poly_wf(d, y);
        lemma_e_add_zero(h(y));
    }
    lemma_vanishes(difference, x);
    // p - q == 0
    let (p, q) = (g(x), h(x));
    assert(p == ext_poly_eval(c, x) && q == ext_poly_eval(d, x));
    assert(ext_poly_eval(difference, x) == e_sub(p, q));
    lemma_ext_poly_wf(c, x);
    lemma_ext_poly_wf(d, x);
    lemma_of_quad(p);
    lemma_of_quad(q);
    let (a, b) = (quad(p), quad(q));
    lemma_linear(a, b);
    lemma_linear(q_sub(a, b), b);
    assert(q_add(q_sub(a, b), b) == a);
    lemma_e_add_zero(q);
}

/// Interpolation gives polynomials back: from the values at zero, one, and so on of a polynomial
/// with as many coefficients as there are values, its value at any point.
pub proof fn interpolation_gives_polynomial_back(g: spec_fn(EF) -> EF, evals: Seq<EF>, x: EF)
    requires
        evals.len() <= P,
        is_polynomial(g, evals.len()),
        forall|i: int| 0 <= i < evals.len() ==> #[trigger] evals[i] == g(e_from(bb(i))),
        x.wf(),
    ensures
        lagrange_eval(evals, x) == g(x),
{
    let l = |y: EF| lagrange_eval(evals, y);
    lemma_sum_is_polynomial(evals, evals.len());
    let sum = |y: EF| lagrange_sum(evals, y, evals.len());
    let c = choose|c: Seq<EF>|
        #[trigger] has_coefficients(sum, c) && c.len() == evals.len();
    assert forall|y: EF| y.wf() implies #[trigger] l(y) == ext_poly_eval(c, y) by {
        assert(sum(y) == ext_poly_eval(c, y));
    }
    assert(has_coefficients(l, c));
    let d = choose|d: Seq<EF>| #[trigger] has_coefficients(g, d) && d.len() == evals.len();
    assert forall|i: int| 0 <= i < evals.len() implies l(#[trigger] e_from(bb(i))) == g(
        e_from(bb(i)),
    ) by {
        let y = e_from(bb(i));
        lemma_e_wf(y, y, bb(i));
        assert(evals[i] == g(y));
        assert(g(y) == ext_poly_eval(d, y));
        lemma_ext_poly_wf(d, y);
        interpolation_hits_values(evals, i);
    }
    values_determine_polynomial(l, g, evals.len(), x);
}

} // verus!
