//! Sums over hypercubes of products of two multilinear polynomials, and the reduction of such a
//! sum to one with a variable less.

use vstd::arithmetic::power2::*;
use vstd::prelude::*;

use crate::algebra::{
    lemma_e_add_associates, lemma_e_add_zero, lemma_e_from_ring, lemma_e_mul_associates,
    lemma_e_mul_commutes, lemma_e_mul_distributes, lemma_e_mul_distributes_sub, lemma_e_mul_one,
    lemma_e_scale, lemma_e_wf, lemma_linear, lemma_of_quad, q_add, q_sub, quad,
};
use crate::field::{bb, e_add, e_from, e_mul, e_one, e_scale, e_sub, e_zero, f_add, f_half, EF};
use crate::multilinear::{
    all_wf, coeff_eval, cube_sum, last_is, lemma_cube_sum_adds, lemma_cube_sum_same,
    lemma_cube_sum_scales, lemma_e_add_swap, lemma_halves,
};
use crate::poly::{eq1, mobius_eq1, quadratic_at};
use crate::verification::polynomial_fold::{bind_first, lemma_bind_first_evaluates};

verus! {

/// Whether `g` is the line `a + b x`.
pub open spec fn on_line(g: spec_fn(EF) -> EF, a: EF, b: EF) -> bool {
    &&& a.wf()
    &&& b.wf()
    &&& forall|x: EF| x.wf() ==> #[trigger] g(x) == e_add(a, e_mul(b, x))
}

/// Whether `g` is a line.
pub open spec fn is_line(g: spec_fn(EF) -> EF) -> bool {
    exists|a: EF, b: EF| #[trigger] on_line(g, a, b)
}

/// The sum of two lines is a line.
pub proof fn lemma_line_adds(g: spec_fn(EF) -> EF, h: spec_fn(EF) -> EF, s: spec_fn(EF) -> EF)
    requires
        is_line(g),
        is_line(h),
        forall|x: EF| x.wf() ==> #[trigger] s(x) == e_add(g(x), h(x)),
    ensures
        is_line(s),
{
    let (a, b) = choose|a: EF, b: EF| #[trigger] on_line(g, a, b);
    let (c, d) = choose|c: EF, d: EF| #[trigger] on_line(h, c, d);
    lemma_e_wf(a, c, bb(0));
    lemma_e_wf(b, d, bb(0));
    assert forall|x: EF| x.wf() implies #[trigger] s(x) == e_add(
        e_add(a, c),
        e_mul(e_add(b, d), x),
    ) by {
        assert(g(x) == e_add(a, e_mul(b, x)));
        assert(h(x) == e_add(c, e_mul(d, x)));
        lemma_e_add_swap(a, e_mul(b, x), c, e_mul(d, x));
        lemma_e_mul_distributes(x, b, d);
    }
    assert(on_line(s, e_add(a, c), e_add(b, d)));
}

/// A multiple of a line is a line.
pub proof fn lemma_line_scales(k: EF, g: spec_fn(EF) -> EF, s: spec_fn(EF) -> EF)
    requires
        is_line(g),
        forall|x: EF| x.wf() ==> #[trigger] s(x) == e_mul(k, g(x)),
    ensures
        is_line(s),
{
    let (a, b) = choose|a: EF, b: EF| #[trigger] on_line(g, a, b);
    lemma_e_wf(k, a, bb(0));
    lemma_e_wf(k, b, bb(0));
    assert forall|x: EF| x.wf() implies #[trigger] s(x) == e_add(
        e_mul(k, a),
        e_mul(e_mul(k, b), x),
    ) by {
        assert(g(x) == e_add(a, e_mul(b, x)));
        lemma_e_mul_distributes(k, a, e_mul(b, x));
        lemma_e_mul_associates(k, b, x);
    }
    assert(on_line(s, e_mul(k, a), e_mul(k, b)));
}

/// The equality kernel of one variable is a line.
pub proof fn lemma_eq1_line(y: EF)
    requires
        y.wf(),
    ensures
        is_line(|x: EF| eq1(x, y)),
{
    let g = |x: EF| eq1(x, y);
    let a = e_sub(e_one(), y);
    let b = e_sub(y, a);
    lemma_e_wf(e_one(), y, bb(0));
    lemma_e_wf(y, a, bb(0));
    assert forall|x: EF| x.wf() implies #[trigger] g(x) == e_add(a, e_mul(b, x)) by {
        let xy = e_mul(x, y);
        lemma_e_mul_commutes(x, y);
        // b x == y x - (x - y x)
        lemma_e_mul_distributes_sub(x, y, a);
        lemma_e_mul_distributes_sub(x, e_one(), y);
        lemma_e_mul_one(x);
        lemma_e_wf(x, y, bb(0));
        lemma_of_quad(e_one());
        lemma_of_quad(x);
        lemma_of_quad(y);
        lemma_of_quad(xy);
        let (o, qx, qy, p) = (quad(e_one()), quad(x), quad(y), quad(xy));
        lemma_linear(o, qx);
        lemma_linear(q_sub(o, qx), qy);
        lemma_linear(p, p);
        lemma_linear(q_sub(q_sub(o, qx), qy), q_add(p, p));
        lemma_linear(o, qy);
        lemma_linear(qx, p);
        lemma_linear(p, q_sub(qx, p));
        lemma_linear(q_sub(o, qy), q_sub(p, q_sub(qx, p)));
        assert(q_add(q_sub(q_sub(o, qx), qy), q_add(p, p)) == q_add(
            q_sub(o, qy),
            q_sub(p, q_sub(qx, p)),
        ));
    }
    assert(on_line(g, a, b));
}

/// The Moebius kernel of one variable is a line.
pub proof fn lemma_mobius_eq1_line(u: EF)
    requires
        u.wf(),
    ensures
        is_line(|x: EF| mobius_eq1(u, x)),
{
    let g = |x: EF| mobius_eq1(u, x);
    let a = e_sub(e_sub(e_one(), u), u);
    let b = e_sub(u, a);
    lemma_e_wf(e_sub(e_one(), u), u, bb(0));
    lemma_e_wf(u, a, bb(0));
    assert forall|x: EF| x.wf() implies #[trigger] g(x) == e_add(a, e_mul(b, x)) by {
        let (ax, ux) = (e_mul(a, x), e_mul(u, x));
        lemma_e_mul_distributes_sub(a, e_one(), x);
        lemma_e_mul_one(a);
        lemma_e_mul_distributes_sub(x, u, a);
        lemma_e_wf(a, x, bb(0));
        lemma_e_wf(u, x, bb(0));
        lemma_of_quad(a);
        lemma_of_quad(ax);
        lemma_of_quad(ux);
        let (qa, p, q) = (quad(a), quad(ax), quad(ux));
        lemma_linear(qa, p);
        lemma_linear(q_sub(qa, p), q);
        lemma_linear(q, p);
        lemma_linear(qa, q_sub(q, p));
        assert(q_add(q_sub(qa, p), q) == q_add(qa, q_sub(q, p)));
    }
    assert(on_line(g, a, b));
}

/// The point with `x` in front of `b`.
pub open spec fn front(x: EF, b: Seq<EF>) -> Seq<EF> {
    seq![x] + b
}

/// A multilinear polynomial is a line in its first variable.
pub proof fn lemma_coeff_eval_line(c: Seq<EF>, b: Seq<EF>)
    requires
        c.len() == pow2(b.len() + 1),
        all_wf(c),
    ensures
        is_line(|x: EF| coeff_eval(c, front(x, b))),
    decreases b.len(),
{
    let g = |x: EF| coeff_eval(c, front(x, b));
    lemma2_to64();
    lemma_halves(c, b.len() + 1);
    let h = (c.len() / 2) as int;
    if b.len() == 0 {
        assert forall|x: EF| x.wf() implies #[trigger] g(x) == e_add(c[0], e_mul(c[1], x)) by {
            let p = front(x, b);
            assert(p.drop_last() =~= Seq::empty());
            assert(coeff_eval(c.take(h), p.drop_last()) == c.take(h)[0]);
            assert(coeff_eval(c.skip(h), p.drop_last()) == c.skip(h)[0]);
        }
        assert(on_line(g, c[0], c[1]));
    } else {
        let init = b.drop_last();
        lemma_coeff_eval_line(c.take(h), init);
        lemma_coeff_eval_line(c.skip(h), init);
        let lo = |x: EF| coeff_eval(c.take(h), front(x, init));
        let hi = |x: EF| coeff_eval(c.skip(h), front(x, init));
        let scaled = |x: EF| e_mul(b.last(), hi(x));
        lemma_line_scales(b.last(), hi, scaled);
        assert forall|x: EF| x.wf() implies #[trigger] g(x) == e_add(lo(x), scaled(x)) by {
            assert(front(x, b).drop_last() =~= front(x, init));
            lemma_e_mul_commutes(hi(x), b.last());
        }
        lemma_line_adds(lo, scaled, g);
    }
}

/// The function `g` with its first variable set to `x`.
pub open spec fn first_is(g: spec_fn(Seq<EF>) -> EF, x: EF) -> spec_fn(Seq<EF>) -> EF {
    |b: Seq<EF>| g(front(x, b))
}

/// A sum over a hypercube is the sum of those with the first variable set to zero and to one.
pub proof fn lemma_cube_sum_first(n: nat, g: spec_fn(Seq<EF>) -> EF)
    requires
        n >= 1,
    ensures
        cube_sum(n, g) == e_add(
            cube_sum((n - 1) as nat, first_is(g, e_zero())),
            cube_sum((n - 1) as nat, first_is(g, e_one())),
        ),
    decreases n,
{
    let (zero, one) = (e_zero(), e_one());
    let m = (n - 1) as nat;
    if n == 1 {
        assert(Seq::<EF>::empty().push(zero) =~= front(zero, Seq::empty()));
        assert(Seq::<EF>::empty().push(one) =~= front(one, Seq::empty()));
        assert(cube_sum(0, last_is(g, zero)) == g(Seq::<EF>::empty().push(zero)));
        assert(cube_sum(0, last_is(g, one)) == g(Seq::<EF>::empty().push(one)));
        assert(cube_sum(0, first_is(g, zero)) == g(front(zero, Seq::empty())));
        assert(cube_sum(0, first_is(g, one)) == g(front(one, Seq::empty())));
    } else {
        let l = (m - 1) as nat;
        lemma_cube_sum_first(m, last_is(g, zero));
        lemma_cube_sum_first(m, last_is(g, one));
        lemma_first_and_last(l, g, zero, zero);
        lemma_first_and_last(l, g, zero, one);
        lemma_first_and_last(l, g, one, zero);
        lemma_first_and_last(l, g, one, one);
        lemma_e_add_swap(
            cube_sum(l, first_is(last_is(g, zero), zero)),
            cube_sum(l, first_is(last_is(g, zero), one)),
            cube_sum(l, first_is(last_is(g, one), zero)),
            cube_sum(l, first_is(last_is(g, one), one)),
        );
    }
}

proof fn lemma_first_and_last(n: nat, g: spec_fn(Seq<EF>) -> EF, x: EF, y: EF)
    ensures
        cube_sum(n, first_is(last_is(g, y), x)) == cube_sum(n, last_is(first_is(g, x), y)),
{
    let (v, w) = (first_is(last_is(g, y), x), last_is(first_is(g, x), y));
    assert forall|b: Seq<EF>| b.len() == n implies #[trigger] v(b) == w(b) by {
        assert(front(x, b).push(y) =~= front(x, b.push(y)));
    }
    lemma_cube_sum_same(n, v, w);
}

/// A polynomial of degree two is the one through its values at zero, one and two.
pub proof fn lemma_quadratic(a: EF, b: EF, c: EF, x: EF)
    requires
        a.wf(),
        b.wf(),
        c.wf(),
    ensures
        ({
            let at1 = e_add(a, e_mul(e_add(b, e_mul(c, e_one())), e_one()));
            let two = e_add(e_one(), e_one());
            let at2 = e_add(a, e_mul(e_add(b, e_mul(c, two)), two));
            quadratic_at(a, at1, at2, x) == e_add(a, e_mul(e_add(b, e_mul(c, x)), x))
        }),
{
    let one = e_one();
    let two = e_add(one, one);
    let half = f_half(bb(1));
    lemma_e_mul_one(c);
    let s1 = e_add(b, c);
    lemma_e_wf(b, c, half);
    lemma_e_mul_one(s1);
    let at1 = e_add(a, s1);
    lemma_e_mul_distributes(c, one, one);
    let c2 = e_add(c, c);
    lemma_e_wf(c, c, half);
    let s2 = e_add(b, c2);
    lemma_e_wf(b, c2, half);
    lemma_e_mul_distributes(s2, one, one);
    lemma_e_mul_one(s2);
    let at2 = e_add(a, e_add(s2, s2));
    lemma_of_quad(a);
    lemma_of_quad(b);
    lemma_of_quad(c);
    let (qa, qb, qc) = (quad(a), quad(b), quad(c));
    lemma_linear(qb, qc);
    let q1 = q_add(qa, q_add(qb, qc));
    lemma_linear(qa, q_add(qb, qc));
    lemma_linear(qc, qc);
    let qs2 = q_add(qb, q_add(qc, qc));
    lemma_linear(qb, q_add(qc, qc));
    lemma_linear(qs2, qs2);
    let q2 = q_add(qa, q_add(qs2, qs2));
    lemma_linear(qa, q_add(qs2, qs2));
    // at2 - at1 - at1 + a == c + c
    lemma_linear(q2, q1);
    lemma_linear(q_sub(q2, q1), q1);
    lemma_linear(q_sub(q_sub(q2, q1), q1), qa);
    let d = e_add(e_sub(e_sub(at2, at1), at1), a);
    assert(q_add(q_sub(q_sub(q2, q1), q1), qa) == q_add(qc, qc));
    assert(d == c2);
    // half of it is c
    lemma_e_scale(d, half);
    lemma_e_mul_distributes(e_from(half), c, c);
    lemma_e_mul_distributes(c, e_from(half), e_from(half));
    lemma_e_from_ring(half, half);
    assert(e_from(f_add(half, half)) == one) by {
        reveal(f_half);
        reveal(f_add);
        reveal(e_from);
        assert(bb(1).value == 1);
        assert(half.value == 1006632961);
        assert(bb(2013265922) == bb(1));
    }
    assert(e_scale(d, half) == c);
    // at1 - a - c == b
    lemma_linear(q1, qa);
    lemma_linear(q_sub(q1, qa), qc);
    assert(q_sub(q_sub(q1, qa), qc) == qb);
}

/// A line is fixed by its values at zero and one.
pub proof fn lemma_line_values(g: spec_fn(EF) -> EF, x: EF)
    requires
        is_line(g),
        x.wf(),
    ensures
        g(e_zero()).wf(),
        g(e_one()).wf(),
        g(x) == e_add(g(e_zero()), e_mul(e_sub(g(e_one()), g(e_zero())), x)),
{
    let (a, b) = choose|a: EF, b: EF| #[trigger] on_line(g, a, b);
    lemma_e_wf(a, b, bb(0));
    lemma_e_mul_one(b);
    lemma_e_add_zero(a);
    assert(g(e_zero()) == e_add(a, e_mul(b, e_zero())));
    assert(g(e_one()) == e_add(a, e_mul(b, e_one())));
    assert(g(x) == e_add(a, e_mul(b, x)));
    // (a + b) - a == b
    lemma_of_quad(a);
    lemma_of_quad(b);
    let (qa, qb) = (quad(a), quad(b));
    lemma_linear(qa, qb);
    lemma_linear(q_add(qa, qb), qa);
    assert(q_sub(q_add(qa, qb), qa) == qb);
}

/// The product of two lines.
proof fn lemma_line_product(f0: EF, f1: EF, w0: EF, w1: EF, x: EF)
    ensures
        e_mul(e_add(f0, e_mul(f1, x)), e_add(w0, e_mul(w1, x))) == e_add(
            e_mul(f0, w0),
            e_mul(
                x,
                e_add(
                    e_add(e_mul(f0, w1), e_mul(f1, w0)),
                    e_mul(x, e_mul(f1, w1)),
                ),
            ),
        ),
{
    let (fx, wx) = (e_mul(f1, x), e_mul(w1, x));
    let w = e_add(w0, wx);
    lemma_e_mul_distributes(w, f0, fx);
    lemma_e_mul_distributes(f0, w0, wx);
    lemma_e_mul_distributes(fx, w0, wx);
    let (p, q) = (e_mul(f0, w1), e_mul(f1, w0));
    let r = e_mul(x, e_mul(f1, w1));
    // f0 (w1 x) == x (f0 w1)
    lemma_e_mul_associates(f0, w1, x);
    lemma_e_mul_commutes(p, x);
    // (f1 x) w0 == x (f1 w0)
    lemma_e_mul_commutes(f1, x);
    lemma_e_mul_associates(x, f1, w0);
    // (f1 x) (w1 x) == x (x (f1 w1))
    lemma_e_mul_associates(x, f1, wx);
    lemma_e_mul_associates(f1, w1, x);
    lemma_e_mul_commutes(e_mul(f1, w1), x);
    lemma_e_mul_distributes(x, e_add(p, q), r);
    lemma_e_mul_distributes(x, p, q);
    let (a, xp, xq, xr) = (e_mul(f0, w0), e_mul(x, p), e_mul(x, q), e_mul(x, r));
    // (a + xp) + (xq + xr) == a + ((xp + xq) + xr)
    lemma_e_add_associates(a, xp, e_add(xq, xr));
    lemma_e_add_associates(xp, xq, xr);
}

/// The values on the hypercube of the polynomial with the coefficients `c`, each times its weight.
pub open spec fn weighted_values(
    c: Seq<EF>,
    weight: spec_fn(Seq<EF>) -> EF,
) -> spec_fn(Seq<EF>) -> EF {
    |b: Seq<EF>| e_mul(coeff_eval(c, b), weight(b))
}

/// The weighted sum over all variables but the first, which is set to `x`.
pub open spec fn sum_at(c: Seq<EF>, weight: spec_fn(Seq<EF>) -> EF, n: nat, x: EF) -> EF {
    cube_sum((n - 1) as nat, first_is(weighted_values(c, weight), x))
}

/// The function `g` of the first variable, with the others set to `b`.
pub open spec fn in_first(g: spec_fn(Seq<EF>) -> EF, b: Seq<EF>) -> spec_fn(EF) -> EF {
    |x: EF| g(front(x, b))
}

/// Whether `weight` is a line in the first of its `n` variables.
pub open spec fn first_is_line(weight: spec_fn(Seq<EF>) -> EF, n: nat) -> bool {
    forall|b: Seq<EF>| b.len() == n - 1 ==> is_line(#[trigger] in_first(weight, b))
}

/// A weighted sum is a polynomial of degree two in the variable that is left out of it.
proof fn lemma_sum_at(
    c: Seq<EF>,
    weight: spec_fn(Seq<EF>) -> EF,
    n: nat,
    x: EF,
    sums: (EF, EF, EF),
    parts: (spec_fn(Seq<EF>) -> EF, spec_fn(Seq<EF>) -> EF, spec_fn(Seq<EF>) -> EF),
)
    requires
        n >= 1,
        c.len() == pow2(n),
        all_wf(c),
        x.wf(),
        first_is_line(weight, n),
        parts == quadratic_parts(c, weight),
        sums.0 == cube_sum((n - 1) as nat, parts.0),
        sums.1 == cube_sum((n - 1) as nat, parts.1),
        sums.2 == cube_sum((n - 1) as nat, parts.2),
    ensures
        sum_at(c, weight, n, x) == e_add(
            sums.0,
            e_mul(e_add(sums.1, e_mul(sums.2, x)), x),
        ),
{
    let m = (n - 1) as nat;
    let h1 = |b: Seq<EF>| e_mul(x, (parts.2)(b));
    let h2 = |b: Seq<EF>| e_add((parts.1)(b), h1(b));
    let h3 = |b: Seq<EF>| e_mul(x, h2(b));
    let all = first_is(weighted_values(c, weight), x);
    lemma_cube_sum_scales(m, x, parts.2, h1);
    lemma_cube_sum_adds(m, parts.1, h1, h2);
    lemma_cube_sum_scales(m, x, h2, h3);
    assert forall|b: Seq<EF>| b.len() == m implies #[trigger] all(b) == e_add(
        (parts.0)(b),
        h3(b),
    ) by {
        let f = |x: EF| coeff_eval(c, front(x, b));
        let w = in_first(weight, b);
        lemma_coeff_eval_line(c, b);
        lemma_line_values(f, x);
        lemma_line_values(w, x);
        lemma_line_product(
            f(e_zero()),
            e_sub(f(e_one()), f(e_zero())),
            w(e_zero()),
            e_sub(w(e_one()), w(e_zero())),
            x,
        );
    }
    lemma_cube_sum_adds(m, parts.0, h3, all);
    lemma_e_mul_commutes(sums.2, x);
    lemma_e_mul_commutes(e_add(sums.1, e_mul(sums.2, x)), x);
}

/// The coefficients of the polynomial of degree two that the product of a polynomial and its
/// weight is in the first variable, for each value of the others.
pub open spec fn quadratic_parts(c: Seq<EF>, weight: spec_fn(Seq<EF>) -> EF) -> (
    spec_fn(Seq<EF>) -> EF,
    spec_fn(Seq<EF>) -> EF,
    spec_fn(Seq<EF>) -> EF,
) {
    let f0 = |b: Seq<EF>| coeff_eval(c, front(e_zero(), b));
    let f1 = |b: Seq<EF>| e_sub(coeff_eval(c, front(e_one(), b)), f0(b));
    let w0 = |b: Seq<EF>| weight(front(e_zero(), b));
    let w1 = |b: Seq<EF>| e_sub(weight(front(e_one(), b)), w0(b));
    (
        |b: Seq<EF>| e_mul(f0(b), w0(b)),
        |b: Seq<EF>| e_add(e_mul(f0(b), w1(b)), e_mul(f1(b), w0(b))),
        |b: Seq<EF>| e_mul(f1(b), w1(b)),
    )
}

proof fn lemma_cube_sum_wf(n: nat, g: spec_fn(Seq<EF>) -> EF)
    requires
        forall|b: Seq<EF>| b.len() == n ==> (#[trigger] g(b)).wf(),
    ensures
        cube_sum(n, g).wf(),
{
    if n > 0 {
        let m = (n - 1) as nat;
        lemma_e_wf(cube_sum(m, last_is(g, e_zero())), cube_sum(m, last_is(g, e_one())), bb(0));
    }
}

/// A folding step keeps the claim: where the claim is the weighted sum of a polynomial, and the
/// two values that are sent are those of the sum with the first variable set to one and to two,
/// the claim that the step leaves is the weighted sum with the first variable set to the
/// challenge.
pub proof fn folding_keeps_claim(
    c: Seq<EF>,
    weight: spec_fn(Seq<EF>) -> EF,
    n: nat,
    claim: EF,
    alpha: EF,
)
    requires
        n >= 1,
        c.len() == pow2(n),
        all_wf(c),
        alpha.wf(),
        first_is_line(weight, n),
        claim == cube_sum(n, weighted_values(c, weight)),
    ensures
        ({
            let e1 = sum_at(c, weight, n, e_one());
            let e2 = sum_at(c, weight, n, e_add(e_one(), e_one()));
            quadratic_at(e_sub(claim, e1), e1, e2, alpha) == cube_sum(
                (n - 1) as nat,
                weighted_values(bind_first(c, alpha), first_is(weight, alpha)),
            )
        }),
{
    let m = (n - 1) as nat;
    let two = e_add(e_one(), e_one());
    let parts = quadratic_parts(c, weight);
    let (s0, s1, s2) = (cube_sum(m, parts.0), cube_sum(m, parts.1), cube_sum(m, parts.2));
    lemma_e_wf(e_one(), e_one(), bb(0));
    assert forall|b: Seq<EF>| b.len() == m implies (#[trigger] (parts.0)(b)).wf() by {
        lemma_e_wf(coeff_eval(c, front(e_zero(), b)), weight(front(e_zero(), b)), bb(0));
    }
    assert forall|b: Seq<EF>| b.len() == m implies (#[trigger] (parts.1)(b)).wf() by {
        let f0 = coeff_eval(c, front(e_zero(), b));
        let f1 = e_sub(coeff_eval(c, front(e_one(), b)), f0);
        let w0 = weight(front(e_zero(), b));
        let w1 = e_sub(weight(front(e_one(), b)), w0);
        lemma_e_wf(e_mul(f0, w1), e_mul(f1, w0), bb(0));
    }
    assert forall|b: Seq<EF>| b.len() == m implies (#[trigger] (parts.2)(b)).wf() by {
        let f1 = e_sub(coeff_eval(c, front(e_one(), b)), coeff_eval(c, front(e_zero(), b)));
        let w1 = e_sub(weight(front(e_one(), b)), weight(front(e_zero(), b)));
        lemma_e_wf(f1, w1, bb(0));
    }
    lemma_cube_sum_wf(m, parts.0);
    lemma_cube_sum_wf(m, parts.1);
    lemma_cube_sum_wf(m, parts.2);
    let sums = (s0, s1, s2);
    lemma_sum_at(c, weight, n, e_zero(), sums, parts);
    lemma_sum_at(c, weight, n, e_one(), sums, parts);
    lemma_sum_at(c, weight, n, two, sums, parts);
    lemma_sum_at(c, weight, n, alpha, sums, parts);
    // at zero the sum is the first part
    lemma_e_wf(s1, e_mul(s2, e_zero()), bb(0));
    lemma_e_mul_one(e_add(s1, e_mul(s2, e_zero())));
    lemma_e_add_zero(s0);
    // the claim is the sum of the values at zero and one
    lemma_cube_sum_first(n, weighted_values(c, weight));
    let e1 = sum_at(c, weight, n, e_one());
    lemma_e_wf(s0, e_mul(e_add(s1, e_mul(s2, e_one())), e_one()), bb(0));
    lemma_of_quad(s0);
    lemma_of_quad(e1);
    let (q0, q1) = (quad(s0), quad(e1));
    lemma_linear(q0, q1);
    lemma_linear(q_add(q0, q1), q1);
    assert(q_sub(q_add(q0, q1), q1) == q0);
    lemma_quadratic(s0, s1, s2, alpha);
    // setting the first variable binds the coefficients
    let bound = weighted_values(bind_first(c, alpha), first_is(weight, alpha));
    let at = first_is(weighted_values(c, weight), alpha);
    assert forall|b: Seq<EF>| b.len() == m implies #[trigger] bound(b) == at(b) by {
        lemma_bind_first_evaluates(c, alpha, b);
    }
    lemma_cube_sum_same(m, bound, at);
}

} // verus!
