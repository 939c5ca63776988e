//! Folding of polynomials in coefficient form.

use vstd::arithmetic::div_mod::{lemma_fundamental_div_mod, lemma_mod_multiples_basic};
use vstd::arithmetic::power2::*;
use vstd::prelude::*;

use crate::algebra::{
    f_inv, lemma_bb_add, lemma_bb_mul, lemma_bb_value, lemma_e_add_associates, lemma_e_add_commutes,
    lemma_e_add_zero, lemma_e_from_ring, lemma_e_mul_associates, lemma_e_mul_commutes,
    lemma_e_mul_distributes, lemma_e_mul_distributes_sub, lemma_e_mul_one, lemma_e_mul_zero,
    lemma_e_scale, lemma_e_wf, lemma_f_inv_unique, lemma_f_mul_associates, lemma_f_mul_commutes,
    lemma_f_mul_one, lemma_f_pow_adds, lemma_f_pow_multiplies, lemma_f_pow_wf,
    lemma_generator_power, lemma_generator_power_nonzero, lemma_linear, lemma_of_quad, q_add, q_sub,
    quad,
};
use crate::bits::lemma_log2_pow2;
use crate::field::{
    bb, e_add, e_from, e_mul, e_one, e_sub, e_zero, f_add, f_generator, f_half, f_mul, f_pow, f_sub,
    BabyBear, EF,
};
use crate::multilinear::{coeff_eval, lemma_e_add_swap, lemma_ext_poly_wf};
use crate::poly::{ext_poly_eval, poly_eval};
use crate::prime::is_unit;
use crate::reed_solomon::codeword;
use crate::verification::fold::{coset_point, f_neg, fold_at, k_fold, k_fold_evaluates_fold};

verus! {

/// The coefficients of the even powers.
pub open spec fn evens(c: Seq<EF>) -> Seq<EF> {
    Seq::new(((c.len() + 1) / 2) as nat, |i: int| c[2 * i])
}

/// The coefficients of the odd powers.
pub open spec fn odds(c: Seq<EF>) -> Seq<EF> {
    Seq::new(c.len() / 2, |i: int| c[2 * i + 1])
}

/// The coefficients with the first variable set to `alpha`: `c[2i] + alpha c[2i + 1]`.
pub open spec fn bind_first(c: Seq<EF>, alpha: EF) -> Seq<EF> {
    Seq::new(c.len() / 2, |i: int| e_add(c[2 * i], e_mul(c[2 * i + 1], alpha)))
}

/// The coefficients with the first variables set to `alphas`.
pub open spec fn bind_all(c: Seq<EF>, alphas: Seq<EF>) -> Seq<EF>
    decreases alphas.len(),
{
    if alphas.len() == 0 {
        c
    } else {
        bind_all(bind_first(c, alphas[0]), alphas.skip(1))
    }
}

/// A polynomial is its even part at the square plus the odd part at the square times the point.
pub proof fn lemma_even_odd(c: Seq<EF>, x: EF)
    ensures
        ext_poly_eval(c, x) == e_add(
            ext_poly_eval(evens(c), e_mul(x, x)),
            e_mul(ext_poly_eval(odds(c), e_mul(x, x)), x),
        ),
    decreases c.len(),
{
    let y = e_mul(x, x);
    let (e, o) = (ext_poly_eval(evens(c), y), ext_poly_eval(odds(c), y));
    lemma_e_wf(e_zero(), e_zero(), bb(0));
    lemma_e_mul_zero(x);
    lemma_e_mul_zero(y);
    lemma_e_add_zero(e_zero());
    if c.len() == 0 {
    } else if c.len() == 1 {
        assert(c.skip(1) =~= Seq::empty());
        assert(evens(c).skip(1) =~= Seq::empty());
        assert(ext_poly_eval(c.skip(1), x) == e_zero());
        assert(ext_poly_eval(evens(c).skip(1), y) == e_zero());
        lemma_ext_poly_wf(evens(c), y);
        lemma_e_add_zero(e);
    } else {
        let rest = c.skip(2);
        lemma_even_odd(rest, x);
        assert(c.skip(1).skip(1) =~= rest);
        assert(evens(c).skip(1) =~= evens(rest));
        assert(odds(c).skip(1) =~= odds(rest));
        assert(c.skip(1)[0] == c[1]);
        let (e1, o1) = (ext_poly_eval(evens(rest), y), ext_poly_eval(odds(rest), y));
        let p = ext_poly_eval(rest, x);
        assert(ext_poly_eval(c.skip(1), x) == e_add(c[1], e_mul(p, x)));
        assert(e == e_add(c[0], e_mul(e1, y)));
        assert(o == e_add(c[1], e_mul(o1, y)));
        // c0 + (c1 + p x) x == c0 + (c1 x + p y)
        lemma_e_mul_distributes(x, c[1], e_mul(p, x));
        lemma_e_mul_associates(p, x, x);
        // p y == e1 y + (o1 y) x
        lemma_e_mul_distributes(y, e1, e_mul(o1, x));
        lemma_e_mul_associates(o1, x, y);
        lemma_e_mul_commutes(x, y);
        lemma_e_mul_associates(o1, y, x);
        // o x == c1 x + (o1 y) x
        lemma_e_mul_distributes(x, c[1], e_mul(o1, y));
        let (a, b, d) = (e_mul(c[1], x), e_mul(e1, y), e_mul(e_mul(o1, y), x));
        // c0 + (a + (b + d)) == (c0 + b) + (a + d)
        lemma_e_add_associates(a, b, d);
        lemma_e_add_commutes(a, b);
        lemma_e_add_associates(b, a, d);
        lemma_e_add_associates(c[0], b, e_add(a, d));
    }
}

/// A polynomial whose coefficients are sums `a + alpha b` is the sum of the polynomials.
pub proof fn lemma_poly_linear(a: Seq<EF>, b: Seq<EF>, s: Seq<EF>, alpha: EF, y: EF)
    requires
        a.len() == s.len(),
        b.len() == s.len(),
        forall|i: int| 0 <= i < s.len() ==> #[trigger] s[i] == e_add(a[i], e_mul(b[i], alpha)),
    ensures
        ext_poly_eval(s, y) == e_add(ext_poly_eval(a, y), e_mul(ext_poly_eval(b, y), alpha)),
    decreases s.len(),
{
    if s.len() == 0 {
        lemma_e_mul_zero(alpha);
        lemma_e_wf(e_zero(), e_zero(), bb(0));
        lemma_e_add_zero(e_zero());
    } else {
        let (a1, b1, s1) = (a.skip(1), b.skip(1), s.skip(1));
        assert forall|i: int| 0 <= i < s1.len() implies #[trigger] s1[i] == e_add(
            a1[i],
            e_mul(b1[i], alpha),
        ) by {
            assert(s[i + 1] == e_add(a[i + 1], e_mul(b[i + 1], alpha)));
        }
        lemma_poly_linear(a1, b1, s1, alpha, y);
        let (p, q) = (ext_poly_eval(a1, y), ext_poly_eval(b1, y));
        lemma_e_mul_distributes(y, p, e_mul(q, alpha));
        lemma_e_mul_associates(q, alpha, y);
        lemma_e_mul_commutes(alpha, y);
        lemma_e_mul_associates(q, y, alpha);
        lemma_e_mul_distributes(alpha, b[0], e_mul(q, y));
        assert(s[0] == e_add(a[0], e_mul(b[0], alpha)));
        lemma_e_add_swap(
            a[0],
            e_mul(b[0], alpha),
            e_mul(p, y),
            e_mul(e_mul(q, y), alpha),
        );
    }
}

/// `t / (2t) + t / (2t) == 1`.
proof fn lemma_half_inverse(t: BabyBear)
    requires
        is_unit(t),
    ensures
        ({
            let h = f_half(f_inv(t));
            f_add(f_mul(t, h), f_mul(t, h)) == bb(1)
        }),
{
    let y = choose|y: BabyBear| #[trigger] f_mul(t, y) == bb(1);
    let z = bb(y.value as int);
    lemma_bb_value(y.value as int);
    assert(f_mul(t, z) == bb(1)) by {
        reveal(f_mul);
        lemma_bb_mul(t.value as int, y.value as int);
    }
    lemma_f_inv_unique(t, z);
    let half = bb(1006632961);
    assert(half.value == 1006632961);
    let h = f_half(z);
    assert(h == f_mul(z, half)) by {
        reveal(f_half);
        reveal(f_mul);
    }
    lemma_f_mul_associates(t, z, half);
    lemma_bb_value(1006632961);
    lemma_f_mul_one(half);
    assert(f_mul(t, h) == half);
    assert(f_add(half, half) == bb(1)) by {
        reveal(f_add);
        assert(bb(2013265922) == bb(1));
    }
}

/// The fold of the values at `t` and at `-t`, given the even part `e` and the odd part `o` of the
/// polynomial.
proof fn lemma_fold_even_odd(e: EF, o: EF, alpha: EF, t: BabyBear)
    requires
        is_unit(t),
        e.wf(),
    ensures
        ({
            let x = e_from(t);
            let a = e_add(e, e_mul(o, x));
            let b = e_add(e, e_mul(o, e_from(f_neg(t))));
            fold_at(a, b, alpha, t) == e_add(e, e_mul(o, alpha))
        }),
{
    let x = e_from(t);
    let ox = e_mul(o, x);
    let oa = e_mul(o, alpha);
    let a = e_add(e, ox);
    let minus = e_from(f_neg(t));
    let b = e_add(e, e_mul(o, minus));
    let h = e_from(f_half(f_inv(t)));
    lemma_e_wf(o, x, t);
    lemma_e_wf(o, alpha, t);
    // -x and its multiples
    lemma_e_from_ring(bb(0), t);
    assert(e_from(bb(0)) == e_zero()) by {
        reveal(e_from);
        assert(bb(0).value == 0);
    }
    lemma_e_mul_distributes_sub(o, e_zero(), x);
    lemma_e_mul_zero(o);
    // a - b == ox + ox
    lemma_of_quad(e);
    lemma_of_quad(ox);
    lemma_of_quad(oa);
    lemma_e_wf(e_zero(), e_zero(), t);
    lemma_of_quad(e_zero());
    let (qe, qox, qoa, qz) = (quad(e), quad(ox), quad(oa), quad(e_zero()));
    assert(qz.c0 == 0 && qz.c1 == 0 && qz.c2 == 0 && qz.c3 == 0) by {
        assert(bb(0).value == 0);
    }
    lemma_linear(qe, qox);
    lemma_linear(qz, qox);
    lemma_linear(qe, q_sub(qz, qox));
    lemma_linear(q_add(qe, qox), q_add(qe, q_sub(qz, qox)));
    lemma_linear(qox, qox);
    assert(q_sub(q_add(qe, qox), q_add(qe, q_sub(qz, qox))) == q_add(qox, qox));
    let diff = e_add(ox, ox);
    assert(e_sub(a, b) == diff);
    // diff h == o
    let th = f_mul(t, f_half(f_inv(t)));
    lemma_half_inverse(t);
    lemma_e_from_ring(t, f_half(f_inv(t)));
    lemma_e_from_ring(th, th);
    assert(e_from(bb(1)) == e_one()) by {
        reveal(e_from);
        assert(bb(1).value == 1);
    }
    lemma_e_mul_distributes(h, ox, ox);
    lemma_e_mul_associates(o, x, h);
    lemma_e_mul_distributes(o, e_mul(x, h), e_mul(x, h));
    let d = e_sub(alpha, x);
    lemma_e_scale(e_mul(d, diff), f_half(f_inv(t)));
    lemma_e_mul_associates(d, diff, h);
    assert(e_mul(diff, h) == e_mul(o, e_one()));
    // d (o 1) == (d o) 1 == o alpha - o x
    lemma_e_mul_associates(d, o, e_one());
    lemma_e_wf(d, o, t);
    lemma_e_mul_one(e_mul(d, o));
    lemma_e_mul_commutes(d, o);
    lemma_e_mul_distributes_sub(o, alpha, x);
    // (e + ox) + (oa - ox) == e + oa
    lemma_linear(qoa, qox);
    lemma_linear(q_add(qe, qox), q_sub(qoa, qox));
    lemma_linear(qe, qoa);
    assert(q_add(q_add(qe, qox), q_sub(qoa, qox)) == q_add(qe, qoa));
}

/// Folding a polynomial sets the first variable of its coefficients: the fold with `alpha` of its
/// values at `t` and `-t` is the value at the square of `t` of the polynomial with coefficients
/// `c[2i] + alpha c[2i + 1]`.
pub proof fn fold_binds_first_variable(c: Seq<EF>, alpha: EF, t: BabyBear)
    requires
        is_unit(t),
        c.len() % 2 == 0,
    ensures
        fold_at(
            ext_poly_eval(c, e_from(t)),
            ext_poly_eval(c, e_from(f_neg(t))),
            alpha,
            t,
        ) == ext_poly_eval(bind_first(c, alpha), e_from(f_mul(t, t))),
{
    let (x, minus) = (e_from(t), e_from(f_neg(t)));
    let y = e_from(f_mul(t, t));
    lemma_e_from_ring(t, t);
    lemma_e_from_ring(f_neg(t), f_neg(t));
    assert(f_mul(f_neg(t), f_neg(t)) == f_mul(t, t)) by {
        let v = t.value as int;
        lemma_bb_add(0, v);
        reveal(f_sub);
        reveal(f_mul);
        assert(bb(0).value == 0);
        assert(f_neg(t) == bb(-v));
        lemma_bb_mul(-v, -v);
        assert((-v) * (-v) == v * v) by (nonlinear_arith);
    }
    lemma_even_odd(c, x);
    lemma_even_odd(c, minus);
    let (e, o) = (ext_poly_eval(evens(c), y), ext_poly_eval(odds(c), y));
    lemma_ext_poly_wf(evens(c), y);
    lemma_fold_even_odd(e, o, alpha, t);
    lemma_poly_linear(evens(c), odds(c), bind_first(c, alpha), alpha, y);
}

/// The values of a polynomial on a coset fold to the value of the polynomial whose first variables
/// are set to the folding points.
pub proof fn k_fold_binds_first_variables(c: Seq<EF>, values: Seq<EF>, alphas: Seq<EF>, x: BabyBear)
    requires
        alphas.len() <= 27,
        c.len() % pow2(alphas.len()) == 0,
        values.len() == pow2(alphas.len()),
        x.wf(),
        is_unit(x),
        forall|j: int|
            0 <= j < values.len() ==> #[trigger] values[j] == ext_poly_eval(
                c,
                e_from(coset_point(alphas.len(), x, j)),
            ),
    ensures
        k_fold(values, alphas, x) == ext_poly_eval(
            bind_all(c, alphas),
            e_from(f_pow(x, pow2(alphas.len()))),
        ),
{
    let k = alphas.len();
    let g = Seq::new(
        k + 1,
        |i: int| |t: BabyBear| ext_poly_eval(bind_all(c, alphas.take(i)), e_from(t)),
    );
    assert(alphas.take(0) =~= Seq::empty());
    assert(alphas.take(k as int) =~= alphas);
    assert forall|i: int, t: BabyBear| 0 <= i < k && is_unit(t) implies #[trigger] (g[i + 1])(
        f_mul(t, t),
    ) == fold_at((g[i])(t), (g[i])(f_neg(t)), alphas[i], t) by {
        let bound = bind_all(c, alphas.take(i));
        lemma_bind_all_len(c, alphas.take(i), k);
        lemma_bind_all_step(c, alphas, i);
        lemma_pow2_unfold((k - i) as nat);
        lemma_pow2_pos((k - i - 1) as nat);
        lemma_even_multiple(bound.len() as int, pow2((k - i - 1) as nat) as int);
        fold_binds_first_variable(bound, alphas[i], t);
    }
    assert forall|j: int| 0 <= j < values.len() implies #[trigger] values[j] == (g[0])(
        coset_point(k, x, j),
    ) by {}
    k_fold_evaluates_fold(g, values, alphas, x);
}

/// A multiple of an even number is even.
proof fn lemma_even_multiple(n: int, p: int)
    requires
        p > 0,
        n % (2 * p) == 0,
    ensures
        n % 2 == 0,
        n / 2 == p * (n / (2 * p)),
{
    lemma_fundamental_div_mod(n, 2 * p);
    let q = n / (2 * p);
    assert(n == 2 * (p * q)) by (nonlinear_arith)
        requires
            n == (2 * p) * q,
    ;
}

/// Binding one more variable binds the first variable of what is left.
pub proof fn lemma_bind_all_step(c: Seq<EF>, alphas: Seq<EF>, i: int)
    requires
        0 <= i < alphas.len(),
    ensures
        bind_all(c, alphas.take(i + 1)) == bind_first(bind_all(c, alphas.take(i)), alphas[i]),
    decreases i,
{
    let next = alphas.take(i + 1);
    if i == 0 {
        assert(alphas.take(0) =~= Seq::empty());
        assert(next.skip(1) =~= Seq::empty());
        let c1 = bind_first(c, alphas[0]);
        assert(bind_all(c1, Seq::empty()) == c1);
    } else {
        let c1 = bind_first(c, alphas[0]);
        let rest = alphas.skip(1);
        lemma_bind_all_step(c1, rest, i - 1);
        assert(next.skip(1) =~= rest.take(i));
        assert(alphas.take(i).skip(1) =~= rest.take(i - 1));
    }
}

/// Each variable that is set halves the number of coefficients.
proof fn lemma_bind_all_len(c: Seq<EF>, alphas: Seq<EF>, k: nat)
    requires
        alphas.len() <= k,
        c.len() % pow2(k) == 0,
    ensures
        bind_all(c, alphas).len() % pow2((k - alphas.len()) as nat) == 0,
    decreases alphas.len(),
{
    if alphas.len() > 0 {
        let p = pow2((k - 1) as nat) as int;
        lemma_pow2_unfold(k);
        lemma_pow2_pos((k - 1) as nat);
        let c1 = bind_first(c, alphas[0]);
        let q = c.len() as int / (2 * p);
        lemma_even_multiple(c.len() as int, p);
        assert(p * q == q * p) by (nonlinear_arith);
        lemma_mod_multiples_basic(q, p);
        lemma_bind_all_len(c1, alphas.skip(1), (k - 1) as nat);
    }
}

/// Setting the first variable of a multilinear polynomial evaluates it there.
pub proof fn lemma_bind_first_evaluates(c: Seq<EF>, alpha: EF, b: Seq<EF>)
    requires
        c.len() == pow2(b.len() + 1),
    ensures
        coeff_eval(c, seq![alpha] + b) == coeff_eval(bind_first(c, alpha), b),
    decreases b.len(),
{
    lemma2_to64();
    let x = seq![alpha] + b;
    if b.len() == 0 {
        assert(x.drop_last() =~= Seq::empty());
        assert(coeff_eval(c.take(1), Seq::empty()) == c[0]);
        assert(coeff_eval(c.skip(1), Seq::empty()) == c[1]);
    } else {
        lemma_pow2_unfold(b.len() + 1);
        lemma_pow2_unfold(b.len());
        let h = (c.len() / 2) as int;
        let bound = bind_first(c, alpha);
        let g = (bound.len() / 2) as int;
        assert(x.drop_last() =~= seq![alpha] + b.drop_last());
        lemma_bind_first_evaluates(c.take(h), alpha, b.drop_last());
        lemma_bind_first_evaluates(c.skip(h), alpha, b.drop_last());
        assert(bind_first(c.take(h), alpha) =~= bound.take(g));
        assert(bind_first(c.skip(h), alpha) =~= bound.skip(g));
    }
}

/// Setting the first variables of a multilinear polynomial evaluates it there: what is left has at
/// `b` the value of the polynomial at `alphas` followed by `b`.
pub proof fn binding_evaluates(c: Seq<EF>, alphas: Seq<EF>, b: Seq<EF>)
    requires
        c.len() == pow2(alphas.len() + b.len()),
    ensures
        coeff_eval(c, alphas + b) == coeff_eval(bind_all(c, alphas), b),
    decreases alphas.len(),
{
    if alphas.len() == 0 {
        assert(alphas + b =~= b);
    } else {
        let rest = alphas.skip(1);
        lemma_pow2_unfold(alphas.len() + b.len());
        lemma_bind_first_evaluates(c, alphas[0], rest + b);
        assert(seq![alphas[0]] + (rest + b) =~= alphas + b);
        binding_evaluates(bind_first(c, alphas[0]), rest, b);
    }
}

/// A polynomial over the base field has the same value inside the extension.
pub proof fn lemma_base_poly(c: Seq<BabyBear>, x: BabyBear)
    ensures
        e_from(poly_eval(c, x)) == ext_poly_eval(in_extension(c), e_from(x)),
    decreases c.len(),
{
    if c.len() == 0 {
        reveal(e_from);
        assert(bb(0).value == 0);
    } else {
        lemma_base_poly(c.skip(1), x);
        assert(in_extension(c).skip(1) =~= in_extension(c.skip(1)));
        let p = poly_eval(c.skip(1), x);
        lemma_e_from_ring(x, p);
        lemma_e_from_ring(c[0], f_mul(x, p));
        lemma_e_mul_commutes(e_from(x), e_from(p));
    }
}

/// Base field elements inside the extension.
pub open spec fn in_extension(c: Seq<BabyBear>) -> Seq<EF> {
    c.map_values(|a: BabyBear| e_from(a))
}

/// The entries of a codeword that a query opens, `stride` apart, are the values of the polynomial
/// on a coset.
pub proof fn opened_entries_are_a_coset(coeffs: Seq<BabyBear>, n: nat, k: nat, q: nat, t: nat)
    requires
        k <= n <= 27,
        coeffs.len() == pow2(n),
        q < pow2((n - k) as nat),
        t < pow2(k),
    ensures
        ({
            let stride = pow2((n - k) as nat);
            let x = f_pow(f_generator(n), q);
            &&& q + t * stride < pow2(n)
            &&& codeword(coeffs)[(q + t * stride) as int] == poly_eval(
                coeffs,
                coset_point(k, x, t as int),
            )
        }),
{
    let stride = pow2((n - k) as nat);
    let g = f_generator(n);
    lemma_pow2_adds((n - k) as nat, k);
    lemma_log2_pow2(n);
    assert(q + t * stride < pow2(n)) by (nonlinear_arith)
        requires
            q < stride,
            t < pow2(k),
            stride * pow2(k) == pow2(n),
    ;
    lemma_generator_power(n, (n - k) as nat);
    lemma_f_pow_multiplies(g, stride, t);
    assert(stride * t == t * stride) by (nonlinear_arith);
    lemma_f_pow_adds(g, q, (t * stride) as nat);
    lemma_f_mul_commutes(f_pow(g, q), f_pow(g, (t * stride) as nat));
}

/// What an honest query folds to: the entries of a codeword that query `q` opens fold to the value,
/// at the query's point, of the polynomial whose first variables are set to the folding points.
pub proof fn opened_entries_fold(coeffs: Seq<BabyBear>, n: nat, alphas: Seq<EF>, q: nat)
    requires
        alphas.len() <= n <= 27,
        coeffs.len() == pow2(n),
        q < pow2((n - alphas.len()) as nat),
    ensures
        ({
            let k = alphas.len();
            let stride = pow2((n - k) as nat);
            let x = f_pow(f_generator(n), q);
            let opened = Seq::new(
                pow2(k),
                |t: int| e_from(codeword(coeffs)[q + t * stride]),
            );
            k_fold(opened, alphas, x) == ext_poly_eval(
                bind_all(in_extension(coeffs), alphas),
                e_from(f_pow(x, pow2(k))),
            )
        }),
{
    let k = alphas.len();
    let stride = pow2((n - k) as nat);
    let x = f_pow(f_generator(n), q);
    let opened = Seq::new(pow2(k), |t: int| e_from(codeword(coeffs)[q + t * stride]));
    lemma_f_pow_wf(f_generator(n), q);
    lemma_generator_power_nonzero(n, q);
    assert forall|j: int| 0 <= j < opened.len() implies #[trigger] opened[j] == ext_poly_eval(
        in_extension(coeffs),
        e_from(coset_point(k, x, j)),
    ) by {
        opened_entries_are_a_coset(coeffs, n, k, q, j as nat);
        lemma_base_poly(coeffs, coset_point(k, x, j));
    }
    lemma_pow2_adds((n - k) as nat, k);
    lemma_pow2_pos(k);
    lemma_mod_multiples_basic(stride as int, pow2(k) as int);
    k_fold_binds_first_variables(in_extension(coeffs), opened, alphas, x);
}

} // verus!
