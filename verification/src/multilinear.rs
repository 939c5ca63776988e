//! Sums over hypercubes and the identities between the forms of a multilinear polynomial.

use vstd::arithmetic::power2::*;
use vstd::prelude::*;

use crate::algebra::{
    lemma_e_add_associates, lemma_e_add_commutes, lemma_e_add_zero, lemma_e_mul_associates,
    lemma_e_mul_commutes, lemma_e_mul_distributes, lemma_e_mul_distributes_sub, lemma_e_mul_one,
    lemma_e_wf, lemma_linear, lemma_of_quad, q_add, q_sub, quad,
};
use crate::field::{bb, e_add, e_mul, e_one, e_pow, e_sub, e_zero, EF};
use crate::poly::{
    bind_last, eq1, eq_mle, ext_poly_eval, mle_eval, mobius_eq1, mobius_eq_mle, repeated_squares,
    square_times,
};

verus! {

/// Whether all elements are canonical.
pub open spec fn all_wf(s: Seq<EF>) -> bool {
    forall|i: int| 0 <= i < s.len() ==> (#[trigger] s[i]).wf()
}

/// The value at `x` of the multilinear polynomial with the given coefficients. Bit `i` of an
/// index into the table says whether variable `i` is a factor of the monomial.
pub open spec fn coeff_eval(c: Seq<EF>, x: Seq<EF>) -> EF
    decreases x.len(),
{
    if x.len() == 0 {
        c[0]
    } else {
        let h = (c.len() / 2) as int;
        e_add(
            coeff_eval(c.take(h), x.drop_last()),
            e_mul(coeff_eval(c.skip(h), x.drop_last()), x.last()),
        )
    }
}

/// The sum of `g` over all points of the hypercube of `n` variables.
pub open spec fn cube_sum(n: nat, g: spec_fn(Seq<EF>) -> EF) -> EF
    decreases n,
{
    if n == 0 {
        g(Seq::empty())
    } else {
        e_add(
            cube_sum((n - 1) as nat, last_is(g, e_zero())),
            cube_sum((n - 1) as nat, last_is(g, e_one())),
        )
    }
}

/// The function `g` with its last variable set to `v`.
pub open spec fn last_is(g: spec_fn(Seq<EF>) -> EF, v: EF) -> spec_fn(Seq<EF>) -> EF {
    |b: Seq<EF>| g(b.push(v))
}

/// Functions that agree on the hypercube have the same sum.
pub proof fn lemma_cube_sum_same(n: nat, g: spec_fn(Seq<EF>) -> EF, h: spec_fn(Seq<EF>) -> EF)
    requires
        forall|b: Seq<EF>| b.len() == n ==> #[trigger] g(b) == h(b),
    ensures
        cube_sum(n, g) == cube_sum(n, h),
    decreases n,
{
    if n > 0 {
        lemma_cube_sum_same((n - 1) as nat, last_is(g, e_zero()), last_is(h, e_zero()));
        lemma_cube_sum_same((n - 1) as nat, last_is(g, e_one()), last_is(h, e_one()));
    }
}

/// `(a + b) + (c + d) == (a + c) + (b + d)`.
pub proof fn lemma_e_add_swap(a: EF, b: EF, c: EF, d: EF)
    ensures
        e_add(e_add(a, b), e_add(c, d)) == e_add(e_add(a, c), e_add(b, d)),
{
    lemma_e_add_associates(a, b, e_add(c, d));
    lemma_e_add_associates(b, c, d);
    lemma_e_add_commutes(b, c);
    lemma_e_add_associates(c, b, d);
    lemma_e_add_associates(a, c, e_add(b, d));
}

/// The sum of a sum is the sum of the sums.
pub proof fn lemma_cube_sum_adds(
    n: nat,
    g: spec_fn(Seq<EF>) -> EF,
    h: spec_fn(Seq<EF>) -> EF,
    both: spec_fn(Seq<EF>) -> EF,
)
    requires
        forall|b: Seq<EF>| b.len() == n ==> #[trigger] both(b) == e_add(g(b), h(b)),
    ensures
        cube_sum(n, both) == e_add(cube_sum(n, g), cube_sum(n, h)),
    decreases n,
{
    if n > 0 {
        let m = (n - 1) as nat;
        let (zero, one) = (e_zero(), e_one());
        lemma_cube_sum_adds(m, last_is(g, zero), last_is(h, zero), last_is(both, zero));
        lemma_cube_sum_adds(m, last_is(g, one), last_is(h, one), last_is(both, one));
        lemma_e_add_swap(
            cube_sum(m, last_is(g, zero)),
            cube_sum(m, last_is(h, zero)),
            cube_sum(m, last_is(g, one)),
            cube_sum(m, last_is(h, one)),
        );
    } else {
        assert(both(Seq::empty()) == e_add(g(Seq::empty()), h(Seq::empty())));
    }
}

/// A factor can be taken out of a sum.
pub proof fn lemma_cube_sum_scales(
    n: nat,
    k: EF,
    g: spec_fn(Seq<EF>) -> EF,
    scaled: spec_fn(Seq<EF>) -> EF,
)
    requires
        forall|b: Seq<EF>| b.len() == n ==> #[trigger] scaled(b) == e_mul(k, g(b)),
    ensures
        cube_sum(n, scaled) == e_mul(k, cube_sum(n, g)),
    decreases n,
{
    if n > 0 {
        let m = (n - 1) as nat;
        let (zero, one) = (e_zero(), e_one());
        lemma_cube_sum_scales(m, k, last_is(g, zero), last_is(scaled, zero));
        lemma_cube_sum_scales(m, k, last_is(g, one), last_is(scaled, one));
        lemma_e_mul_distributes(
            k,
            cube_sum(m, last_is(g, zero)),
            cube_sum(m, last_is(g, one)),
        );
    } else {
        assert(scaled(Seq::empty()) == e_mul(k, g(Seq::empty())));
    }
}

pub proof fn lemma_coeff_eval_wf(c: Seq<EF>, x: Seq<EF>)
    requires
        c.len() == pow2(x.len()),
        all_wf(c),
    ensures
        coeff_eval(c, x).wf(),
{
    lemma2_to64();
    if x.len() > 0 {
        let h = (c.len() / 2) as int;
        lemma_e_wf(
            coeff_eval(c.take(h), x.drop_last()),
            e_mul(coeff_eval(c.skip(h), x.drop_last()), x.last()),
            bb(0),
        );
    }
}

/// The two halves of a table of coefficients.
pub proof fn lemma_halves(c: Seq<EF>, n: nat)
    requires
        n > 0,
        c.len() == pow2(n),
        all_wf(c),
    ensures
        c.len() / 2 == pow2((n - 1) as nat),
        c.take((c.len() / 2) as int).len() == pow2((n - 1) as nat),
        c.skip((c.len() / 2) as int).len() == pow2((n - 1) as nat),
        all_wf(c.take((c.len() / 2) as int)),
        all_wf(c.skip((c.len() / 2) as int)),
{
    lemma_pow2_unfold(n);
    let h = (c.len() / 2) as int;
    assert forall|i: int| 0 <= i < c.skip(h).len() implies (#[trigger] c.skip(h)[i]).wf() by {
        assert(c.skip(h)[i] == c[h + i]);
    }
}

/// `(a x) y == (a y) x`.
pub proof fn lemma_e_mul_swap(a: EF, x: EF, y: EF)
    ensures
        e_mul(e_mul(a, x), y) == e_mul(e_mul(a, y), x),
{
    lemma_e_mul_associates(a, x, y);
    lemma_e_mul_commutes(x, y);
    lemma_e_mul_associates(a, y, x);
}

/// `a + (b - a) x == a + (b x - a x)`, and the same times `y`.
proof fn lemma_lerp(a: EF, b: EF, x: EF, y: EF)
    ensures
        e_add(a, e_mul(e_sub(b, a), x)) == e_add(a, e_sub(e_mul(b, x), e_mul(a, x))),
        e_mul(e_add(a, e_mul(e_sub(b, a), x)), y) == e_add(
            e_mul(a, y),
            e_sub(e_mul(e_mul(b, x), y), e_mul(e_mul(a, x), y)),
        ),
{
    lemma_e_mul_distributes_sub(x, b, a);
    lemma_e_mul_distributes(y, a, e_sub(e_mul(b, x), e_mul(a, x)));
    lemma_e_mul_distributes_sub(y, e_mul(b, x), e_mul(a, x));
}

/// `(l0 + (h0x - l0x)) + ((l1y + (h1xy - l1xy)) - (l0y + (h0xy - l0xy)))` does not change when
/// the roles of `x` and `y` do.
proof fn lemma_bilinear_terms(
    l0: EF,
    l0x: EF,
    h0x: EF,
    l0y: EF,
    l1y: EF,
    l0xy: EF,
    h0xy: EF,
    l1xy: EF,
    h1xy: EF,
)
    requires
        l0.wf(),
        l0x.wf(),
        h0x.wf(),
        l0y.wf(),
        l1y.wf(),
        l0xy.wf(),
        h0xy.wf(),
        l1xy.wf(),
        h1xy.wf(),
    ensures
        e_add(
            e_add(l0, e_sub(h0x, l0x)),
            e_sub(e_add(l1y, e_sub(h1xy, l1xy)), e_add(l0y, e_sub(h0xy, l0xy))),
        ) == e_add(
            e_add(l0, e_sub(l1y, l0y)),
            e_sub(e_add(h0x, e_sub(h1xy, h0xy)), e_add(l0x, e_sub(l1xy, l0xy))),
        ),
{
    lemma_of_quad(l0);
    lemma_of_quad(l0x);
    lemma_of_quad(h0x);
    lemma_of_quad(l0y);
    lemma_of_quad(l1y);
    lemma_of_quad(l0xy);
    lemma_of_quad(h0xy);
    lemma_of_quad(l1xy);
    lemma_of_quad(h1xy);
    let (a, ax, bx, ay, cy) = (quad(l0), quad(l0x), quad(h0x), quad(l0y), quad(l1y));
    let (axy, bxy, cxy, dxy) = (quad(l0xy), quad(h0xy), quad(l1xy), quad(h1xy));
    lemma_linear(bx, ax);
    lemma_linear(a, q_sub(bx, ax));
    lemma_linear(dxy, cxy);
    lemma_linear(cy, q_sub(dxy, cxy));
    lemma_linear(bxy, axy);
    lemma_linear(ay, q_sub(bxy, axy));
    lemma_linear(q_add(cy, q_sub(dxy, cxy)), q_add(ay, q_sub(bxy, axy)));
    let left = q_sub(q_add(cy, q_sub(dxy, cxy)), q_add(ay, q_sub(bxy, axy)));
    lemma_linear(q_add(a, q_sub(bx, ax)), left);
    lemma_linear(cy, ay);
    lemma_linear(a, q_sub(cy, ay));
    lemma_linear(dxy, bxy);
    lemma_linear(bx, q_sub(dxy, bxy));
    lemma_linear(cxy, axy);
    lemma_linear(ax, q_sub(cxy, axy));
    lemma_linear(q_add(bx, q_sub(dxy, bxy)), q_add(ax, q_sub(cxy, axy)));
    let right = q_sub(q_add(bx, q_sub(dxy, bxy)), q_add(ax, q_sub(cxy, axy)));
    lemma_linear(q_add(a, q_sub(cy, ay)), right);
    assert(q_add(q_add(a, q_sub(bx, ax)), left) == q_add(q_add(a, q_sub(cy, ay)), right));
}

/// Setting two variables one after another gives the same in either order.
proof fn lemma_bilinear(l0: EF, l1: EF, h0: EF, h1: EF, x: EF, y: EF)
    requires
        l0.wf(),
        l1.wf(),
        h0.wf(),
        h1.wf(),
    ensures
        ({
            let t0 = e_add(l0, e_mul(e_sub(h0, l0), x));
            let t1 = e_add(l1, e_mul(e_sub(h1, l1), x));
            let l = e_add(l0, e_mul(e_sub(l1, l0), y));
            let h = e_add(h0, e_mul(e_sub(h1, h0), y));
            e_add(t0, e_mul(e_sub(t1, t0), y)) == e_add(l, e_mul(e_sub(h, l), x))
        }),
{
    let t0 = e_add(l0, e_mul(e_sub(h0, l0), x));
    let t1 = e_add(l1, e_mul(e_sub(h1, l1), x));
    let l = e_add(l0, e_mul(e_sub(l1, l0), y));
    let h = e_add(h0, e_mul(e_sub(h1, h0), y));
    lemma_e_mul_distributes_sub(y, t1, t0);
    lemma_e_mul_distributes_sub(x, h, l);
    lemma_lerp(l0, h0, x, y);
    lemma_lerp(l1, h1, x, y);
    lemma_lerp(l0, l1, y, x);
    lemma_lerp(h0, h1, y, x);
    lemma_e_mul_swap(l0, x, y);
    lemma_e_mul_swap(l1, x, y);
    lemma_e_mul_swap(h0, x, y);
    lemma_e_mul_swap(h1, x, y);
    lemma_e_wf(l0, x, bb(0));
    lemma_e_wf(h0, x, bb(0));
    lemma_e_wf(l0, y, bb(0));
    lemma_e_wf(l1, y, bb(0));
    lemma_e_wf(e_mul(l0, x), y, bb(0));
    lemma_e_wf(e_mul(h0, x), y, bb(0));
    lemma_e_wf(e_mul(l1, x), y, bb(0));
    lemma_e_wf(e_mul(h1, x), y, bb(0));
    lemma_bilinear_terms(
        l0,
        e_mul(l0, x),
        e_mul(h0, x),
        e_mul(l0, y),
        e_mul(l1, y),
        e_mul(e_mul(l0, x), y),
        e_mul(e_mul(h0, x), y),
        e_mul(e_mul(l1, x), y),
        e_mul(e_mul(h1, x), y),
    );
}

/// The multilinear extension is linear in its table.
pub proof fn lemma_mle_linear(lo: Seq<EF>, hi: Seq<EF>, t: Seq<EF>, x: EF, y: Seq<EF>)
    requires
        lo.len() == pow2(y.len()),
        hi.len() == lo.len(),
        t.len() == lo.len(),
        all_wf(lo),
        all_wf(hi),
        forall|i: int|
            0 <= i < t.len() ==> #[trigger] t[i] == e_add(lo[i], e_mul(e_sub(hi[i], lo[i]), x)),
    ensures
        mle_eval(t, y) == e_add(
            mle_eval(lo, y),
            e_mul(e_sub(mle_eval(hi, y), mle_eval(lo, y)), x),
        ),
    decreases y.len(),
{
    lemma2_to64();
    if y.len() > 0 {
        lemma_pow2_unfold(y.len());
        let yl = y.last();
        let h = (lo.len() / 2) as int;
        let (lo1, hi1, t1) = (bind_last(lo, yl), bind_last(hi, yl), bind_last(t, yl));
        assert forall|i: int| 0 <= i < t1.len() implies #[trigger] t1[i] == e_add(
            lo1[i],
            e_mul(e_sub(hi1[i], lo1[i]), x),
        ) by {
            lemma_bilinear(lo[i], lo[h + i], hi[i], hi[h + i], x, yl);
            assert(t[h + i] == e_add(lo[h + i], e_mul(e_sub(hi[h + i], lo[h + i]), x)));
        }
        assert forall|i: int| 0 <= i < lo1.len() implies (#[trigger] lo1[i]).wf() by {
            lemma_e_wf(lo[i], e_mul(e_sub(lo[h + i], lo[i]), yl), bb(0));
        }
        assert forall|i: int| 0 <= i < hi1.len() implies (#[trigger] hi1[i]).wf() by {
            lemma_e_wf(hi[i], e_mul(e_sub(hi[h + i], hi[i]), yl), bb(0));
        }
        lemma_mle_linear(lo1, hi1, t1, x, y.drop_last());
    }
}

/// `((a - b) - b) + (b + c) == a + (c - b)`.
proof fn lemma_mobius_terms(a: EF, b: EF, c: EF)
    requires
        a.wf(),
        b.wf(),
        c.wf(),
    ensures
        e_add(e_sub(e_sub(a, b), b), e_add(b, c)) == e_add(a, e_sub(c, b)),
{
    lemma_of_quad(a);
    lemma_of_quad(b);
    lemma_of_quad(c);
    let (x, y, z) = (quad(a), quad(b), quad(c));
    lemma_linear(x, y);
    lemma_linear(q_sub(x, y), y);
    lemma_linear(y, z);
    lemma_linear(q_sub(q_sub(x, y), y), q_add(y, z));
    lemma_linear(z, y);
    lemma_linear(x, q_sub(z, y));
    assert(q_add(q_sub(q_sub(x, y), y), q_add(y, z)) == q_add(x, q_sub(z, y)));
}

/// `(a - b) + (b + c) == a + c`.
proof fn lemma_eq_terms(a: EF, b: EF, c: EF)
    requires
        a.wf(),
        b.wf(),
        c.wf(),
    ensures
        e_add(e_sub(a, b), e_add(b, c)) == e_add(a, c),
{
    lemma_of_quad(a);
    lemma_of_quad(b);
    lemma_of_quad(c);
    let (x, y, z) = (quad(a), quad(b), quad(c));
    lemma_linear(x, y);
    lemma_linear(y, z);
    lemma_linear(q_sub(x, y), q_add(y, z));
    lemma_linear(x, z);
    assert(q_add(q_sub(x, y), q_add(y, z)) == q_add(x, z));
}

/// The factors of the Moebius kernel at zero and at one.
proof fn lemma_mobius_eq1_bits(u: EF)
    requires
        u.wf(),
    ensures
        mobius_eq1(u, e_zero()) == e_sub(e_sub(e_one(), u), u),
        mobius_eq1(u, e_one()) == u,
{
    let k = e_sub(e_sub(e_one(), u), u);
    lemma_e_wf(e_sub(e_one(), u), u, bb(0));
    lemma_e_add_zero(e_one());
    lemma_e_mul_one(k);
    lemma_e_mul_one(u);
    lemma_e_add_zero(k);
    lemma_e_add_zero(u);
}

/// The factors of the equality kernel at zero and at one.
proof fn lemma_eq1_bits(x: EF)
    requires
        x.wf(),
    ensures
        eq1(e_zero(), x) == e_sub(e_one(), x),
        eq1(e_one(), x) == x,
{
    let (zero, one) = (e_zero(), e_one());
    lemma_e_wf(one, x, bb(0));
    lemma_e_add_zero(one);
    lemma_e_add_zero(zero);
    lemma_e_mul_one(x);
    lemma_e_add_zero(e_sub(one, x));
    lemma_of_quad(x);
    lemma_of_quad(zero);
    let (q, z) = (quad(x), quad(zero));
    lemma_linear(z, q);
    lemma_linear(q, q);
    lemma_linear(q_sub(z, q), q_add(q, q));
    assert(q_add(q_sub(z, q), q_add(q, q)) == q);
}

/// The values on the hypercube of the polynomial with the given coefficients, each times the
/// Moebius kernel.
pub open spec fn mobius_terms(c: Seq<EF>, u: Seq<EF>) -> spec_fn(Seq<EF>) -> EF {
    |b: Seq<EF>| e_mul(coeff_eval(c, b), mobius_eq_mle(u, b))
}

/// The values on the hypercube of the polynomial with the given coefficients, each times the
/// equality kernel.
pub open spec fn eq_terms(c: Seq<EF>, x: Seq<EF>) -> spec_fn(Seq<EF>) -> EF {
    |b: Seq<EF>| e_mul(coeff_eval(c, b), eq_mle(b, x))
}

/// What setting the last variable to a bit makes of a polynomial: at zero, the lower half of its
/// coefficients; at one, the sum of both halves.
proof fn lemma_coeff_eval_bit(c: Seq<EF>, b: Seq<EF>)
    requires
        c.len() == pow2(b.len() + 1),
        all_wf(c),
    ensures
        ({
            let h = (c.len() / 2) as int;
            let (lo, hi) = (coeff_eval(c.take(h), b), coeff_eval(c.skip(h), b));
            &&& coeff_eval(c, b.push(e_zero())) == lo
            &&& coeff_eval(c, b.push(e_one())) == e_add(lo, hi)
        }),
{
    let h = (c.len() / 2) as int;
    lemma_halves(c, b.len() + 1);
    lemma_coeff_eval_wf(c.take(h), b);
    lemma_coeff_eval_wf(c.skip(h), b);
    assert(b.push(e_zero()).drop_last() =~= b);
    assert(b.push(e_one()).drop_last() =~= b);
    lemma_e_mul_one(coeff_eval(c.skip(h), b));
    lemma_e_add_zero(coeff_eval(c.take(h), b));
}

/// `f (m k) == k (f m)`.
pub proof fn lemma_move_factor(f: EF, m: EF, k: EF)
    ensures
        e_mul(f, e_mul(m, k)) == e_mul(k, e_mul(f, m)),
{
    lemma_e_mul_associates(f, m, k);
    lemma_e_mul_commutes(e_mul(f, m), k);
}

/// The Moebius kernel reads coefficients off values: the sum over the hypercube of the values of
/// a multilinear polynomial, each times the kernel at `u`, is the multilinear extension at `u` of
/// the table of its coefficients.
pub proof fn mobius_sum_is_mle_of_coefficients(c: Seq<EF>, u: Seq<EF>)
    requires
        c.len() == pow2(u.len()),
        all_wf(c),
        all_wf(u),
    ensures
        cube_sum(u.len(), mobius_terms(c, u)) == mle_eval(c, u),
    decreases u.len(),
{
    lemma2_to64();
    if u.len() == 0 {
        lemma_e_mul_one(c[0]);
    } else {
        let m = (u.len() - 1) as nat;
        let h = (c.len() / 2) as int;
        let (lo, hi) = (c.take(h), c.skip(h));
        let (up, ul) = (u.drop_last(), u.last());
        lemma_halves(c, u.len());
        assert(all_wf(up));
        mobius_sum_is_mle_of_coefficients(lo, up);
        mobius_sum_is_mle_of_coefficients(hi, up);
        let (a, b) = (mle_eval(lo, up), mle_eval(hi, up));
        let g = mobius_terms(c, u);
        let (f_lo, f_hi) = (mobius_terms(lo, up), mobius_terms(hi, up));
        let both = |p: Seq<EF>| e_add(f_lo(p), f_hi(p));
        let k0 = e_sub(e_sub(e_one(), ul), ul);
        lemma_mobius_eq1_bits(ul);
        assert forall|p: Seq<EF>| p.len() == m implies #[trigger] last_is(g, e_zero())(p) == e_mul(
            k0,
            f_lo(p),
        ) by {
            lemma_coeff_eval_bit(c, p);
            assert(p.push(e_zero()).drop_last() =~= p);
            lemma_move_factor(coeff_eval(lo, p), mobius_eq_mle(up, p), k0);
        }
        assert forall|p: Seq<EF>| p.len() == m implies #[trigger] last_is(g, e_one())(p) == e_mul(
            ul,
            both(p),
        ) by {
            lemma_coeff_eval_bit(c, p);
            assert(p.push(e_one()).drop_last() =~= p);
            let (x, y) = (coeff_eval(lo, p), coeff_eval(hi, p));
            lemma_move_factor(e_add(x, y), mobius_eq_mle(up, p), ul);
            lemma_e_mul_distributes(mobius_eq_mle(up, p), x, y);
        }
        lemma_cube_sum_scales(m, k0, f_lo, last_is(g, e_zero()));
        lemma_cube_sum_scales(m, ul, both, last_is(g, e_one()));
        lemma_cube_sum_adds(m, f_lo, f_hi, both);
        assert forall|i: int| 0 <= i < bind_last(c, ul).len() implies #[trigger] bind_last(c, ul)[i]
            == e_add(lo[i], e_mul(e_sub(hi[i], lo[i]), ul)) by {
            assert(hi[i] == c[h + i]);
        }
        lemma_mle_linear(lo, hi, bind_last(c, ul), ul, up);
        lemma_mle_wf(lo, up);
        lemma_mle_wf(hi, up);
        lemma_e_mul_distributes_sub(a, e_sub(e_one(), ul), ul);
        lemma_e_mul_distributes_sub(a, e_one(), ul);
        lemma_e_mul_one(a);
        lemma_e_mul_distributes(ul, a, b);
        lemma_e_mul_distributes_sub(ul, b, a);
        lemma_e_wf(ul, a, bb(0));
        lemma_e_wf(ul, b, bb(0));
        lemma_mobius_terms(a, e_mul(ul, a), e_mul(ul, b));
        lemma_e_mul_commutes(a, ul);
        lemma_e_mul_commutes(b, ul);
    }
}

proof fn lemma_mle_wf(t: Seq<EF>, x: Seq<EF>)
    requires
        t.len() == pow2(x.len()),
        all_wf(t),
    ensures
        mle_eval(t, x).wf(),
    decreases x.len(),
{
    lemma2_to64();
    if x.len() > 0 {
        lemma_pow2_unfold(x.len());
        let h = (t.len() / 2) as int;
        let b = bind_last(t, x.last());
        assert forall|i: int| 0 <= i < b.len() implies (#[trigger] b[i]).wf() by {
            lemma_e_wf(t[i], e_mul(e_sub(t[h + i], t[i]), x.last()), bb(0));
        }
        lemma_mle_wf(b, x.drop_last());
    }
}

/// The equality kernel evaluates: the sum over the hypercube of the values of a multilinear
/// polynomial, each times the kernel at `x`, is its value at `x`.
pub proof fn eq_sum_is_value(c: Seq<EF>, x: Seq<EF>)
    requires
        c.len() == pow2(x.len()),
        all_wf(c),
        all_wf(x),
    ensures
        cube_sum(x.len(), eq_terms(c, x)) == coeff_eval(c, x),
    decreases x.len(),
{
    lemma2_to64();
    if x.len() == 0 {
        lemma_e_mul_one(c[0]);
    } else {
        let m = (x.len() - 1) as nat;
        let h = (c.len() / 2) as int;
        let (lo, hi) = (c.take(h), c.skip(h));
        let (xp, xl) = (x.drop_last(), x.last());
        lemma_halves(c, x.len());
        assert(all_wf(xp));
        eq_sum_is_value(lo, xp);
        eq_sum_is_value(hi, xp);
        let (a, b) = (coeff_eval(lo, xp), coeff_eval(hi, xp));
        let g = eq_terms(c, x);
        let (f_lo, f_hi) = (eq_terms(lo, xp), eq_terms(hi, xp));
        let both = |p: Seq<EF>| e_add(f_lo(p), f_hi(p));
        let k0 = e_sub(e_one(), xl);
        lemma_eq1_bits(xl);
        assert forall|p: Seq<EF>| p.len() == m implies #[trigger] last_is(g, e_zero())(p) == e_mul(
            k0,
            f_lo(p),
        ) by {
            lemma_coeff_eval_bit(c, p);
            assert(p.push(e_zero()).drop_last() =~= p);
            lemma_move_factor(coeff_eval(lo, p), eq_mle(p, xp), k0);
        }
        assert forall|p: Seq<EF>| p.len() == m implies #[trigger] last_is(g, e_one())(p) == e_mul(
            xl,
            both(p),
        ) by {
            lemma_coeff_eval_bit(c, p);
            assert(p.push(e_one()).drop_last() =~= p);
            let (y, z) = (coeff_eval(lo, p), coeff_eval(hi, p));
            lemma_move_factor(e_add(y, z), eq_mle(p, xp), xl);
            lemma_e_mul_distributes(eq_mle(p, xp), y, z);
        }
        lemma_cube_sum_scales(m, k0, f_lo, last_is(g, e_zero()));
        lemma_cube_sum_scales(m, xl, both, last_is(g, e_one()));
        lemma_cube_sum_adds(m, f_lo, f_hi, both);
        lemma_coeff_eval_wf(lo, xp);
        lemma_e_mul_distributes_sub(a, e_one(), xl);
        lemma_e_mul_one(a);
        lemma_e_mul_distributes(xl, a, b);
        lemma_e_wf(xl, a, bb(0));
        lemma_e_wf(xl, b, bb(0));
        lemma_eq_terms(a, e_mul(xl, a), e_mul(xl, b));
        lemma_e_mul_commutes(a, xl);
        lemma_e_mul_commutes(b, xl);
    }
}

/// The Moebius kernel of points that are put together is the product of the kernels.
pub proof fn mobius_kernel_factors(u: Seq<EF>, a: Seq<EF>, b: Seq<EF>)
    requires
        u.len() == a.len() + b.len(),
    ensures
        mobius_eq_mle(u, a + b) == e_mul(
            mobius_eq_mle(u.take(a.len() as int), a),
            mobius_eq_mle(u.skip(a.len() as int), b),
        ),
    decreases b.len(),
{
    let t = a.len() as int;
    if b.len() == 0 {
        assert(a + b =~= a);
        assert(u.take(t) =~= u);
        lemma_mobius_wf(u, a);
        lemma_e_mul_one(mobius_eq_mle(u, a));
    } else {
        let bp = b.drop_last();
        assert((a + b).drop_last() =~= a + bp);
        assert((a + b).last() == b.last());
        assert(u.drop_last().take(t) =~= u.take(t));
        assert(u.drop_last().skip(t) =~= u.skip(t).drop_last());
        mobius_kernel_factors(u.drop_last(), a, bp);
        lemma_e_mul_associates(
            mobius_eq_mle(u.take(t), a),
            mobius_eq_mle(u.skip(t).drop_last(), bp),
            mobius_eq1(u.last(), b.last()),
        );
    }
}

proof fn lemma_mobius_wf(u: Seq<EF>, x: Seq<EF>)
    ensures
        mobius_eq_mle(u, x).wf(),
{
    lemma_e_wf(e_one(), e_one(), bb(0));
    if u.len() > 0 {
        lemma_e_wf(
            mobius_eq_mle(u.drop_last(), x.drop_last()),
            mobius_eq1(u.last(), x.last()),
            bb(0),
        );
    }
}

/// The equality kernel of points that are put together is the product of the kernels.
pub proof fn eq_kernel_factors(a: Seq<EF>, b: Seq<EF>, x: Seq<EF>)
    requires
        x.len() == a.len() + b.len(),
    ensures
        eq_mle(a + b, x) == e_mul(
            eq_mle(a, x.take(a.len() as int)),
            eq_mle(b, x.skip(a.len() as int)),
        ),
    decreases b.len(),
{
    let t = a.len() as int;
    if b.len() == 0 {
        assert(a + b =~= a);
        assert(x.take(t) =~= x);
        lemma_eq_wf(a, x);
        lemma_e_mul_one(eq_mle(a, x));
    } else {
        let bp = b.drop_last();
        assert((a + b).drop_last() =~= a + bp);
        assert((a + b).last() == b.last());
        assert(x.drop_last().take(t) =~= x.take(t));
        assert(x.drop_last().skip(t) =~= x.skip(t).drop_last());
        eq_kernel_factors(a, bp, x.drop_last());
        lemma_e_mul_associates(
            eq_mle(a, x.take(t)),
            eq_mle(bp, x.skip(t).drop_last()),
            eq1(b.last(), x.last()),
        );
    }
}

proof fn lemma_eq_wf(a: Seq<EF>, x: Seq<EF>)
    ensures
        eq_mle(a, x).wf(),
{
    lemma_e_wf(e_one(), e_one(), bb(0));
    if a.len() > 0 {
        lemma_e_wf(eq_mle(a.drop_last(), x.drop_last()), eq1(a.last(), x.last()), bb(0));
    }
}

pub proof fn lemma_ext_poly_wf(c: Seq<EF>, z: EF)
    ensures
        ext_poly_eval(c, z).wf(),
{
    lemma_e_wf(e_zero(), e_zero(), bb(0));
    if c.len() > 0 {
        lemma_e_wf(c[0], e_mul(ext_poly_eval(c.skip(1), z), z), bb(0));
    }
}

/// A polynomial is its lower part plus its upper part times a power.
pub proof fn lemma_ext_poly_splits(c: Seq<EF>, h: nat, z: EF)
    requires
        h <= c.len(),
    ensures
        ext_poly_eval(c, z) == e_add(
            ext_poly_eval(c.take(h as int), z),
            e_mul(ext_poly_eval(c.skip(h as int), z), e_pow(z, h)),
        ),
    decreases h,
{
    if h == 0 {
        assert(c.skip(0) =~= c);
        lemma_ext_poly_wf(c, z);
        lemma_e_mul_one(ext_poly_eval(c, z));
        lemma_e_add_zero(ext_poly_eval(c, z));
    } else {
        let g = (h - 1) as nat;
        let rest = c.skip(1);
        lemma_ext_poly_splits(rest, g, z);
        assert(c.take(h as int).skip(1) =~= rest.take(g as int));
        assert(rest.skip(g as int) =~= c.skip(h as int));
        let (p, q) = (ext_poly_eval(rest.take(g as int), z), ext_poly_eval(c.skip(h as int), z));
        lemma_e_mul_distributes(z, p, e_mul(q, e_pow(z, g)));
        lemma_e_mul_associates(q, e_pow(z, g), z);
        lemma_e_add_associates(c[0], e_mul(p, z), e_mul(q, e_pow(z, h)));
    }
}

pub proof fn lemma_e_pow_wf(z: EF, n: nat)
    ensures
        e_pow(z, n).wf(),
{
    lemma_e_wf(e_one(), e_one(), bb(0));
    if n > 0 {
        lemma_e_wf(e_pow(z, (n - 1) as nat), z, bb(0));
    }
}

pub proof fn lemma_e_pow_adds(z: EF, m: nat, n: nat)
    ensures
        e_pow(z, m + n) == e_mul(e_pow(z, m), e_pow(z, n)),
    decreases n,
{
    if n == 0 {
        lemma_e_pow_wf(z, m);
        lemma_e_mul_one(e_pow(z, m));
    } else {
        lemma_e_pow_adds(z, m, (n - 1) as nat);
        lemma_e_mul_associates(e_pow(z, m), e_pow(z, (n - 1) as nat), z);
    }
}

/// Repeated squaring raises to a power of two.
pub proof fn squares_are_powers(z: EF, k: nat)
    requires
        z.wf(),
    ensures
        square_times(z, k) == e_pow(z, pow2(k)),
    decreases k,
{
    lemma2_to64();
    if k == 0 {
        assert(e_pow(z, 1) == e_mul(e_pow(z, 0), z));
        lemma_e_mul_one(z);
    } else {
        squares_are_powers(z, (k - 1) as nat);
        lemma_pow2_unfold(k);
        let h = pow2((k - 1) as nat);
        lemma_e_pow_adds(z, h, h);
    }
}

/// Squaring goes on from where it stopped.
pub proof fn lemma_squares_continue(z: EF, a: nat, i: nat)
    ensures
        square_times(z, a + i) == square_times(square_times(z, a), i),
    decreases i,
{
    if i > 0 {
        lemma_squares_continue(z, a, (i - 1) as nat);
    }
}

/// At the repeated squares of `z`, a multilinear polynomial has the value at `z` of the univariate
/// polynomial with the same coefficients.
pub proof fn multilinear_at_squares_is_univariate(c: Seq<EF>, z: EF, n: nat)
    requires
        c.len() == pow2(n),
        all_wf(c),
        z.wf(),
    ensures
        coeff_eval(c, repeated_squares(z, n)) == ext_poly_eval(c, z),
    decreases n,
{
    lemma2_to64();
    let x = repeated_squares(z, n);
    if n == 0 {
        assert(c.skip(1) =~= Seq::empty());
        assert(ext_poly_eval(c.skip(1), z) == e_zero());
        lemma_e_wf(e_zero(), e_zero(), bb(0));
        lemma_e_mul_one(z);
        lemma_e_add_zero(c[0]);
    } else {
        let h = (c.len() / 2) as int;
        lemma_halves(c, n);
        assert(x.drop_last() =~= repeated_squares(z, (n - 1) as nat));
        multilinear_at_squares_is_univariate(c.take(h), z, (n - 1) as nat);
        multilinear_at_squares_is_univariate(c.skip(h), z, (n - 1) as nat);
        squares_are_powers(z, (n - 1) as nat);
        lemma_ext_poly_splits(c, h as nat, z);
    }
}

} // verus!
