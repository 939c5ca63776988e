//! Polynomials in coefficient and in evaluation form.

use vstd::arithmetic::power2::*;
use vstd::prelude::*;

use crate::algebra::{
    lemma_e_add_zero, lemma_e_from_ring, lemma_e_mul_distributes, lemma_e_mul_one, lemma_e_scale,
    lemma_e_wf, lemma_linear, lemma_of_quad, q_add, q_sub, quad,
};
use crate::field::{
    bb, e_add, e_from, e_mul, e_one, e_pow, e_scale, e_sub, e_zero, f_add, f_half, f_mul, f_pow,
    BabyBear, BabyBearExt4, Zero, EF,
};

verus! {

/// The value at `x` of the polynomial with the given coefficients, from that of the constant
/// term up.
pub open spec fn poly_eval(coeffs: Seq<BabyBear>, x: BabyBear) -> BabyBear
    decreases coeffs.len(),
{
    if coeffs.len() == 0 {
        bb(0)
    } else {
        f_add(coeffs[0], f_mul(x, poly_eval(coeffs.skip(1), x)))
    }
}

/// The value at `x` of a polynomial with extension field coefficients.
pub open spec fn ext_poly_eval(coeffs: Seq<EF>, x: EF) -> EF
    decreases coeffs.len(),
{
    if coeffs.len() == 0 {
        e_zero()
    } else {
        e_add(coeffs[0], e_mul(ext_poly_eval(coeffs.skip(1), x), x))
    }
}

/// Evaluates a polynomial in coefficient form by Horner's rule.
pub fn horner_eval(coeffs: &[EF], x: EF) -> (r: EF)
    ensures
        r == ext_poly_eval(coeffs@, x),
{
    let mut acc = BabyBearExt4::zero();
    let mut i: usize = coeffs.len();
    assert(coeffs@.skip(i as int) =~= Seq::empty());
    while i > 0
        invariant
            i <= coeffs@.len(),
            acc == ext_poly_eval(coeffs@.skip(i as int), x),
        decreases i,
    {
        proof {
            assert(coeffs@.skip(i - 1).skip(1) =~= coeffs@.skip(i as int));
        }
        i = i - 1;
        acc = coeffs[i].add(acc.mul(x));
    }
    assert(coeffs@.skip(0) =~= coeffs@);
    acc
}

/// `1 - x - y + 2xy`: one where the bits `x` and `y` are equal, zero where they differ.
pub open spec fn eq1(x: EF, y: EF) -> EF {
    let xy = e_mul(x, y);
    e_add(e_sub(e_sub(e_one(), x), y), e_add(xy, xy))
}

/// The multilinear extension of equality: the product of [`eq1`] over all coordinates.
pub open spec fn eq_mle(x: Seq<EF>, y: Seq<EF>) -> EF
    decreases x.len(),
{
    if x.len() == 0 {
        e_one()
    } else {
        e_mul(eq_mle(x.drop_last(), y.drop_last()), eq1(x.last(), y.last()))
    }
}

/// `(1 - 2u)(1 - x) + ux`.
pub open spec fn mobius_eq1(u: EF, x: EF) -> EF {
    e_add(e_mul(e_sub(e_sub(e_one(), u), u), e_sub(e_one(), x)), e_mul(u, x))
}

/// The multilinear extension that reads the multilinear coefficients off a hypercube of values:
/// the product of [`mobius_eq1`] over all coordinates.
pub open spec fn mobius_eq_mle(u: Seq<EF>, x: Seq<EF>) -> EF
    decreases u.len(),
{
    if u.len() == 0 {
        e_one()
    } else {
        e_mul(mobius_eq_mle(u.drop_last(), x.drop_last()), mobius_eq1(u.last(), x.last()))
    }
}

pub fn eval_eq_mle(x: &[EF], y: &[EF]) -> (r: EF)
    requires
        x@.len() == y@.len(),
    ensures
        r == eq_mle(x@, y@),
{
    let mut acc = BabyBearExt4::one();
    let mut i: usize = 0;
    assert(x@.take(0) =~= Seq::empty());
    while i < x.len()
        invariant
            i <= x@.len() == y@.len(),
            acc == eq_mle(x@.take(i as int), y@.take(i as int)),
        decreases x@.len() - i,
    {
        let xy = x[i].mul(y[i]);
        let term = BabyBearExt4::one().sub(x[i]).sub(y[i]).add(xy.add(xy));
        proof {
            assert(x@.take(i + 1).drop_last() =~= x@.take(i as int));
            assert(y@.take(i + 1).drop_last() =~= y@.take(i as int));
        }
        acc = acc.mul(term);
        i = i + 1;
    }
    assert(x@.take(i as int) =~= x@);
    assert(y@.take(i as int) =~= y@);
    acc
}

pub fn eval_mobius_eq_mle(u: &[EF], x: &[EF]) -> (r: EF)
    requires
        u@.len() == x@.len(),
    ensures
        r == mobius_eq_mle(u@, x@),
{
    let mut acc = BabyBearExt4::one();
    let mut i: usize = 0;
    assert(u@.take(0) =~= Seq::empty());
    while i < u.len()
        invariant
            i <= u@.len() == x@.len(),
            acc == mobius_eq_mle(u@.take(i as int), x@.take(i as int)),
        decreases u@.len() - i,
    {
        let one = BabyBearExt4::one();
        let term = one.sub(u[i]).sub(u[i]).mul(one.sub(x[i])).add(u[i].mul(x[i]));
        proof {
            assert(u@.take(i + 1).drop_last() =~= u@.take(i as int));
            assert(x@.take(i + 1).drop_last() =~= x@.take(i as int));
        }
        acc = acc.mul(term);
        i = i + 1;
    }
    assert(u@.take(i as int) =~= u@);
    assert(x@.take(i as int) =~= x@);
    acc
}

/// The table with its last variable set to `x`: `lo + (hi - lo) x` for each two entries that
/// differ in that variable only.
pub open spec fn bind_last(evals: Seq<EF>, x: EF) -> Seq<EF> {
    let h = evals.len() / 2;
    Seq::new(h, |i: int| e_add(evals[i], e_mul(e_sub(evals[h + i], evals[i]), x)))
}

/// The value at `x` of the multilinear polynomial with the given values on the hypercube. Bit
/// `i` of an index into the table is the value of variable `i`.
pub open spec fn mle_eval(evals: Seq<EF>, x: Seq<EF>) -> EF
    decreases x.len(),
{
    if x.len() == 0 {
        evals[0]
    } else {
        mle_eval(bind_last(evals, x.last()), x.drop_last())
    }
}

pub fn eval_mle_evals_at_point(evals: &[EF], x: &[EF]) -> (r: EF)
    requires
        evals@.len() == pow2(x@.len()),
    ensures
        r == mle_eval(evals@, x@),
{
    let mut table: Vec<EF> = Vec::with_capacity(evals.len());
    let mut i: usize = 0;
    while i < evals.len()
        invariant
            i <= evals@.len(),
            table@ == evals@.take(i as int),
        decreases evals@.len() - i,
    {
        table.push(evals[i]);
        assert(evals@.take(i + 1) =~= evals@.take(i as int).push(evals@[i as int]));
        i = i + 1;
    }
    assert(table@ =~= evals@);
    let mut n: usize = x.len();
    assert(x@.take(n as int) =~= x@);
    while n > 0
        invariant
            n <= x@.len(),
            table@.len() == pow2(n as nat),
            mle_eval(table@, x@.take(n as int)) == mle_eval(evals@, x@),
        decreases n,
    {
        let point = x[n - 1];
        let half = table.len() / 2;
        proof {
            lemma_pow2_unfold(n as nat);
            lemma_pow2_pos((n - 1) as nat);
            assert(x@.take(n as int).drop_last() =~= x@.take(n - 1));
        }
        let mut next: Vec<EF> = Vec::with_capacity(half);
        let mut j: usize = 0;
        while j < half
            invariant
                j <= half,
                half == table.len() / 2,
                next@.len() == j,
                forall|k: int| 0 <= k < j ==> #[trigger] next@[k] == bind_last(table@, point)[k],
            decreases half - j,
        {
            let lo = table[j];
            let hi = table[half + j];
            next.push(lo.add(hi.sub(lo).mul(point)));
            j = j + 1;
        }
        assert(next@ =~= bind_last(table@, point));
        table = next;
        n = n - 1;
    }
    proof {
        lemma2_to64();
        assert(x@.take(0).len() == 0);
    }
    table[0]
}

/// The value at `x` of the polynomial of degree at most two with the values `e0`, `e1` and `e2`
/// at zero, one and two.
pub open spec fn quadratic_at(e0: EF, e1: EF, e2: EF, x: EF) -> EF {
    let c2 = e_scale(e_add(e_sub(e_sub(e2, e1), e1), e0), f_half(bb(1)));
    let c1 = e_sub(e_sub(e1, e0), c2);
    e_add(e0, e_mul(e_add(c1, e_mul(c2, x)), x))
}

/// Interpolation hits the values: at zero, one and two the polynomial has the values it was made
/// of.
pub proof fn quadratic_hits_values(e0: EF, e1: EF, e2: EF)
    requires
        e0.wf(),
        e1.wf(),
        e2.wf(),
    ensures
        quadratic_at(e0, e1, e2, e_zero()) == e0,
        quadratic_at(e0, e1, e2, e_one()) == e1,
        quadratic_at(e0, e1, e2, e_add(e_one(), e_one())) == e2,
{
    let d = e_add(e_sub(e_sub(e2, e1), e1), e0);
    let half = f_half(bb(1));
    let c2 = e_scale(d, half);
    let c1 = e_sub(e_sub(e1, e0), c2);
    lemma_e_wf(e_sub(e_sub(e2, e1), e1), e0, bb(0));
    lemma_e_wf(d, d, half);
    lemma_e_wf(e_sub(e1, e0), c2, bb(0));
    lemma_e_wf(c1, e_mul(c2, e_one()), bb(0));
    lemma_e_wf(c1, e_mul(c2, e_zero()), bb(0));
    lemma_e_mul_one(c1);
    lemma_e_mul_one(c2);
    lemma_e_mul_one(e_add(c1, e_mul(c2, e_zero())));
    lemma_e_mul_one(e_add(c1, e_mul(c2, e_one())));
    lemma_e_add_zero(e0);
    // c2 + c2 == d
    lemma_e_scale(d, half);
    lemma_e_mul_distributes(d, e_from(half), e_from(half));
    lemma_e_from_ring(half, half);
    assert(e_from(f_add(half, half)) == e_one()) by {
        reveal(f_half);
        reveal(f_add);
        reveal(e_from);
        assert(bb(1).value == 1);
        assert(half.value == 1006632961);
        assert(bb(2013265922) == bb(1));
    }
    lemma_e_mul_one(d);
    assert(e_add(c2, c2) == d);
    lemma_of_quad(e0);
    lemma_of_quad(e1);
    lemma_of_quad(e2);
    lemma_of_quad(c2);
    let (q0, q1, q2, qc) = (quad(e0), quad(e1), quad(e2), quad(c2));
    let q_c1 = q_sub(q_sub(q1, q0), qc);
    lemma_linear(q1, q0);
    lemma_linear(q_sub(q1, q0), qc);
    // at one: e0 + (c1 + c2)
    lemma_linear(q_c1, qc);
    lemma_linear(q0, q_add(q_c1, qc));
    assert(q_add(q0, q_add(q_c1, qc)) == q1);
    // at two: e0 + ((c1 + d) + (c1 + d))
    let two = e_add(e_one(), e_one());
    lemma_e_mul_distributes(c2, e_one(), e_one());
    let s = e_add(c1, d);
    lemma_e_wf(c1, d, bb(0));
    lemma_e_mul_distributes(s, e_one(), e_one());
    lemma_e_mul_one(s);
    lemma_linear(q2, q1);
    lemma_linear(q_sub(q2, q1), q1);
    lemma_linear(q_sub(q_sub(q2, q1), q1), q0);
    let qd = q_add(q_sub(q_sub(q2, q1), q1), q0);
    lemma_linear(qc, qc);
    lemma_linear(q_c1, qd);
    let qs = q_add(q_c1, qd);
    lemma_linear(qs, qs);
    lemma_linear(q0, q_add(qs, qs));
    // the value at two is e2 + (d - (c2 + c2)), and that is e2
    lemma_linear(qd, q_add(qc, qc));
    lemma_linear(q2, q_sub(qd, q_add(qc, qc)));
    assert(q_add(q0, q_add(qs, qs)) == q_add(q2, q_sub(qd, q_add(qc, qc))));
    lemma_e_add_zero(d);
    lemma_e_add_zero(e2);
}

pub fn interpolate_quadratic_at_012(e0: EF, e1: EF, e2: EF, x: EF) -> (r: EF)
    ensures
        r == quadratic_at(e0, e1, e2, x),
{
    let c2 = e2.sub(e1).sub(e1).add(e0).scale(BabyBear::one().halve());
    let c1 = e1.sub(e0).sub(c2);
    e0.add(c1.add(c2.mul(x)).mul(x))
}

/// `x^(2^k)`, by repeated squaring.
pub open spec fn square_times(x: EF, k: nat) -> EF
    decreases k,
{
    if k == 0 {
        x
    } else {
        e_mul(square_times(x, (k - 1) as nat), square_times(x, (k - 1) as nat))
    }
}

/// `x, x^2, x^4, ...`: the first `n` of the repeated squares of `x`.
pub open spec fn repeated_squares(x: EF, n: nat) -> Seq<EF> {
    Seq::new(n, |i: int| square_times(x, i as nat))
}

pub fn exp_powers_of_2(x: EF, n: usize) -> (r: Vec<EF>)
    ensures
        r@ == repeated_squares(x, n as nat),
{
    let mut r: Vec<EF> = Vec::with_capacity(n);
    let mut cur = x;
    let mut i: usize = 0;
    while i < n
        invariant
            i <= n,
            r@.len() == i,
            cur == square_times(x, i as nat),
            forall|k: int| 0 <= k < i ==> #[trigger] r@[k] == square_times(x, k as nat),
        decreases n - i,
    {
        r.push(cur);
        cur = cur.mul(cur);
        i = i + 1;
    }
    assert(r@ =~= repeated_squares(x, n as nat));
    r
}

/// `1, x, x^2, ...`: the first `n` powers of `x`.
pub open spec fn ext_powers(x: EF, n: nat) -> Seq<EF> {
    Seq::new(n, |i: int| e_pow(x, i as nat))
}

pub fn powers(x: EF, n: usize) -> (r: Vec<EF>)
    ensures
        r@ == ext_powers(x, n as nat),
{
    let mut r: Vec<EF> = Vec::with_capacity(n);
    let mut cur = BabyBearExt4::one();
    let mut i: usize = 0;
    while i < n
        invariant
            i <= n,
            r@.len() == i,
            cur == e_pow(x, i as nat),
            forall|k: int| 0 <= k < i ==> #[trigger] r@[k] == e_pow(x, k as nat),
        decreases n - i,
    {
        r.push(cur);
        cur = cur.mul(x);
        i = i + 1;
    }
    assert(r@ =~= ext_powers(x, n as nat));
    r
}

/// `1, x, x^2, ...` in the base field.
pub open spec fn base_powers(x: BabyBear, n: nat) -> Seq<BabyBear> {
    Seq::new(n, |i: int| f_pow(x, i as nat))
}

pub fn powers_base(x: BabyBear, n: usize) -> (r: Vec<BabyBear>)
    ensures
        r@ == base_powers(x, n as nat),
{
    let mut r: Vec<BabyBear> = Vec::with_capacity(n);
    let mut cur = BabyBear::one();
    let mut i: usize = 0;
    while i < n
        invariant
            i <= n,
            r@.len() == i,
            cur == f_pow(x, i as nat),
            forall|k: int| 0 <= k < i ==> #[trigger] r@[k] == f_pow(x, k as nat),
        decreases n - i,
    {
        r.push(cur);
        cur = cur.mul(x);
        i = i + 1;
    }
    assert(r@ =~= base_powers(x, n as nat));
    r
}

/// The powers of an element start with one, and each is the one before times the element.
pub proof fn powers_multiply_up(x: EF, y: BabyBear, n: nat, i: int)
    requires
        0 <= i < n,
    ensures
        ext_powers(x, n).len() == n,
        ext_powers(x, n)[0] == e_one(),
        i > 0 ==> ext_powers(x, n)[i] == e_mul(ext_powers(x, n)[i - 1], x),
        base_powers(y, n).len() == n,
        base_powers(y, n)[0] == bb(1),
        i > 0 ==> base_powers(y, n)[i] == f_mul(base_powers(y, n)[i - 1], y),
{
}

} // verus!
