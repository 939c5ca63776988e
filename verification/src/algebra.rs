//! The ring laws of the base field and of its extension.

use vstd::arithmetic::div_mod::*;
use vstd::arithmetic::mul::*;
use vstd::arithmetic::power2::*;
use vstd::prelude::*;

use crate::field::{
    bb, e_add, e_from, e_mul, e_one, e_scale, e_sub, e_zero, ext, f_add, f_generator, f_mul, f_pow,
    f_sub, BabyBear, EF, P,
};

verus! {

/// Congruent integers stand for the same element.
pub proof fn lemma_bb_multiple(x: int, k: int)
    ensures
        bb(x - P * k) == bb(x),
        bb(x + P * k) == bb(x),
{
    lemma_mod_multiples_vanish(-k, x, P as int);
    lemma_mod_multiples_vanish(k, x, P as int);
    assert(P as int * (-k) + x == x - P * k) by (nonlinear_arith);
}

/// The integer held by an element differs from the one it was made of by a multiple of `P`.
pub proof fn lemma_bb_value(x: int)
    ensures
        bb(x).value == x % (P as int),
        bb(x).value == x - P * (x / (P as int)),
        bb(x).wf(),
        bb(bb(x).value as int) == bb(x),
{
    lemma_fundamental_div_mod(x, P as int);
    lemma_mod_bound(x, P as int);
    lemma_mod_twice(x, P as int);
}

pub proof fn lemma_f_canonical(a: BabyBear)
    requires
        a.wf(),
    ensures
        bb(a.value as int) == a,
{
    lemma_small_mod(a.value as nat, P as nat);
}

/// Reducing the factors first does not change a product.
pub proof fn lemma_bb_mul(x: int, y: int)
    ensures
        f_mul(bb(x), bb(y)) == bb(x * y),
        bb(bb(x).value * y) == bb(x * y),
        bb(x * bb(y).value) == bb(x * y),
{
    reveal(f_mul);
    lemma_bb_value(x);
    lemma_bb_value(y);
    let p = P as int;
    let (kx, ky) = (x / p, y / p);
    let (vx, vy) = (bb(x).value as int, bb(y).value as int);
    assert(vx * y == x * y - p * (kx * y)) by (nonlinear_arith)
        requires
            vx == x - p * kx,
    ;
    lemma_bb_multiple(x * y, kx * y);
    assert(x * vy == x * y - p * (x * ky)) by (nonlinear_arith)
        requires
            vy == y - p * ky,
    ;
    lemma_bb_multiple(x * y, x * ky);
    assert(vx * vy == x * y - p * (kx * y + vx * ky)) by (nonlinear_arith)
        requires
            vx == x - p * kx,
            vy == y - p * ky,
    ;
    lemma_bb_multiple(x * y, kx * y + vx * ky);
}

/// Reducing the terms first does not change a sum or a difference.
pub proof fn lemma_bb_add(x: int, y: int)
    ensures
        f_add(bb(x), bb(y)) == bb(x + y),
        f_sub(bb(x), bb(y)) == bb(x - y),
        bb(bb(x).value + y) == bb(x + y),
        bb(x + bb(y).value) == bb(x + y),
        bb(bb(x).value - y) == bb(x - y),
        bb(x - bb(y).value) == bb(x - y),
{
    reveal(f_add);
    reveal(f_sub);
    lemma_bb_value(x);
    lemma_bb_value(y);
    let p = P as int;
    let (kx, ky) = (x / p, y / p);
    lemma_bb_multiple(x + y, kx + ky);
    lemma_bb_multiple(x - y, kx - ky);
    lemma_bb_multiple(x + y, kx);
    lemma_bb_multiple(x + y, ky);
    lemma_bb_multiple(x - y, kx);
    lemma_bb_multiple(x - y, ky);
}

/// Every product is canonical.
pub proof fn lemma_f_mul_wf(a: BabyBear, b: BabyBear)
    ensures
        f_mul(a, b).wf(),
{
    reveal(f_mul);
    lemma_bb_value(a.value * b.value);
}

pub proof fn lemma_f_mul_commutes(a: BabyBear, b: BabyBear)
    ensures
        f_mul(a, b) == f_mul(b, a),
{
    reveal(f_mul);
    assert(a.value * b.value == b.value * a.value) by (nonlinear_arith);
}

pub proof fn lemma_f_mul_associates(a: BabyBear, b: BabyBear, c: BabyBear)
    ensures
        f_mul(f_mul(a, b), c) == f_mul(a, f_mul(b, c)),
{
    reveal(f_mul);
    let (x, y, z) = (a.value as int, b.value as int, c.value as int);
    lemma_bb_mul(x * y, z);
    lemma_bb_mul(x, y * z);
    assert((x * y) * z == x * (y * z)) by (nonlinear_arith);
}

pub proof fn lemma_f_mul_one(a: BabyBear)
    requires
        a.wf(),
    ensures
        f_mul(a, bb(1)) == a,
        f_mul(bb(1), a) == a,
{
    reveal(f_mul);
    lemma_f_canonical(a);
    assert(bb(1).value == 1);
    assert(a.value * 1 == a.value && 1 * a.value == a.value);
}

/// Four integer coefficients.
pub struct Quad {
    pub c0: int,
    pub c1: int,
    pub c2: int,
    pub c3: int,
}

pub open spec fn quad(a: EF) -> Quad {
    Quad {
        c0: a.c0.value as int,
        c1: a.c1.value as int,
        c2: a.c2.value as int,
        c3: a.c3.value as int,
    }
}

/// The extension element with the given coefficients.
pub open spec fn reduce(a: Quad) -> EF {
    ext(a.c0, a.c1, a.c2, a.c3)
}

pub open spec fn q_mul(a: Quad, b: Quad) -> Quad {
    Quad {
        c0: a.c0 * b.c0 + 11 * (a.c1 * b.c3 + a.c2 * b.c2 + a.c3 * b.c1),
        c1: a.c0 * b.c1 + a.c1 * b.c0 + 11 * (a.c2 * b.c3 + a.c3 * b.c2),
        c2: a.c0 * b.c2 + a.c1 * b.c1 + a.c2 * b.c0 + 11 * (a.c3 * b.c3),
        c3: a.c0 * b.c3 + a.c1 * b.c2 + a.c2 * b.c1 + a.c3 * b.c0,
    }
}

pub open spec fn q_add(a: Quad, b: Quad) -> Quad {
    Quad { c0: a.c0 + b.c0, c1: a.c1 + b.c1, c2: a.c2 + b.c2, c3: a.c3 + b.c3 }
}

proof fn lemma_q_commutes(a: Quad, b: Quad)
    ensures
        q_mul(a, b) == q_mul(b, a),
{
    assert(a.c0 * b.c0 == b.c0 * a.c0) by (nonlinear_arith);
    assert(a.c0 * b.c1 == b.c1 * a.c0) by (nonlinear_arith);
    assert(a.c0 * b.c2 == b.c2 * a.c0) by (nonlinear_arith);
    assert(a.c0 * b.c3 == b.c3 * a.c0) by (nonlinear_arith);
    assert(a.c1 * b.c0 == b.c0 * a.c1) by (nonlinear_arith);
    assert(a.c1 * b.c1 == b.c1 * a.c1) by (nonlinear_arith);
    assert(a.c1 * b.c2 == b.c2 * a.c1) by (nonlinear_arith);
    assert(a.c1 * b.c3 == b.c3 * a.c1) by (nonlinear_arith);
    assert(a.c2 * b.c0 == b.c0 * a.c2) by (nonlinear_arith);
    assert(a.c2 * b.c1 == b.c1 * a.c2) by (nonlinear_arith);
    assert(a.c2 * b.c2 == b.c2 * a.c2) by (nonlinear_arith);
    assert(a.c2 * b.c3 == b.c3 * a.c2) by (nonlinear_arith);
    assert(a.c3 * b.c0 == b.c0 * a.c3) by (nonlinear_arith);
    assert(a.c3 * b.c1 == b.c1 * a.c3) by (nonlinear_arith);
    assert(a.c3 * b.c2 == b.c2 * a.c3) by (nonlinear_arith);
    assert(a.c3 * b.c3 == b.c3 * a.c3) by (nonlinear_arith);
}

pub open spec fn q_scale(k: int, a: Quad) -> Quad {
    Quad { c0: k * a.c0, c1: k * a.c1, c2: k * a.c2, c3: k * a.c3 }
}

/// The product with `X`.
pub open spec fn q_shift(a: Quad) -> Quad {
    Quad { c0: 11 * a.c3, c1: a.c0, c2: a.c1, c3: a.c2 }
}

/// The product is linear in its first factor.
proof fn lemma_q_add_left(x: Quad, y: Quad, c: Quad)
    ensures
        q_mul(q_add(x, y), c) == q_add(q_mul(x, c), q_mul(y, c)),
{
    broadcast use lemma_mul_is_distributive_add_other_way;

    assert((x.c0 + y.c0) * c.c0 == x.c0 * c.c0 + y.c0 * c.c0);
    assert((x.c0 + y.c0) * c.c1 == x.c0 * c.c1 + y.c0 * c.c1);
    assert((x.c0 + y.c0) * c.c2 == x.c0 * c.c2 + y.c0 * c.c2);
    assert((x.c0 + y.c0) * c.c3 == x.c0 * c.c3 + y.c0 * c.c3);
    assert((x.c1 + y.c1) * c.c0 == x.c1 * c.c0 + y.c1 * c.c0);
    assert((x.c1 + y.c1) * c.c1 == x.c1 * c.c1 + y.c1 * c.c1);
    assert((x.c1 + y.c1) * c.c2 == x.c1 * c.c2 + y.c1 * c.c2);
    assert((x.c1 + y.c1) * c.c3 == x.c1 * c.c3 + y.c1 * c.c3);
    assert((x.c2 + y.c2) * c.c0 == x.c2 * c.c0 + y.c2 * c.c0);
    assert((x.c2 + y.c2) * c.c1 == x.c2 * c.c1 + y.c2 * c.c1);
    assert((x.c2 + y.c2) * c.c2 == x.c2 * c.c2 + y.c2 * c.c2);
    assert((x.c2 + y.c2) * c.c3 == x.c2 * c.c3 + y.c2 * c.c3);
    assert((x.c3 + y.c3) * c.c0 == x.c3 * c.c0 + y.c3 * c.c0);
    assert((x.c3 + y.c3) * c.c1 == x.c3 * c.c1 + y.c3 * c.c1);
    assert((x.c3 + y.c3) * c.c2 == x.c3 * c.c2 + y.c3 * c.c2);
    assert((x.c3 + y.c3) * c.c3 == x.c3 * c.c3 + y.c3 * c.c3);
}

/// A factor of a sum of four products, three of them taken eleven times.
proof fn lemma_factor(k: int, p: int, q: int, r: int, s: int)
    ensures
        k * (p + 11 * (q + r + s)) == k * p + 11 * (k * q + k * r + k * s),
        k * (p + q + 11 * (r + s)) == k * p + k * q + 11 * (k * r + k * s),
        k * (p + q + r + 11 * s) == k * p + k * q + k * r + 11 * (k * s),
        k * (p + q + r + s) == k * p + k * q + k * r + k * s,
{
    assert(k * (p + 11 * (q + r + s)) == k * p + 11 * (k * q + k * r + k * s)) by (nonlinear_arith);
    assert(k * (p + q + 11 * (r + s)) == k * p + k * q + 11 * (k * r + k * s)) by (nonlinear_arith);
    assert(k * (p + q + r + 11 * s) == k * p + k * q + k * r + 11 * (k * s)) by (nonlinear_arith);
    assert(k * (p + q + r + s) == k * p + k * q + k * r + k * s) by (nonlinear_arith);
}

proof fn lemma_q_scale_left(k: int, x: Quad, c: Quad)
    ensures
        q_mul(q_scale(k, x), c) == q_scale(k, q_mul(x, c)),
{
    lemma_mul_is_associative(k, x.c0, c.c0);
    lemma_mul_is_associative(k, x.c0, c.c1);
    lemma_mul_is_associative(k, x.c0, c.c2);
    lemma_mul_is_associative(k, x.c0, c.c3);
    lemma_mul_is_associative(k, x.c1, c.c0);
    lemma_mul_is_associative(k, x.c1, c.c1);
    lemma_mul_is_associative(k, x.c1, c.c2);
    lemma_mul_is_associative(k, x.c1, c.c3);
    lemma_mul_is_associative(k, x.c2, c.c0);
    lemma_mul_is_associative(k, x.c2, c.c1);
    lemma_mul_is_associative(k, x.c2, c.c2);
    lemma_mul_is_associative(k, x.c2, c.c3);
    lemma_mul_is_associative(k, x.c3, c.c0);
    lemma_mul_is_associative(k, x.c3, c.c1);
    lemma_mul_is_associative(k, x.c3, c.c2);
    lemma_mul_is_associative(k, x.c3, c.c3);
    lemma_factor(k, x.c0 * c.c0, x.c1 * c.c3, x.c2 * c.c2, x.c3 * c.c1);
    lemma_factor(k, x.c0 * c.c1, x.c1 * c.c0, x.c2 * c.c3, x.c3 * c.c2);
    lemma_factor(k, x.c0 * c.c2, x.c1 * c.c1, x.c2 * c.c0, x.c3 * c.c3);
    lemma_factor(k, x.c0 * c.c3, x.c1 * c.c2, x.c2 * c.c1, x.c3 * c.c0);
}

proof fn lemma_q_shift_left(b: Quad, c: Quad)
    ensures
        q_mul(q_shift(b), c) == q_shift(q_mul(b, c)),
{
    lemma_mul_is_associative(11, b.c3, c.c0);
    lemma_mul_is_associative(11, b.c3, c.c1);
    lemma_mul_is_associative(11, b.c3, c.c2);
    lemma_mul_is_associative(11, b.c3, c.c3);
}

/// The product, written as multiples of the second factor by powers of `X`.
spec fn q_horner(a: Quad, b: Quad) -> Quad {
    q_add(
        q_scale(a.c0, b),
        q_add(
            q_scale(a.c1, q_shift(b)),
            q_add(q_scale(a.c2, q_shift(q_shift(b))), q_scale(a.c3, q_shift(q_shift(q_shift(b))))),
        ),
    )
}

proof fn lemma_q_horner(a: Quad, b: Quad)
    ensures
        q_mul(a, b) == q_horner(a, b),
{
    assert(a.c1 * (11 * b.c3) == 11 * (a.c1 * b.c3)) by (nonlinear_arith);
    assert(a.c2 * (11 * b.c2) == 11 * (a.c2 * b.c2)) by (nonlinear_arith);
    assert(a.c2 * (11 * b.c3) == 11 * (a.c2 * b.c3)) by (nonlinear_arith);
    assert(a.c3 * (11 * b.c1) == 11 * (a.c3 * b.c1)) by (nonlinear_arith);
    assert(a.c3 * (11 * b.c2) == 11 * (a.c3 * b.c2)) by (nonlinear_arith);
    assert(a.c3 * (11 * b.c3) == 11 * (a.c3 * b.c3)) by (nonlinear_arith);
}

proof fn lemma_q_associates(a: Quad, b: Quad, c: Quad)
    ensures
        q_mul(q_mul(a, b), c) == q_mul(a, q_mul(b, c)),
{
    let (b1, b2, b3) = (q_shift(b), q_shift(q_shift(b)), q_shift(q_shift(q_shift(b))));
    lemma_q_horner(a, b);
    lemma_q_horner(a, q_mul(b, c));
    let t2 = q_add(q_scale(a.c2, b2), q_scale(a.c3, b3));
    let t1 = q_add(q_scale(a.c1, b1), t2);
    lemma_q_add_left(q_scale(a.c0, b), t1, c);
    lemma_q_add_left(q_scale(a.c1, b1), t2, c);
    lemma_q_add_left(q_scale(a.c2, b2), q_scale(a.c3, b3), c);
    lemma_q_scale_left(a.c0, b, c);
    lemma_q_scale_left(a.c1, b1, c);
    lemma_q_scale_left(a.c2, b2, c);
    lemma_q_scale_left(a.c3, b3, c);
    lemma_q_shift_left(b, c);
    lemma_q_shift_left(b1, c);
    lemma_q_shift_left(b2, c);
}

/// The multiple of `P` by which the coefficients differ from their reduced ones.
spec fn q_quotient(a: Quad) -> Quad {
    let p = P as int;
    Quad { c0: a.c0 / p, c1: a.c1 / p, c2: a.c2 / p, c3: a.c3 / p }
}

proof fn lemma_reduce_value(a: Quad)
    ensures
        quad(reduce(a)) == q_add(a, q_scale(-(P as int), q_quotient(a))),
        reduce(a).wf(),
{
    lemma_bb_value(a.c0);
    lemma_bb_value(a.c1);
    lemma_bb_value(a.c2);
    lemma_bb_value(a.c3);
}

proof fn lemma_reduce_multiple(a: Quad, k: Quad)
    ensures
        reduce(q_add(a, q_scale(-(P as int), k))) == reduce(a),
{
    let p = P as int;
    assert(-p * k.c0 == -(p * k.c0)) by (nonlinear_arith);
    assert(-p * k.c1 == -(p * k.c1)) by (nonlinear_arith);
    assert(-p * k.c2 == -(p * k.c2)) by (nonlinear_arith);
    assert(-p * k.c3 == -(p * k.c3)) by (nonlinear_arith);
    lemma_bb_multiple(a.c0, k.c0);
    lemma_bb_multiple(a.c1, k.c1);
    lemma_bb_multiple(a.c2, k.c2);
    lemma_bb_multiple(a.c3, k.c3);
}

/// Reducing a factor first does not change a product.
proof fn lemma_reduce_mul(a: Quad, b: Quad)
    ensures
        reduce(q_mul(quad(reduce(a)), b)) == reduce(q_mul(a, b)),
        reduce(q_mul(b, quad(reduce(a)))) == reduce(q_mul(b, a)),
{
    let p = -(P as int);
    let k = q_quotient(a);
    lemma_reduce_value(a);
    lemma_q_add_left(a, q_scale(p, k), b);
    lemma_q_scale_left(p, k, b);
    lemma_reduce_multiple(q_mul(a, b), q_mul(k, b));
    lemma_q_commutes(quad(reduce(a)), b);
    lemma_q_commutes(a, b);
}

/// Reducing a term first does not change a sum.
proof fn lemma_reduce_add(a: Quad, b: Quad)
    ensures
        reduce(q_add(quad(reduce(a)), b)) == reduce(q_add(a, b)),
        reduce(q_add(b, quad(reduce(a)))) == reduce(q_add(b, a)),
{
    let k = q_quotient(a);
    lemma_reduce_value(a);
    lemma_reduce_multiple(q_add(a, b), k);
}

pub proof fn lemma_e_canonical(a: EF)
    requires
        a.wf(),
    ensures
        reduce(quad(a)) == a,
{
    lemma_f_canonical(a.c0);
    lemma_f_canonical(a.c1);
    lemma_f_canonical(a.c2);
    lemma_f_canonical(a.c3);
}

/// Every result of an operation is canonical.
pub proof fn lemma_e_wf(a: EF, b: EF, k: BabyBear)
    ensures
        e_add(a, b).wf(),
        e_sub(a, b).wf(),
        e_mul(a, b).wf(),
        e_scale(a, k).wf(),
        e_from(k).wf(),
        e_zero().wf(),
        e_one().wf(),
{
    reveal(e_add);
    reveal(e_sub);
    reveal(e_mul);
    reveal(e_scale);
    reveal(e_from);
    lemma_bb_value(0);
    assert forall|x: int| #[trigger] bb(x).wf() by {
        lemma_bb_value(x);
    }
}

pub proof fn lemma_e_add_commutes(a: EF, b: EF)
    ensures
        e_add(a, b) == e_add(b, a),
{
    reveal(e_add);
}

pub proof fn lemma_e_add_associates(a: EF, b: EF, c: EF)
    ensures
        e_add(e_add(a, b), c) == e_add(a, e_add(b, c)),
{
    reveal(e_add);
    let (x, y, z) = (quad(a), quad(b), quad(c));
    lemma_reduce_add(q_add(x, y), z);
    lemma_reduce_add(q_add(y, z), x);
    assert(q_add(q_add(x, y), z) == q_add(x, q_add(y, z)));
}

pub proof fn lemma_e_add_zero(a: EF)
    requires
        a.wf(),
    ensures
        e_add(a, e_zero()) == a,
        e_add(e_zero(), a) == a,
        e_sub(a, a) == e_zero(),
        e_sub(a, e_zero()) == a,
{
    reveal(e_add);
    reveal(e_sub);
    lemma_e_canonical(a);
}

pub proof fn lemma_e_mul_commutes(a: EF, b: EF)
    ensures
        e_mul(a, b) == e_mul(b, a),
{
    reveal(e_mul);
    lemma_q_commutes(quad(a), quad(b));
    assert(e_mul(a, b) == reduce(q_mul(quad(a), quad(b))));
    assert(e_mul(b, a) == reduce(q_mul(quad(b), quad(a))));
}

pub proof fn lemma_e_mul_associates(a: EF, b: EF, c: EF)
    ensures
        e_mul(e_mul(a, b), c) == e_mul(a, e_mul(b, c)),
{
    reveal(e_mul);
    let (x, y, z) = (quad(a), quad(b), quad(c));
    lemma_reduce_mul(q_mul(x, y), z);
    lemma_reduce_mul(q_mul(y, z), x);
    lemma_q_associates(x, y, z);
}

pub proof fn lemma_e_mul_distributes(a: EF, b: EF, c: EF)
    ensures
        e_mul(a, e_add(b, c)) == e_add(e_mul(a, b), e_mul(a, c)),
        e_mul(e_add(b, c), a) == e_add(e_mul(b, a), e_mul(c, a)),
{
    reveal(e_add);
    reveal(e_mul);
    let (x, y, z) = (quad(a), quad(b), quad(c));
    lemma_reduce_mul(q_add(y, z), x);
    lemma_q_add_left(y, z, x);
    lemma_reduce_add(q_mul(y, x), quad(reduce(q_mul(z, x))));
    lemma_reduce_add(q_mul(z, x), q_mul(y, x));
    lemma_e_mul_commutes(a, e_add(b, c));
    lemma_e_mul_commutes(a, b);
    lemma_e_mul_commutes(a, c);
}

pub proof fn lemma_e_mul_one(a: EF)
    requires
        a.wf(),
    ensures
        e_mul(a, e_one()) == a,
        e_mul(e_one(), a) == a,
        e_mul(a, e_zero()) == e_zero(),
        e_mul(e_zero(), a) == e_zero(),
{
    reveal(e_mul);
    lemma_e_canonical(a);
    let (x, one, zero) = (
        quad(a),
        Quad { c0: 1, c1: 0, c2: 0, c3: 0 },
        Quad { c0: 0, c1: 0, c2: 0, c3: 0 },
    );
    assert(quad(e_one()) == one);
    assert(quad(e_zero()) == zero);
    assert(q_mul(x, one) == x);
    assert(q_mul(x, zero) == zero);
    lemma_e_mul_commutes(a, e_one());
    lemma_e_mul_commutes(a, e_zero());
}

pub open spec fn q_sub(a: Quad, b: Quad) -> Quad {
    Quad { c0: a.c0 - b.c0, c1: a.c1 - b.c1, c2: a.c2 - b.c2, c3: a.c3 - b.c3 }
}

/// Sums and differences can be computed on integers and reduced at the end.
pub proof fn lemma_e_linear(x: Quad, y: Quad)
    ensures
        e_add(reduce(x), reduce(y)) == reduce(q_add(x, y)),
        e_sub(reduce(x), reduce(y)) == reduce(q_sub(x, y)),
{
    reveal(e_add);
    reveal(e_sub);
    lemma_bb_add(x.c0, y.c0);
    lemma_bb_add(x.c1, y.c1);
    lemma_bb_add(x.c2, y.c2);
    lemma_bb_add(x.c3, y.c3);
    reveal(f_add);
    reveal(f_sub);
}

/// The extension element with the given coefficients, as an opaque term.
#[verifier::opaque]
pub open spec fn of_quad(x: Quad) -> EF {
    reduce(x)
}

pub proof fn lemma_of_quad(a: EF)
    requires
        a.wf(),
    ensures
        of_quad(quad(a)) == a,
{
    reveal(of_quad);
    lemma_e_canonical(a);
}

/// Sums and differences of such elements.
pub proof fn lemma_linear(x: Quad, y: Quad)
    ensures
        e_add(of_quad(x), of_quad(y)) == of_quad(q_add(x, y)),
        e_sub(of_quad(x), of_quad(y)) == of_quad(q_sub(x, y)),
{
    reveal(of_quad);
    lemma_e_linear(x, y);
}

pub proof fn lemma_e_mul_distributes_sub(a: EF, b: EF, c: EF)
    ensures
        e_mul(a, e_sub(b, c)) == e_sub(e_mul(a, b), e_mul(a, c)),
        e_mul(e_sub(b, c), a) == e_sub(e_mul(b, a), e_mul(c, a)),
{
    reveal(e_sub);
    reveal(e_mul);
    let (x, y, z) = (quad(a), quad(b), quad(c));
    let minus_z = q_scale(-1, z);
    assert(q_sub(y, z) == q_add(y, minus_z));
    lemma_reduce_mul(q_sub(y, z), x);
    lemma_q_add_left(y, minus_z, x);
    lemma_q_scale_left(-1, z, x);
    assert(q_add(q_mul(y, x), q_scale(-1, q_mul(z, x))) == q_sub(q_mul(y, x), q_mul(z, x)));
    lemma_e_linear(q_mul(y, x), q_mul(z, x));
    assert(e_mul(b, a) == reduce(q_mul(y, x)));
    assert(e_mul(c, a) == reduce(q_mul(z, x)));
    lemma_e_mul_commutes(a, e_sub(b, c));
    lemma_e_mul_commutes(a, b);
    lemma_e_mul_commutes(a, c);
}

/// The base field lies in the extension as a subring.
pub proof fn lemma_e_from_ring(a: BabyBear, b: BabyBear)
    ensures
        e_add(e_from(a), e_from(b)) == e_from(f_add(a, b)),
        e_sub(e_from(a), e_from(b)) == e_from(f_sub(a, b)),
        e_mul(e_from(a), e_from(b)) == e_from(f_mul(a, b)),
{
    reveal(e_from);
    reveal(e_add);
    reveal(e_sub);
    reveal(e_mul);
    reveal(f_add);
    reveal(f_sub);
    reveal(f_mul);
    let (x, y) = (a.value as int, b.value as int);
    lemma_bb_add(x, y);
    lemma_bb_mul(x, y);
    lemma_bb_value(x + y);
    lemma_bb_value(x - y);
    lemma_bb_value(x * y);
    assert(bb(0).value == 0);
    let (p, q) = (e_from(a), e_from(b));
    assert(p.c0 == bb(x) && q.c0 == bb(y));
    assert(p.c1 == bb(0) && p.c2 == bb(0) && p.c3 == bb(0));
    assert(q.c1 == bb(0) && q.c2 == bb(0) && q.c3 == bb(0));
}

/// `0 a == 0`.
pub proof fn lemma_e_mul_zero(a: EF)
    ensures
        e_mul(e_zero(), a) == e_zero(),
        e_mul(a, e_zero()) == e_zero(),
{
    reveal(e_mul);
    let zero = Quad { c0: 0, c1: 0, c2: 0, c3: 0 };
    assert(quad(e_zero()) == zero);
    assert(q_mul(quad(a), zero) == zero);
    lemma_e_mul_commutes(a, e_zero());
}

/// A factor can be reduced first.
pub proof fn lemma_e_mul_reduced(a: EF, b: EF)
    ensures
        e_mul(e_add(a, e_zero()), b) == e_mul(a, b),
{
    reveal(e_mul);
    reveal(e_add);
    lemma_reduce_mul(quad(a), quad(b));
}

/// Multiplying with a base field element is multiplying with it inside the extension.
pub proof fn lemma_e_scale(a: EF, k: BabyBear)
    ensures
        e_scale(a, k) == e_mul(a, e_from(k)),
{
    reveal(e_scale);
    reveal(e_mul);
    reveal(e_from);
    let q = Quad { c0: k.value as int, c1: 0, c2: 0, c3: 0 };
    lemma_reduce_mul(q, quad(a));
}

pub proof fn lemma_f_pow_wf(a: BabyBear, n: nat)
    ensures
        f_pow(a, n).wf(),
{
    reveal(f_mul);
    if n == 0 {
        lemma_bb_value(1);
    } else {
        lemma_bb_value(f_pow(a, (n - 1) as nat).value * a.value);
    }
}

pub proof fn lemma_f_pow_one(n: nat)
    ensures
        f_pow(bb(1), n) == bb(1),
    decreases n,
{
    if n > 0 {
        lemma_f_pow_one((n - 1) as nat);
        lemma_bb_value(1);
        lemma_f_mul_one(bb(1));
    }
}

pub proof fn lemma_f_pow_adds(a: BabyBear, m: nat, n: nat)
    ensures
        f_pow(a, m + n) == f_mul(f_pow(a, m), f_pow(a, n)),
    decreases n,
{
    lemma_f_pow_wf(a, m);
    if n == 0 {
        lemma_f_mul_one(f_pow(a, m));
    } else {
        lemma_f_pow_adds(a, m, (n - 1) as nat);
        lemma_f_mul_associates(f_pow(a, m), f_pow(a, (n - 1) as nat), a);
    }
}

pub proof fn lemma_f_pow_multiplies(a: BabyBear, m: nat, n: nat)
    ensures
        f_pow(a, m * n) == f_pow(f_pow(a, m), n),
    decreases n,
{
    if n == 0 {
        assert(m * n == 0) by (nonlinear_arith)
            requires
                n == 0,
        ;
    } else {
        lemma_f_pow_multiplies(a, m, (n - 1) as nat);
        assert(m * n == m * (n - 1) + m) by (nonlinear_arith);
        lemma_f_pow_adds(a, m * ((n - 1) as nat), m);
    }
}

/// The power of a product is the product of the powers.
pub proof fn lemma_f_pow_distributes(a: BabyBear, b: BabyBear, n: nat)
    ensures
        f_pow(f_mul(a, b), n) == f_mul(f_pow(a, n), f_pow(b, n)),
    decreases n,
{
    if n == 0 {
        lemma_bb_value(1);
        lemma_f_mul_one(bb(1));
    } else {
        let (x, y) = (f_pow(a, (n - 1) as nat), f_pow(b, (n - 1) as nat));
        lemma_f_pow_distributes(a, b, (n - 1) as nat);
        lemma_f_mul_swap(x, y, a, b);
    }
}

/// `(ab)(cd) = (ac)(bd)`.
pub proof fn lemma_f_mul_swap(a: BabyBear, b: BabyBear, c: BabyBear, d: BabyBear)
    ensures
        f_mul(f_mul(a, b), f_mul(c, d)) == f_mul(f_mul(a, c), f_mul(b, d)),
{
    lemma_f_mul_associates(a, b, f_mul(c, d));
    lemma_f_mul_associates(b, c, d);
    lemma_f_mul_commutes(b, c);
    lemma_f_mul_associates(c, b, d);
    lemma_f_mul_associates(a, c, f_mul(b, d));
}

/// The square of the generator of order `2^b` is the generator of order `2^(b - 1)`.
pub proof fn lemma_generator_square(b: nat)
    requires
        1 <= b <= 27,
    ensures
        f_mul(f_generator(b), f_generator(b)) == f_generator((b - 1) as nat),
{
    reveal(f_mul);
    assert(0x78000000int * 0x78000000int % 0x78000001 == 1);
    assert(0x67055c21int * 0x67055c21int % 0x78000001 == 0x78000000);
    assert(0x5ee99486int * 0x5ee99486int % 0x78000001 == 0x67055c21);
    assert(0xbb4c4e4int * 0xbb4c4e4int % 0x78000001 == 0x5ee99486);
    assert(0x2d4cc4daint * 0x2d4cc4daint % 0x78000001 == 0xbb4c4e4);
    assert(0x669d6090int * 0x669d6090int % 0x78000001 == 0x2d4cc4da);
    assert(0x17b56c64int * 0x17b56c64int % 0x78000001 == 0x669d6090);
    assert(0x67456167int * 0x67456167int % 0x78000001 == 0x17b56c64);
    assert(0x688442f9int * 0x688442f9int % 0x78000001 == 0x67456167);
    assert(0x145e952dint * 0x145e952dint % 0x78000001 == 0x688442f9);
    assert(0x4fe61226int * 0x4fe61226int % 0x78000001 == 0x145e952d);
    assert(0x4c734715int * 0x4c734715int % 0x78000001 == 0x4fe61226);
    assert(0x11c33e2aint * 0x11c33e2aint % 0x78000001 == 0x4c734715);
    assert(0x62c3d2b1int * 0x62c3d2b1int % 0x78000001 == 0x11c33e2a);
    assert(0x77cad399int * 0x77cad399int % 0x78000001 == 0x62c3d2b1);
    assert(0x54c131f4int * 0x54c131f4int % 0x78000001 == 0x77cad399);
    assert(0x4cabd6a6int * 0x4cabd6a6int % 0x78000001 == 0x54c131f4);
    assert(0x5cf5713fint * 0x5cf5713fint % 0x78000001 == 0x4cabd6a6);
    assert(0x3e9430e8int * 0x3e9430e8int % 0x78000001 == 0x5cf5713f);
    assert(0xba067a3int * 0xba067a3int % 0x78000001 == 0x3e9430e8);
    assert(0x18adc27dint * 0x18adc27dint % 0x78000001 == 0xba067a3);
    assert(0x21fd55bcint * 0x21fd55bcint % 0x78000001 == 0x18adc27d);
    assert(0x4b859b3dint * 0x4b859b3dint % 0x78000001 == 0x21fd55bc);
    assert(0x3bd57996int * 0x3bd57996int % 0x78000001 == 0x4b859b3d);
    assert(0x4483d85aint * 0x4483d85aint % 0x78000001 == 0x3bd57996);
    assert(0x3a26eef8int * 0x3a26eef8int % 0x78000001 == 0x4483d85a);
    assert(0x1a427a41int * 0x1a427a41int % 0x78000001 == 0x3a26eef8);
}

pub proof fn lemma_generator_wf(b: nat)
    requires
        b <= 27,
    ensures
        f_generator(b).wf(),
        f_generator(0) == bb(1),
        f_generator(1) == bb(-1),
{
    reveal(f_mul);
    if b < 27 {
        lemma_generator_square(b + 1);
        lemma_bb_value(f_generator(b + 1).value * f_generator(b + 1).value);
    }
    assert(-1int % 0x78000001 == 0x78000000);
}

/// The power `2^j` of the generator of order `2^b` is the generator of order `2^(b - j)`.
pub proof fn lemma_generator_power(b: nat, j: nat)
    requires
        j <= b <= 27,
    ensures
        f_pow(f_generator(b), pow2(j)) == f_generator((b - j) as nat),
    decreases j,
{
    let g = f_generator(b);
    if j == 0 {
        lemma2_to64();
        lemma_generator_wf(b);
        assert(f_pow(g, 1) == f_mul(f_pow(g, 0), g));
        lemma_f_mul_one(g);
    } else {
        lemma_generator_power(b, (j - 1) as nat);
        lemma_pow2_unfold(j);
        lemma_f_pow_adds(g, pow2((j - 1) as nat), pow2((j - 1) as nat));
        lemma_generator_square((b - j + 1) as nat);
    }
}

/// The inverse of `a`.
pub open spec fn f_inv(a: BabyBear) -> BabyBear {
    choose|y: BabyBear| y.wf() && #[trigger] f_mul(a, y) == bb(1)
}

/// An element has at most one inverse.
pub proof fn lemma_f_inv_unique(a: BabyBear, y: BabyBear)
    requires
        y.wf(),
        f_mul(a, y) == bb(1),
    ensures
        f_inv(a) == y,
{
    let z = f_inv(a);
    assert(z.wf() && f_mul(a, z) == bb(1));
    lemma_f_mul_one(y);
    lemma_f_mul_one(z);
    lemma_f_mul_associates(y, a, z);
    lemma_f_mul_commutes(y, a);
}

/// An element that divides one is not zero.
pub proof fn lemma_unit_nonzero(a: BabyBear, y: BabyBear)
    requires
        f_mul(a, y) == bb(1),
    ensures
        bb(a.value as int) != bb(0),
{
    reveal(f_mul);
    if bb(a.value as int) == bb(0) {
        lemma_bb_mul(a.value as int, y.value as int);
        assert(bb(0).value == 0);
        assert(0 * y.value == 0);
        assert(bb(1).value == 1);
    }
}

/// No power of a generator is zero.
pub proof fn lemma_generator_power_nonzero(b: nat, n: nat)
    requires
        b <= 27,
    ensures
        exists|y: BabyBear| #[trigger] f_mul(f_pow(f_generator(b), n), y) == bb(1),
        bb(f_pow(f_generator(b), n).value as int) != bb(0),
{
    let g = f_generator(b);
    lemma_generator_power(b, b);
    lemma_generator_wf(b);
    lemma_pow2_pos(b);
    let order = pow2(b);
    // g^(n * order) is one, and n <= n * order.
    lemma_f_pow_multiplies(g, order, n);
    lemma_f_pow_one(n);
    assert(order * n >= n) by (nonlinear_arith)
        requires
            order >= 1,
    ;
    lemma_f_pow_adds(g, n, (order * n - n) as nat);
    let y = f_pow(g, (order * n - n) as nat);
    assert(f_mul(f_pow(g, n), y) == bb(1));
    lemma_unit_nonzero(f_pow(g, n), y);
}

} // verus!
