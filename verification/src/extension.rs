//! Powers in the extension field.

use vstd::arithmetic::div_mod::*;
use vstd::prelude::*;

use crate::algebra::{
    lemma_bb_mul, lemma_bb_value, lemma_e_mul_one, lemma_e_mul_zero, lemma_f_mul_associates,
    lemma_f_mul_commutes, lemma_f_mul_one, quad,
};
use crate::field::{bb, e_mul, e_pow, e_zero, f_mul, BabyBear, EF, P};
use crate::multilinear::{lemma_e_pow_adds, lemma_e_pow_wf};
use crate::prime::nonzero_is_unit;

verus! {

/// Whether the modulus divides `x`.
spec fn vanishes(x: int) -> bool {
    x % (P as int) == 0
}

proof fn lemma_vanishes(x: int) -> (k: int)
    requires
        vanishes(x),
    ensures
        x == P * k,
{
    lemma_fundamental_div_mod(x, P as int);
    x / (P as int)
}

proof fn lemma_multiple_vanishes(k: int)
    ensures
        vanishes(P * k),
{
    lemma_mod_multiples_basic(k, P as int);
    assert(P * k == k * P) by (nonlinear_arith);
}

/// A product vanishes only where a factor does.
proof fn lemma_product(x: int, y: int)
    requires
        vanishes(x * y),
    ensures
        vanishes(x) || vanishes(y),
{
    let p = P as int;
    if !vanishes(x) {
        lemma_mod_bound(x, p);
        nonzero_is_unit(x % p);
        lemma_bb_value(x);
        lemma_mod_twice(x, p);
        assert(bb(x % p) == bb(x));
        let z = choose|z: BabyBear| #[trigger] f_mul(bb(x), z) == bb(1);
        lemma_bb_mul(x, y);
        assert(f_mul(bb(x), bb(y)) == bb(0));
        // z (x y) == (z x) y == y
        lemma_f_mul_associates(z, bb(x), bb(y));
        lemma_f_mul_commutes(z, bb(x));
        lemma_bb_value(y);
        lemma_f_mul_one(bb(y));
        reveal(f_mul);
        assert(z.value * bb(0).value == 0) by {
            assert(bb(0).value == 0);
            assert(z.value * 0 == 0);
        }
        assert(bb(y) == bb(0));
    }
}

/// In a product with a small constant the other factor vanishes.
proof fn lemma_constant(c: int, x: int)
    requires
        0 < c < P,
        vanishes(c * x),
    ensures
        vanishes(x),
{
    lemma_product(c, x);
    lemma_small_mod(c as nat, P as nat);
}

/// `x^2 + 11 y^2` and `x y` vanish together only where `x` and `y` do.
proof fn lemma_pair(x: int, y: int)
    requires
        vanishes(x * x + 11 * (y * y)),
        vanishes(x * y),
    ensures
        vanishes(x),
        vanishes(y),
{
    let k = lemma_vanishes(x * x + 11 * (y * y));
    lemma_product(x, y);
    if vanishes(x) {
        let m = lemma_vanishes(x);
        assert(11 * (y * y) == P * (k - x * m)) by (nonlinear_arith)
            requires
                x * x + 11 * (y * y) == P * k,
                x == P * m,
        ;
        lemma_multiple_vanishes(k - x * m);
        lemma_constant(11, y * y);
        lemma_product(y, y);
    } else {
        let m = lemma_vanishes(y);
        assert(x * x == P * (k - 11 * (y * m))) by (nonlinear_arith)
            requires
                x * x + 11 * (y * y) == P * k,
                y == P * m,
        ;
        lemma_multiple_vanishes(k - 11 * (y * m));
        lemma_product(x, x);
    }
}

/// The square of `a + cX + bX^2 + dX^3` is zero only where all coefficients are.
proof fn lemma_square(a: int, b: int, c: int, d: int)
    requires
        vanishes(a * a + 11 * (b * b) + 22 * (c * d)),
        vanishes(2 * (a * b) + c * c + 11 * (d * d)),
        vanishes(2 * (a * c + 11 * (b * d))),
        vanishes(2 * (a * d + b * c)),
    ensures
        vanishes(a),
        vanishes(b),
        vanishes(c),
        vanishes(d),
{
    let (p, q) = (a * a + 11 * (b * b), 2 * (a * b));
    let (r, s) = (c * c + 11 * (d * d), 2 * (c * d));
    let (u, v) = (a * c + 11 * (b * d), a * d + b * c);
    lemma_constant(2, u);
    lemma_constant(2, v);
    assert(22 * (c * d) == 11 * s);
    let k1 = lemma_vanishes(p + 11 * s);
    let k2 = lemma_vanishes(q + r);
    let m = lemma_vanishes(u);
    let n = lemma_vanishes(v);
    // The square of the product of the even and the odd part.
    lemma_squares_multiply(a, b, c, d);
    assert(p * r + 11 * (q * s) == u * u + 11 * (v * v));
    assert(p * s + q * r == 2 * (u * v));
    let e1 = p * k2 + q * k1 - (u * m + 11 * (v * n));
    assert(2 * (p * q) == P * e1) by (nonlinear_arith)
        requires
            p * r + 11 * (q * s) == u * u + 11 * (v * v),
            p + 11 * s == P * k1,
            q + r == P * k2,
            u == P * m,
            v == P * n,
            e1 == p * k2 + q * k1 - (u * m + 11 * (v * n)),
    ;
    lemma_multiple_vanishes(e1);
    lemma_constant(2, p * q);
    let e2 = p * k1 + 11 * (q * k2) - 22 * (u * n);
    assert(p * p + 11 * (q * q) == P * e2) by (nonlinear_arith)
        requires
            p * s + q * r == 2 * (u * v),
            p + 11 * s == P * k1,
            q + r == P * k2,
            v == P * n,
            e2 == p * k1 + 11 * (q * k2) - 22 * (u * n),
    ;
    lemma_multiple_vanishes(e2);
    lemma_pair(p, q);
    lemma_constant(2, a * b);
    lemma_pair(a, b);
    let m1 = lemma_vanishes(p);
    let m2 = lemma_vanishes(q);
    assert(11 * s == P * (k1 - m1)) by (nonlinear_arith)
        requires
            p + 11 * s == P * k1,
            p == P * m1,
    ;
    lemma_multiple_vanishes(k1 - m1);
    lemma_constant(11, s);
    lemma_constant(2, c * d);
    assert(r == P * (k2 - m2)) by (nonlinear_arith)
        requires
            q + r == P * k2,
            q == P * m2,
    ;
    lemma_multiple_vanishes(k2 - m2);
    lemma_pair(c, d);
}

proof fn lemma_squares_multiply(a: int, b: int, c: int, d: int)
    ensures
        (a * a + 11 * (b * b)) * (c * c + 11 * (d * d)) + 11 * ((2 * (a * b)) * (2 * (c * d))) == (a
            * c + 11 * (b * d)) * (a * c + 11 * (b * d)) + 11 * ((a * d + b * c) * (a * d + b
            * c)),
        (a * a + 11 * (b * b)) * (2 * (c * d)) + (2 * (a * b)) * (c * c + 11 * (d * d)) == 2 * ((a
            * c + 11 * (b * d)) * (a * d + b * c)),
{
    let (aa, bb2, cc, dd) = (a * a, b * b, c * c, d * d);
    let (ab, cd, ac, ad, bc, bd) = (a * b, c * d, a * c, a * d, b * c, b * d);
    lemma_expand(aa, bb2, cc, dd);
    lemma_expand(ac, bd, ac, bd);
    assert(aa * cc == ac * ac) by (nonlinear_arith)
        requires
            aa == a * a,
            cc == c * c,
            ac == a * c,
    ;
    assert(aa * dd == ad * ad) by (nonlinear_arith)
        requires
            aa == a * a,
            dd == d * d,
            ad == a * d,
    ;
    assert(bb2 * cc == bc * bc) by (nonlinear_arith)
        requires
            bb2 == b * b,
            cc == c * c,
            bc == b * c,
    ;
    assert(bb2 * dd == bd * bd) by (nonlinear_arith)
        requires
            bb2 == b * b,
            dd == d * d,
            bd == b * d,
    ;
    let all = ab * cd;
    assert(ac * bd == all && bd * ac == all && ad * bc == all && bc * ad == all)
        by (nonlinear_arith)
        requires
            all == (a * b) * (c * d),
            ac == a * c,
            bd == b * d,
            ad == a * d,
            bc == b * c,
    ;
    assert((2 * ab) * (2 * cd) == 4 * all) by (nonlinear_arith)
        requires
            all == ab * cd,
    ;
    assert((ad + bc) * (ad + bc) == ad * ad + ad * bc + bc * ad + bc * bc) by (nonlinear_arith);
    assert((aa + 11 * bb2) * (2 * cd) == 2 * (aa * cd) + 22 * (bb2 * cd)) by (nonlinear_arith);
    assert((2 * ab) * (cc + 11 * dd) == 2 * (ab * cc) + 22 * (ab * dd)) by (nonlinear_arith);
    assert((ac + 11 * bd) * (ad + bc) == ac * ad + ac * bc + 11 * (bd * ad) + 11 * (bd * bc))
        by (nonlinear_arith);
    assert(aa * cd == ac * ad) by (nonlinear_arith)
        requires
            aa == a * a,
            cd == c * d,
            ac == a * c,
            ad == a * d,
    ;
    assert(ab * cc == ac * bc) by (nonlinear_arith)
        requires
            ab == a * b,
            cc == c * c,
            ac == a * c,
            bc == b * c,
    ;
    assert(ab * dd == bd * ad) by (nonlinear_arith)
        requires
            ab == a * b,
            dd == d * d,
            bd == b * d,
            ad == a * d,
    ;
    assert(bb2 * cd == bd * bc) by (nonlinear_arith)
        requires
            bb2 == b * b,
            cd == c * d,
            bd == b * d,
            bc == b * c,
    ;
}

proof fn lemma_expand(x: int, y: int, z: int, w: int)
    ensures
        (x + 11 * y) * (z + 11 * w) == x * z + 11 * (x * w) + 11 * (y * z) + 121 * (y * w),
{
    assert((x + 11 * y) * (z + 11 * w) == x * z + 11 * (x * w) + 11 * (y * z) + 121 * (y * w))
        by (nonlinear_arith);
}

/// Only zero has the square zero.
proof fn lemma_nonzero_square(y: EF)
    requires
        y.wf(),
        e_mul(y, y) == e_zero(),
    ensures
        y == e_zero(),
{
    reveal(e_mul);
    let q = quad(y);
    let (a, c, b, d) = (q.c0, q.c1, q.c2, q.c3);
    assert(c * a == a * c) by (nonlinear_arith);
    assert(b * a == a * b) by (nonlinear_arith);
    assert(d * a == a * d) by (nonlinear_arith);
    assert(b * c == c * b) by (nonlinear_arith);
    assert(d * c == c * d) by (nonlinear_arith);
    assert(d * b == b * d) by (nonlinear_arith);
    assert(bb(0).value == 0);
    lemma_bb_value(a * a + 11 * (b * b) + 22 * (c * d));
    lemma_bb_value(2 * (a * b) + c * c + 11 * (d * d));
    lemma_bb_value(2 * (a * c + 11 * (b * d)));
    lemma_bb_value(2 * (a * d + b * c));
    lemma_square(a, b, c, d);
    lemma_small_mod(a as nat, P as nat);
    lemma_small_mod(b as nat, P as nat);
    lemma_small_mod(c as nat, P as nat);
    lemma_small_mod(d as nat, P as nat);
}

/// No power of an element but zero is zero.
pub proof fn nonzero_powers(y: EF, n: nat)
    requires
        y.wf(),
        y != e_zero(),
    ensures
        e_pow(y, n) != e_zero(),
    decreases n,
{
    if n == 0 {
        assert(bb(1).value == 1 && bb(0).value == 0);
    } else if n == 1 {
        assert(e_pow(y, 1) == e_mul(e_pow(y, 0), y));
        lemma_e_mul_one(y);
    } else {
        // The square of a power of at least half the exponent is a multiple of the power.
        let h = ((n + 1) / 2) as nat;
        nonzero_powers(y, h);
        lemma_e_pow_wf(y, h);
        if e_pow(y, n) == e_zero() {
            lemma_e_pow_adds(y, h, h);
            if n < h + h {
                assert(e_pow(y, h + h) == e_mul(e_pow(y, n), y));
                lemma_e_mul_zero(y);
            }
            lemma_nonzero_square(e_pow(y, h));
        }
    }
}

} // verus!
