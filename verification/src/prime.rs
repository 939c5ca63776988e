//! The modulus is prime, and so every element but zero has an inverse.

use vstd::arithmetic::div_mod::*;
use vstd::arithmetic::power2::*;
use vstd::prelude::*;
use vstd::set_lib::{lemma_int_range, lemma_len_subset, set_int_range};

use crate::algebra::{
    lemma_bb_mul, lemma_bb_multiple, lemma_bb_value, lemma_f_mul_associates, lemma_f_mul_one,
    lemma_f_mul_swap, lemma_f_pow_adds, lemma_f_pow_multiplies, lemma_generator_power,
    lemma_generator_wf,
};
use crate::bits::lemma_pow2_mono;
use crate::field::{bb, f_generator, f_mul, f_pow, BabyBear, P};

verus! {

/// Whether `t` has an inverse.
pub open spec fn is_unit(t: BabyBear) -> bool {
    exists|y: BabyBear| #[trigger] f_mul(t, y) == bb(1)
}

/// The integer of the power with exponent `n` of the generator of the largest two-adic subgroup.
spec fn power(n: nat) -> int {
    f_pow(f_generator(27), n).value as int
}

/// Exponents add where a divisor of the modulus is counted out.
proof fn lemma_power_adds(q: int, m: nat, n: nat)
    requires
        q > 0,
        P as int % q == 0,
    ensures
        power(m + n) % q == (power(m) * power(n)) % q,
{
    let g = f_generator(27);
    lemma_f_pow_adds(g, m, n);
    let x = power(m) * power(n);
    reveal(f_mul);
    lemma_bb_value(x);
    let k = x / (P as int);
    lemma_fundamental_div_mod(P as int, q);
    let c = P as int / q;
    assert(x == q * (c * k) + power(m + n)) by (nonlinear_arith)
        requires
            power(m + n) == x - P as int * k,
            P as int == q * c,
    ;
    lemma_mod_multiples_vanish(c * k, power(m + n), q);
}

/// A power that leaves one leaves one when it is repeated.
proof fn lemma_power_repeats(q: int, m: nat, t: nat)
    requires
        q > 1,
        P as int % q == 0,
        power(m) % q == 1,
    ensures
        power(m * t) % q == 1,
    decreases t,
{
    if t == 0 {
        assert(m * t == 0) by (nonlinear_arith)
            requires
                t == 0,
        ;
        assert(power(0) == 1);
        lemma_small_mod(1, q as nat);
    } else {
        let u = (t - 1) as nat;
        lemma_power_repeats(q, m, u);
        assert(m * t == m * u + m) by (nonlinear_arith)
            requires
                t == u + 1,
        ;
        lemma_power_adds(q, m * u, m);
        lemma_mul_mod_noop(power(m * u), power(m), q);
        lemma_small_mod(1, q as nat);
    }
}

/// Every positive number is a power of two times an odd number.
proof fn lemma_odd_part(m: nat) -> (r: (nat, nat))
    requires
        m > 0,
    ensures
        m == pow2(r.0) * r.1,
        r.1 % 2 == 1,
    decreases m,
{
    lemma2_to64();
    if m % 2 == 1 {
        assert(pow2(0) * m == m) by (nonlinear_arith)
            requires
                pow2(0) == 1,
        ;
        (0, m)
    } else {
        let (s, o) = lemma_odd_part(m / 2);
        lemma_pow2_unfold(s + 1);
        assert(m == pow2(s + 1) * o) by (nonlinear_arith)
            requires
                m == 2 * (pow2(s) * o),
                pow2(s + 1) == 2 * pow2(s),
        ;
        (s + 1, o)
    }
}

/// An odd power of minus one is minus one.
proof fn lemma_odd_power(o: nat)
    requires
        o % 2 == 1,
    ensures
        f_pow(bb(-1), o) == bb(-1),
    decreases o,
{
    lemma_bb_value(-1);
    lemma_bb_value(1);
    if o == 1 {
        assert(f_pow(bb(-1), 1) == f_mul(f_pow(bb(-1), 0), bb(-1)));
        lemma_f_mul_one(bb(-1));
    } else {
        lemma_odd_power((o - 2) as nat);
        let p = f_pow(bb(-1), (o - 2) as nat);
        assert(f_pow(bb(-1), (o - 1) as nat) == f_mul(p, bb(-1)));
        lemma_f_mul_associates(p, bb(-1), bb(-1));
        lemma_bb_mul(-1, -1);
        lemma_f_mul_one(p);
    }
}

/// Where there are more places than values, two places have the same value.
proof fn lemma_pigeonhole(s: Seq<int>, n: int)
    requires
        n >= 0,
        s.len() > n,
        forall|i: int| 0 <= i < s.len() ==> 0 <= #[trigger] s[i] < n,
    ensures
        exists|i: int, j: int| 0 <= i < j < s.len() && #[trigger] s[i] == #[trigger] s[j],
{
    if s.no_duplicates() {
        s.unique_seq_to_set();
        lemma_int_range(0, n);
        assert(s.to_set().subset_of(set_int_range(0, n))) by {
            assert forall|v: int| s.to_set().contains(v) implies set_int_range(0, n).contains(
                v,
            ) by {
                let i = choose|i: int| 0 <= i < s.len() && s[i] == v;
                assert(0 <= s[i] < n);
            }
        }
        lemma_len_subset(s.to_set(), set_int_range(0, n));
    }
}

/// The modulus has no divisor from two up to `2^16`.
proof fn lemma_no_small_divisor(q: int)
    requires
        1 < q <= 0x10000,
    ensures
        P as int % q != 0,
{
    if P as int % q == 0 {
        let s = Seq::new((q + 1) as nat, |i: int| power(i as nat) % q);
        lemma_pigeonhole(s, q);
        let (i, j) = choose|i: int, j: int|
            0 <= i < j < s.len() && #[trigger] s[i] == #[trigger] s[j];
        let m = (j - i) as nat;
        lemma2_to64();
        let all = pow2(27);
        assert(all == 0x8000000);
        let back = (all - i) as nat;
        // power(i) * power(m) leaves what power(i) leaves; count out power(i)
        lemma_power_adds(q, i as nat, m);
        assert(i + m == j);
        lemma_power_adds(q, back, i as nat);
        assert(back + i == all);
        lemma_generator_power(27, 27);
        lemma_generator_wf(27);
        assert(power(all) == 1);
        lemma_small_mod(1, q as nat);
        let (a, b, c) = (power(i as nat), power(m), power(back));
        assert((c * a) % q == 1);
        assert((a * b) % q == a % q);
        assert((c * (a * b)) % q == (c * a) % q) by {
            lemma_mul_mod_noop_right(c, a * b, q);
            lemma_mul_mod_noop_right(c, a, q);
        }
        assert(c * (a * b) == (c * a) * b) by (nonlinear_arith);
        lemma_mul_mod_noop_left(c * a, b, q);
        assert(b % q == 1);
        // repeat up to an odd multiple of half the order
        let (e, o) = lemma_odd_part(m);
        assert(pow2(e) <= m) by (nonlinear_arith)
            requires
                m == pow2(e) * o,
                o >= 1,
        ;
        if e > 26 {
            lemma_pow2_mono(17, e);
        }
        let t = pow2((26 - e) as nat);
        lemma_power_repeats(q, m, t);
        lemma_pow2_adds(e, (26 - e) as nat);
        assert(m * t == pow2(26) * o) by (nonlinear_arith)
            requires
                m == pow2(e) * o,
                pow2(e) * t == pow2(26),
        ;
        let g = f_generator(27);
        lemma_f_pow_multiplies(g, pow2(26), o);
        lemma_generator_power(27, 26);
        lemma_odd_power(o);
        lemma_bb_value(-1);
        assert(power(m * t) == P - 1);
        // so one and minus one leave the same, and the modulus is odd
        lemma_fundamental_div_mod(P as int, q);
        lemma_fundamental_div_mod(P - 1, q);
        let (x, y) = (P as int / q, (P - 1) / q);
        assert(q * (x - y) == 2) by (nonlinear_arith)
            requires
                P as int == q * x,
                P - 1 == q * y + 1,
        ;
        assert(q == 2) by (nonlinear_arith)
            requires
                q * (x - y) == 2,
                q > 1,
        ;
        assert(P as int % 2 == 1);
    }
}

/// The modulus is prime.
pub proof fn modulus_is_prime(k: int)
    requires
        1 < k < P,
    ensures
        P as int % k != 0,
{
    if P as int % k == 0 {
        let c = P as int / k;
        lemma_fundamental_div_mod(P as int, k);
        assert(1 < c < P) by (nonlinear_arith)
            requires
                P as int == k * c,
                1 < k < P,
        ;
        assert(k <= 0x10000 || c <= 0x10000) by (nonlinear_arith)
            requires
                P as int == k * c,
                P < 0x78000002,
                k > 0,
                c > 0,
        ;
        if k <= 0x10000 {
            lemma_no_small_divisor(k);
        } else {
            lemma_mod_multiples_basic(k, c);
            lemma_no_small_divisor(c);
        }
    }
}

/// Every element but zero has an inverse.
pub proof fn nonzero_is_unit(k: int)
    requires
        0 < k < P,
    ensures
        is_unit(bb(k)),
    decreases k,
{
    lemma_bb_value(1);
    lemma_f_mul_one(bb(1));
    if k == 1 {
        assert(f_mul(bb(1), bb(1)) == bb(1));
    } else {
        modulus_is_prime(k);
        let p = P as int;
        let (m, r) = (p / k, p % k);
        lemma_fundamental_div_mod(p, k);
        nonzero_is_unit(r);
        let y = choose|y: BabyBear| #[trigger] f_mul(bb(r), y) == bb(1);
        lemma_bb_mul(k, -m);
        assert(k * (-m) == r - p * 1) by (nonlinear_arith)
            requires
                p == k * m + r,
        ;
        lemma_bb_multiple(r, 1);
        lemma_f_mul_associates(bb(k), bb(-m), y);
        assert(f_mul(bb(k), f_mul(bb(-m), y)) == bb(1));
    }
}

pub proof fn lemma_unit_product(a: BabyBear, b: BabyBear)
    requires
        is_unit(a),
        is_unit(b),
    ensures
        is_unit(f_mul(a, b)),
{
    let y = choose|y: BabyBear| #[trigger] f_mul(a, y) == bb(1);
    let z = choose|z: BabyBear| #[trigger] f_mul(b, z) == bb(1);
    lemma_f_mul_swap(a, b, y, z);
    lemma_bb_value(1);
    lemma_f_mul_one(bb(1));
    assert(f_mul(f_mul(a, b), f_mul(y, z)) == bb(1));
}

} // verus!
