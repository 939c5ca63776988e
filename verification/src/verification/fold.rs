//! Binary folding of polynomial evaluations on a coset.

use vstd::arithmetic::power2::*;
use vstd::prelude::*;

use crate::algebra::{
    f_inv, lemma_bb_add, lemma_bb_mul, lemma_bb_value, lemma_f_canonical, lemma_f_inv_unique,
    lemma_f_mul_associates, lemma_f_mul_one, lemma_f_mul_swap, lemma_f_mul_wf, lemma_f_pow_adds,
    lemma_f_pow_distributes, lemma_f_pow_multiplies, lemma_f_pow_one, lemma_generator_power,
    lemma_generator_power_nonzero, lemma_generator_square, lemma_generator_wf,
};
use crate::bits::{lemma_log2_pow2, lemma_pow2_mono, lemma_usize_bits, log2, pow2_usize};
use crate::field::{
    bb, e_add, e_from, e_mul, e_scale, e_sub, f_generator, f_half, f_mul, f_pow, f_sub, BabyBear,
    BabyBearExt4, EF, TWO_ADICITY,
};
use crate::poly::{base_powers, powers_base};
use crate::prime::{is_unit, lemma_unit_product};

verus! {

/// The fold at `t^2` of a polynomial `h`, given `a = h(t)` and `b = h(-t)`:
/// `a + (alpha - t)(a - b) / (2t)`.
pub open spec fn fold_at(a: EF, b: EF, alpha: EF, t: BabyBear) -> EF {
    e_add(a, e_scale(e_mul(e_sub(alpha, e_from(t)), e_sub(a, b)), f_half(f_inv(t))))
}

/// Point `i` of the coset `{x, wx, w^2 x, ...}` of the subgroup of order `2^bits`.
pub open spec fn coset_point(bits: nat, x: BabyBear, i: int) -> BabyBear {
    f_mul(f_pow(f_generator(bits), i as nat), x)
}

/// The folds of values on a coset, which are values on the coset of the squares.
pub open spec fn fold_table(values: Seq<EF>, alpha: EF, x: BabyBear) -> Seq<EF> {
    let m = values.len() / 2;
    Seq::new(
        m,
        |i: int|
            fold_at(values[i], values[m + i], alpha, coset_point(log2(values.len()), x, i)),
    )
}

/// The value at `x^(2^k)` of the polynomial that was folded with each of the `k` points
/// `alphas`, given its values on the coset of `x`.
pub open spec fn k_fold(values: Seq<EF>, alphas: Seq<EF>, x: BabyBear) -> EF
    decreases alphas.len(),
{
    if alphas.len() == 0 {
        values[0]
    } else {
        k_fold(fold_table(values, alphas[0], x), alphas.skip(1), f_mul(x, x))
    }
}

/// The inverse of a twiddle factor times a power of `x` is the product of the inverses.
proof fn lemma_point_inverse(g: BabyBear, gi: BabyBear, x: BabyBear, xi: BabyBear, n: nat)
    requires
        f_mul(g, gi) == bb(1),
        f_mul(x, xi) == bb(1),
    ensures
        f_inv(f_mul(f_pow(g, n), x)) == f_mul(f_pow(gi, n), xi),
{
    let t = f_mul(f_pow(g, n), x);
    let ti = f_mul(f_pow(gi, n), xi);
    lemma_f_mul_swap(f_pow(g, n), x, f_pow(gi, n), xi);
    lemma_f_pow_distributes(g, gi, n);
    lemma_f_pow_one(n);
    lemma_bb_value(1);
    lemma_f_mul_one(bb(1));
    lemma_f_mul_wf(f_pow(gi, n), xi);
    lemma_f_inv_unique(t, ti);
}

/// The folds of the values on a coset. The twiddle factors are the powers of the generator of
/// order `2^k` and of its inverse; on this coset, every `step`-th of them is used.
fn fold_level(
    values: &Vec<EF>,
    alpha: EF,
    x_pow: BabyBear,
    x_inv_pow: BabyBear,
    tw: &Vec<BabyBear>,
    inv_tw: &Vec<BabyBear>,
    step: usize,
    Ghost(k): Ghost<nat>,
    Ghost(j): Ghost<nat>,
    Ghost(omega_inv): Ghost<BabyBear>,
) -> (next: Vec<EF>)
    requires
        j < k <= 27,
        values@.len() == pow2((k - j) as nat),
        step == pow2(j),
        f_mul(f_generator(k), omega_inv) == bb(1),
        f_mul(x_pow, x_inv_pow) == bb(1),
        tw@ == base_powers(f_generator(k), pow2((k - 1) as nat)),
        inv_tw@ == base_powers(omega_inv, pow2((k - 1) as nat)),
    ensures
        next@ == fold_table(values@, alpha, x_pow),
{
    let ghost bits = (k - j) as nat;
    let ghost omega = f_generator(k);
    let ghost half = pow2((k - 1) as nat);
    let m = values.len() / 2;
    proof {
        lemma_pow2_unfold(bits);
        lemma_log2_pow2(bits);
        lemma_pow2_adds((k - j - 1) as nat, j);
        lemma_generator_power(k, j);
        lemma_pow2_mono((k - 1) as nat, 27);
        lemma_pow2_pos(j);
        lemma2_to64();
    }
    let mut next: Vec<EF> = Vec::with_capacity(m);
    let mut i: usize = 0;
    while i < m
        invariant
            i <= m,
            m * step == half,
            step >= 1,
            half <= 0x8000000,
            values.len() == 2 * m,
            log2(values@.len()) == bits,
            omega == f_generator(k),
            f_mul(omega, omega_inv) == bb(1),
            f_pow(omega, step as nat) == f_generator(bits),
            f_mul(x_pow, x_inv_pow) == bb(1),
            tw@ == base_powers(omega, half),
            inv_tw@ == base_powers(omega_inv, half),
            next@.len() == i,
            forall|q: int|
                0 <= q < i ==> #[trigger] next@[q] == fold_table(values@, alpha, x_pow)[q],
        decreases m - i,
    {
        proof {
            assert(0 <= i * step && i * step + step <= half) by (nonlinear_arith)
                requires
                    i < m,
                    m * step == half,
                    step >= 1,
            ;
            assert(step * i == i * step) by (nonlinear_arith);
            lemma_f_pow_multiplies(omega, step as nat, i as nat);
            lemma_point_inverse(omega, omega_inv, x_pow, x_inv_pow, (i * step) as nat);
        }
        let t = tw[i * step].mul(x_pow);
        let t_inv = inv_tw[i * step].mul(x_inv_pow);
        assert(t == coset_point(bits, x_pow, i as int));
        let lo = values[i];
        let hi = values[m + i];
        let rest = alpha.sub(BabyBearExt4::from_base(t)).mul(lo.sub(hi)).scale(t_inv.halve());
        next.push(lo.add(rest));
        i = i + 1;
    }
    assert(next@ =~= fold_table(values@, alpha, x_pow));
    next
}

/// Evaluates the fold of a polynomial `f` with the points `alphas`, `k` of them, at `x^(2^k)`,
/// given its values on the coset `{x, wx, w^2 x, ...}` of the subgroup of order `2^k`.
pub fn binary_k_fold(values: Vec<EF>, alphas: &[EF], x: BabyBear) -> (r: EF)
    requires
        1 <= alphas@.len() <= TWO_ADICITY,
        values@.len() == pow2(alphas@.len()),
        bb(x.value as int) != bb(0),
    ensures
        r == k_fold(values@, alphas@, x),
{
    let k = alphas.len();
    let ghost all = values@;
    let n = values.len();
    let mut values = values;
    let omega = BabyBear::two_adic_generator(k);
    proof {
        lemma_generator_wf(k as nat);
        lemma_generator_power_nonzero(k as nat, 1);
        assert(f_pow(omega, 1) == f_mul(f_pow(omega, 0), omega));
        lemma_f_mul_one(omega);
        lemma_pow2_unfold(k as nat);
        lemma_pow2_mono((k - 1) as nat, 27);
        lemma_usize_bits();
        lemma2_to64();
    }
    let omega_inv = omega.inverse();
    let half = pow2_usize(k - 1);
    let tw = powers_base(omega, half);
    let inv_tw = powers_base(omega_inv, half);
    let mut x_pow = x;
    let mut x_inv_pow = x.inverse();
    let mut step: usize = 1;
    let mut j: usize = 0;
    proof {
        lemma2_to64();
        assert(alphas@.skip(0) =~= alphas@);
    }
    while j < k
        invariant
            j <= k,
            k == alphas@.len(),
            1 <= k <= 27,
            half == pow2((k - 1) as nat),
            half < 0x8000000,
            omega == f_generator(k as nat),
            f_mul(omega, omega_inv) == bb(1),
            tw@ == base_powers(omega, half as nat),
            inv_tw@ == base_powers(omega_inv, half as nat),
            f_mul(x_pow, x_inv_pow) == bb(1),
            step == pow2(j as nat),
            step <= 0x8000000,
            values@.len() == pow2((k - j) as nat),
            k_fold(values@, alphas@.skip(j as int), x_pow) == k_fold(all, alphas@, x),
        decreases k - j,
    {
        let alpha = alphas[j];
        let next = fold_level(
            &values,
            alpha,
            x_pow,
            x_inv_pow,
            &tw,
            &inv_tw,
            step,
            Ghost(k as nat),
            Ghost(j as nat),
            Ghost(omega_inv),
        );
        proof {
            assert(alphas@.skip(j as int).skip(1) =~= alphas@.skip(j + 1));
            lemma_f_mul_swap(x_pow, x_pow, x_inv_pow, x_inv_pow);
            lemma_bb_value(1);
            lemma_f_mul_one(bb(1));
            lemma_pow2_unfold((j + 1) as nat);
            lemma_pow2_mono((j + 1) as nat, 27);
            lemma2_to64();
            lemma_pow2_unfold((k - j) as nat);
        }
        values = next;
        x_pow = x_pow.mul(x_pow);
        x_inv_pow = x_inv_pow.mul(x_inv_pow);
        step = step * 2;
        j = j + 1;
    }
    proof {
        lemma2_to64();
        assert(alphas@.skip(k as int).len() == 0);
    }
    values[0]
}

/// The negative of a field element.
pub open spec fn f_neg(t: BabyBear) -> BabyBear {
    f_sub(bb(0), t)
}

/// The other half of a coset is the negative of the first: point `m + i` is the negative of
/// point `i`, where the coset has `2m` points. And the squares of its points are the points of
/// the coset of `x^2`.
pub proof fn lemma_coset_points(bits: nat, x: BabyBear, i: nat)
    requires
        1 <= bits <= 27,
    ensures
        coset_point(bits, x, (pow2((bits - 1) as nat) + i) as int) == f_neg(
            coset_point(bits, x, i as int),
        ),
        f_mul(coset_point(bits, x, i as int), coset_point(bits, x, i as int)) == coset_point(
            (bits - 1) as nat,
            f_mul(x, x),
            i as int,
        ),
{
    let g = f_generator(bits);
    let m = pow2((bits - 1) as nat);
    let t = coset_point(bits, x, i as int);
    lemma_generator_power(bits, (bits - 1) as nat);
    lemma_generator_wf(bits);
    lemma_f_pow_adds(g, m, i);
    lemma_f_mul_associates(bb(-1), f_pow(g, i), x);
    lemma_bb_mul(-1, t.value as int);
    lemma_bb_value(t.value as int);
    lemma_bb_add(0, t.value as int);
    assert(-1 * t.value == 0 - t.value);
    assert(bb(0).value == 0);
    lemma_bb_mul(-1, t.value as int);
    lemma_f_mul_wf(f_pow(g, i), x);
    lemma_f_canonical(t);
    assert(f_mul(bb(-1), t) == bb(-1 * t.value));
    lemma_f_mul_swap(f_pow(g, i), x, f_pow(g, i), x);
    lemma_f_pow_distributes(g, g, i);
    lemma_generator_square(bits);
}

/// Folding values is folding functions. Let `g[0], ..., g[k]` be functions such that `g[i + 1]`
/// is the fold of `g[i]` with `alphas[i]`, that is, for every invertible `X`,
/// `g[i + 1](X^2) = g[i](X) + (alphas[i] - X)(g[i](X) - g[i](-X)) / (2X)`. Then the fold of the
/// values of `g[0]` on the coset of `x` is the value of `g[k]` at `x^(2^k)`.
pub proof fn k_fold_evaluates_fold(
    g: Seq<spec_fn(BabyBear) -> EF>,
    values: Seq<EF>,
    alphas: Seq<EF>,
    x: BabyBear,
)
    requires
        alphas.len() <= 27,
        g.len() == alphas.len() + 1,
        values.len() == pow2(alphas.len()),
        x.wf(),
        is_unit(x),
        forall|j: int| 0 <= j < values.len() ==> #[trigger] values[j] == (g[0])(
            coset_point(alphas.len(), x, j),
        ),
        forall|i: int, t: BabyBear|
            0 <= i < alphas.len() && is_unit(t) ==> #[trigger] (g[i + 1])(f_mul(t, t)) == fold_at(
                (g[i])(t),
                (g[i])(f_neg(t)),
                alphas[i],
                t,
            ),
    ensures
        k_fold(values, alphas, x) == (g.last())(f_pow(x, pow2(alphas.len()))),
    decreases alphas.len(),
{
    let k = alphas.len();
    lemma2_to64();
    lemma_f_mul_one(x);
    if k == 0 {
        assert(coset_point(0, x, 0) == f_mul(f_pow(f_generator(0), 0), x));
        assert(f_pow(x, 1) == f_mul(f_pow(x, 0), x));
        assert(values[0] == (g[0])(coset_point(0, x, 0)));
    } else {
        let m = values.len() / 2;
        let folded = fold_table(values, alphas[0], x);
        let x2 = f_mul(x, x);
        lemma_pow2_unfold(k);
        lemma_log2_pow2(k);
        assert forall|j: int| 0 <= j < folded.len() implies #[trigger] folded[j] == (g.skip(1)[0])(
            coset_point((k - 1) as nat, x2, j),
        ) by {
            let t = coset_point(k, x, j);
            lemma_coset_points(k, x, j as nat);
            lemma_generator_power_nonzero(k, j as nat);
            lemma_unit_product(f_pow(f_generator(k), j as nat), x);
            assert(values[j] == (g[0])(t));
            assert(values[m + j] == (g[0])(f_neg(t)));
            assert((g[0int + 1])(f_mul(t, t)) == fold_at(
                (g[0])(t),
                (g[0])(f_neg(t)),
                alphas[0],
                t,
            ));
        }
        assert forall|i: int, t: BabyBear|
            0 <= i < alphas.skip(1).len() && is_unit(t) implies #[trigger] (g.skip(1)[i + 1])(
            f_mul(t, t),
        ) == fold_at((g.skip(1)[i])(t), (g.skip(1)[i])(f_neg(t)), alphas.skip(1)[i], t) by {
            assert((g[(i + 1) + 1])(f_mul(t, t)) == fold_at(
                (g[i + 1])(t),
                (g[i + 1])(f_neg(t)),
                alphas[i + 1],
                t,
            ));
        }
        lemma_f_mul_wf(x, x);
        lemma_unit_product(x, x);
        k_fold_evaluates_fold(g.skip(1), folded, alphas.skip(1), x2);
        // x2^(2^(k-1)) = x^(2^k)
        lemma_f_pow_distributes(x, x, pow2((k - 1) as nat));
        lemma_f_pow_adds(x, pow2((k - 1) as nat), pow2((k - 1) as nat));
    }
}

} // verus!
