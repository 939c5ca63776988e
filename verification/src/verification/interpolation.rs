//! Interpolation of sumcheck polynomials.

use vstd::prelude::*;

use crate::algebra::{
    f_inv, lemma_bb_add, lemma_bb_mul, lemma_bb_value, lemma_e_add_zero, lemma_e_from_ring,
    lemma_e_mul_associates, lemma_e_mul_commutes, lemma_e_mul_one, lemma_e_mul_zero, lemma_e_scale,
    lemma_e_wf, lemma_f_inv_unique, lemma_unit_nonzero,
};
use crate::field::{
    batch_multiplicative_inverse, bb, e_add, e_from, e_mul, e_one, e_scale, e_sub, e_zero, f_mul,
    BabyBear, BabyBearExt4, Zero, EF, P,
};
use crate::prime::{is_unit, lemma_unit_product, nonzero_is_unit};

verus! {

/// `r (r - 1) ... (r - n + 1)`.
pub open spec fn falling(r: EF, n: nat) -> EF
    decreases n,
{
    if n == 0 {
        e_one()
    } else {
        e_mul(falling(r, (n - 1) as nat), e_sub(r, e_from(bb(n - 1))))
    }
}

/// `(d - r) (d - 1 - r) ... (d - n + 1 - r)`.
pub open spec fn rising(r: EF, d: nat, n: nat) -> EF
    decreases n,
{
    if n == 0 {
        e_one()
    } else {
        e_mul(rising(r, d, (n - 1) as nat), e_sub(e_from(bb(d - (n - 1))), r))
    }
}

/// `n!` in the base field.
pub open spec fn f_fact(n: nat) -> BabyBear
    decreases n,
{
    if n == 0 {
        bb(1)
    } else {
        f_mul(f_fact((n - 1) as nat), bb(n as int))
    }
}

/// What value `i` adds to the value at `r`: the value times the polynomial that is one at `i` and
/// zero at the other points.
pub open spec fn lagrange_term(evals: Seq<EF>, r: EF, i: int) -> EF {
    let d = (evals.len() - 1) as nat;
    let rest = (d - i) as nat;
    e_scale(
        e_scale(
            e_mul(e_mul(evals[i], falling(r, i as nat)), rising(r, d, rest)),
            f_inv(f_fact(i as nat)),
        ),
        f_inv(f_fact(rest)),
    )
}

/// The sum of the first `n` terms.
pub open spec fn lagrange_sum(evals: Seq<EF>, r: EF, n: nat) -> EF
    decreases n,
{
    if n == 0 {
        e_zero()
    } else {
        e_add(lagrange_sum(evals, r, (n - 1) as nat), lagrange_term(evals, r, n - 1))
    }
}

/// The value at `r` of the polynomial of least degree with the given values at zero, one, two,
/// and so on.
pub open spec fn lagrange_eval(evals: Seq<EF>, r: EF) -> EF {
    lagrange_sum(evals, r, evals.len())
}

/// The inverses of `0!, 1!, ..., d!`.
fn inverse_factorials(d: usize) -> (r: Vec<BabyBear>)
    requires
        d < P,
    ensures
        r@.len() == d + 1,
        forall|i: int| 0 <= i <= d ==> #[trigger] r@[i] == f_inv(f_fact(i as nat)),
{
    let mut factorials: Vec<BabyBear> = Vec::with_capacity(d + 1);
    factorials.push(BabyBear::one());
    let mut i: usize = 0;
    while i < d
        invariant
            i <= d < P,
            factorials@.len() == i + 1,
            forall|j: int| 0 <= j <= i ==> #[trigger] factorials@[j] == f_fact(j as nat),
        decreases d - i,
    {
        let next = factorials[i].mul(BabyBear::from_usize(i + 1));
        factorials.push(next);
        i = i + 1;
    }
    assert forall|j: int| 0 <= j < factorials@.len() implies bb(
        (#[trigger] factorials@[j]).value as int,
    ) != bb(0) by {
        lemma_fact_unit(j as nat);
        let y = choose|y: BabyBear| #[trigger] f_mul(f_fact(j as nat), y) == bb(1);
        lemma_unit_nonzero(f_fact(j as nat), y);
    }
    let r = batch_multiplicative_inverse(&factorials);
    assert forall|j: int| 0 <= j <= d implies #[trigger] r@[j] == f_inv(f_fact(j as nat)) by {
        lemma_f_inv_unique(factorials@[j], r@[j]);
    }
    r
}

/// Evaluates at `r` the polynomial of least degree with the values `evals` at zero, one, two, and
/// so on.
pub fn interpolate(evals: &Vec<EF>, r: EF) -> (v: EF)
    requires
        1 <= evals@.len() <= P,
    ensures
        v == lagrange_eval(evals@, r),
{
    let d = evals.len() - 1;
    let inv_fact = inverse_factorials(d);
    let mut pref: Vec<EF> = Vec::with_capacity(d + 1);
    let mut suf: Vec<EF> = Vec::with_capacity(d + 1);
    pref.push(BabyBearExt4::one());
    suf.push(BabyBearExt4::one());
    let mut i: usize = 0;
    while i < d
        invariant
            i <= d,
            d < usize::MAX,
            pref@.len() == i + 1,
            suf@.len() == i + 1,
            forall|j: int| 0 <= j <= i ==> #[trigger] pref@[j] == falling(r, j as nat),
            forall|j: int| 0 <= j <= i ==> #[trigger] suf@[j] == rising(r, d as nat, j as nat),
        decreases d - i,
    {
        let p = pref[i].mul(r.sub(BabyBearExt4::from_usize(i)));
        let s = suf[i].mul(BabyBearExt4::from_usize(d - i).sub(r));
        pref.push(p);
        suf.push(s);
        i = i + 1;
    }
    let mut sum = BabyBearExt4::zero();
    let mut i: usize = 0;
    while i <= d
        invariant
            i <= d + 1,
            d + 1 == evals@.len(),
            d < usize::MAX,
            pref@.len() == d + 1,
            suf@.len() == d + 1,
            inv_fact@.len() == d + 1,
            forall|j: int| 0 <= j <= d ==> #[trigger] pref@[j] == falling(r, j as nat),
            forall|j: int| 0 <= j <= d ==> #[trigger] suf@[j] == rising(r, d as nat, j as nat),
            forall|j: int| 0 <= j <= d ==> #[trigger] inv_fact@[j] == f_inv(f_fact(j as nat)),
            sum == lagrange_sum(evals@, r, i as nat),
        decreases d + 1 - i,
    {
        let term = evals[i].mul(pref[i]).mul(suf[d - i]).scale(inv_fact[i]).scale(
            inv_fact[d - i],
        );
        sum = sum.add(term);
        i = i + 1;
    }
    sum
}

/// From one above a point on, the product of differences vanishes there.
proof fn lemma_falling_zero(i: nat, n: nat)
    requires
        i < n,
    ensures
        falling(e_from(bb(i as int)), n) == e_zero(),
    decreases n,
{
    let r = e_from(bb(i as int));
    lemma_e_wf(r, r, bb(i as int));
    lemma_e_add_zero(r);
    if i + 1 == n {
        lemma_e_mul_zero(falling(r, i));
    } else {
        lemma_falling_zero(i, (n - 1) as nat);
        lemma_e_mul_zero(e_sub(r, e_from(bb(n - 1))));
    }
}

/// The product of differences from above vanishes at the points below its range.
proof fn lemma_rising_zero(i: nat, d: nat, n: nat)
    requires
        i <= d,
        d - i < n,
    ensures
        rising(e_from(bb(i as int)), d, n) == e_zero(),
    decreases n,
{
    let r = e_from(bb(i as int));
    lemma_e_wf(r, r, bb(i as int));
    lemma_e_add_zero(r);
    if d - i == n - 1 {
        lemma_e_mul_zero(rising(r, d, (n - 1) as nat));
    } else {
        lemma_rising_zero(i, d, (n - 1) as nat);
        lemma_e_mul_zero(e_sub(e_from(bb(d - (n - 1))), r));
    }
}

/// `e_from` of a difference of integers.
pub proof fn lemma_from_difference(x: int, y: int)
    ensures
        e_sub(e_from(bb(x)), e_from(bb(y))) == e_from(bb(x - y)),
{
    lemma_e_from_ring(bb(x), bb(y));
    lemma_bb_add(x, y);
}

/// `a (b c) == (a c) b` for the base field inside the extension.
proof fn lemma_fact_step(p: EF, n: nat)
    requires
        n > 0,
    ensures
        e_mul(p, e_from(f_fact(n))) == e_mul(
            e_mul(p, e_from(bb(n as int))),
            e_from(f_fact((n - 1) as nat)),
        ),
{
    let f = f_fact((n - 1) as nat);
    lemma_e_from_ring(f, bb(n as int));
    lemma_e_mul_commutes(e_from(f), e_from(bb(n as int)));
    lemma_e_mul_associates(p, e_from(bb(n as int)), e_from(f));
}

/// At `i`, the first `n` differences times the factorial of what is left are the factorial.
proof fn lemma_falling_fact(i: nat, n: nat)
    requires
        n <= i,
    ensures
        e_mul(falling(e_from(bb(i as int)), n), e_from(f_fact((i - n) as nat))) == e_from(
            f_fact(i),
        ),
    decreases n,
{
    let r = e_from(bb(i as int));
    if n == 0 {
        lemma_e_wf(r, r, f_fact(i));
        lemma_e_mul_one(e_from(f_fact(i)));
    } else {
        lemma_falling_fact(i, (n - 1) as nat);
        lemma_from_difference(i as int, n - 1);
        lemma_fact_step(falling(r, (n - 1) as nat), (i - n + 1) as nat);
    }
}

/// The same for the differences from above.
proof fn lemma_rising_fact(i: nat, d: nat, n: nat)
    requires
        i + n <= d,
    ensures
        e_mul(rising(e_from(bb(i as int)), d, n), e_from(f_fact((d - i - n) as nat))) == e_from(
            f_fact((d - i) as nat),
        ),
    decreases n,
{
    let r = e_from(bb(i as int));
    if n == 0 {
        lemma_e_wf(r, r, f_fact((d - i) as nat));
        lemma_e_mul_one(e_from(f_fact((d - i) as nat)));
    } else {
        lemma_rising_fact(i, d, (n - 1) as nat);
        lemma_from_difference(d - (n - 1), i as int);
        lemma_fact_step(rising(r, d, (n - 1) as nat), (d - i - n + 1) as nat);
    }
}

/// A product with an element and then with its inverse is the first factor.
pub proof fn lemma_cancel(a: EF, f: BabyBear)
    requires
        a.wf(),
        is_unit(f),
    ensures
        e_scale(e_mul(a, e_from(f)), f_inv(f)) == a,
{
    let y = choose|y: BabyBear| #[trigger] f_mul(f, y) == bb(1);
    let z = bb(y.value as int);
    lemma_bb_value(y.value as int);
    assert(f_mul(f, z) == bb(1)) by {
        reveal(f_mul);
        lemma_bb_mul(f.value as int, y.value as int);
    }
    lemma_f_inv_unique(f, z);
    lemma_e_scale(e_mul(a, e_from(f)), z);
    lemma_e_mul_associates(a, e_from(f), e_from(z));
    lemma_e_from_ring(f, z);
    assert(e_from(bb(1)) == e_one()) by {
        reveal(e_from);
        assert(bb(1).value == 1);
    }
    lemma_e_mul_one(a);
}

/// At one of the points, the term of that point is its value and the other terms vanish.
proof fn lemma_terms(evals: Seq<EF>, i: int, j: int)
    requires
        0 <= i < evals.len(),
        0 <= j < evals.len(),
        evals[i].wf(),
        is_unit(f_fact(i as nat)),
        is_unit(f_fact((evals.len() - 1 - i) as nat)),
    ensures
        lagrange_term(evals, e_from(bb(i)), j) == (if i == j {
            evals[i]
        } else {
            e_zero()
        }),
{
    let d = (evals.len() - 1) as nat;
    let r = e_from(bb(i));
    let rest = (d - j) as nat;
    let (f, g) = (falling(r, j as nat), rising(r, d, rest));
    let (p, q) = (f_inv(f_fact(j as nat)), f_inv(f_fact(rest)));
    lemma_e_wf(e_zero(), e_zero(), bb(0));
    if i == j {
        let (fi, fr) = (f_fact(i as nat), f_fact(rest));
        lemma_falling_fact(i as nat, i as nat);
        lemma_rising_fact(i as nat, d, rest);
        assert(e_from(f_fact(0)) == e_one()) by {
            reveal(e_from);
            assert(bb(1).value == 1);
        }
        lemma_product_wf(r, d, i as nat);
        lemma_product_wf(r, d, rest);
        lemma_e_mul_one(f);
        lemma_e_mul_one(g);
        let a = evals[i];
        // ((a f) g) == (a g) f
        lemma_e_mul_associates(a, f, g);
        lemma_e_mul_commutes(f, g);
        lemma_e_mul_associates(a, g, f);
        lemma_e_wf(a, g, bb(0));
        lemma_cancel(e_mul(a, g), fi);
        lemma_cancel(a, fr);
    } else {
        if j > i {
            lemma_falling_zero(i as nat, j as nat);
            lemma_e_mul_zero(evals[j]);
            lemma_e_mul_zero(g);
        } else {
            lemma_rising_zero(i as nat, d, rest);
            lemma_e_mul_zero(e_mul(evals[j], f));
        }
        lemma_e_scale(e_zero(), p);
        lemma_e_scale(e_zero(), q);
        lemma_e_mul_zero(e_from(p));
        lemma_e_mul_zero(e_from(q));
    }
}

proof fn lemma_product_wf(r: EF, d: nat, n: nat)
    ensures
        falling(r, n).wf(),
        rising(r, d, n).wf(),
{
    lemma_e_wf(e_one(), e_one(), bb(0));
    if n > 0 {
        lemma_e_wf(falling(r, (n - 1) as nat), e_sub(r, e_from(bb(n - 1))), bb(0));
        lemma_e_wf(rising(r, d, (n - 1) as nat), e_sub(e_from(bb(d - (n - 1))), r), bb(0));
    }
}

proof fn lemma_sum_at_point(evals: Seq<EF>, i: int, n: nat)
    requires
        0 <= i < evals.len(),
        n <= evals.len(),
        evals[i].wf(),
        is_unit(f_fact(i as nat)),
        is_unit(f_fact((evals.len() - 1 - i) as nat)),
    ensures
        lagrange_sum(evals, e_from(bb(i)), n) == (if i < n {
            evals[i]
        } else {
            e_zero()
        }),
    decreases n,
{
    lemma_e_wf(e_zero(), e_zero(), bb(0));
    if n > 0 {
        lemma_sum_at_point(evals, i, (n - 1) as nat);
        lemma_terms(evals, i, n - 1);
        lemma_e_add_zero(e_zero());
        lemma_e_add_zero(evals[i]);
    }
}

/// The factorials below the modulus have inverses.
proof fn lemma_fact_unit(n: nat)
    requires
        n < P,
    ensures
        is_unit(f_fact(n)),
    decreases n,
{
    if n == 0 {
        nonzero_is_unit(1);
    } else {
        lemma_fact_unit((n - 1) as nat);
        nonzero_is_unit(n as int);
        lemma_unit_product(f_fact((n - 1) as nat), bb(n as int));
    }
}

/// Interpolation hits the values: at the point `i` the polynomial has the value `evals[i]`.
pub proof fn interpolation_hits_values(evals: Seq<EF>, i: int)
    requires
        0 <= i < evals.len() <= P,
        evals[i].wf(),
    ensures
        lagrange_eval(evals, e_from(bb(i))) == evals[i],
{
    lemma_fact_unit(i as nat);
    lemma_fact_unit((evals.len() - 1 - i) as nat);
    lemma_sum_at_point(evals, i, evals.len());
}

} // verus!
