//! Batching of committed columns into one polynomial.

use vstd::arithmetic::power2::*;
use vstd::prelude::*;

use crate::algebra::{
    lemma_e_add_zero, lemma_e_mul_commutes, lemma_e_mul_distributes, lemma_e_mul_distributes_sub,
    lemma_e_mul_zero, lemma_e_scale, lemma_e_wf, lemma_linear, lemma_of_quad, q_add, q_sub, quad,
};
use crate::field::{bb, e_add, e_from, e_mul, e_pow, e_scale, e_sub, e_zero, BabyBear, EF};
use crate::multilinear::{all_wf, lemma_e_mul_swap};
use crate::poly::{bind_last, ext_poly_eval, mle_eval, poly_eval};
use crate::verification::polynomial_fold::{in_extension, lemma_base_poly, lemma_poly_linear};
use crate::verification::whir::{batch_base, batch_ext};

verus! {

/// The coefficients of the polynomial that columns of `len` coefficients are batched to: their
/// sum, each column weighted with the next power of `mu`.
pub open spec fn batched(mu: EF, columns: Seq<Seq<BabyBear>>, len: nat) -> Seq<EF>
    decreases columns.len(),
{
    if columns.len() == 0 {
        Seq::new(len, |i: int| e_zero())
    } else {
        let before = batched(mu, columns.drop_last(), len);
        let weight = e_pow(mu, (columns.len() - 1) as nat);
        Seq::new(len, |i: int| e_add(before[i], e_scale(weight, columns.last()[i])))
    }
}

/// A step of batching adds a multiple of a column.
proof fn lemma_batched_step(mu: EF, columns: Seq<Seq<BabyBear>>, len: nat)
    requires
        columns.len() > 0,
        columns.last().len() == len,
    ensures
        ({
            let before = batched(mu, columns.drop_last(), len);
            let column = in_extension(columns.last());
            let weight = e_pow(mu, (columns.len() - 1) as nat);
            let after = batched(mu, columns, len);
            &&& before.len() == len
            &&& column.len() == len
            &&& after.len() == len
            &&& forall|i: int|
                0 <= i < len ==> #[trigger] after[i] == e_add(
                    before[i],
                    e_mul(column[i], weight),
                )
        }),
{
    let weight = e_pow(mu, (columns.len() - 1) as nat);
    let after = batched(mu, columns, len);
    let before = batched(mu, columns.drop_last(), len);
    let column = in_extension(columns.last());
    assert forall|i: int| 0 <= i < len implies #[trigger] after[i] == e_add(
        before[i],
        e_mul(column[i], weight),
    ) by {
        lemma_e_scale(weight, columns.last()[i]);
        lemma_e_mul_commutes(weight, e_from(columns.last()[i]));
    }
}

pub proof fn lemma_zero_poly(n: nat, x: EF)
    ensures
        ext_poly_eval(Seq::new(n, |i: int| e_zero()), x) == e_zero(),
    decreases n,
{
    let zeros = Seq::new(n, |i: int| e_zero());
    if n > 0 {
        lemma_zero_poly((n - 1) as nat, x);
        assert(zeros.skip(1) =~= Seq::new((n - 1) as nat, |i: int| e_zero()));
        lemma_e_mul_zero(x);
        lemma_e_wf(e_zero(), e_zero(), bb(0));
        lemma_e_add_zero(e_zero());
    }
}

/// Batching commutes with evaluation: where the entries of a row are the values of the columns at
/// a point, the batched row is the value of the batched polynomial there.
pub proof fn batched_row_is_value(
    mu: EF,
    columns: Seq<Seq<BabyBear>>,
    len: nat,
    row: Seq<BabyBear>,
    x: BabyBear,
)
    requires
        row.len() == columns.len(),
        forall|j: int| 0 <= j < columns.len() ==> (#[trigger] columns[j]).len() == len,
        forall|j: int| 0 <= j < row.len() ==> #[trigger] row[j] == poly_eval(columns[j], x),
    ensures
        batch_base(mu, row) == ext_poly_eval(batched(mu, columns, len), e_from(x)),
    decreases columns.len(),
{
    if columns.len() == 0 {
        lemma_zero_poly(len, e_from(x));
    } else {
        let last = columns.len() - 1;
        batched_row_is_value(mu, columns.drop_last(), len, row.drop_last(), x);
        lemma_batched_step(mu, columns, len);
        let column = in_extension(columns.last());
        let weight = e_pow(mu, last as nat);
        lemma_poly_linear(
            batched(mu, columns.drop_last(), len),
            column,
            batched(mu, columns, len),
            weight,
            e_from(x),
        );
        assert(row[last] == poly_eval(columns[last], x));
        lemma_base_poly(columns.last(), x);
        lemma_e_scale(weight, row.last());
        lemma_e_mul_commutes(weight, e_from(row.last()));
    }
}

/// `(a + b w) + ((c + d w) - (a + b w)) x == (a + (c - a) x) + (b + (d - b) x) w`.
proof fn lemma_lerp_adds(a: EF, b: EF, c: EF, d: EF, w: EF, x: EF)
    requires
        a.wf(),
    ensures
        ({
            let (lo, hi) = (e_add(a, e_mul(b, w)), e_add(c, e_mul(d, w)));
            e_add(lo, e_mul(e_sub(hi, lo), x)) == e_add(
                e_add(a, e_mul(e_sub(c, a), x)),
                e_mul(e_add(b, e_mul(e_sub(d, b), x)), w),
            )
        }),
{
    let (bw, dw) = (e_mul(b, w), e_mul(d, w));
    let (lo, hi) = (e_add(a, bw), e_add(c, dw));
    let (ax, cx, bwx, dwx) = (e_mul(a, x), e_mul(c, x), e_mul(bw, x), e_mul(dw, x));
    lemma_e_mul_distributes_sub(x, hi, lo);
    lemma_e_mul_distributes(x, c, dw);
    lemma_e_mul_distributes(x, a, bw);
    lemma_e_mul_distributes_sub(x, c, a);
    lemma_e_mul_distributes_sub(x, d, b);
    lemma_e_mul_distributes(w, b, e_sub(e_mul(d, x), e_mul(b, x)));
    lemma_e_mul_distributes_sub(w, e_mul(d, x), e_mul(b, x));
    lemma_e_mul_swap(d, x, w);
    lemma_e_mul_swap(b, x, w);
    lemma_e_wf(a, x, bb(0));
    lemma_e_wf(c, x, bb(0));
    lemma_e_wf(bw, x, bb(0));
    lemma_e_wf(dw, x, bb(0));
    lemma_e_wf(b, w, bb(0));
    lemma_of_quad(a);
    lemma_of_quad(bw);
    lemma_of_quad(ax);
    lemma_of_quad(cx);
    lemma_of_quad(bwx);
    lemma_of_quad(dwx);
    let (qa, qb) = (quad(a), quad(bw));
    let (pa, pc, pb, pd) = (quad(ax), quad(cx), quad(bwx), quad(dwx));
    lemma_linear(qa, qb);
    lemma_linear(pc, pd);
    lemma_linear(pa, pb);
    lemma_linear(q_add(pc, pd), q_add(pa, pb));
    lemma_linear(q_add(qa, qb), q_sub(q_add(pc, pd), q_add(pa, pb)));
    lemma_linear(pc, pa);
    lemma_linear(qa, q_sub(pc, pa));
    lemma_linear(pd, pb);
    lemma_linear(qb, q_sub(pd, pb));
    lemma_linear(q_add(qa, q_sub(pc, pa)), q_add(qb, q_sub(pd, pb)));
    assert(q_add(q_add(qa, qb), q_sub(q_add(pc, pd), q_add(pa, pb))) == q_add(
        q_add(qa, q_sub(pc, pa)),
        q_add(qb, q_sub(pd, pb)),
    ));
}

/// The value of a sum of tables is the sum of the values.
proof fn lemma_mle_adds(a: Seq<EF>, b: Seq<EF>, s: Seq<EF>, w: EF, u: Seq<EF>)
    requires
        a.len() == pow2(u.len()),
        b.len() == a.len(),
        s.len() == a.len(),
        all_wf(a),
        forall|i: int| 0 <= i < s.len() ==> #[trigger] s[i] == e_add(a[i], e_mul(b[i], w)),
    ensures
        mle_eval(s, u) == e_add(mle_eval(a, u), e_mul(mle_eval(b, u), w)),
    decreases u.len(),
{
    if u.len() == 0 {
        lemma2_to64();
    } else {
        let x = u.last();
        let h = (s.len() / 2) as int;
        lemma_pow2_unfold(u.len());
        let (a1, b1, s1) = (bind_last(a, x), bind_last(b, x), bind_last(s, x));
        assert forall|i: int| 0 <= i < h implies #[trigger] s1[i] == e_add(
            a1[i],
            e_mul(b1[i], w),
        ) by {
            assert(s[i] == e_add(a[i], e_mul(b[i], w)));
            assert(s[h + i] == e_add(a[h + i], e_mul(b[h + i], w)));
            lemma_lerp_adds(a[i], b[i], a[h + i], b[h + i], w, x);
        }
        assert forall|i: int| 0 <= i < a1.len() implies (#[trigger] a1[i]).wf() by {
            lemma_e_wf(a[i], e_mul(e_sub(a[h + i], a[i]), x), bb(0));
        }
        lemma_mle_adds(a1, b1, s1, w, u.drop_last());
    }
}

proof fn lemma_zero_mle(n: nat, u: Seq<EF>)
    requires
        n == pow2(u.len()),
    ensures
        mle_eval(Seq::new(n, |i: int| e_zero()), u) == e_zero(),
    decreases u.len(),
{
    let zeros = Seq::new(n, |i: int| e_zero());
    if u.len() == 0 {
        lemma2_to64();
    } else {
        lemma_pow2_unfold(u.len());
        let h = (n / 2) as nat;
        lemma_zero_mle(h, u.drop_last());
        lemma_e_wf(e_zero(), e_zero(), bb(0));
        lemma_e_add_zero(e_zero());
        lemma_e_mul_zero(u.last());
        assert(bind_last(zeros, u.last()) =~= Seq::new(h, |i: int| e_zero()));
    }
}

proof fn lemma_batched_wf(mu: EF, columns: Seq<Seq<BabyBear>>, len: nat)
    ensures
        batched(mu, columns, len).len() == len,
        all_wf(batched(mu, columns, len)),
{
    let all = batched(mu, columns, len);
    assert forall|i: int| 0 <= i < all.len() implies (#[trigger] all[i]).wf() by {
        lemma_e_wf(e_zero(), e_zero(), bb(0));
        if columns.len() > 0 {
            let weight = e_pow(mu, (columns.len() - 1) as nat);
            let before = batched(mu, columns.drop_last(), len);
            lemma_e_wf(before[i], e_scale(weight, columns.last()[i]), bb(0));
        }
    }
}

/// Batching commutes with opening: where the openings are the values of the columns' tables at
/// `u`, the batched openings are the value of the batched table there.
pub proof fn batched_openings_are_value(
    mu: EF,
    columns: Seq<Seq<BabyBear>>,
    openings: Seq<EF>,
    u: Seq<EF>,
)
    requires
        openings.len() == columns.len(),
        forall|j: int| 0 <= j < columns.len() ==> (#[trigger] columns[j]).len() == pow2(u.len()),
        forall|j: int|
            0 <= j < openings.len() ==> #[trigger] openings[j] == mle_eval(
                in_extension(columns[j]),
                u,
            ),
    ensures
        batch_ext(mu, openings) == mle_eval(batched(mu, columns, pow2(u.len())), u),
    decreases columns.len(),
{
    let len = pow2(u.len());
    if columns.len() == 0 {
        lemma_zero_mle(len, u);
    } else {
        let last = columns.len() - 1;
        let init = columns.drop_last();
        batched_openings_are_value(mu, init, openings.drop_last(), u);
        lemma_batched_step(mu, columns, len);
        lemma_batched_wf(mu, init, len);
        let column = in_extension(columns.last());
        let weight = e_pow(mu, last as nat);
        lemma_mle_adds(batched(mu, init, len), column, batched(mu, columns, len), weight, u);
        assert(openings[last] == mle_eval(in_extension(columns[last]), u));
        lemma_e_mul_commutes(weight, openings.last());
    }
}

} // verus!
