//! The weight polynomial of the WHIR protocol is a line in each variable.

use vstd::prelude::*;

use crate::algebra::{lemma_e_mul_associates, lemma_e_mul_commutes, lemma_e_mul_one, lemma_e_wf};
use crate::field::{bb, e_add, e_from, e_mul, e_one, e_pow, e_sub, BabyBear, EF};
use crate::multilinear::{all_wf, eq_kernel_factors, mobius_kernel_factors};
use crate::poly::{eq1, eq_mle, mobius_eq1, mobius_eq_mle, repeated_squares};
use crate::verification::final_check::{add_point_weights, lemma_square_wf, point_weight, weight_at};
use crate::verification::line_sums::{
    front, is_line, lemma_eq1_line, lemma_line_adds, lemma_line_scales, lemma_mobius_eq1_line,
    on_line,
};
use crate::verification::whir::WhirRun;

verus! {

pub proof fn lemma_line_same(g: spec_fn(EF) -> EF, h: spec_fn(EF) -> EF)
    requires
        is_line(g),
        forall|x: EF| x.wf() ==> #[trigger] h(x) == g(x),
    ensures
        is_line(h),
{
    let (a, b) = choose|a: EF, b: EF| #[trigger] on_line(g, a, b);
    assert forall|x: EF| x.wf() implies #[trigger] h(x) == e_add(a, e_mul(b, x)) by {
        assert(h(x) == g(x));
    }
    assert(on_line(h, a, b));
}

/// `p (l q) == (p q) l`.
proof fn lemma_middle(p: EF, l: EF, q: EF)
    ensures
        e_mul(p, e_mul(l, q)) == e_mul(e_mul(p, q), l),
{
    lemma_e_mul_commutes(l, q);
    lemma_e_mul_associates(p, q, l);
}

/// The equality kernel is a line in each variable.
proof fn lemma_eq_line(a: Seq<EF>, b: Seq<EF>, s: Seq<EF>)
    requires
        s.len() == a.len() + 1 + b.len(),
        all_wf(s),
    ensures
        is_line(|x: EF| eq_mle(a + front(x, b), s)),
{
    let g = |x: EF| eq_mle(a + front(x, b), s);
    let n = a.len() as int;
    let y = s[n];
    let (p, q) = (eq_mle(a, s.take(n)), eq_mle(b, s.skip(n).skip(1)));
    let l = |x: EF| eq1(x, y);
    lemma_eq1_line(y);
    assert forall|x: EF| x.wf() implies #[trigger] g(x) == e_mul(e_mul(p, q), l(x)) by {
        eq_kernel_factors(a, front(x, b), s);
        let t = s.skip(n);
        eq_kernel_factors(seq![x], b, t);
        let (one_x, one_y) = (seq![x], t.take(1));
        assert(one_x.drop_last() =~= Seq::empty());
        assert(eq_mle(one_x.drop_last(), one_y.drop_last()) == e_one());
        assert(one_x.last() == x && one_y.last() == y);
        assert(eq_mle(one_x, one_y) == e_mul(e_one(), eq1(x, y)));
        lemma_e_wf(eq1(x, y), eq1(x, y), bb(0));
        lemma_eq1_wf(x, y);
        lemma_e_mul_one(eq1(x, y));
        lemma_middle(p, l(x), q);
    }
    lemma_line_scales(e_mul(p, q), l, g);
}

proof fn lemma_eq1_wf(x: EF, y: EF)
    ensures
        eq1(x, y).wf(),
        mobius_eq1(x, y).wf(),
{
    let xy = e_mul(x, y);
    lemma_e_wf(
        e_sub(e_sub(e_one(), x), y),
        e_add(xy, xy),
        bb(0),
    );
    lemma_e_wf(
        e_mul(
            e_sub(e_sub(e_one(), x), x),
            e_sub(e_one(), y),
        ),
        xy,
        bb(0),
    );
}

/// The Moebius kernel is a line in each variable.
proof fn lemma_mobius_line(u: Seq<EF>, a: Seq<EF>, b: Seq<EF>)
    requires
        u.len() == a.len() + 1 + b.len(),
        all_wf(u),
    ensures
        is_line(|x: EF| mobius_eq_mle(u, a + front(x, b))),
{
    let g = |x: EF| mobius_eq_mle(u, a + front(x, b));
    let n = a.len() as int;
    let y = u[n];
    let (p, q) = (mobius_eq_mle(u.take(n), a), mobius_eq_mle(u.skip(n).skip(1), b));
    let l = |x: EF| mobius_eq1(y, x);
    lemma_mobius_eq1_line(y);
    assert forall|x: EF| x.wf() implies #[trigger] g(x) == e_mul(e_mul(p, q), l(x)) by {
        mobius_kernel_factors(u, a, front(x, b));
        let t = u.skip(n);
        mobius_kernel_factors(t, seq![x], b);
        let (one_x, one_y) = (seq![x], t.take(1));
        assert(one_y.drop_last() =~= Seq::empty());
        assert(mobius_eq_mle(one_y.drop_last(), one_x.drop_last()) == e_one());
        assert(one_x.last() == x && one_y.last() == y);
        assert(mobius_eq_mle(one_y, one_x) == e_mul(e_one(), mobius_eq1(y, x)));
        lemma_eq1_wf(y, x);
        lemma_e_mul_one(mobius_eq1(y, x));
        lemma_middle(p, l(x), q);
    }
    lemma_line_scales(e_mul(p, q), l, g);
}

proof fn lemma_point_weight_line(weight: EF, a: Seq<EF>, b: Seq<EF>, z: EF)
    requires
        z.wf(),
    ensures
        is_line(|x: EF| point_weight(weight, a + front(x, b), z)),
{
    let g = |x: EF| point_weight(weight, a + front(x, b), z);
    let s = repeated_squares(z, a.len() + 1 + b.len());
    assert forall|i: int| 0 <= i < s.len() implies (#[trigger] s[i]).wf() by {
        lemma_square_wf(z, i as nat);
    }
    lemma_eq_line(a, b, s);
    let l = |x: EF| eq_mle(a + front(x, b), s);
    assert forall|x: EF| x.wf() implies #[trigger] g(x) == e_mul(weight, l(x)) by {
        assert((a + front(x, b)).len() == a.len() + 1 + b.len());
    }
    lemma_line_scales(weight, l, g);
}

proof fn lemma_add_points_line(
    acc: spec_fn(EF) -> EF,
    gamma: EF,
    a: Seq<EF>,
    b: Seq<EF>,
    zs: Seq<BabyBear>,
)
    requires
        is_line(acc),
    ensures
        is_line(|x: EF| add_point_weights(acc(x), gamma, a + front(x, b), zs)),
    decreases zs.len(),
{
    let g = |x: EF| add_point_weights(acc(x), gamma, a + front(x, b), zs);
    if zs.len() == 0 {
        lemma_line_same(acc, g);
    } else {
        let init = zs.drop_last();
        let w = e_pow(gamma, (zs.len() + 1) as nat);
        let z = e_from(zs.last());
        lemma_add_points_line(acc, gamma, a, b, init);
        lemma_e_wf(z, z, zs.last());
        lemma_point_weight_line(w, a, b, z);
        let before = |x: EF| add_point_weights(acc(x), gamma, a + front(x, b), init);
        let one = |x: EF| point_weight(w, a + front(x, b), z);
        lemma_line_adds(before, one, g);
    }
}

/// The weight polynomial of the first `n` rounds is a line in each variable that these rounds
/// leave.
pub proof fn lemma_weight_line<S>(
    run: WhirRun<S>,
    k: int,
    num_rounds: int,
    u: Seq<EF>,
    n: int,
    a: Seq<EF>,
    b: Seq<EF>,
)
    requires
        0 <= n <= num_rounds,
        0 < k,
        k * n <= a.len(),
        u.len() == a.len() + 1 + b.len(),
        all_wf(u),
        all_wf(run.z0s),
        n <= run.z0s.len() || (n == num_rounds && n - 1 <= run.z0s.len()),
    ensures
        is_line(|x: EF| weight_at(run, k, num_rounds, u, n, a + front(x, b))),
    decreases n,
{
    let g = |x: EF| weight_at(run, k, num_rounds, u, n, a + front(x, b));
    if n <= 0 {
        lemma_mobius_line(u, a, b);
        lemma_line_same(|x: EF| mobius_eq_mle(u, a + front(x, b)), g);
    } else {
        let i = n - 1;
        assert(k * i <= k * n && 0 <= k * n) by (nonlinear_arith)
            requires
                i == n - 1,
                n > 0,
                k > 0,
        ;
        lemma_weight_line(run, k, num_rounds, u, n - 1, a, b);
        let acc = |x: EF| weight_at(run, k, num_rounds, u, n - 1, a + front(x, b));
        let left = a.skip(k * n);
        let gamma = run.gammas[i];
        let first = if i == num_rounds - 1 {
            acc
        } else {
            |x: EF| e_add(acc(x), point_weight(gamma, left + front(x, b), run.z0s[i]))
        };
        if i != num_rounds - 1 {
            lemma_point_weight_line(gamma, left, b, run.z0s[i]);
            lemma_line_adds(
                acc,
                |x: EF| point_weight(gamma, left + front(x, b), run.z0s[i]),
                first,
            );
        }
        lemma_add_points_line(first, gamma, left, b, run.zs[i]);
        let all = |x: EF| add_point_weights(first(x), gamma, left + front(x, b), run.zs[i]);
        assert forall|x: EF| x.wf() implies #[trigger] g(x) == all(x) by {
            assert((a + front(x, b)).skip(k * n) =~= left + front(x, b));
        }
        lemma_line_same(all, g);
    }
}

} // verus!
