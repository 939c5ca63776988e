//! How the weights of the batched constraints come about.

use vstd::arithmetic::div_mod::*;
use vstd::arithmetic::mul::*;
use vstd::arithmetic::power2::*;
use vstd::prelude::*;

use crate::algebra::{
    f_inv, lemma_bb_add, lemma_bb_mul, lemma_bb_value, lemma_e_mul_associates,
    lemma_e_mul_commutes, lemma_e_mul_one, lemma_e_wf, lemma_f_mul_commutes,
};
use crate::bits::{lemma_pow2_divides, lemma_pow2_mono};
use crate::field::{bb, e_add, e_mul, e_one, e_scale, e_sub, f_mul, BabyBear, EF};
use crate::multilinear::eq_kernel_factors;
use crate::poly::{eq1, eq_mle, ext_poly_eval};
use crate::prime::nonzero_is_unit;
use crate::verification::batch_constraints::{
    bits_of, eq_prefix, eq_weight, interaction_weight, lift, norm_factor, tail_product,
    trace_claims, BatchInputs, Weights,
};
use crate::verification::power_sums::{
    constraint_values, constraints_are_coefficients, denominators_add_up, message_and_bus,
    numerators_add_up,
};
use crate::verification::sumcheck_laws::total;

verus! {

/// The factor that a trace with fewer rows than the univariate domain is lifted with makes up for
/// the times that each of its rows occurs there.
pub proof fn lifting_keeps_the_sum(n: isize)
    requires
        -27 <= n,
    ensures
        n < 0 ==> f_mul(norm_factor(n), bb(pow2((-n) as nat) as int)) == bb(1),
        n >= 0 ==> norm_factor(n) == bb(1),
{
    if n < 0 {
        let k = (-n) as nat;
        lemma_pow2_mono(k, 27);
        lemma2_to64();
        let a = pow2(k) as int;
        nonzero_is_unit(a);
        let y = choose|y: BabyBear| #[trigger] f_mul(bb(a), y) == bb(1);
        let z = bb(y.value as int);
        lemma_bb_value(y.value as int);
        lemma_bb_value(a);
        reveal(f_mul);
        lemma_bb_mul(bb(a).value as int, y.value as int);
        assert(z.wf() && f_mul(bb(a), z) == bb(1));
        let inv = f_inv(bb(a));
        assert(inv.wf() && f_mul(bb(a), inv) == bb(1));
        lemma_f_mul_commutes(bb(a), inv);
    }
}

/// The product of a sequence.
pub open spec fn product(s: Seq<EF>) -> EF
    decreases s.len(),
{
    if s.len() == 0 {
        e_one()
    } else {
        e_mul(product(s.drop_last()), s.last())
    }
}

proof fn lemma_product_wf(s: Seq<EF>)
    ensures
        product(s).wf(),
{
    lemma_e_wf(e_one(), e_one(), bb(0));
    if s.len() > 0 {
        lemma_e_wf(product(s.drop_last()), s.last(), bb(0));
    }
}

proof fn lemma_product_first(s: Seq<EF>)
    requires
        s.len() > 0,
    ensures
        product(s) == e_mul(product(s.skip(1)), s[0]),
    decreases s.len(),
{
    if s.len() == 1 {
        assert(s.drop_last() =~= Seq::empty());
        assert(s.skip(1) =~= Seq::empty());
    } else {
        let a = s.drop_last();
        lemma_product_first(a);
        assert(a.skip(1) =~= s.skip(1).drop_last());
        assert(s.skip(1).last() == s.last());
        let p = product(a.skip(1));
        lemma_e_mul_associates(p, s[0], s.last());
        lemma_e_mul_commutes(s[0], s.last());
        lemma_e_mul_associates(p, s.last(), s[0]);
    }
}

proof fn lemma_tail(rs: Seq<EF>, i: int)
    requires
        0 <= i < rs.len(),
        rs.last().wf(),
    ensures
        tail_product(rs, i) == product(rs.skip(i)),
    decreases rs.len() - i,
{
    let s = rs.skip(i);
    lemma_product_first(s);
    if i >= rs.len() - 1 {
        assert(s.skip(1) =~= Seq::empty());
        lemma_e_mul_one(rs.last());
    } else {
        lemma_tail(rs, i + 1);
        assert(s.skip(1) =~= rs.skip(i + 1));
    }
}

proof fn lemma_prefix(first: EF, xi: Seq<EF>, rs: Seq<EF>, l_skip: nat, i: nat)
    requires
        first.wf(),
        i < rs.len(),
        l_skip + i <= xi.len(),
    ensures
        eq_prefix(first, xi, rs, l_skip, i) == e_mul(
            first,
            eq_mle(xi.subrange(l_skip as int, (l_skip + i) as int), rs.subrange(1, 1 + i as int)),
        ),
    decreases i,
{
    let a = xi.subrange(l_skip as int, (l_skip + i) as int);
    let b = rs.subrange(1, 1 + i as int);
    if i == 0 {
        assert(a =~= Seq::empty());
        lemma_e_mul_one(first);
    } else {
        let j = (i - 1) as nat;
        lemma_prefix(first, xi, rs, l_skip, j);
        let (x, y) = (xi[l_skip + i - 1], rs[i as int]);
        assert(a.drop_last() =~= xi.subrange(l_skip as int, (l_skip + j) as int));
        assert(b.drop_last() =~= rs.subrange(1, 1 + j as int));
        assert(a.last() == x && b.last() == y);
        let (u, v) = (seq![x], seq![y]);
        assert(u.drop_last() =~= Seq::empty());
        assert(eq_mle(Seq::<EF>::empty(), v.drop_last()) == e_one());
        assert(eq_mle(u, v) == e_mul(e_one(), eq1(x, y)));
        lemma_eq1_wf(x, y);
        lemma_e_mul_one(eq1(x, y));
        lemma_e_mul_associates(first, eq_mle(a.drop_last(), b.drop_last()), eq1(x, y));
    }
}

proof fn lemma_eq1_wf(x: EF, y: EF)
    ensures
        eq1(x, y).wf(),
{
    let xy = e_mul(x, y);
    lemma_e_wf(e_sub(e_sub(e_one(), x), y), e_add(xy, xy), bb(0));
}

/// The weight of the traces with `i` variables besides the univariate ones is a product: the
/// agreement in the univariate variables, the agreement of `xi` with the point in each of the `i`
/// variables, and all coordinates of the point that such a trace does not depend on.
pub proof fn trace_weight_is_product(first: EF, xi: Seq<EF>, rs: Seq<EF>, l_skip: nat, i: nat)
    requires
        first.wf(),
        i < rs.len(),
        rs.last().wf(),
        l_skip + i <= xi.len(),
    ensures
        eq_weight(first, xi, rs, l_skip, i) == e_mul(
            e_mul(
                first,
                eq_mle(
                    xi.subrange(l_skip as int, (l_skip + i) as int),
                    rs.subrange(1, 1 + i as int),
                ),
            ),
            product(rs.skip(1 + i as int)),
        ),
{
    lemma_prefix(first, xi, rs, l_skip, i);
    let prefix = eq_prefix(first, xi, rs, l_skip, i);
    if i == rs.len() - 1 {
        assert(rs.skip(1 + i as int) =~= Seq::empty());
        lemma_e_wf(
            first,
            eq_mle(xi.subrange(l_skip as int, (l_skip + i) as int), rs.subrange(1, 1 + i as int)),
            bb(0),
        );
        lemma_e_mul_one(prefix);
    } else {
        lemma_tail(rs, i as int + 1);
    }
}

/// What a trace adds to the claim: the weighted counts of all its interactions, their weighted
/// denominators, and the batched values of all its constraints, with the weights of the trace.
pub proof fn trace_adds_all_terms<Digest, Node>(
    inputs: BatchInputs<Digest, Node>,
    w: Weights,
    nodes: Seq<EF>,
    t: int,
)
    ensures
        ({
            let l_skip = inputs.mvk.params.l_skip as nat;
            let n = inputs.n_per_trace@[t];
            let idx = inputs.air(t).symbolic_constraints.constraints.constraint_idx@;
            let interactions = inputs.interactions(t);
            let claims = trace_claims(inputs, w, nodes, t);
            let sharp = eq_weight(w.eq_sharp_uni, w.xi, w.rs, l_skip, lift(n));
            let weight = |i: int| interaction_weight(inputs, w.xi, w.n_logup, t, i);
            &&& claims.numerator == e_mul(
                e_scale(
                    total(
                        Seq::new(
                            interactions.len(),
                            |i: int| e_mul(weight(i), nodes[interactions[i].count as int]),
                        ),
                    ),
                    norm_factor(n),
                ),
                sharp,
            )
            &&& claims.denominator == e_mul(
                total(
                    Seq::new(
                        interactions.len(),
                        |i: int|
                            e_mul(
                                weight(i),
                                ext_poly_eval(message_and_bus(interactions[i], nodes), w.beta),
                            ),
                    ),
                ),
                sharp,
            )
            &&& claims.constraints == e_mul(
                eq_weight(w.eq_uni, w.xi, w.rs, l_skip, lift(n)),
                ext_poly_eval(constraint_values(idx, nodes), w.lambda),
            )
        }),
{
    let idx = inputs.air(t).symbolic_constraints.constraints.constraint_idx@;
    let interactions = inputs.interactions(t);
    let num = interactions.len();
    let weights = Seq::new(num, |i: int| interaction_weight(inputs, w.xi, w.n_logup, t, i));
    let weight = |i: int| interaction_weight(inputs, w.xi, w.n_logup, t, i);
    numerators_add_up(interactions, weights, nodes, num);
    denominators_add_up(interactions, weights, nodes, w.beta, num);
    constraints_are_coefficients(idx, nodes, w.lambda, idx.len());
    assert(constraint_values(idx, nodes).take(idx.len() as int) =~= constraint_values(idx, nodes));
    assert(Seq::new(num, |i: int| e_mul(weights[i], nodes[interactions[i].count as int]))
        =~= Seq::new(num, |i: int| e_mul(weight(i), nodes[interactions[i].count as int])));
    assert(Seq::new(
        num,
        |i: int| e_mul(weights[i], ext_poly_eval(message_and_bus(interactions[i], nodes), w.beta)),
    ) =~= Seq::new(
        num,
        |i: int| e_mul(weight(i), ext_poly_eval(message_and_bus(interactions[i], nodes), w.beta)),
    ));
}

/// Whether the traces come in descending order of height.
pub open spec fn descends<Digest, Node>(inputs: BatchInputs<Digest, Node>) -> bool {
    forall|a: int, b: int|
        0 <= a <= b < inputs.num_traces() ==> lift(#[trigger] inputs.n_per_trace@[a]) >= lift(
            #[trigger] inputs.n_per_trace@[b],
        )
}

/// The rows that the interactions of a trace take up start at a multiple of its number of rows.
proof fn lemma_aligned<Digest, Node>(inputs: BatchInputs<Digest, Node>, n: int, t: int)
    requires
        descends(inputs),
        0 <= n <= t < inputs.num_traces(),
    ensures
        inputs.interaction_rows(n) as int % (pow2(inputs.log_rows(t)) as int) == 0,
    decreases n,
{
    let low = inputs.log_rows(t);
    let h = pow2(low) as int;
    lemma_pow2_pos(low);
    if n > 0 {
        lemma_aligned(inputs, n - 1, t);
        let a = inputs.n_per_trace@[n - 1];
        let b = inputs.n_per_trace@[t];
        assert(lift(a) >= lift(b));
        let up = inputs.log_rows(n - 1);
        lemma_pow2_divides(low, up);
        let count = inputs.interactions(n - 1).len() as int;
        let k = pow2((up - low) as nat) as int;
        let prev = inputs.interaction_rows(n - 1) as int;
        assert(count * pow2(up) == (count * k) * h) by (nonlinear_arith)
            requires
                pow2(up) == k * h,
        ;
        lemma_mod_multiples_basic(count * k, h);
        lemma_add_mod_noop(prev, (count * k) * h, h);
        lemma_small_mod(0, h as nat);
    } else {
        lemma_small_mod(0, h as nat);
    }
}

/// The bits of a row: those of its place in an interaction, and those of the interaction's place
/// in the table.
proof fn lemma_bits_split(hi: int, low: nat, r: int, len: nat)
    requires
        0 <= hi,
        0 <= r < pow2(low),
        low <= len,
    ensures
        bits_of(hi * pow2(low) + r, len) == bits_of(r, low) + bits_of(hi, (len - low) as nat),
{
    let h = pow2(low) as int;
    lemma_pow2_pos(low);
    let b = hi * h + r;
    let left = bits_of(b, len);
    let right = bits_of(r, low) + bits_of(hi, (len - low) as nat);
    assert forall|j: int| 0 <= j < len implies #[trigger] left[j] == right[j] by {
        let p = pow2(j as nat) as int;
        lemma_pow2_pos(j as nat);
        if j < low {
            // hi h is a multiple of 2 p
            lemma_pow2_divides((j + 1) as nat, low);
            lemma_pow2_unfold((j + 1) as nat);
            let m = pow2((low - (j + 1)) as nat) as int;
            assert(b == p * (hi * m * 2) + r) by (nonlinear_arith)
                requires
                    b == hi * h + r,
                    h == m * (2 * p),
            ;
            lemma_hoist_over_denominator(r, hi * m * 2, p as nat);
            assert(b / p == r / p + hi * m * 2);
            lemma_mod_multiples_vanish(hi * m, r / p, 2);
            assert(r / p + hi * m * 2 == 2 * (hi * m) + r / p) by (nonlinear_arith);
        } else {
            let d = (j - low) as nat;
            lemma_pow2_adds(low, d);
            assert(p == h * pow2(d));
            lemma_pow2_pos(d);
            lemma_div_denominator(b, h, pow2(d) as int);
            lemma_fundamental_div_mod_converse(b, h, hi, r);
        }
    }
    assert(left =~= right);
}

/// Each interaction has a place of its own in the table that the interaction argument sums: the
/// weight of interaction `i` of trace `t`, times how the low part of `xi` agrees with row `r`, is
/// how `xi` agrees with the bits of the place of that row, which is behind all rows of the traces
/// before, all rows of the interactions before it and all rows before it.
pub proof fn interaction_weight_is_place<Digest, Node>(
    inputs: BatchInputs<Digest, Node>,
    xi: Seq<EF>,
    n_logup: nat,
    t: int,
    i: int,
    r: int,
)
    requires
        descends(inputs),
        0 <= t < inputs.num_traces(),
        0 <= i < inputs.interactions(t).len(),
        0 <= r < pow2(inputs.log_rows(t)),
        lift(inputs.n_per_trace@[t]) <= n_logup,
        inputs.mvk.params.l_skip + n_logup <= xi.len(),
    ensures
        ({
            let low = inputs.log_rows(t);
            let len = (inputs.mvk.params.l_skip + n_logup) as nat;
            let place = inputs.interaction_rows(t) + i * pow2(low) + r;
            e_mul(
                eq_mle(xi.take(low as int), bits_of(r, low)),
                interaction_weight(inputs, xi, n_logup, t, i),
            ) == eq_mle(xi.take(len as int), bits_of(place, len))
        }),
{
    let low = inputs.log_rows(t);
    let h = pow2(low) as int;
    lemma_pow2_pos(low);
    let len = (inputs.mvk.params.l_skip + n_logup) as nat;
    let start = inputs.interaction_rows(t) as int;
    let row = start + i * h;
    lemma_aligned(inputs, t, t);
    lemma_fundamental_div_mod(start, h);
    let k = start / h;
    assert(row == (k + i) * h) by (nonlinear_arith)
        requires
            row == start + i * h,
            start == h * k,
    ;
    lemma_div_by_multiple(k + i, h);
    assert(row / h == k + i);
    lemma_div_pos_is_pos(start, h);
    lemma_bits_split(k + i, low, r, len);
    let a = bits_of(r, low);
    let b = bits_of(k + i, (len - low) as nat);
    let x = xi.take(len as int);
    assert(x.take(low as int) =~= xi.take(low as int));
    assert(x.skip(low as int) =~= xi.subrange(low as int, len as int));
    lemma_eq_symmetric(x, a + b);
    eq_kernel_factors(a, b, x);
    lemma_eq_symmetric(x.take(low as int), a);
    lemma_eq_symmetric(x.skip(low as int), b);
}

/// Equality is symmetric.
proof fn lemma_eq_symmetric(a: Seq<EF>, b: Seq<EF>)
    requires
        a.len() == b.len(),
    ensures
        eq_mle(a, b) == eq_mle(b, a),
    decreases a.len(),
{
    if a.len() > 0 {
        lemma_eq_symmetric(a.drop_last(), b.drop_last());
        lemma_eq1_symmetric(a.last(), b.last());
    }
}

proof fn lemma_eq1_symmetric(x: EF, y: EF)
    ensures
        eq1(x, y) == eq1(y, x),
{
    lemma_e_mul_commutes(x, y);
    reveal(e_sub);
    lemma_bb_add(1 - x.c0.value, y.c0.value as int);
    lemma_bb_add(1 - y.c0.value, x.c0.value as int);
    lemma_bb_add(0 - x.c1.value, y.c1.value as int);
    lemma_bb_add(0 - y.c1.value, x.c1.value as int);
    lemma_bb_add(0 - x.c2.value, y.c2.value as int);
    lemma_bb_add(0 - y.c2.value, x.c2.value as int);
    lemma_bb_add(0 - x.c3.value, y.c3.value as int);
    lemma_bb_add(0 - y.c3.value, x.c3.value as int);
}

/// No two rows have the same place: the place of a row determines its trace, its interaction and
/// the row, and all places lie below the number of rows that is counted.
pub proof fn places_are_distinct<Digest, Node>(
    inputs: BatchInputs<Digest, Node>,
    t1: int,
    i1: int,
    r1: int,
    t2: int,
    i2: int,
    r2: int,
)
    requires
        0 <= t1 < inputs.num_traces(),
        0 <= i1 < inputs.interactions(t1).len(),
        0 <= r1 < pow2(inputs.log_rows(t1)),
        0 <= t2 < inputs.num_traces(),
        0 <= i2 < inputs.interactions(t2).len(),
        0 <= r2 < pow2(inputs.log_rows(t2)),
    ensures
        ({
            let p1 = inputs.interaction_rows(t1) + i1 * pow2(inputs.log_rows(t1)) + r1;
            let p2 = inputs.interaction_rows(t2) + i2 * pow2(inputs.log_rows(t2)) + r2;
            &&& p1 < inputs.interaction_rows(inputs.num_traces())
            &&& p1 == p2 ==> t1 == t2 && i1 == i2 && r1 == r2
        }),
{
    lemma_place_bounds(inputs, t1, i1, r1);
    lemma_place_bounds(inputs, t2, i2, r2);
    inputs.lemma_rows_mono(t1 + 1, inputs.num_traces());
    if t1 < t2 {
        inputs.lemma_rows_mono(t1 + 1, t2);
    } else if t2 < t1 {
        inputs.lemma_rows_mono(t2 + 1, t1);
    } else {
        let h = pow2(inputs.log_rows(t1)) as int;
        if i1 * h + r1 == i2 * h + r2 {
            lemma_fundamental_div_mod_converse(i1 * h + r1, h, i1, r1);
            lemma_fundamental_div_mod_converse(i2 * h + r2, h, i2, r2);
        }
    }
}

proof fn lemma_place_bounds<Digest, Node>(
    inputs: BatchInputs<Digest, Node>,
    t: int,
    i: int,
    r: int,
)
    requires
        0 <= t < inputs.num_traces(),
        0 <= i < inputs.interactions(t).len(),
        0 <= r < pow2(inputs.log_rows(t)),
    ensures
        inputs.interaction_rows(t) <= inputs.interaction_rows(t) + i * pow2(inputs.log_rows(t)) + r
            < inputs.interaction_rows(t + 1),
{
    let h = pow2(inputs.log_rows(t)) as int;
    let n = inputs.interactions(t).len() as int;
    assert(0 <= i * h && i * h + h <= n * h) by (nonlinear_arith)
        requires
            0 <= i < n,
            h > 0,
    ;
}

/// No place is left out: every number below the number of rows that is counted is the place of a
/// row of an interaction of a trace.
pub proof fn every_place_is_taken<Digest, Node>(
    inputs: BatchInputs<Digest, Node>,
    n: int,
    place: int,
) -> (r: (int, int, int))
    requires
        n <= inputs.num_traces(),
        0 <= place < inputs.interaction_rows(n),
    ensures
        0 <= r.0 < n,
        0 <= r.1 < inputs.interactions(r.0).len(),
        0 <= r.2 < pow2(inputs.log_rows(r.0)),
        place == inputs.interaction_rows(r.0) + r.1 * pow2(inputs.log_rows(r.0)) + r.2,
    decreases n,
{
    let t = n - 1;
    let before = inputs.interaction_rows(t) as int;
    if place < before {
        every_place_is_taken(inputs, t, place)
    } else {
        let h = pow2(inputs.log_rows(t)) as int;
        let count = inputs.interactions(t).len() as int;
        lemma_pow2_pos(inputs.log_rows(t));
        let p = place - before;
        lemma_fundamental_div_mod(p, h);
        let (i, r) = (p / h, p % h);
        assert(h * i == i * h) by (nonlinear_arith);
        assert(0 <= i < count) by (nonlinear_arith)
            requires
                p == i * h + r,
                0 <= r < h,
                0 <= p < count * h,
        ;
        (t, i, r)
    }
}

/// The number of multilinear rounds is that of the highest trace: no trace has more variables
/// besides the univariate ones, and where there are any, some trace has as many.
pub proof fn rounds_are_those_of_highest_trace<Digest, Node>(
    inputs: BatchInputs<Digest, Node>,
    t: int,
)
    requires
        0 <= t < inputs.num_traces(),
    ensures
        inputs.n_per_trace@[t] <= inputs.n_max(),
        inputs.n_max() > 0 ==> exists|u: int|
            0 <= u < inputs.num_traces() && #[trigger] inputs.n_per_trace@[u] == inputs.n_max(),
{
    lemma_max_lift(inputs, inputs.num_traces(), t);
}

proof fn lemma_max_lift<Digest, Node>(inputs: BatchInputs<Digest, Node>, n: int, t: int)
    ensures
        0 <= t < n ==> inputs.n_per_trace@[t] <= inputs.max_lift(n),
        inputs.max_lift(n) > 0 ==> exists|u: int|
            0 <= u < n && #[trigger] inputs.n_per_trace@[u] == inputs.max_lift(n),
    decreases n,
{
    if n > 0 {
        lemma_max_lift(inputs, n - 1, t);
        let last = inputs.n_per_trace@[n - 1];
        if inputs.max_lift(n - 1) >= lift(last) && inputs.max_lift(n) > 0 {
            let u = choose|u: int|
                0 <= u < n - 1 && #[trigger] inputs.n_per_trace@[u] == inputs.max_lift(n - 1);
            assert(inputs.n_per_trace@[u] == inputs.max_lift(n));
        }
    }
}

} // verus!
