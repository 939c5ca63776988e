//! What the outcome of the batched constraints depends on.

use vstd::prelude::*;

use crate::field::{e_one, e_zero, BabyBear, EF};
use crate::proofs::GkrProof;
use crate::transcript::{
    ext_challenge, ext_sampled, witness_checked, witness_holds, FiatShamirTranscript,
};
use crate::verification::batch_constraints::{
    common_observed, ends_with, evaluated_claim, interaction_weight, is_openings_of,
    may_be_eq_sharp_uni, may_be_eq_uni, may_be_gkr, may_be_nodes, may_end_with, may_follow,
    may_go_on_with, may_return, others_observed, trace_claims, BatchConstraintError, BatchInputs,
    Weights,
};
use crate::verification::batch_sumcheck::{sumcheck, Sumcheck};
use crate::verification::subprotocols::{GkrVerificationError, SubProtocols, TraceOpenings};

verus! {

/// Whether two traces are opened to the same values at the same point.
pub open spec fn same_openings(a: TraceOpenings, b: TraceOpenings) -> bool {
    &&& match (a.preprocessed, b.preprocessed) {
        (Some(p), Some(q)) => p@ == q@,
        (None, None) => true,
        _ => false,
    }
    &&& a.partitioned_main@.len() == b.partitioned_main@.len()
    &&& forall|i: int|
        0 <= i < a.partitioned_main@.len() ==> (#[trigger] a.partitioned_main@[i])@
            == b.partitioned_main@[i]@
    &&& a.rs@ == b.rs@
    &&& a.l == b.l
}

/// Whether two results are equal as far as what they hold goes.
pub open spec fn same_gkr<Digest, TS: FiatShamirTranscript<Digest>, R>(
    a: (TS, Result<(EF, EF, Vec<EF>), GkrVerificationError<R>>),
    b: (TS, Result<(EF, EF, Vec<EF>), GkrVerificationError<R>>),
) -> bool {
    &&& a.0.state() == b.0.state()
    &&& match (a.1, b.1) {
        (Ok(x), Ok(y)) => x.0 == y.0 && x.1 == y.1 && x.2@ == y.2@,
        (Err(x), Err(y)) => x == y,
        _ => false,
    }
}

/// Whether two outcomes are equal: the point or the refusal, and the state of the transcript.
pub open spec fn same_outcome<Digest, TS: FiatShamirTranscript<Digest>, R>(
    a: (TS, Result<Vec<EF>, BatchConstraintError<R>>),
    b: (TS, Result<Vec<EF>, BatchConstraintError<R>>),
) -> bool {
    &&& a.0.state() == b.0.state()
    &&& match (a.1, b.1) {
        (Ok(x), Ok(y)) => x@ == y@,
        (Err(x), Err(y)) => x == y,
        _ => false,
    }
}

/// Whether the evaluation of nodes is a function of what it is given.
pub open spec fn evaluates_nodes_as_function<TS, S: SubProtocols<TS>>(sub: &S) -> bool {
    forall|
        o: TraceOpenings,
        p: TraceOpenings,
        x: Vec<BabyBear>,
        y: Vec<BabyBear>,
        nodes: Vec<S::Node>,
        v: Vec<EF>,
        w: Vec<EF>,
    |
        {
            &&& same_openings(o, p)
            &&& x@ == y@
            &&& #[trigger] call_ensures(S::eval_nodes, (sub, &o, &x, &nodes), v)
            &&& #[trigger] call_ensures(S::eval_nodes, (sub, &p, &y, &nodes), w)
        } ==> v@ == w@
}

/// Whether the protocols that verification hands parts of a proof to are deterministic: what they
/// return is a function of what they are given.
pub open spec fn is_deterministic<Digest, TS: FiatShamirTranscript<Digest>, S: SubProtocols<TS>>(
    sub: &S,
) -> bool {
    &&& forall|l_skip: usize, total: u64, m: usize, n: usize| #[trigger]
        call_ensures(S::calculate_n_logup, (sub, l_skip, total), m) && #[trigger] call_ensures(
            S::calculate_n_logup,
            (sub, l_skip, total),
            n,
        ) ==> m == n
    &&& forall|
        proof: GkrProof<S::Layers>,
        state: TS::State,
        rounds: usize,
        g: (TS, Result<(EF, EF, Vec<EF>), GkrVerificationError<S::GkrRejection>>),
        h: (TS, Result<(EF, EF, Vec<EF>), GkrVerificationError<S::GkrRejection>>),
    | #[trigger]
        may_be_gkr::<Digest, TS, S>(sub, &proof, state, rounds, g) && #[trigger] may_be_gkr::<
            Digest,
            TS,
            S,
        >(sub, &proof, state, rounds, h) ==> same_gkr::<Digest, TS, S::GkrRejection>(g, h)
    &&& forall|l_skip: usize, x: EF, y: EF, v: EF, w: EF| #[trigger]
        may_be_eq_uni::<TS, S>(sub, l_skip, x, y, v) && #[trigger] may_be_eq_uni::<TS, S>(
            sub,
            l_skip,
            x,
            y,
            w,
        ) ==> v == w
    &&& forall|pows: Vec<BabyBear>, xi: Seq<EF>, z: EF, v: EF, w: EF| #[trigger]
        may_be_eq_sharp_uni::<TS, S>(sub, &pows, xi, z, v) && #[trigger] may_be_eq_sharp_uni::<
            TS,
            S,
        >(sub, &pows, xi, z, w) ==> v == w
    &&& evaluates_nodes_as_function::<TS, S>(sub)
}

/// Whether two inputs are equal but for the public values of AIRs that have no trace.
pub open spec fn same_for_traces<Digest, Node>(
    a: BatchInputs<Digest, Node>,
    b: BatchInputs<Digest, Node>,
) -> bool {
    &&& a.mvk == b.mvk
    &&& a.proof == b.proof
    &&& a.trace_id_to_air_id == b.trace_id_to_air_id
    &&& a.n_per_trace == b.n_per_trace
    &&& forall|t: int|
        0 <= t < a.trace_id_to_air_id@.len() ==> a.public_values@[(
        #[trigger] a.trace_id_to_air_id@[t]) as int]@ == b.public_values@[a.trace_id_to_air_id@[
            t
        ] as int]@
}

proof fn lemma_same_rows<Digest, Node>(
    a: BatchInputs<Digest, Node>,
    b: BatchInputs<Digest, Node>,
    n: int,
)
    requires
        same_for_traces(a, b),
    ensures
        a.interaction_rows(n) == b.interaction_rows(n),
        a.max_lift(n) == b.max_lift(n),
    decreases n,
{
    if n > 0 {
        lemma_same_rows(a, b, n - 1);
    }
}

proof fn lemma_same_state<Digest, TS: FiatShamirTranscript<Digest>, Node>(
    a: BatchInputs<Digest, Node>,
    b: BatchInputs<Digest, Node>,
    s: TS::State,
    n: int,
)
    requires
        same_for_traces(a, b),
    ensures
        common_observed::<Digest, TS, Node>(s, a, n) == common_observed::<Digest, TS, Node>(
            s,
            b,
            n,
        ),
        others_observed::<Digest, TS, Node>(s, a, n) == others_observed::<Digest, TS, Node>(
            s,
            b,
            n,
        ),
    decreases n,
{
    if n > 0 {
        lemma_same_state::<Digest, TS, Node>(a, b, s, n - 1);
    }
}

proof fn lemma_same_claim<Digest, Node>(
    a: BatchInputs<Digest, Node>,
    b: BatchInputs<Digest, Node>,
    w: Weights,
    mu: EF,
    nodes: Seq<Seq<EF>>,
)
    requires
        same_for_traces(a, b),
    ensures
        evaluated_claim(a, w, mu, nodes) == evaluated_claim(b, w, mu, nodes),
{
    let n = a.num_traces() as nat;
    let of_a = Seq::new(n, |t: int| trace_claims(a, w, nodes[t], t));
    let of_b = Seq::new(n, |t: int| trace_claims(b, w, nodes[t], t));
    assert forall|t: int| 0 <= t < n implies #[trigger] of_a[t] == of_b[t] by {
        lemma_same_rows(a, b, t);
        let num = a.interactions(t).len();
        assert(Seq::new(num, |i: int| interaction_weight(a, w.xi, w.n_logup, t, i)) =~= Seq::new(
            num,
            |i: int| interaction_weight(b, w.xi, w.n_logup, t, i),
        ));
    }
    assert(of_a =~= of_b);
}

proof fn lemma_same_nodes<Digest, TS, S: SubProtocols<TS>>(
    sub: &S,
    a: BatchInputs<Digest, S::Node>,
    b: BatchInputs<Digest, S::Node>,
    rs: Seq<EF>,
    t: int,
    v: Seq<EF>,
    w: Seq<EF>,
)
    requires
        evaluates_nodes_as_function::<TS, S>(sub),
        same_for_traces(a, b),
        0 <= t < a.num_traces(),
        may_be_nodes::<Digest, TS, S>(sub, a, rs, t, v),
        may_be_nodes::<Digest, TS, S>(sub, b, rs, t, w),
    ensures
        v == w,
{
    let air = a.trace_id_to_air_id@[t] as int;
    let nodes = a.air(t).symbolic_constraints.constraints.nodes;
    let (o, x) = choose|o: TraceOpenings, x: Vec<EF>|
        is_openings_of(o, a, rs, t) && x@ == v && #[trigger] call_ensures(
            S::eval_nodes,
            (sub, &o, &a.public_values@[air], &nodes),
            x,
        );
    let (p, y) = choose|p: TraceOpenings, y: Vec<EF>|
        is_openings_of(p, b, rs, t) && y@ == w && #[trigger] call_ensures(
            S::eval_nodes,
            (sub, &p, &b.public_values@[air], &nodes),
            y,
        );
    let main = o.partitioned_main@;
    assert forall|i: int| 0 <= i < main.len() implies (#[trigger] main[i])@
        == p.partitioned_main@[i]@ by {
        if i < main.len() - 1 {
            assert(p.partitioned_main@[i]@ == main[i]@);
        }
    }
    assert(same_openings(o, p));
}

proof fn lemma_same_end<Digest, TS: FiatShamirTranscript<Digest>, S: SubProtocols<TS>>(
    sub: &S,
    a: BatchInputs<Digest, S::Node>,
    b: BatchInputs<Digest, S::Node>,
    omega_skip_pows: &Vec<BabyBear>,
    beta: EF,
    n_logup: nat,
    s: Sumcheck<TS::State>,
    x: (TS, Result<Vec<EF>, BatchConstraintError<S::GkrRejection>>),
    y: (TS, Result<Vec<EF>, BatchConstraintError<S::GkrRejection>>),
)
    requires
        is_deterministic::<Digest, TS, S>(sub),
        same_for_traces(a, b),
        may_end_with::<Digest, TS, S>(sub, a, omega_skip_pows, beta, n_logup, s, x),
        may_end_with::<Digest, TS, S>(sub, b, omega_skip_pows, beta, n_logup, s, y),
    ensures
        same_outcome::<Digest, TS, S::GkrRejection>(x, y),
{
    if s.err is None {
        let n = a.num_traces();
        let (v, nodes) = choose|v: Weights, nodes: Seq<Seq<EF>>|
            {
                &&& v.lambda == s.lambda
                &&& v.beta == beta
                &&& v.xi == s.xi
                &&& v.rs == s.rs
                &&& v.n_logup == n_logup
                &&& #[trigger] ends_with::<Digest, TS, S>(
                    sub,
                    a,
                    omega_skip_pows,
                    v,
                    nodes,
                    s,
                    x,
                )
            };
        let (w, others) = choose|w: Weights, others: Seq<Seq<EF>>|
            {
                &&& w.lambda == s.lambda
                &&& w.beta == beta
                &&& w.xi == s.xi
                &&& w.rs == s.rs
                &&& w.n_logup == n_logup
                &&& #[trigger] ends_with::<Digest, TS, S>(
                    sub,
                    b,
                    omega_skip_pows,
                    w,
                    others,
                    s,
                    y,
                )
            };
        assert(v == w);
        assert forall|t: int| 0 <= t < n implies #[trigger] nodes[t] == others[t] by {
            assert(may_be_nodes::<Digest, TS, S>(sub, b, s.rs, t, others[t]));
            lemma_same_nodes::<Digest, TS, S>(sub, a, b, s.rs, t, nodes[t], others[t]);
        }
        assert(nodes =~= others);
        lemma_same_claim(a, b, v, s.mu, nodes);
        lemma_same_state::<Digest, TS, S::Node>(a, b, s.state, n);
        let common = common_observed::<Digest, TS, S::Node>(s.state, a, n);
        lemma_same_state::<Digest, TS, S::Node>(a, b, common, n);
    }
}

proof fn lemma_same_rest<Digest, TS: FiatShamirTranscript<Digest>, S: SubProtocols<TS>>(
    sub: &S,
    a: BatchInputs<Digest, S::Node>,
    b: BatchInputs<Digest, S::Node>,
    gkr_proof: &GkrProof<S::Layers>,
    omega_skip_pows: &Vec<BabyBear>,
    alpha: EF,
    beta: EF,
    state: TS::State,
    n_logup: usize,
    x: (TS, Result<Vec<EF>, BatchConstraintError<S::GkrRejection>>),
    y: (TS, Result<Vec<EF>, BatchConstraintError<S::GkrRejection>>),
)
    requires
        is_deterministic::<Digest, TS, S>(sub),
        same_for_traces(a, b),
        may_follow::<Digest, TS, S>(
            sub,
            a,
            gkr_proof,
            omega_skip_pows,
            alpha,
            beta,
            state,
            n_logup,
            x,
        ),
        may_follow::<Digest, TS, S>(
            sub,
            b,
            gkr_proof,
            omega_skip_pows,
            alpha,
            beta,
            state,
            n_logup,
            y,
        ),
    ensures
        same_outcome::<Digest, TS, S::GkrRejection>(x, y),
{
    let n = a.num_traces();
    let l_skip = a.mvk.params.l_skip;
    let rounds = (l_skip + n_logup) as usize;
    lemma_same_rows(a, b, n);
    let n_max = a.n_max();
    let n_global = if n_max >= n_logup {
        n_max
    } else {
        n_logup as nat
    };
    if a.interaction_rows(n) > 0 {
        let g = choose|
            g: (TS, Result<(EF, EF, Vec<EF>), GkrVerificationError<S::GkrRejection>>),
        |
            {
                &&& #[trigger] may_be_gkr::<Digest, TS, S>(sub, gkr_proof, state, rounds, g)
                &&& goes_on_after::<Digest, TS, S>(
                    sub,
                    a,
                    omega_skip_pows,
                    alpha,
                    beta,
                    n_logup,
                    g,
                    x,
                )
            };
        let h = choose|
            h: (TS, Result<(EF, EF, Vec<EF>), GkrVerificationError<S::GkrRejection>>),
        |
            {
                &&& #[trigger] may_be_gkr::<Digest, TS, S>(sub, gkr_proof, state, rounds, h)
                &&& goes_on_after::<Digest, TS, S>(
                    sub,
                    b,
                    omega_skip_pows,
                    alpha,
                    beta,
                    n_logup,
                    h,
                    y,
                )
            };
        assert(same_gkr::<Digest, TS, S::GkrRejection>(g, h));
        if g.1 is Ok {
            let (p, q, xi) = g.1->Ok_0;
            let s = sumcheck::<Digest, TS>(
                g.0.state(),
                a.proof,
                l_skip as nat,
                n_max,
                xi@,
                l_skip as nat + n_global,
                p,
                q,
                alpha,
            );
            lemma_same_end::<Digest, TS, S>(
                sub,
                a,
                b,
                omega_skip_pows,
                beta,
                n_logup as nat,
                s,
                x,
                y,
            );
        }
    } else if gkr_proof.q0_claim == e_one() {
        let s = sumcheck::<Digest, TS>(
            state,
            a.proof,
            l_skip as nat,
            n_max,
            Seq::empty(),
            l_skip as nat + n_global,
            e_zero(),
            alpha,
            alpha,
        );
        lemma_same_end::<Digest, TS, S>(
            sub,
            a,
            b,
            omega_skip_pows,
            beta,
            n_logup as nat,
            s,
            x,
            y,
        );
    }
}

/// The part of [`may_follow`] behind the verification of the sum over all interactions.
spec fn goes_on_after<Digest, TS: FiatShamirTranscript<Digest>, S: SubProtocols<TS>>(
    sub: &S,
    inputs: BatchInputs<Digest, S::Node>,
    omega_skip_pows: &Vec<BabyBear>,
    alpha: EF,
    beta: EF,
    n_logup: usize,
    gkr: (TS, Result<(EF, EF, Vec<EF>), GkrVerificationError<S::GkrRejection>>),
    out: (TS, Result<Vec<EF>, BatchConstraintError<S::GkrRejection>>),
) -> bool {
    match gkr.1 {
        Ok((p, q, xi)) => may_go_on_with::<Digest, TS, S>(
            sub,
            inputs,
            omega_skip_pows,
            alpha,
            beta,
            n_logup as nat,
            gkr.0.state(),
            p,
            q,
            xi@,
            out,
        ),
        Err(e) => out.0.state() == gkr.0.state() && out.1 == Err::<
            Vec<EF>,
            BatchConstraintError<S::GkrRejection>,
        >(BatchConstraintError::GkrVerificationFailed(e)),
    }
}

/// The public values of AIRs without a trace do not count: where the protocols that parts of the
/// proof are handed to are deterministic, two verifications from one state whose inputs differ in
/// such public values alone have the same result and leave the transcript in the same state.
pub proof fn absent_public_values_do_not_count<
    Digest,
    TS: FiatShamirTranscript<Digest>,
    S: SubProtocols<TS>,
>(
    sub: &S,
    a: BatchInputs<Digest, S::Node>,
    b: BatchInputs<Digest, S::Node>,
    gkr_proof: &GkrProof<S::Layers>,
    omega_skip_pows: &Vec<BabyBear>,
    s: TS::State,
    x: (TS, Result<Vec<EF>, BatchConstraintError<S::GkrRejection>>),
    y: (TS, Result<Vec<EF>, BatchConstraintError<S::GkrRejection>>),
)
    requires
        is_deterministic::<Digest, TS, S>(sub),
        same_for_traces(a, b),
        may_return::<Digest, TS, S>(sub, a, gkr_proof, omega_skip_pows, s, x),
        may_return::<Digest, TS, S>(sub, b, gkr_proof, omega_skip_pows, s, y),
    ensures
        same_outcome::<Digest, TS, S::GkrRejection>(x, y),
{
    let l_skip = a.mvk.params.l_skip;
    let bits = a.mvk.params.logup.pow_bits as nat;
    let s1 = witness_checked::<Digest, TS>(s, bits, gkr_proof.logup_pow_witness);
    if witness_holds::<Digest, TS>(s, bits, gkr_proof.logup_pow_witness) {
        let alpha = ext_challenge::<Digest, TS>(s1);
        let s2 = ext_sampled::<Digest, TS>(s1);
        let beta = ext_challenge::<Digest, TS>(s2);
        let s3 = ext_sampled::<Digest, TS>(s2);
        lemma_same_rows(a, b, a.num_traces());
        let total = a.interaction_rows(a.num_traces()) as u64;
        let m = choose|m: usize| #[trigger]
            call_ensures(S::calculate_n_logup, (sub, l_skip, total), m) && may_follow::<
                Digest,
                TS,
                S,
            >(sub, a, gkr_proof, omega_skip_pows, alpha, beta, s3, m, x);
        let n = choose|n: usize| #[trigger]
            call_ensures(S::calculate_n_logup, (sub, l_skip, total), n) && may_follow::<
                Digest,
                TS,
                S,
            >(sub, b, gkr_proof, omega_skip_pows, alpha, beta, s3, n, y);
        assert(m == n);
        lemma_same_rest::<Digest, TS, S>(
            sub,
            a,
            b,
            gkr_proof,
            omega_skip_pows,
            alpha,
            beta,
            s3,
            m,
            x,
            y,
        );
    }
}

/// Whether two inputs differ in the public values of AIRs without a trace alone: the public values
/// of each trace, which are those at the index of its AIR, are equal.
pub open spec fn differ_in_absent_values<Digest, Node>(
    a: BatchInputs<Digest, Node>,
    b: BatchInputs<Digest, Node>,
) -> bool {
    &&& a.mvk == b.mvk
    &&& a.proof == b.proof
    &&& a.trace_id_to_air_id == b.trace_id_to_air_id
    &&& a.n_per_trace == b.n_per_trace
    &&& forall|t: int|
        0 <= t < a.trace_id_to_air_id@.len() ==> a.public_values@[(
        #[trigger] a.trace_id_to_air_id@[t]) as int] == b.public_values@[a.trace_id_to_air_id@[
            t
        ] as int]
}

proof fn lemma_end_carries_over<
    Digest,
    TS: FiatShamirTranscript<Digest>,
    S: SubProtocols<TS>,
>(
    sub: &S,
    a: BatchInputs<Digest, S::Node>,
    b: BatchInputs<Digest, S::Node>,
    omega_skip_pows: &Vec<BabyBear>,
    beta: EF,
    n_logup: nat,
    s: Sumcheck<TS::State>,
    out: (TS, Result<Vec<EF>, BatchConstraintError<S::GkrRejection>>),
)
    requires
        differ_in_absent_values(a, b),
        may_end_with::<Digest, TS, S>(sub, a, omega_skip_pows, beta, n_logup, s, out),
    ensures
        may_end_with::<Digest, TS, S>(sub, b, omega_skip_pows, beta, n_logup, s, out),
{
    if s.err is None {
        let n = a.num_traces();
        let (w, nodes) = choose|w: Weights, nodes: Seq<Seq<EF>>|
            {
                &&& w.lambda == s.lambda
                &&& w.beta == beta
                &&& w.xi == s.xi
                &&& w.rs == s.rs
                &&& w.n_logup == n_logup
                &&& #[trigger] ends_with::<Digest, TS, S>(
                    sub,
                    a,
                    omega_skip_pows,
                    w,
                    nodes,
                    s,
                    out,
                )
            };
        assert forall|t: int| 0 <= t < n implies may_be_nodes::<Digest, TS, S>(
            sub,
            b,
            s.rs,
            t,
            #[trigger] nodes[t],
        ) by {
            assert(may_be_nodes::<Digest, TS, S>(sub, a, s.rs, t, nodes[t]));
            let values = a.public_values@[a.trace_id_to_air_id@[t] as int];
            assert(values == b.public_values@[b.trace_id_to_air_id@[t] as int]);
            let (o, v) = choose|o: TraceOpenings, v: Vec<EF>|
                is_openings_of(o, a, s.rs, t) && v@ == nodes[t] && #[trigger] call_ensures(
                    S::eval_nodes,
                    (sub, &o, &values, &a.air(t).symbolic_constraints.constraints.nodes),
                    v,
                );
            assert(is_openings_of(o, b, s.rs, t));
        }
        lemma_same_claim(a, b, w, s.mu, nodes);
        lemma_same_state::<Digest, TS, S::Node>(a, b, s.state, n);
        let common = common_observed::<Digest, TS, S::Node>(s.state, a, n);
        lemma_same_state::<Digest, TS, S::Node>(a, b, common, n);
        assert(ends_with::<Digest, TS, S>(sub, b, omega_skip_pows, w, nodes, s, out));
    }
}

proof fn lemma_rest_carries_over<
    Digest,
    TS: FiatShamirTranscript<Digest>,
    S: SubProtocols<TS>,
>(
    sub: &S,
    a: BatchInputs<Digest, S::Node>,
    b: BatchInputs<Digest, S::Node>,
    gkr_proof: &GkrProof<S::Layers>,
    omega_skip_pows: &Vec<BabyBear>,
    alpha: EF,
    beta: EF,
    state: TS::State,
    n_logup: usize,
    out: (TS, Result<Vec<EF>, BatchConstraintError<S::GkrRejection>>),
)
    requires
        differ_in_absent_values(a, b),
        may_follow::<Digest, TS, S>(
            sub,
            a,
            gkr_proof,
            omega_skip_pows,
            alpha,
            beta,
            state,
            n_logup,
            out,
        ),
    ensures
        may_follow::<Digest, TS, S>(
            sub,
            b,
            gkr_proof,
            omega_skip_pows,
            alpha,
            beta,
            state,
            n_logup,
            out,
        ),
{
    let n = a.num_traces();
    let l_skip = a.mvk.params.l_skip;
    let rounds = (l_skip + n_logup) as usize;
    lemma_same_rows(a, b, n);
    let n_max = a.n_max();
    let n_global = if n_max >= n_logup {
        n_max
    } else {
        n_logup as nat
    };
    if a.interaction_rows(n) > 0 {
        let g = choose|
            g: (TS, Result<(EF, EF, Vec<EF>), GkrVerificationError<S::GkrRejection>>),
        |
            {
                &&& #[trigger] may_be_gkr::<Digest, TS, S>(sub, gkr_proof, state, rounds, g)
                &&& goes_on_after::<Digest, TS, S>(
                    sub,
                    a,
                    omega_skip_pows,
                    alpha,
                    beta,
                    n_logup,
                    g,
                    out,
                )
            };
        if g.1 is Ok {
            let (p, q, xi) = g.1->Ok_0;
            let s = sumcheck::<Digest, TS>(
                g.0.state(),
                a.proof,
                l_skip as nat,
                n_max,
                xi@,
                l_skip as nat + n_global,
                p,
                q,
                alpha,
            );
            lemma_end_carries_over::<Digest, TS, S>(
                sub,
                a,
                b,
                omega_skip_pows,
                beta,
                n_logup as nat,
                s,
                out,
            );
        }
        assert(goes_on_after::<Digest, TS, S>(
            sub,
            b,
            omega_skip_pows,
            alpha,
            beta,
            n_logup,
            g,
            out,
        ));
    } else if gkr_proof.q0_claim == e_one() {
        let s = sumcheck::<Digest, TS>(
            state,
            a.proof,
            l_skip as nat,
            n_max,
            Seq::empty(),
            l_skip as nat + n_global,
            e_zero(),
            alpha,
            alpha,
        );
        lemma_end_carries_over::<Digest, TS, S>(
            sub,
            a,
            b,
            omega_skip_pows,
            beta,
            n_logup as nat,
            s,
            out,
        );
    }
}

proof fn lemma_outcome_carries_over<
    Digest,
    TS: FiatShamirTranscript<Digest>,
    S: SubProtocols<TS>,
>(
    sub: &S,
    a: BatchInputs<Digest, S::Node>,
    b: BatchInputs<Digest, S::Node>,
    gkr_proof: &GkrProof<S::Layers>,
    omega_skip_pows: &Vec<BabyBear>,
    s: TS::State,
    out: (TS, Result<Vec<EF>, BatchConstraintError<S::GkrRejection>>),
)
    requires
        differ_in_absent_values(a, b),
        may_return::<Digest, TS, S>(sub, a, gkr_proof, omega_skip_pows, s, out),
    ensures
        may_return::<Digest, TS, S>(sub, b, gkr_proof, omega_skip_pows, s, out),
{
    let l_skip = a.mvk.params.l_skip;
    let bits = a.mvk.params.logup.pow_bits as nat;
    let s1 = witness_checked::<Digest, TS>(s, bits, gkr_proof.logup_pow_witness);
    if witness_holds::<Digest, TS>(s, bits, gkr_proof.logup_pow_witness) {
        let alpha = ext_challenge::<Digest, TS>(s1);
        let s2 = ext_sampled::<Digest, TS>(s1);
        let beta = ext_challenge::<Digest, TS>(s2);
        let s3 = ext_sampled::<Digest, TS>(s2);
        lemma_same_rows(a, b, a.num_traces());
        let total = a.interaction_rows(a.num_traces()) as u64;
        let n = choose|n: usize| #[trigger]
            call_ensures(S::calculate_n_logup, (sub, l_skip, total), n) && may_follow::<
                Digest,
                TS,
                S,
            >(sub, a, gkr_proof, omega_skip_pows, alpha, beta, s3, n, out);
        lemma_rest_carries_over::<Digest, TS, S>(
            sub,
            a,
            b,
            gkr_proof,
            omega_skip_pows,
            alpha,
            beta,
            s3,
            n,
            out,
        );
    }
}

/// The public values of AIRs without a trace have no part in the verification: whatever the
/// sub-protocols are, it has the same possible outcomes for two inputs that differ in such public
/// values alone.
pub proof fn absent_public_values_change_no_outcome<
    Digest,
    TS: FiatShamirTranscript<Digest>,
    S: SubProtocols<TS>,
>(
    sub: &S,
    a: BatchInputs<Digest, S::Node>,
    b: BatchInputs<Digest, S::Node>,
    gkr_proof: &GkrProof<S::Layers>,
    omega_skip_pows: &Vec<BabyBear>,
    s: TS::State,
    out: (TS, Result<Vec<EF>, BatchConstraintError<S::GkrRejection>>),
)
    requires
        differ_in_absent_values(a, b),
    ensures
        may_return::<Digest, TS, S>(sub, a, gkr_proof, omega_skip_pows, s, out)
            <==> may_return::<Digest, TS, S>(sub, b, gkr_proof, omega_skip_pows, s, out),
{
    if may_return::<Digest, TS, S>(sub, a, gkr_proof, omega_skip_pows, s, out) {
        lemma_outcome_carries_over::<Digest, TS, S>(
            sub,
            a,
            b,
            gkr_proof,
            omega_skip_pows,
            s,
            out,
        );
    }
    if may_return::<Digest, TS, S>(sub, b, gkr_proof, omega_skip_pows, s, out) {
        lemma_outcome_carries_over::<Digest, TS, S>(
            sub,
            b,
            a,
            gkr_proof,
            omega_skip_pows,
            s,
            out,
        );
    }
}

} // verus!
