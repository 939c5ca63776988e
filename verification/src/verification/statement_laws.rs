//! What is proved is bound by the transcript before any challenge is drawn.

use vstd::prelude::*;

use crate::algebra::lemma_bb_value;
use crate::field::{bb, BabyBear, P};
use crate::keys::{MultiStarkVerifyingKey, MultiStarkVerifyingKey0};
use crate::proofs::Proof;
use crate::transcript::FiatShamirTranscript;
use crate::verification::conversation::{
    commits, keeps_log, lemma_log, lemma_replay_concat, lemma_replay_push, replayed, values,
    Event,
};
use crate::verification::proof_shape::{air_vdata_shape, vdata_shape};
use crate::verification::protocol::{air_observed, all_committed, all_observed, preamble};
use crate::verification::trace_order::present;

verus! {

/// Public values are observed all and in order: the state after them is the one that the first,
/// the second, and so on up to the last lead to, each observed after the one before.
pub proof fn public_values_are_observed_in_order<D, TS: FiatShamirTranscript<D>>(
    s: TS::State,
    v: Seq<BabyBear>,
)
    ensures
        all_observed::<D, TS>(s, v) == replayed::<D, TS>(s, values(v)),
    decreases v.len(),
{
    if v.len() == 0 {
        assert(values::<D>(v) =~= Seq::empty());
    } else {
        let before = v.drop_last();
        public_values_are_observed_in_order::<D, TS>(s, before);
        assert(values::<D>(v) =~= values::<D>(before).push(Event::Value(v.last())));
        lemma_replay_push::<D, TS>(s, values(before), Event::Value(v.last()));
    }
}

/// Commitments are observed all and in order.
pub proof fn commitments_are_observed_in_order<D, TS: FiatShamirTranscript<D>>(
    s: TS::State,
    d: Seq<D>,
)
    ensures
        all_committed::<D, TS>(s, d) == replayed::<D, TS>(s, commits(d)),
    decreases d.len(),
{
    if d.len() == 0 {
        assert(commits(d) =~= Seq::empty());
    } else {
        let before = d.drop_last();
        commitments_are_observed_in_order::<D, TS>(s, before);
        assert(commits(d) =~= commits(before).push(Event::Commit(d.last())));
        lemma_replay_push::<D, TS>(s, commits(before), Event::Commit(d.last()));
    }
}

/// What is told of an AIR: unless it is required, whether it has a trace; of a trace its
/// preprocessed commitment or, without one, its log height, and its cached commitments; and its
/// public values.
pub open spec fn told_of<D, N, L, R>(
    mvk: &MultiStarkVerifyingKey0<D, N>,
    proof: &Proof<D, L, R>,
    a: int,
) -> Seq<Event<D>> {
    let vk = mvk.per_air@[a];
    let flag: Seq<Event<D>> = if vk.is_required {
        Seq::empty()
    } else {
        seq![Event::Value(bb(if proof.trace_vdata@[a] is Some { 1 } else { 0 }))]
    };
    let trace: Seq<Event<D>> = match proof.trace_vdata@[a] {
        None => Seq::empty(),
        Some(v) => seq![
            match vk.preprocessed_data {
                Some(p) => Event::Commit(p.commit),
                None => Event::Value(bb(v.log_height as int)),
            },
        ] + commits(v.cached_commitments@),
    };
    flag + trace + values(proof.public_values@[a]@)
}

/// What is told of the first `n` AIRs.
pub open spec fn told_of_first<D, N, L, R>(
    mvk: &MultiStarkVerifyingKey0<D, N>,
    proof: &Proof<D, L, R>,
    n: nat,
) -> Seq<Event<D>>
    decreases n,
{
    if n == 0 {
        Seq::empty()
    } else {
        told_of_first(mvk, proof, (n - 1) as nat) + told_of(mvk, proof, n - 1)
    }
}

/// The statement that a proof is of, as far as the first `n` AIRs go: the hash of the key, the
/// common commitment, and what is told of each AIR.
pub open spec fn statement<D, N, L, R>(
    mvk: &MultiStarkVerifyingKey<D, N>,
    proof: &Proof<D, L, R>,
    n: nat,
) -> Seq<Event<D>> {
    seq![Event::Commit(mvk.pre_hash), Event::Commit(proof.common_main_commit)] + told_of_first(
        &mvk.inner,
        proof,
        n,
    )
}

proof fn lemma_air<D, TS: FiatShamirTranscript<D>, N, L, R>(
    s: TS::State,
    mvk: &MultiStarkVerifyingKey0<D, N>,
    proof: &Proof<D, L, R>,
    a: int,
)
    requires
        air_observed::<D, TS, N, L, R>(s, mvk, proof, a).1,
    ensures
        air_observed::<D, TS, N, L, R>(s, mvk, proof, a).0 == replayed::<D, TS>(
            s,
            told_of(mvk, proof, a),
        ),
{
    let vk = mvk.per_air@[a];
    let none = Seq::<Event<D>>::empty();
    let public = values::<D>(proof.public_values@[a]@);
    let present = Event::<D>::Value(bb(if proof.trace_vdata@[a] is Some { 1 } else { 0 }));
    let flag = if vk.is_required {
        none
    } else {
        none.push(present)
    };
    lemma_replay_push::<D, TS>(s, none, present);
    let s1 = replayed::<D, TS>(s, flag);
    match proof.trace_vdata@[a] {
        None => {
            public_values_are_observed_in_order::<D, TS>(s1, proof.public_values@[a]@);
            lemma_replay_concat::<D, TS>(s, flag, public);
            assert(told_of(mvk, proof, a) =~= flag + public);
        },
        Some(v) => {
            let first = match vk.preprocessed_data {
                Some(p) => Event::<D>::Commit(p.commit),
                None => Event::<D>::Value(bb(v.log_height as int)),
            };
            let cached = commits(v.cached_commitments@);
            lemma_replay_push::<D, TS>(s, flag, first);
            let s2 = replayed::<D, TS>(s, flag.push(first));
            commitments_are_observed_in_order::<D, TS>(s2, v.cached_commitments@);
            lemma_replay_concat::<D, TS>(s, flag.push(first), cached);
            let s3 = replayed::<D, TS>(s, flag.push(first) + cached);
            public_values_are_observed_in_order::<D, TS>(s3, proof.public_values@[a]@);
            lemma_replay_concat::<D, TS>(s, flag.push(first) + cached, public);
            assert(told_of(mvk, proof, a) =~= flag.push(first) + cached + public);
        },
    }
}

/// The whole statement is observed, in order, and nothing else is, before any challenge is drawn.
pub proof fn statement_is_observed<D, TS: FiatShamirTranscript<D>, N, L, R>(
    s: TS::State,
    mvk: &MultiStarkVerifyingKey<D, N>,
    proof: &Proof<D, L, R>,
    n: nat,
)
    requires
        preamble::<D, TS, N, L, R>(s, mvk, proof, n).1,
    ensures
        preamble::<D, TS, N, L, R>(s, mvk, proof, n).0 == replayed::<D, TS>(
            s,
            statement(mvk, proof, n),
        ),
    decreases n,
{
    let head = seq![Event::Commit(mvk.pre_hash), Event::Commit(proof.common_main_commit)];
    if n == 0 {
        let none = Seq::<Event<D>>::empty();
        let (e0, e1) = (Event::Commit(mvk.pre_hash), Event::Commit(proof.common_main_commit));
        lemma_replay_push::<D, TS>(s, none, e0);
        lemma_replay_push::<D, TS>(s, none.push(e0), e1);
        assert(statement(mvk, proof, n) =~= none.push(e0).push(e1));
    } else {
        let prev = preamble::<D, TS, N, L, R>(s, mvk, proof, (n - 1) as nat);
        statement_is_observed::<D, TS, N, L, R>(s, mvk, proof, (n - 1) as nat);
        lemma_air::<D, TS, N, L, R>(prev.0, &mvk.inner, proof, n - 1);
        let before = statement(mvk, proof, (n - 1) as nat);
        let told = told_of(&mvk.inner, proof, n - 1);
        lemma_replay_concat::<D, TS>(s, before, told);
        assert(statement(mvk, proof, n) =~= before + told);
    }
}

/// Whether two proofs tell the same of AIR `a`: both or neither have a trace, with the same cached
/// commitments and, where there is no preprocessed trace to fix it, the same height, and the
/// public values are the same.
pub open spec fn same_told<D, N, L, R>(
    mvk: &MultiStarkVerifyingKey0<D, N>,
    x: &Proof<D, L, R>,
    y: &Proof<D, L, R>,
    a: int,
) -> bool {
    &&& match (x.trace_vdata@[a], y.trace_vdata@[a]) {
        (Some(v), Some(w)) => {
            &&& v.cached_commitments@ == w.cached_commitments@
            &&& mvk.per_air@[a].preprocessed_data is None ==> v.log_height == w.log_height
        },
        (None, None) => true,
        _ => false,
    }
    &&& x.public_values@[a]@ == y.public_values@[a]@
}

/// What is told of an AIR can be read off the events, whatever comes behind them.
proof fn lemma_told_once<D, N, L, R>(
    mvk: &MultiStarkVerifyingKey0<D, N>,
    x: &Proof<D, L, R>,
    y: &Proof<D, L, R>,
    a: int,
    p: Seq<Event<D>>,
    q: Seq<Event<D>>,
)
    requires
        air_vdata_shape(mvk, x.trace_vdata@, a),
        air_vdata_shape(mvk, y.trace_vdata@, a),
        mvk.params.num_vars() < P,
        x.public_values@[a]@.len() == y.public_values@[a]@.len(),
        told_of(mvk, x, a) + p == told_of(mvk, y, a) + q,
    ensures
        same_told(mvk, x, y, a),
        p == q,
{
    let vk = mvk.per_air@[a];
    let (s, t) = (told_of(mvk, x, a), told_of(mvk, y, a));
    let (sp, tq) = (s + p, t + q);
    let f: int = if vk.is_required {
        0
    } else {
        1
    };
    assert(bb(0).value == 0 && bb(1).value == 1);
    if !vk.is_required {
        assert(sp[0] == tq[0]);
        assert(sp[0] == s[0] && tq[0] == t[0]);
    }
    assert(x.trace_vdata@[a] is Some == y.trace_vdata@[a] is Some);
    assert(s.len() == t.len());
    assert(s =~= sp.take(s.len() as int));
    assert(t =~= tq.take(t.len() as int));
    assert(p =~= sp.skip(s.len() as int));
    assert(q =~= tq.skip(t.len() as int));
    let m = s.len() - x.public_values@[a]@.len();
    let (u, w) = (x.public_values@[a]@, y.public_values@[a]@);
    assert forall|i: int| 0 <= i < u.len() implies #[trigger] u[i] == w[i] by {
        assert(s[m + i] == Event::<D>::Value(u[i]));
        assert(t[m + i] == Event::<D>::Value(w[i]));
    }
    assert(u =~= w);
    if x.trace_vdata@[a] is Some {
        let (v1, v2) = (x.trace_vdata@[a]->0, y.trace_vdata@[a]->0);
        let (c, d) = (v1.cached_commitments@, v2.cached_commitments@);
        assert forall|i: int| 0 <= i < c.len() implies #[trigger] c[i] == d[i] by {
            assert(s[f + 1 + i] == Event::Commit(c[i]));
            assert(t[f + 1 + i] == Event::Commit(d[i]));
        }
        assert(c =~= d);
        if vk.preprocessed_data is None {
            assert(s[f] == Event::<D>::Value(bb(v1.log_height as int)));
            assert(t[f] == Event::<D>::Value(bb(v2.log_height as int)));
            lemma_bb_value(v1.log_height as int);
            lemma_bb_value(v2.log_height as int);
            vstd::arithmetic::div_mod::lemma_small_mod(v1.log_height as nat, P as nat);
            vstd::arithmetic::div_mod::lemma_small_mod(v2.log_height as nat, P as nat);
        }
    }
}

proof fn lemma_told_first<D, N, L, R>(
    mvk: &MultiStarkVerifyingKey0<D, N>,
    x: &Proof<D, L, R>,
    y: &Proof<D, L, R>,
    n: nat,
    p: Seq<Event<D>>,
    q: Seq<Event<D>>,
)
    requires
        vdata_shape(mvk, x.trace_vdata@),
        vdata_shape(mvk, y.trace_vdata@),
        n <= mvk.per_air@.len(),
        mvk.params.num_vars() < P,
        forall|a: int|
            0 <= a < n ==> (#[trigger] x.public_values@[a])@.len() == y.public_values@[a]@.len(),
        told_of_first(mvk, x, n) + p == told_of_first(mvk, y, n) + q,
    ensures
        forall|a: int| 0 <= a < n ==> #[trigger] same_told(mvk, x, y, a),
        p == q,
    decreases n,
{
    if n == 0 {
        assert(told_of_first(mvk, x, n) + p =~= p);
        assert(told_of_first(mvk, y, n) + q =~= q);
    } else {
        let m = (n - 1) as nat;
        let (s, t) = (told_of(mvk, x, n - 1), told_of(mvk, y, n - 1));
        assert(told_of_first(mvk, x, n) + p =~= told_of_first(mvk, x, m) + (s + p));
        assert(told_of_first(mvk, y, n) + q =~= told_of_first(mvk, y, m) + (t + q));
        lemma_told_first(mvk, x, y, m, s + p, t + q);
        assert(air_vdata_shape(mvk, x.trace_vdata@, n - 1));
        assert(air_vdata_shape(mvk, y.trace_vdata@, n - 1));
        assert(x.public_values@[n - 1]@.len() == y.public_values@[n - 1]@.len());
        lemma_told_once(mvk, x, y, n - 1, p, q);
    }
}

/// The statement is bound: with a transcript that forgets nothing, two proofs under one key that
/// leave the same state behind before the first challenge have the same commitments, traces for
/// the same AIRs and of the same heights, and the same public values. So proofs that differ in any
/// of these get their challenges from different states.
pub proof fn statement_is_bound<D, TS: FiatShamirTranscript<D>, N, L, R>(
    log: spec_fn(TS::State) -> Seq<Event<D>>,
    s: TS::State,
    mvk: &MultiStarkVerifyingKey<D, N>,
    x: &Proof<D, L, R>,
    y: &Proof<D, L, R>,
)
    requires
        keeps_log::<D, TS>(log),
        vdata_shape(&mvk.inner, x.trace_vdata@),
        vdata_shape(&mvk.inner, y.trace_vdata@),
        mvk.inner.params.num_vars() < P,
        forall|a: int|
            0 <= a < mvk.inner.per_air@.len() ==> (#[trigger] x.public_values@[a])@.len()
                == y.public_values@[a]@.len(),
        ({
            let n = mvk.inner.per_air@.len();
            let p = preamble::<D, TS, N, L, R>(s, mvk, x, n);
            let q = preamble::<D, TS, N, L, R>(s, mvk, y, n);
            p.1 && q.1 && p.0 == q.0
        }),
    ensures
        x.common_main_commit == y.common_main_commit,
        forall|a: int|
            0 <= a < mvk.inner.per_air@.len() ==> #[trigger] same_told(&mvk.inner, x, y, a),
{
    let n = mvk.inner.per_air@.len();
    statement_is_observed::<D, TS, N, L, R>(s, mvk, x, n);
    statement_is_observed::<D, TS, N, L, R>(s, mvk, y, n);
    let (a, b) = (statement(mvk, x, n), statement(mvk, y, n));
    lemma_log::<D, TS>(log, s, a);
    lemma_log::<D, TS>(log, s, b);
    let base = log(s);
    assert(a =~= (base + a).skip(base.len() as int));
    assert(b =~= (base + b).skip(base.len() as int));
    assert(a[1] == Event::Commit(x.common_main_commit));
    assert(b[1] == Event::Commit(y.common_main_commit));
    let (p, q) = (told_of_first(&mvk.inner, x, n), told_of_first(&mvk.inner, y, n));
    assert(p =~= a.skip(2));
    assert(q =~= b.skip(2));
    let none = Seq::<Event<D>>::empty();
    assert(p + none =~= p);
    assert(q + none =~= q);
    lemma_told_first(&mvk.inner, x, y, n, none, none);
}

} // verus!
