//! Transcripts as lists of what was observed and drawn.

use vstd::prelude::*;

use crate::field::{BabyBear, EF};
use crate::transcript::{
    ext_challenge, ext_observed, ext_sampled, exts_observed, witness_checked, FiatShamirTranscript,
};

verus! {

/// What happens to a transcript.
pub enum Event<D> {
    /// A field element is observed.
    Value(BabyBear),
    /// A digest is observed.
    Commit(D),
    /// A challenge is drawn.
    Draw,
}

/// The state after one event.
pub open spec fn after<D, TS: FiatShamirTranscript<D>>(s: TS::State, event: Event<D>) -> TS::State {
    match event {
        Event::Value(v) => TS::observed(s, v),
        Event::Commit(d) => TS::committed(s, d),
        Event::Draw => TS::sampled(s),
    }
}

/// The state after all events, in order.
pub open spec fn replayed<D, TS: FiatShamirTranscript<D>>(
    s: TS::State,
    events: Seq<Event<D>>,
) -> TS::State
    decreases events.len(),
{
    if events.len() == 0 {
        s
    } else {
        after::<D, TS>(replayed::<D, TS>(s, events.drop_last()), events.last())
    }
}

/// Whether `log` reads the list of all events off the state: a transcript that forgets nothing.
pub open spec fn keeps_log<D, TS: FiatShamirTranscript<D>>(
    log: spec_fn(TS::State) -> Seq<Event<D>>,
) -> bool {
    forall|s: TS::State, event: Event<D>|
        log(#[trigger] after::<D, TS>(s, event)) == log(s).push(event)
}

/// Field elements are observed.
pub open spec fn values<D>(v: Seq<BabyBear>) -> Seq<Event<D>> {
    Seq::new(v.len(), |i: int| Event::Value(v[i]))
}

/// Extension field elements are observed, coefficient by coefficient.
pub open spec fn ext_values<D>(v: Seq<EF>) -> Seq<Event<D>> {
    Seq::new(4 * v.len(), |i: int| Event::Value(v[i / 4].basis()[i % 4]))
}

/// Digests are observed.
pub open spec fn commits<D>(d: Seq<D>) -> Seq<Event<D>> {
    Seq::new(d.len(), |i: int| Event::Commit(d[i]))
}

/// `n` challenges are drawn.
pub open spec fn draws<D>(n: nat) -> Seq<Event<D>> {
    Seq::new(n, |i: int| Event::Draw)
}

/// A proof of work is observed and a challenge drawn to check it, unless no work is asked for.
pub open spec fn work<D>(bits: nat, witness: BabyBear) -> Seq<Event<D>> {
    if bits == 0 {
        Seq::empty()
    } else {
        seq![Event::Value(witness), Event::Draw]
    }
}

pub proof fn lemma_replay_push<D, TS: FiatShamirTranscript<D>>(
    s: TS::State,
    a: Seq<Event<D>>,
    e: Event<D>,
)
    ensures
        replayed::<D, TS>(s, a.push(e)) == after::<D, TS>(replayed::<D, TS>(s, a), e),
{
    assert(a.push(e).drop_last() =~= a);
}

pub proof fn lemma_replay_concat<D, TS: FiatShamirTranscript<D>>(
    s: TS::State,
    a: Seq<Event<D>>,
    b: Seq<Event<D>>,
)
    ensures
        replayed::<D, TS>(s, a + b) == replayed::<D, TS>(replayed::<D, TS>(s, a), b),
    decreases b.len(),
{
    if b.len() == 0 {
        assert(a + b =~= a);
    } else {
        assert((a + b).drop_last() =~= a + b.drop_last());
        lemma_replay_concat::<D, TS>(s, a, b.drop_last());
    }
}

/// A transcript that forgets nothing has the events behind what it had before.
pub proof fn lemma_log<D, TS: FiatShamirTranscript<D>>(
    log: spec_fn(TS::State) -> Seq<Event<D>>,
    s: TS::State,
    events: Seq<Event<D>>,
)
    requires
        keeps_log::<D, TS>(log),
    ensures
        log(replayed::<D, TS>(s, events)) == log(s) + events,
    decreases events.len(),
{
    if events.len() == 0 {
        assert(log(s) + events =~= log(s));
    } else {
        lemma_log::<D, TS>(log, s, events.drop_last());
        let before = replayed::<D, TS>(s, events.drop_last());
        assert(log(after::<D, TS>(before, events.last())) == log(before).push(events.last()));
        assert((log(s) + events.drop_last()).push(events.last()) =~= log(s) + events);
    }
}

pub proof fn lemma_ext_observed<D, TS: FiatShamirTranscript<D>>(s: TS::State, v: EF)
    ensures
        ext_observed::<D, TS>(s, v) == replayed::<D, TS>(s, ext_values(seq![v])),
{
    let e = ext_values::<D>(seq![v]);
    let b = v.basis();
    let (e0, e1, e2, e3) = (
        Event::<D>::Value(b[0]),
        Event::<D>::Value(b[1]),
        Event::<D>::Value(b[2]),
        Event::<D>::Value(b[3]),
    );
    let none = Seq::<Event<D>>::empty();
    assert(e =~= none.push(e0).push(e1).push(e2).push(e3));
    lemma_replay_push::<D, TS>(s, none, e0);
    lemma_replay_push::<D, TS>(s, none.push(e0), e1);
    lemma_replay_push::<D, TS>(s, none.push(e0).push(e1), e2);
    lemma_replay_push::<D, TS>(s, none.push(e0).push(e1).push(e2), e3);
}

pub proof fn lemma_exts_observed<D, TS: FiatShamirTranscript<D>>(s: TS::State, v: Seq<EF>)
    ensures
        exts_observed::<D, TS>(s, v) == replayed::<D, TS>(s, ext_values(v)),
    decreases v.len(),
{
    if v.len() == 0 {
        assert(ext_values::<D>(v) =~= Seq::empty());
    } else {
        let before = v.drop_last();
        lemma_exts_observed::<D, TS>(s, before);
        lemma_ext_observed::<D, TS>(exts_observed::<D, TS>(s, before), v.last());
        lemma_replay_concat::<D, TS>(s, ext_values(before), ext_values(seq![v.last()]));
        assert(ext_values::<D>(before) + ext_values::<D>(seq![v.last()]) =~= ext_values::<D>(v));
    }
}

pub proof fn lemma_ext_sampled<D, TS: FiatShamirTranscript<D>>(s: TS::State)
    ensures
        ext_sampled::<D, TS>(s) == replayed::<D, TS>(s, draws(4)),
{
    let none = Seq::<Event<D>>::empty();
    let d = Event::<D>::Draw;
    assert(draws::<D>(4) =~= none.push(d).push(d).push(d).push(d));
    lemma_replay_push::<D, TS>(s, none, d);
    lemma_replay_push::<D, TS>(s, none.push(d), d);
    lemma_replay_push::<D, TS>(s, none.push(d).push(d), d);
    lemma_replay_push::<D, TS>(s, none.push(d).push(d).push(d), d);
}

pub proof fn lemma_witness_checked<D, TS: FiatShamirTranscript<D>>(
    s: TS::State,
    bits: nat,
    witness: BabyBear,
)
    ensures
        witness_checked::<D, TS>(s, bits, witness) == replayed::<D, TS>(s, work(bits, witness)),
{
    if bits > 0 {
        let none = Seq::<Event<D>>::empty();
        let e = Event::<D>::Value(witness);
        assert(work::<D>(bits, witness) =~= none.push(e).push(Event::Draw));
        lemma_replay_push::<D, TS>(s, none, e);
        lemma_replay_push::<D, TS>(s, none.push(e), Event::Draw);
    }
}

/// A challenge in the extension field is four challenges: each of its coefficients is drawn, one
/// after the other.
pub proof fn challenge_is_drawn_in_four<D, TS: FiatShamirTranscript<D>>(s: TS::State, i: int)
    requires
        0 <= i < 4,
    ensures
        ext_challenge::<D, TS>(s).basis()[i] == TS::challenge(
            replayed::<D, TS>(s, draws(i as nat)),
        ),
{
    let none = Seq::<Event<D>>::empty();
    let d = Event::<D>::Draw;
    assert(draws::<D>(0) =~= none);
    assert(draws::<D>(1) =~= none.push(d));
    assert(draws::<D>(2) =~= none.push(d).push(d));
    assert(draws::<D>(3) =~= none.push(d).push(d).push(d));
    lemma_replay_push::<D, TS>(s, none, d);
    lemma_replay_push::<D, TS>(s, none.push(d), d);
    lemma_replay_push::<D, TS>(s, none.push(d).push(d), d);
}

} // verus!
