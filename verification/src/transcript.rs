//! Fiat-Shamir transcripts.

use vstd::arithmetic::power2::*;
use vstd::prelude::*;

use crate::bits::{lemma_pow2_mono, pow2_usize};
use crate::field::{BabyBear, BabyBearExt4, EF};

verus! {

/// A transcript that absorbs field elements and digests and gives out challenges. What it gives
/// out is a function of its state.
pub trait FiatShamirTranscript<Digest>: Sized {
    /// The state that decides all later challenges.
    type State;

    spec fn state(&self) -> Self::State;

    /// The state after `value` was observed.
    spec fn observed(s: Self::State, value: BabyBear) -> Self::State;

    /// The state after `digest` was observed.
    spec fn committed(s: Self::State, digest: Digest) -> Self::State;

    /// The challenge that is next.
    spec fn challenge(s: Self::State) -> BabyBear;

    /// The state after that challenge was given out.
    spec fn sampled(s: Self::State) -> Self::State;

    fn observe(&mut self, value: BabyBear)
        ensures
            final(self).state() == Self::observed(old(self).state(), value),
    ;

    fn observe_commit(&mut self, digest: Digest)
        ensures
            final(self).state() == Self::committed(old(self).state(), digest),
    ;

    fn sample(&mut self) -> (r: BabyBear)
        ensures
            r == Self::challenge(old(self).state()),
            final(self).state() == Self::sampled(old(self).state()),
    ;
}

/// The state after the coefficients of `value` were observed.
pub open spec fn ext_observed<D, TS: FiatShamirTranscript<D>>(
    s: TS::State,
    value: EF,
) -> TS::State {
    TS::observed(
        TS::observed(TS::observed(TS::observed(s, value.c0), value.c1), value.c2),
        value.c3,
    )
}

/// The state after all of `values` were observed in order.
pub open spec fn exts_observed<D, TS: FiatShamirTranscript<D>>(
    s: TS::State,
    values: Seq<EF>,
) -> TS::State
    decreases values.len(),
{
    if values.len() == 0 {
        s
    } else {
        ext_observed::<D, TS>(exts_observed::<D, TS>(s, values.drop_last()), values.last())
    }
}

/// The extension field challenge that is next: four challenges, as coefficients.
pub open spec fn ext_challenge<D, TS: FiatShamirTranscript<D>>(s: TS::State) -> EF {
    let s1 = TS::sampled(s);
    let s2 = TS::sampled(s1);
    let s3 = TS::sampled(s2);
    BabyBearExt4 {
        c0: TS::challenge(s),
        c1: TS::challenge(s1),
        c2: TS::challenge(s2),
        c3: TS::challenge(s3),
    }
}

/// The state after that challenge was given out.
pub open spec fn ext_sampled<D, TS: FiatShamirTranscript<D>>(s: TS::State) -> TS::State {
    TS::sampled(TS::sampled(TS::sampled(TS::sampled(s))))
}

/// The next challenge of `bits` bits: the low bits of the next challenge.
pub open spec fn bits_challenge<D, TS: FiatShamirTranscript<D>>(s: TS::State, bits: nat) -> int {
    TS::challenge(s).value as int % (pow2(bits) as int)
}

/// Whether `witness` proves `bits` bits of work: once it is observed, the next challenge of as
/// many bits is zero. No work is asked for where `bits` is zero.
pub open spec fn witness_holds<D, TS: FiatShamirTranscript<D>>(
    s: TS::State,
    bits: nat,
    witness: BabyBear,
) -> bool {
    bits == 0 || bits_challenge::<D, TS>(TS::observed(s, witness), bits) == 0
}

/// The state after the witness was checked.
pub open spec fn witness_checked<D, TS: FiatShamirTranscript<D>>(
    s: TS::State,
    bits: nat,
    witness: BabyBear,
) -> TS::State {
    if bits == 0 {
        s
    } else {
        TS::sampled(TS::observed(s, witness))
    }
}

pub fn observe_ext<D, TS: FiatShamirTranscript<D>>(transcript: &mut TS, value: EF)
    ensures
        final(transcript).state() == ext_observed::<D, TS>(old(transcript).state(), value),
{
    transcript.observe(value.c0);
    transcript.observe(value.c1);
    transcript.observe(value.c2);
    transcript.observe(value.c3);
}

/// Observes all of `values` in order.
pub fn observe_exts<D, TS: FiatShamirTranscript<D>>(transcript: &mut TS, values: &[EF])
    ensures
        final(transcript).state() == exts_observed::<D, TS>(old(transcript).state(), values@),
{
    let ghost s0 = transcript.state();
    let mut i: usize = 0;
    assert(values@.take(0) =~= Seq::empty());
    while i < values.len()
        invariant
            i <= values@.len(),
            transcript.state() == exts_observed::<D, TS>(s0, values@.take(i as int)),
        decreases values@.len() - i,
    {
        observe_ext::<D, TS>(transcript, values[i]);
        assert(values@.take(i + 1).drop_last() =~= values@.take(i as int));
        i = i + 1;
    }
    assert(values@.take(i as int) =~= values@);
}

pub fn sample_ext<D, TS: FiatShamirTranscript<D>>(transcript: &mut TS) -> (r: EF)
    ensures
        r == ext_challenge::<D, TS>(old(transcript).state()),
        final(transcript).state() == ext_sampled::<D, TS>(old(transcript).state()),
{
    let c0 = transcript.sample();
    let c1 = transcript.sample();
    let c2 = transcript.sample();
    let c3 = transcript.sample();
    BabyBearExt4 { c0, c1, c2, c3 }
}

pub fn sample_bits<D, TS: FiatShamirTranscript<D>>(transcript: &mut TS, bits: usize) -> (r: u64)
    requires
        bits <= 30,
    ensures
        r == bits_challenge::<D, TS>(old(transcript).state(), bits as nat),
        r < pow2(bits as nat),
        final(transcript).state() == TS::sampled(old(transcript).state()),
{
    let c = transcript.sample();
    let modulus = pow2_usize(bits);
    proof {
        lemma_pow2_mono(bits as nat, 30);
        lemma2_to64();
    }
    (c.value % modulus as u32) as u64
}

pub fn check_witness<D, TS: FiatShamirTranscript<D>>(
    transcript: &mut TS,
    bits: usize,
    witness: BabyBear,
) -> (r: bool)
    requires
        bits <= 30,
    ensures
        r == witness_holds::<D, TS>(old(transcript).state(), bits as nat, witness),
        final(transcript).state() == witness_checked::<D, TS>(
            old(transcript).state(),
            bits as nat,
            witness,
        ),
{
    if bits == 0 {
        return true;
    }
    transcript.observe(witness);
    sample_bits::<D, TS>(transcript, bits) == 0
}

} // verus!
