//! A Fiat-Shamir transcript on a duplex sponge over Poseidon2.

use p3_baby_bear::{default_babybear_poseidon2_16, BabyBear as P3BabyBear};
use p3_challenger::{CanObserve, CanSample, DuplexChallenger};
use p3_field::{PrimeCharacteristicRing, PrimeField32};
use vstd::prelude::*;

use crate::field::{bb, BabyBear};
use crate::poseidon2::{
    all_canonical, overwritten, permuted, values, zero_state, Digest, Perm, DIGEST_SIZE,
};
use crate::transcript::FiatShamirTranscript;
use crate::verification::conversation::{
    lemma_replay_push, replayed, values as observations, Event,
};

verus! {

/// The state of a duplex sponge: what is permuted, what was observed since the last permutation,
/// and what of its result was not yet given out.
#[verifier::ext_equal]
pub struct SpongeState {
    pub state: Seq<u32>,
    pub input: Seq<u32>,
    pub output: Seq<u32>,
}

impl SpongeState {
    /// The state before anything was observed.
    pub open spec fn initial() -> Self {
        SpongeState { state: zero_state(), input: Seq::empty(), output: Seq::empty() }
    }

    /// The state after a permutation: the input overwrites the rate first, and the rate becomes
    /// the output.
    pub open spec fn duplexed(self) -> Self {
        let state = permuted(overwritten(self.state, self.input));
        SpongeState { state, input: Seq::empty(), output: state.take(8) }
    }

    /// The state after `value` was observed: the output is dropped, and a full rate is permuted.
    pub open spec fn after_observe(self, value: u32) -> Self {
        let pending = SpongeState {
            state: self.state,
            input: self.input.push(value),
            output: Seq::empty(),
        };
        if pending.input.len() == 8 {
            pending.duplexed()
        } else {
            pending
        }
    }

    /// The state that a challenge is taken from: permuted where something was observed or the
    /// output is used up.
    pub open spec fn ready(self) -> Self {
        if self.input.len() > 0 || self.output.len() == 0 {
            self.duplexed()
        } else {
            self
        }
    }

    /// The next challenge: the last element of the output.
    pub open spec fn next_challenge(self) -> u32 {
        self.ready().output.last()
    }

    /// The state after that challenge was given out.
    pub open spec fn after_sample(self) -> Self {
        let ready = self.ready();
        SpongeState { state: ready.state, input: ready.input, output: ready.output.drop_last() }
    }

    /// The state after all of `digest` was observed.
    pub open spec fn after_observe_all(self, vals: Seq<BabyBear>) -> Self
        decreases vals.len(),
    {
        if vals.len() == 0 {
            self
        } else {
            self.after_observe_all(vals.drop_last()).after_observe(
                bb(vals.last().value as int).value,
            )
        }
    }
}

/// The parts of a duplex sponge.
pub open spec fn sponge_state(
    state: Seq<BabyBear>,
    input: Seq<BabyBear>,
    output: Seq<BabyBear>,
) -> SpongeState {
    SpongeState { state: values(state), input: values(input), output: values(output) }
}

/// Calls `observe` of `p3_challenger::DuplexChallenger` over the default Poseidon2 permutation. It
/// drops the buffered output, buffers the value, and permutes when eight values are buffered.
#[verifier::external_body]
fn duplex_observe(
    state: &[BabyBear; 16],
    input: &Vec<BabyBear>,
    output: &Vec<BabyBear>,
    value: BabyBear,
) -> (r: ([BabyBear; 16], Vec<BabyBear>, Vec<BabyBear>))
    requires
        input@.len() < 8,
        all_canonical(state@),
        all_canonical(input@),
    ensures
        sponge_state(r.0@, r.1@, r.2@) == sponge_state(state@, input@, output@).after_observe(
            bb(value.value as int).value,
        ),
        all_canonical(r.0@),
        all_canonical(r.1@),
        all_canonical(r.2@),
{
    let mut c = DuplexChallenger::<P3BabyBear, _, 16, 8>::new(default_babybear_poseidon2_16());
    let to = |x: &BabyBear| P3BabyBear::from_u32(x.value);
    let from = |x: &P3BabyBear| BabyBear { value: x.as_canonical_u32() };
    c.sponge_state = state.each_ref().map(to);
    c.input_buffer = input.iter().map(to).collect();
    c.output_buffer = output.iter().map(to).collect();
    c.observe(P3BabyBear::from_u32(value.value));
    (
        c.sponge_state.each_ref().map(from),
        c.input_buffer.iter().map(from).collect(),
        c.output_buffer.iter().map(from).collect(),
    )
}

/// Calls `sample` of `p3_challenger::DuplexChallenger` over the default Poseidon2 permutation. It
/// permutes where input is buffered or the output is used up, and takes the last element of the
/// output.
#[verifier::external_body]
fn duplex_sample(
    state: &[BabyBear; 16],
    input: &Vec<BabyBear>,
    output: &Vec<BabyBear>,
) -> (r: (BabyBear, [BabyBear; 16], Vec<BabyBear>, Vec<BabyBear>))
    requires
        input@.len() <= 8,
        all_canonical(state@),
        all_canonical(input@),
        all_canonical(output@),
    ensures
        r.0.value == sponge_state(state@, input@, output@).next_challenge(),
        sponge_state(r.1@, r.2@, r.3@) == sponge_state(state@, input@, output@).after_sample(),
        r.0.wf(),
        all_canonical(r.1@),
        all_canonical(r.2@),
        all_canonical(r.3@),
{
    let mut c = DuplexChallenger::<P3BabyBear, _, 16, 8>::new(default_babybear_poseidon2_16());
    let to = |x: &BabyBear| P3BabyBear::from_u32(x.value);
    let from = |x: &P3BabyBear| BabyBear { value: x.as_canonical_u32() };
    c.sponge_state = state.each_ref().map(to);
    c.input_buffer = input.iter().map(to).collect();
    c.output_buffer = output.iter().map(to).collect();
    let challenge: P3BabyBear = c.sample();
    (
        from(&challenge),
        c.sponge_state.each_ref().map(from),
        c.input_buffer.iter().map(from).collect(),
        c.output_buffer.iter().map(from).collect(),
    )
}

/// A transcript on a duplex sponge over the Poseidon2 permutation.
#[derive(Debug)]
pub struct CpuTranscript {
    state: [BabyBear; 16],
    input: Vec<BabyBear>,
    output: Vec<BabyBear>,
}

impl CpuTranscript {
    #[verifier::type_invariant]
    spec fn type_inv(self) -> bool {
        &&& self.input@.len() < 8
        &&& all_canonical(self.state@)
        &&& all_canonical(self.input@)
        &&& all_canonical(self.output@)
    }

    /// The state of the sponge.
    pub closed spec fn sponge(&self) -> SpongeState {
        sponge_state(self.state@, self.input@, self.output@)
    }

    /// A transcript in which nothing was observed.
    pub fn new(perm: Perm) -> (r: Self)
        ensures
            r.sponge() == SpongeState::initial(),
    {
        let zero = BabyBear::zero();
        let r = CpuTranscript { state: [zero; 16], input: Vec::new(), output: Vec::new() };
        assert(r.sponge() =~= SpongeState::initial());
        r
    }

    /// The elements that are permuted.
    pub fn sponge_state(&self) -> (r: &[BabyBear; 16])
        ensures
            values(r@) == self.sponge().state,
    {
        &self.state
    }

    /// The elements that were observed since the last permutation.
    pub fn input_buffer(&self) -> (r: &Vec<BabyBear>)
        ensures
            values(r@) == self.sponge().input,
    {
        &self.input
    }

    /// The elements that are still to be given out, the last one first.
    pub fn output_buffer(&self) -> (r: &Vec<BabyBear>)
        ensures
            values(r@) == self.sponge().output,
    {
        &self.output
    }
}

impl Clone for CpuTranscript {
    fn clone(&self) -> (r: Self)
        ensures
            r.sponge() == self.sponge(),
    {
        proof {
            use_type_invariant(self);
        }
        let input = self.input.clone();
        let output = self.output.clone();
        assert(input@ =~= self.input@);
        assert(output@ =~= self.output@);
        CpuTranscript { state: self.state, input, output }
    }
}

impl FiatShamirTranscript<Digest> for CpuTranscript {
    type State = SpongeState;

    open spec fn state(&self) -> SpongeState {
        self.sponge()
    }

    open spec fn observed(s: SpongeState, value: BabyBear) -> SpongeState {
        s.after_observe(bb(value.value as int).value)
    }

    open spec fn committed(s: SpongeState, digest: Digest) -> SpongeState {
        s.after_observe_all(digest.limbs@)
    }

    open spec fn challenge(s: SpongeState) -> BabyBear {
        BabyBear { value: s.next_challenge() }
    }

    open spec fn sampled(s: SpongeState) -> SpongeState {
        s.after_sample()
    }

    fn observe(&mut self, value: BabyBear) {
        proof {
            use_type_invariant(&*self);
        }
        let (state, input, output) = duplex_observe(&self.state, &self.input, &self.output, value);
        proof {
            let before = self.sponge();
            let after = sponge_state(state@, input@, output@);
            assert(before.input.len() < 8);
            assert(after.input.len() < 8);
            assert(values(input@).len() == input@.len());
        }
        *self = CpuTranscript { state, input, output };
    }

    fn observe_commit(&mut self, digest: Digest) {
        let ghost s0 = self.sponge();
        let mut i: usize = 0;
        assert(digest.limbs@.take(0) =~= Seq::empty());
        while i < DIGEST_SIZE
            invariant
                i <= 8,
                self.sponge() == s0.after_observe_all(digest.limbs@.take(i as int)),
            decreases 8 - i,
        {
            self.observe(digest.limbs[i]);
            assert(digest.limbs@.take(i + 1).drop_last() =~= digest.limbs@.take(i as int));
            i = i + 1;
        }
        assert(digest.limbs@.take(8) =~= digest.limbs@);
    }

    fn sample(&mut self) -> (r: BabyBear) {
        proof {
            use_type_invariant(&*self);
        }
        let (r, state, input, output) = duplex_sample(&self.state, &self.input, &self.output);
        proof {
            let before = self.sponge();
            assert(before.ready().input.len() < 8);
            assert(values(input@).len() == input@.len());
        }
        *self = CpuTranscript { state, input, output };
        r
    }
}

/// A digest is observed limb by limb: observing it is observing all of its limbs, from the first
/// to the last.
pub proof fn digest_is_observed_limb_by_limb(s: SpongeState, digest: Digest)
    ensures
        <CpuTranscript as FiatShamirTranscript<Digest>>::committed(s, digest) == replayed::<
            Digest,
            CpuTranscript,
        >(s, observations(digest.limbs@)),
        digest.limbs@.len() == 8,
{
    lemma_limbs(s, digest.limbs@);
}

proof fn lemma_limbs(s: SpongeState, limbs: Seq<BabyBear>)
    ensures
        s.after_observe_all(limbs) == replayed::<Digest, CpuTranscript>(s, observations(limbs)),
    decreases limbs.len(),
{
    let events = observations::<Digest>(limbs);
    if limbs.len() == 0 {
        assert(events =~= Seq::empty());
    } else {
        let before = limbs.drop_last();
        lemma_limbs(s, before);
        let last = Event::<Digest>::Value(limbs.last());
        assert(events =~= observations::<Digest>(before).push(last));
        lemma_replay_push::<Digest, CpuTranscript>(s, observations(before), last);
    }
}

} // verus!
