//! The BabyBear and Poseidon2 instance of the proof system.

use vstd::prelude::*;

use crate::cpu_transcript::{CpuTranscript, SpongeState};
use crate::field::BabyBear;
use crate::hasher::Hasher;
use crate::params::{StarkProtocolConfig, SystemParams};
use crate::poseidon2::{
    compressed, permuted, values, Compress, Digest, Perm, Sponge,
};

verus! {

/// The degree of the extension field.
pub const D_EF: usize = 4;

/// The Merkle hasher made of the sponge and the truncated permutation.
pub type PermHasher = Hasher<BabyBear, Digest, Sponge, Compress>;

/// The transcript that proofs are made and verified with.
pub type DuplexSponge = CpuTranscript;

/// A configuration that hashes with Poseidon2.
#[derive(Clone, Debug)]
pub struct BabyBearPoseidon2Config {
    pub params: SystemParams,
    pub hasher: PermHasher,
}

impl StarkProtocolConfig for BabyBearPoseidon2Config {
    type Digest = Digest;

    type Hasher = PermHasher;

    open spec fn spec_params(&self) -> SystemParams {
        self.params
    }

    open spec fn spec_hasher(&self) -> PermHasher {
        self.hasher
    }

    fn params(&self) -> (r: &SystemParams) {
        &self.params
    }

    fn hasher(&self) -> (r: &PermHasher) {
        &self.hasher
    }
}

impl BabyBearPoseidon2Config {
    pub fn new(params: SystemParams, hasher: PermHasher) -> (r: Self)
        ensures
            r.params == params,
            r.hasher == hasher,
    {
        BabyBearPoseidon2Config { params, hasher }
    }

    /// A configuration that hashes with the given permutation.
    pub fn new_from_perm(params: SystemParams, perm: Perm) -> (r: Self)
        ensures
            r.params == params,
            r.hasher.hash.perm == perm,
            r.hasher.compress.perm == perm,
    {
        let hasher = Hasher::new(Sponge { perm }, Compress { perm });
        BabyBearPoseidon2Config { params, hasher }
    }

    /// A configuration that hashes with the default permutation.
    pub fn default_from_params(params: SystemParams) -> (r: Self)
        ensures
            r.params == params,
            r.hasher.hash.perm == Perm,
            r.hasher.compress.perm == Perm,
    {
        BabyBearPoseidon2Config::new_from_perm(params, poseidon2_perm())
    }
}

/// An engine for the prover that is written for clarity.
pub struct BabyBearPoseidon2RefEngine {
    pub config: BabyBearPoseidon2Config,
}

impl BabyBearPoseidon2RefEngine {
    pub fn new(params: SystemParams) -> (r: Self)
        ensures
            r.config.params == params,
            r.config.hasher.hash.perm == Perm,
            r.config.hasher.compress.perm == Perm,
    {
        BabyBearPoseidon2RefEngine { config: BabyBearPoseidon2Config::default_from_params(params) }
    }

    pub fn config(&self) -> (r: &BabyBearPoseidon2Config)
        ensures
            *r == self.config,
    {
        &self.config
    }

    /// The transcript that a proof starts with.
    pub fn initial_transcript(&self) -> (r: DuplexSponge)
        ensures
            r.sponge() == SpongeState::initial(),
    {
        default_duplex_sponge()
    }
}

/// An engine that works with the row-major prover.
pub struct BabyBearPoseidon2CpuEngine {
    pub config: BabyBearPoseidon2Config,
}

impl BabyBearPoseidon2CpuEngine {
    pub fn new(params: SystemParams) -> (r: Self)
        ensures
            r.config.params == params,
            r.config.hasher.hash.perm == Perm,
            r.config.hasher.compress.perm == Perm,
    {
        BabyBearPoseidon2CpuEngine { config: BabyBearPoseidon2Config::default_from_params(params) }
    }

    pub fn config(&self) -> (r: &BabyBearPoseidon2Config)
        ensures
            *r == self.config,
    {
        &self.config
    }

    /// The transcript that a proof starts with.
    pub fn initial_transcript(&self) -> (r: CpuTranscript)
        ensures
            r.sponge() == SpongeState::initial(),
    {
        CpuTranscript::new(poseidon2_perm())
    }
}

/// The permutation with its default round constants.
pub fn poseidon2_perm() -> (r: Perm)
    ensures
        r == Perm,
{
    Perm
}

/// Permutes the two halves together and returns both halves of the result. The first is the
/// compression of the two.
pub fn poseidon2_compress_with_capacity(left: [BabyBear; 8], right: [BabyBear; 8]) -> (r: (
    [BabyBear; 8],
    [BabyBear; 8],
))
    ensures
        values(r.0@) + values(r.1@) == permuted(values(left@) + values(right@)),
        (Digest { limbs: r.0 }) == compressed(Digest { limbs: left }, Digest { limbs: right }),
{
    let state: [BabyBear; 16] = [
        left[0],
        left[1],
        left[2],
        left[3],
        left[4],
        left[5],
        left[6],
        left[7],
        right[0],
        right[1],
        right[2],
        right[3],
        right[4],
        right[5],
        right[6],
        right[7],
    ];
    assert(values(state@) =~= values(left@) + values(right@));
    let s = poseidon2_perm().permute(state);
    let first: [BabyBear; 8] = [s[0], s[1], s[2], s[3], s[4], s[5], s[6], s[7]];
    let second: [BabyBear; 8] = [s[8], s[9], s[10], s[11], s[12], s[13], s[14], s[15]];
    proof {
        let all = permuted(values(left@) + values(right@));
        assert(values(s@) =~= all);
        assert forall|i: int| 0 <= i < 16 implies #[trigger] all[i] == s@[i].value by {
            assert(values(s@)[i] == s@[i].value);
        }
        assert(values(first@) + values(second@) =~= all);
        assert(first =~= compressed(Digest { limbs: left }, Digest { limbs: right }).limbs);
    }
    (first, second)
}

/// A transcript in which nothing was observed.
pub fn default_duplex_sponge() -> (r: DuplexSponge)
    ensures
        r.sponge() == SpongeState::initial(),
{
    CpuTranscript::new(poseidon2_perm())
}

} // verus!
