//! The Poseidon2 permutation over BabyBear and the hash functions that are made from it.

use p3_baby_bear::{default_babybear_poseidon2_16, BabyBear as P3BabyBear};
use p3_field::{PrimeCharacteristicRing, PrimeField32};
use p3_symmetric::{
    CryptographicHasher, PaddingFreeSponge, Permutation, PseudoCompressionFunction,
    TruncatedPermutation,
};
use vstd::prelude::*;

use crate::field::BabyBear;
use crate::hasher::{Compression, LeafHash};

verus! {

/// The number of elements that the sponge takes in with each permutation.
pub const RATE: usize = 8;

/// The number of elements that are permuted: the rate and the capacity.
pub const WIDTH: usize = 16;

/// The number of elements of each of the two halves that are compressed.
pub const CHUNK: usize = 8;

/// The number of elements of a digest.
pub const DIGEST_SIZE: usize = 8;

/// A digest of eight field elements.
#[derive(Copy, Clone, Debug, Eq)]
pub struct Digest {
    pub limbs: [BabyBear; 8],
}

impl PartialEq for Digest {
    fn eq(&self, other: &Self) -> (r: bool) {
        let mut i: usize = 0;
        while i < DIGEST_SIZE
            invariant
                i <= 8,
                forall|j: int| 0 <= j < i ==> #[trigger] self.limbs@[j] == other.limbs@[j],
            decreases 8 - i,
        {
            if self.limbs[i] != other.limbs[i] {
                return false;
            }
            i = i + 1;
        }
        assert(self.limbs@ =~= other.limbs@);
        true
    }
}

impl vstd::std_specs::cmp::PartialEqSpecImpl for Digest {
    open spec fn obeys_eq_spec() -> bool {
        true
    }

    open spec fn eq_spec(&self, other: &Self) -> bool {
        self.limbs@ == other.limbs@
    }
}

/// The integers that the elements hold.
pub open spec fn values(s: Seq<BabyBear>) -> Seq<u32> {
    s.map_values(|x: BabyBear| x.value)
}

/// Whether all elements are canonical.
pub open spec fn all_canonical(s: Seq<BabyBear>) -> bool {
    forall|i: int| 0 <= i < s.len() ==> (#[trigger] s[i]).wf()
}

/// The digest whose limbs hold the first eight of the given integers.
pub open spec fn digest_from(s: Seq<u32>) -> Digest {
    Digest {
        limbs: [
            BabyBear { value: s[0] },
            BabyBear { value: s[1] },
            BabyBear { value: s[2] },
            BabyBear { value: s[3] },
            BabyBear { value: s[4] },
            BabyBear { value: s[5] },
            BabyBear { value: s[6] },
            BabyBear { value: s[7] },
        ],
    }
}

/// What the width-16 Poseidon2 permutation of `p3_baby_bear::default_babybear_poseidon2_16` makes
/// of sixteen elements, given as integers.
pub uninterp spec fn poseidon2_permuted(state: Seq<u32>) -> Seq<u32>;

/// The sixteen elements that the permutation makes of the state.
pub open spec fn permuted(state: Seq<u32>) -> Seq<u32> {
    Seq::new(16, |i: int| poseidon2_permuted(state)[i])
}

/// The state before anything was absorbed.
pub open spec fn zero_state() -> Seq<u32> {
    Seq::new(16, |i: int| 0u32)
}

/// The state with its first elements replaced by `block`.
pub open spec fn overwritten(state: Seq<u32>, block: Seq<u32>) -> Seq<u32> {
    block + state.skip(block.len() as int)
}

/// The state after `vals` were absorbed: blocks of eight overwrite the rate one after another,
/// and each is followed by a permutation. The last block may be shorter.
pub open spec fn absorbed(state: Seq<u32>, vals: Seq<u32>) -> Seq<u32>
    decreases vals.len(),
{
    if vals.len() == 0 {
        state
    } else if vals.len() <= 8 {
        permuted(overwritten(state, vals))
    } else {
        absorbed(permuted(overwritten(state, vals.take(8))), vals.skip(8))
    }
}

/// The digest of `vals`: the rate after they were absorbed into the zero state.
pub open spec fn sponge_digest(vals: Seq<BabyBear>) -> Digest {
    digest_from(absorbed(zero_state(), values(vals)))
}

/// The digest of two digests: the first half of the permuted pair.
pub open spec fn compressed(left: Digest, right: Digest) -> Digest {
    digest_from(permuted(values(left.limbs@) + values(right.limbs@)))
}

/// The width-16 Poseidon2 permutation with its default round constants.
#[derive(Copy, Clone, Debug)]
pub struct Perm;

impl Perm {
    /// Calls `permute` of `p3_baby_bear::Poseidon2BabyBear<16>`, made by
    /// `default_babybear_poseidon2_16`. Its result is given a name; beyond that, the elements
    /// that come back are canonical.
    #[verifier::external_body]
    pub(crate) fn permute(&self, state: [BabyBear; 16]) -> (r: [BabyBear; 16])
        ensures
            values(r@) == poseidon2_permuted(values(state@)),
            all_canonical(r@),
    {
        let state = state.map(|x| P3BabyBear::from_u32(x.value));
        let r = default_babybear_poseidon2_16().permute(state);
        r.map(|x| BabyBear { value: x.as_canonical_u32() })
    }
}

/// The padding-free sponge over the permutation.
#[derive(Copy, Clone, Debug)]
pub struct Sponge {
    pub perm: Perm,
}

/// Calls `hash_slice` of `p3_symmetric::PaddingFreeSponge` over the default permutation. It
/// absorbs block after block into the zero state and returns the rate.
#[verifier::external_body]
fn sponge_hash(vals: &[BabyBear]) -> (r: Digest)
    ensures
        r == sponge_digest(vals@),
{
    let vals: Vec<P3BabyBear> = vals.iter().map(|x| P3BabyBear::from_u32(x.value)).collect();
    let sponge = PaddingFreeSponge::<_, 16, 8, 8>::new(default_babybear_poseidon2_16());
    let r: [P3BabyBear; 8] = sponge.hash_slice(&vals);
    Digest { limbs: r.map(|x| BabyBear { value: x.as_canonical_u32() }) }
}

impl LeafHash<BabyBear, Digest> for Sponge {
    open spec fn digest_of(&self, vals: Seq<BabyBear>) -> Digest {
        sponge_digest(vals)
    }

    fn hash_slice(&self, vals: &[BabyBear]) -> (r: Digest) {
        sponge_hash(vals)
    }
}

/// The truncated permutation of two digests.
#[derive(Copy, Clone, Debug)]
pub struct Compress {
    pub perm: Perm,
}

/// Calls `compress` of `p3_symmetric::TruncatedPermutation` over the default permutation. It
/// permutes the two digests together and returns the first half.
#[verifier::external_body]
fn truncated_permutation(left: Digest, right: Digest) -> (r: Digest)
    ensures
        r == compressed(left, right),
{
    let input = [left, right].map(|d| d.limbs.map(|x| P3BabyBear::from_u32(x.value)));
    let compress = TruncatedPermutation::<_, 2, 8, 16>::new(default_babybear_poseidon2_16());
    let r: [P3BabyBear; 8] = compress.compress(input);
    Digest { limbs: r.map(|x| BabyBear { value: x.as_canonical_u32() }) }
}

impl Compression<Digest> for Compress {
    open spec fn combine(&self) -> spec_fn(Digest, Digest) -> Digest {
        |left: Digest, right: Digest| compressed(left, right)
    }

    fn compress(&self, left: Digest, right: Digest) -> (r: Digest) {
        truncated_permutation(left, right)
    }
}

} // verus!
