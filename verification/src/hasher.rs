//! The hash operations of a Merkle tree.

use std::marker::PhantomData;

use vstd::arithmetic::power2::*;
use vstd::prelude::*;

use crate::meter;
use crate::tree::{pair_up, tree_root};

verus! {

/// Hashing of leaves and of inner nodes of a Merkle tree whose leaves hold elements of `F`.
pub trait MerkleHasher: Sized {
    type F;

    type Digest: Copy;

    /// The digest of a leaf that holds `vals`.
    spec fn leaf(&self, vals: Seq<Self::F>) -> Self::Digest;

    /// The digest of a node as a function of those of its two children.
    spec fn node(&self) -> spec_fn(Self::Digest, Self::Digest) -> Self::Digest;

    /// Hashes a slice of field elements into a digest.
    fn hash_slice(&self, vals: &[Self::F]) -> (r: Self::Digest)
        ensures
            r == self.leaf(vals@),
    ;

    /// Compresses two digests into one.
    fn compress(&self, left: Self::Digest, right: Self::Digest) -> (r: Self::Digest)
        ensures
            r == (self.node())(left, right),
    ;

    /// Compresses a power of two of digests into one by repeated binary compression.
    fn tree_compress(&self, hashes: Vec<Self::Digest>) -> (r: Self::Digest)
        requires
            is_pow2(hashes@.len() as int),
        ensures
            r == tree_root(self.node(), hashes@),
    {
        proof {
            reveal(is_pow2);
        }
        let ghost all = hashes@;
        let mut hashes = hashes;
        while hashes.len() > 1
            invariant
                hashes.len() >= 1,
                tree_root(self.node(), hashes@) == tree_root(self.node(), all),
            decreases hashes.len(),
        {
            let n = hashes.len() / 2;
            let mut next: Vec<Self::Digest> = Vec::with_capacity(n);
            let mut i: usize = 0;
            while i < n
                invariant
                    n == hashes.len() / 2,
                    i <= n,
                    next.len() == i,
                    forall|j: int|
                        0 <= j < i ==> #[trigger] next[j] == pair_up(self.node(), hashes@)[j],
                decreases n - i,
            {
                next.push(self.compress(hashes[2 * i], hashes[2 * i + 1]));
                i = i + 1;
            }
            assert(next@ =~= pair_up(self.node(), hashes@));
            hashes = next;
        }
        hashes[0]
    }
}

/// Hashing of a sequence of field elements into a digest.
pub trait LeafHash<F, Digest> {
    /// The digest of `vals`. An implementation that is not verified itself can leave this out, as
    /// it cannot state it: the digest is then some value that nothing is known of, and what is
    /// proved of the implementation says no more than that it hashes equal inputs to equal digests.
    open spec fn digest_of(&self, vals: Seq<F>) -> Digest {
        arbitrary()
    }

    fn hash_slice(&self, vals: &[F]) -> (r: Digest)
        ensures
            r == self.digest_of(vals@),
    ;
}

/// Compression of two digests into one.
pub trait Compression<Digest> {
    /// The digest of two digests. An implementation that is not verified itself can leave this out,
    /// as it cannot state it: the digest is then some value that nothing is known of, and what is
    /// proved of the implementation says no more than that it is a function of the two digests.
    open spec fn combine(&self) -> spec_fn(Digest, Digest) -> Digest {
        arbitrary()
    }

    fn compress(&self, left: Digest, right: Digest) -> (r: Digest)
        ensures
            r == (self.combine())(left, right),
    ;
}

/// A [`MerkleHasher`] made of a hash function and a compression function.
#[derive(Debug)]
pub struct Hasher<F, Digest, H, C> {
    pub hash: H,
    pub compress: C,
    pub _phantom: PhantomData<(F, Digest)>,
}

impl<F, Digest, H, C> Hasher<F, Digest, H, C> {
    pub fn new(hash: H, compress: C) -> (r: Self)
        ensures
            r.hash == hash,
            r.compress == compress,
    {
        Hasher { hash, compress, _phantom: PhantomData }
    }
}

impl<F, Digest, H: Clone, C: Clone> Clone for Hasher<F, Digest, H, C> {
    fn clone(&self) -> (r: Self)
        ensures
            cloned::<H>(self.hash, r.hash),
            cloned::<C>(self.compress, r.compress),
    {
        Hasher { hash: self.hash.clone(), compress: self.compress.clone(), _phantom: PhantomData }
    }
}

impl<F, Digest: Copy, H: LeafHash<F, Digest>, C: Compression<Digest>> MerkleHasher for Hasher<
    F,
    Digest,
    H,
    C,
> {
    type F = F;

    type Digest = Digest;

    open spec fn leaf(&self, vals: Seq<F>) -> Digest {
        self.hash.digest_of(vals)
    }

    open spec fn node(&self) -> spec_fn(Digest, Digest) -> Digest {
        self.compress.combine()
    }

    fn hash_slice(&self, vals: &[F]) -> (r: Digest) {
        let start = meter::now();
        let r = self.hash.hash_slice(vals);
        meter::account(start, false);
        r
    }

    fn compress(&self, left: Digest, right: Digest) -> (r: Digest) {
        let start = meter::now();
        let r = self.compress.compress(left, right);
        meter::account(start, true);
        r
    }
}

} // verus!
