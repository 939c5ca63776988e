//! Protocol parameters.

use vstd::prelude::*;

use crate::field::BabyBear;
use crate::hasher::MerkleHasher;

verus! {

/// Parameters of one round of the WHIR protocol.
#[derive(Copy, Clone, Debug)]
pub struct WhirRoundConfig {
    pub num_queries: usize,
}

/// Parameters of the WHIR protocol.
#[derive(Clone, Debug)]
pub struct WhirConfig {
    /// The number of folding steps in each round.
    pub k: usize,
    pub rounds: Vec<WhirRoundConfig>,
    pub mu_pow_bits: usize,
    pub query_phase_pow_bits: usize,
    pub folding_pow_bits: usize,
}

/// Parameters of the interaction argument.
#[derive(Copy, Clone, Debug)]
pub struct LogupConfig {
    pub pow_bits: usize,
}

/// Parameters of the proof system.
#[derive(Clone, Debug)]
pub struct SystemParams {
    /// The log2 of the size of the univariate domain.
    pub l_skip: usize,
    /// The log2 of the number of such domains in a stacked column.
    pub n_stack: usize,
    /// The log2 of the inverse of the code rate.
    pub log_blowup: usize,
    pub max_constraint_degree: usize,
    pub logup: LogupConfig,
    pub whir: WhirConfig,
}

impl SystemParams {
    /// The number of variables of the committed polynomials.
    pub open spec fn num_vars(&self) -> int {
        self.l_skip + self.n_stack
    }

    /// The number of folding steps in all rounds.
    pub open spec fn num_folds(&self) -> int {
        self.whir.k * self.whir.rounds@.len()
    }

    /// Whether the parameters are consistent: the WHIR rounds fold at most all variables, the
    /// code fits into the two-adic subgroup, and proofs of work ask for bits that a challenge
    /// has.
    pub open spec fn wf(&self) -> bool {
        &&& self.whir.k >= 1
        &&& self.whir.rounds@.len() >= 1
        &&& self.num_folds() <= self.num_vars()
        &&& self.num_vars() + self.log_blowup <= 27
        &&& self.whir.mu_pow_bits <= 30
        &&& self.whir.query_phase_pow_bits <= 30
        &&& self.whir.folding_pow_bits <= 30
        &&& self.logup.pow_bits <= 30
    }

    pub fn k_whir(&self) -> (r: usize)
        ensures
            r == self.whir.k,
    {
        self.whir.k
    }

    pub fn num_whir_rounds(&self) -> (r: usize)
        ensures
            r == self.whir.rounds@.len(),
    {
        self.whir.rounds.len()
    }

    pub fn num_whir_sumcheck_rounds(&self) -> (r: usize)
        requires
            self.wf(),
        ensures
            r == self.num_folds(),
    {
        proof {
            assert(self.whir.k * self.whir.rounds@.len() == self.whir.rounds@.len() * self.whir.k)
                by (nonlinear_arith);
        }
        self.whir.k * self.whir.rounds.len()
    }

    /// The log2 of the number of coefficients of the polynomial that is left after all rounds.
    pub fn log_final_poly_len(&self) -> (r: usize)
        requires
            self.wf(),
        ensures
            r == self.num_vars() - self.num_folds(),
    {
        self.l_skip + self.n_stack - self.num_whir_sumcheck_rounds()
    }

    /// Whether two sets of parameters are the same.
    pub open spec fn same(&self, other: &Self) -> bool {
        &&& self.l_skip == other.l_skip
        &&& self.n_stack == other.n_stack
        &&& self.log_blowup == other.log_blowup
        &&& self.max_constraint_degree == other.max_constraint_degree
        &&& self.logup == other.logup
        &&& self.whir.k == other.whir.k
        &&& self.whir.rounds@ == other.whir.rounds@
        &&& self.whir.mu_pow_bits == other.whir.mu_pow_bits
        &&& self.whir.query_phase_pow_bits == other.whir.query_phase_pow_bits
        &&& self.whir.folding_pow_bits == other.whir.folding_pow_bits
    }

    pub fn is_same(&self, other: &Self) -> (r: bool)
        ensures
            r == self.same(other),
    {
        if self.l_skip != other.l_skip || self.n_stack != other.n_stack || self.log_blowup
            != other.log_blowup || self.max_constraint_degree != other.max_constraint_degree
            || self.logup.pow_bits != other.logup.pow_bits || self.whir.k != other.whir.k
            || self.whir.mu_pow_bits != other.whir.mu_pow_bits || self.whir.query_phase_pow_bits
            != other.whir.query_phase_pow_bits || self.whir.folding_pow_bits
            != other.whir.folding_pow_bits || self.whir.rounds.len() != other.whir.rounds.len() {
            return false;
        }
        let mut i: usize = 0;
        while i < self.whir.rounds.len()
            invariant
                i <= self.whir.rounds@.len() == other.whir.rounds@.len(),
                forall|j: int|
                    0 <= j < i ==> #[trigger] self.whir.rounds@[j] == other.whir.rounds@[j],
            decreases self.whir.rounds@.len() - i,
        {
            if self.whir.rounds[i].num_queries != other.whir.rounds[i].num_queries {
                assert(self.whir.rounds@[i as int] != other.whir.rounds@[i as int]);
                return false;
            }
            i = i + 1;
        }
        assert(self.whir.rounds@ =~= other.whir.rounds@);
        true
    }
}

/// What a proof is made and verified with: the parameters and the hash function.
pub trait StarkProtocolConfig: Sized {
    type Digest: Copy + Eq;

    type Hasher: MerkleHasher<F = BabyBear, Digest = Self::Digest>;

    spec fn spec_params(&self) -> SystemParams;

    spec fn spec_hasher(&self) -> Self::Hasher;

    fn params(&self) -> (r: &SystemParams)
        ensures
            *r == self.spec_params(),
    ;

    fn hasher(&self) -> (r: &Self::Hasher)
        ensures
            *r == self.spec_hasher(),
    ;
}

} // verus!
