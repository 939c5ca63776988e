//! The protocols that verification hands parts of a proof to.

use vstd::prelude::*;

use crate::field::{BabyBear, EF};
use crate::proofs::{GkrProof, StackingProof};
use crate::stacked_layout::StackedLayout;

verus! {

/// Why a proof of the sum over all interactions is refused.
#[derive(Copy, Clone, Debug, PartialEq, Eq)]
pub enum GkrVerificationError<Rejection> {
    /// There is nothing to sum, but the claimed denominator is not one.
    InvalidZeroRoundValue { actual: EF },
    /// The layers are refused.
    Rejected(Rejection),
}

/// The values at the sumcheck point that the constraints of one trace are evaluated with.
pub struct TraceOpenings {
    /// The preprocessed columns, if there are any, with their rotations.
    pub preprocessed: Option<Vec<(EF, EF)>>,
    /// The cached parts, then the common part, with their rotations.
    pub partitioned_main: Vec<Vec<(EF, EF)>>,
    /// The point, as far as it concerns this trace.
    pub rs: Vec<EF>,
    /// The log2 of the size of the univariate domain of this trace.
    pub l: usize,
}

/// The protocols and evaluations that are not part of this library. Nothing is known of what
/// they return; verification states its outcome in terms of it.
pub trait SubProtocols<TS>: Sized {
    /// A node of a constraint graph.
    type Node;

    /// The layers of a proof of the sum over all interactions.
    type Layers;

    type GkrRejection;

    /// The rounds of a proof that reduces column values to values of stacked columns.
    type Rounds;

    type StackingRejection;

    /// The number of variables of the interaction argument besides the `l_skip` univariate ones.
    fn calculate_n_logup(&self, l_skip: usize, total_interactions: u64) -> usize;

    /// Verifies the sum over all interactions in `total_rounds` rounds. Gives back the claims on
    /// the numerator and the denominator and the point that they speak of.
    fn verify_gkr(&self, proof: &GkrProof<Self::Layers>, transcript: TS, total_rounds: usize) -> (
        TS,
        Result<(EF, EF, Vec<EF>), GkrVerificationError<Self::GkrRejection>>,
    );

    /// The univariate extension of equality on the domain of size `2^l_skip`.
    fn eval_eq_uni(&self, l_skip: usize, x: EF, y: EF) -> EF;

    /// The extension of equality between points of the univariate domain and of the hypercube.
    fn eval_eq_sharp_uni(&self, omega_skip_pows: &Vec<BabyBear>, xi: &Vec<EF>, z: EF) -> EF;

    /// Evaluates the nodes of a constraint graph.
    fn eval_nodes(
        &self,
        openings: &TraceOpenings,
        public_values: &Vec<BabyBear>,
        nodes: &Vec<Self::Node>,
    ) -> Vec<EF>;

    /// Verifies the reduction of column values to values of stacked columns. Gives back the point
    /// that those speak of.
    fn verify_stacked_reduction(
        &self,
        transcript: TS,
        proof: &StackingProof<Self::Rounds>,
        layouts: &Vec<StackedLayout>,
        need_rot_per_commit: &Vec<Vec<bool>>,
        l_skip: usize,
        n_stack: usize,
        column_openings: &Vec<Vec<Vec<EF>>>,
        r: &Vec<EF>,
        omega_skip_pows: &Vec<BabyBear>,
    ) -> (TS, Result<Vec<EF>, Self::StackingRejection>);
}

} // verus!
