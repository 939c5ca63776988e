//! Verifying keys.

use vstd::prelude::*;

use crate::field::P;
use crate::params::SystemParams;

verus! {

/// The commitment to a preprocessed trace.
pub struct VerifierSinglePreprocessedData<Digest> {
    pub commit: Digest,
    /// The log height of the trace, less `l_skip`.
    pub hypercube_dim: isize,
}

/// The widths of the parts of a trace.
pub struct TraceWidth {
    pub preprocessed: Option<usize>,
    pub cached_mains: Vec<usize>,
    pub common_main: usize,
}

/// What the verifier knows of the trace of an AIR.
pub struct StarkVerifyingParams {
    pub width: TraceWidth,
    pub num_public_values: usize,
    /// Whether constraints speak of the next row.
    pub need_rot: bool,
}

/// An interaction, whose parts are nodes of the constraint graph.
pub struct SymbolicInteraction {
    pub message: Vec<usize>,
    pub count: usize,
    pub bus_index: u16,
}

/// The expressions of an AIR as a graph; some of its nodes are constraints.
pub struct SymbolicExpressionDag<Node> {
    pub nodes: Vec<Node>,
    pub constraint_idx: Vec<usize>,
}

/// The constraints and interactions of an AIR. The graph holds the expressions of both.
pub struct SymbolicConstraintsDag<Node> {
    pub constraints: SymbolicExpressionDag<Node>,
    pub interactions: Vec<SymbolicInteraction>,
}

/// The verifying key of one AIR.
pub struct StarkVerifyingKey<Digest, Node> {
    pub preprocessed_data: Option<VerifierSinglePreprocessedData<Digest>>,
    pub params: StarkVerifyingParams,
    pub symbolic_constraints: SymbolicConstraintsDag<Node>,
    /// Whether every proof has a trace of this AIR.
    pub is_required: bool,
}

/// A bound on a weighted sum of trace heights.
pub struct LinearConstraint {
    /// The weight of each AIR.
    pub coefficients: Vec<u32>,
    /// The sum is below this.
    pub threshold: u32,
}

/// The verifying key of several AIRs.
pub struct MultiStarkVerifyingKey0<Digest, Node> {
    pub params: SystemParams,
    pub per_air: Vec<StarkVerifyingKey<Digest, Node>>,
    pub trace_height_constraints: Vec<LinearConstraint>,
}

/// The verifying key of several AIRs, with its hash.
pub struct MultiStarkVerifyingKey<Digest, Node> {
    pub inner: MultiStarkVerifyingKey0<Digest, Node>,
    pub pre_hash: Digest,
}

impl<Digest, Node> StarkVerifyingKey<Digest, Node> {
    /// Whether the parts of the key fit together: a preprocessed trace has a width, and the
    /// constraints only speak of nodes of their graph.
    pub open spec fn wf(&self) -> bool {
        &&& self.preprocessed_data is Some ==> self.params.width.preprocessed is Some
        &&& self.params.width.cached_mains@.len() + 2 <= usize::MAX
        &&& self.symbolic_constraints.wf()
    }
}

impl<Digest, Node> MultiStarkVerifyingKey0<Digest, Node> {
    /// Whether the key is valid: its parameters and the keys of the AIRs are, and each constraint
    /// on trace heights has a weight for each AIR.
    pub open spec fn wf(&self) -> bool {
        let num_airs = self.per_air@.len();
        &&& self.params.wf()
        &&& self.params.max_constraint_degree + 1 < P
        &&& forall|a: int| 0 <= a < num_airs ==> (#[trigger] self.per_air@[a]).wf()
        &&& forall|a: int|
            0 <= a < num_airs ==> ((#[trigger] self.per_air@[a]).preprocessed_data matches Some(p)
                ==> p.hypercube_dim + self.params.l_skip <= isize::MAX)
        &&& forall|c: int|
            0 <= c < self.trace_height_constraints@.len() ==> (
            #[trigger] self.trace_height_constraints@[c]).coefficients@.len() >= num_airs
    }
}

impl<Node> SymbolicConstraintsDag<Node> {
    /// Whether constraints and interactions only speak of nodes of the graph.
    pub open spec fn wf(&self) -> bool {
        let n = self.constraints.nodes@.len();
        &&& forall|i: int|
            0 <= i < self.constraints.constraint_idx@.len() ==> (
            #[trigger] self.constraints.constraint_idx@[i]) < n
        &&& forall|i: int|
            0 <= i < self.interactions@.len() ==> #[trigger] self.interactions@[i].wf(n)
    }
}

impl SymbolicInteraction {
    /// Whether the interaction only speaks of the first `n` nodes.
    pub open spec fn wf(&self, n: nat) -> bool {
        &&& self.count < n
        &&& forall|i: int| 0 <= i < self.message@.len() ==> (#[trigger] self.message@[i]) < n
    }
}

} // verus!
