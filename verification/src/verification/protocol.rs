//! Verification of a whole proof.

use vstd::arithmetic::power2::*;
use vstd::prelude::*;
use vstd::std_specs::cmp::PartialEqSpec;

use crate::bits::{lemma_pow2_mono, lemma_usize_bits, pow2_usize};
use crate::digest_layers::views;
use crate::field::{bb, f_generator, BabyBear, EF};
use crate::hasher::MerkleHasher;
use crate::keys::{LinearConstraint, MultiStarkVerifyingKey, MultiStarkVerifyingKey0};
use crate::meter;
use crate::params::{StarkProtocolConfig, SystemParams};
use crate::poly::{base_powers, exp_powers_of_2, powers_base, repeated_squares};
use crate::proofs::{Proof, TraceVData};
use crate::stacked_layout::StackedLayout;
use crate::transcript::FiatShamirTranscript;
use crate::verification::batch_constraints::{
    may_return, returns_right_sizes, verify_zerocheck_and_logup, BatchConstraintError, BatchInputs,
};
use crate::verification::proof_shape::{
    air_vdata_shape, are_layouts_of, commit_dims, height_of, largest_n, shape_error,
    trace_openings_shape, trace_order, vdata_shape, verify_proof_shape, ProofShapeError,
};
use crate::verification::subprotocols::SubProtocols;
use crate::verification::trace_order::{
    is_trace_order, log_height, order_traces, precedes, present, sum_over,
    trace_order_is_unique,
};
use crate::verification::whir::{verify_whir, whir_outcome, VerifyWhirError, WhirInputs};

verus! {

/// Why a proof is refused.
#[derive(Copy, Clone, Debug, PartialEq, Eq)]
pub enum VerifierError<GkrRejection, StackingRejection> {
    /// The protocol and the verifying key have different parameters.
    SystemParamsMismatch,
    /// The traces are too high.
    TraceHeightsTooLarge,
    /// A preprocessed trace has another height than the proof says.
    PreprocessedTraceHeightMismatch,
    /// The proof has no traces.
    EmptyTraces,
    /// A part of the proof has the wrong size.
    ProofShapeError(ProofShapeError),
    /// The batched constraints are refused.
    BatchConstraintError(BatchConstraintError<GkrRejection>),
    /// The reduction to stacked columns is refused.
    StackedReductionError(StackingRejection),
    /// The WHIR proof is refused.
    WhirError(VerifyWhirError),
}

/// The number of rows of a trace, lifted to the univariate domain, with a weight.
pub open spec fn weighted_height<D>(
    vdata: Seq<Option<TraceVData<D>>>,
    l_skip: usize,
    constraint: LinearConstraint,
) -> spec_fn(int) -> nat {
    |a: int|
        pow2(
            if log_height(vdata, a) >= l_skip {
                log_height(vdata, a) as nat
            } else {
                l_skip as nat
            },
        ) * constraint.coefficients@[a] as nat
}

/// Whether the weighted sum of the trace heights is below the threshold.
pub open spec fn height_bounded<D>(
    vdata: Seq<Option<TraceVData<D>>>,
    ids: Seq<usize>,
    l_skip: usize,
    constraint: LinearConstraint,
) -> bool {
    sum_over(ids, weighted_height(vdata, l_skip, constraint)) < constraint.threshold
}

/// Whether all constraints on trace heights hold.
pub open spec fn heights_bounded<D, N>(
    mvk: &MultiStarkVerifyingKey0<D, N>,
    vdata: Seq<Option<TraceVData<D>>>,
    ids: Seq<usize>,
) -> bool {
    forall|c: int|
        0 <= c < mvk.trace_height_constraints@.len() ==> height_bounded(
            vdata,
            ids,
            mvk.params.l_skip,
            #[trigger] mvk.trace_height_constraints@[c],
        )
}

/// The state after all of `values` were observed.
pub open spec fn all_observed<D, TS: FiatShamirTranscript<D>>(
    s: TS::State,
    values: Seq<BabyBear>,
) -> TS::State
    decreases values.len(),
{
    if values.len() == 0 {
        s
    } else {
        TS::observed(all_observed::<D, TS>(s, values.drop_last()), values.last())
    }
}

/// The state after all of `digests` were observed.
pub open spec fn all_committed<D, TS: FiatShamirTranscript<D>>(
    s: TS::State,
    digests: Seq<D>,
) -> TS::State
    decreases digests.len(),
{
    if digests.len() == 0 {
        s
    } else {
        TS::committed(all_committed::<D, TS>(s, digests.drop_last()), digests.last())
    }
}

/// The state after what is told of AIR `a` was observed, and whether its preprocessed trace, if
/// it has one, is as high as the proof says.
pub open spec fn air_observed<D, TS: FiatShamirTranscript<D>, N, L, R>(
    s: TS::State,
    mvk: &MultiStarkVerifyingKey0<D, N>,
    proof: &Proof<D, L, R>,
    a: int,
) -> (TS::State, bool) {
    let vk = mvk.per_air@[a];
    let s1 = if vk.is_required {
        s
    } else {
        TS::observed(s, bb(if proof.trace_vdata@[a] is Some { 1 } else { 0 }))
    };
    match proof.trace_vdata@[a] {
        None => (all_observed::<D, TS>(s1, proof.public_values@[a]@), true),
        Some(v) => {
            let fits = match vk.preprocessed_data {
                Some(p) => p.hypercube_dim + mvk.params.l_skip == v.log_height,
                None => true,
            };
            if !fits {
                (s1, false)
            } else {
                let s2 = match vk.preprocessed_data {
                    Some(p) => TS::committed(s1, p.commit),
                    None => TS::observed(s1, bb(v.log_height as int)),
                };
                let s3 = all_committed::<D, TS>(s2, v.cached_commitments@);
                (all_observed::<D, TS>(s3, proof.public_values@[a]@), true)
            }
        },
    }
}

/// The state after the key, the common commitment and what is told of the first `n` AIRs were
/// observed, and whether their preprocessed traces are as high as the proof says.
pub open spec fn preamble<D, TS: FiatShamirTranscript<D>, N, L, R>(
    s: TS::State,
    mvk: &MultiStarkVerifyingKey<D, N>,
    proof: &Proof<D, L, R>,
    n: nat,
) -> (TS::State, bool)
    decreases n,
{
    if n == 0 {
        (TS::committed(TS::committed(s, mvk.pre_hash), proof.common_main_commit), true)
    } else {
        let prev = preamble::<D, TS, N, L, R>(s, mvk, proof, (n - 1) as nat);
        if !prev.1 {
            prev
        } else {
            air_observed::<D, TS, N, L, R>(prev.0, &mvk.inner, proof, n - 1)
        }
    }
}

/// For each trace its log height, less `l_skip`.
pub open spec fn are_ns_of<D>(
    ns: Seq<isize>,
    vdata: Seq<Option<TraceVData<D>>>,
    ids: Seq<usize>,
    l_skip: usize,
) -> bool {
    &&& ns.len() == ids.len()
    &&& forall|t: int|
        0 <= t < ids.len() ==> (#[trigger] ns[t]) == log_height(vdata, ids[t] as int) - l_skip
}

/// For each commitment of the first `n` traces other than the common one, whether the columns
/// under it are rotated.
pub open spec fn other_rots<D, N>(
    mvk: &MultiStarkVerifyingKey0<D, N>,
    vdata: Seq<Option<TraceVData<D>>>,
    ids: Seq<usize>,
    n: int,
) -> Seq<Seq<bool>>
    decreases n,
{
    if n <= 0 {
        Seq::empty()
    } else {
        let a = ids[n - 1] as int;
        let vk = mvk.per_air@[a];
        let count = (if vk.preprocessed_data is Some {
            1nat
        } else {
            0nat
        }) + vdata[a]->0.cached_commitments@.len();
        other_rots(mvk, vdata, ids, n - 1) + Seq::new(count, |i: int| seq![vk.params.need_rot])
    }
}

/// For each commitment and each matrix under it, whether its columns are rotated.
pub open spec fn commit_rots<D, N>(
    mvk: &MultiStarkVerifyingKey0<D, N>,
    vdata: Seq<Option<TraceVData<D>>>,
    ids: Seq<usize>,
) -> Seq<Seq<bool>> {
    seq![Seq::new(ids.len(), |t: int| mvk.per_air@[ids[t] as int].params.need_rot)]
        + other_rots(mvk, vdata, ids, ids.len() as int)
}

/// The commitments to the parts of the first `n` traces other than the common main parts.
pub open spec fn other_commits<D, N>(
    mvk: &MultiStarkVerifyingKey0<D, N>,
    vdata: Seq<Option<TraceVData<D>>>,
    ids: Seq<usize>,
    n: int,
) -> Seq<D>
    decreases n,
{
    if n <= 0 {
        Seq::empty()
    } else {
        let a = ids[n - 1] as int;
        let preprocessed = match mvk.per_air@[a].preprocessed_data {
            Some(p) => seq![p.commit],
            None => Seq::empty(),
        };
        other_commits(mvk, vdata, ids, n - 1) + preprocessed + vdata[a]->0.cached_commitments@
    }
}

/// All commitments: the common one first, then, trace by trace, the preprocessed one and the
/// cached ones.
pub open spec fn all_commits<D, N, L, R>(
    mvk: &MultiStarkVerifyingKey0<D, N>,
    proof: &Proof<D, L, R>,
    ids: Seq<usize>,
) -> Seq<D> {
    seq![proof.common_main_commit] + other_commits(
        mvk,
        proof.trace_vdata@,
        ids,
        ids.len() as int,
    )
}

/// The point of the stacked columns in multilinear form: the univariate coordinate becomes its
/// repeated squares.
pub open spec fn cube_point(u_prism: Seq<EF>, l_skip: nat) -> Seq<EF> {
    repeated_squares(u_prism[0], l_skip) + u_prism.skip(1)
}

/// Whether `inputs` are what the WHIR proof is verified against.
pub open spec fn are_whir_inputs<H: MerkleHasher, N, L, R>(
    inputs: WhirInputs<H>,
    params: SystemParams,
    hasher: H,
    mvk: &MultiStarkVerifyingKey0<H::Digest, N>,
    proof: &Proof<H::Digest, L, R>,
) -> bool {
    &&& *inputs.params == params
    &&& *inputs.hasher == hasher
    &&& *inputs.proof == proof.whir_proof
    &&& inputs.openings@ == proof.stacking_proof.stacking_openings@
    &&& inputs.commitments@ == all_commits(mvk, proof, trace_order(proof.trace_vdata@))
}

/// Whether `out` is the outcome once the column values were reduced to stacked columns at the
/// point `u_prism`: that of the verification of the WHIR proof.
pub open spec fn may_open<
    H: MerkleHasher<F = BabyBear>,
    TS: FiatShamirTranscript<H::Digest>,
    S: SubProtocols<TS>,
>(
    params: SystemParams,
    hasher: H,
    mvk: &MultiStarkVerifyingKey0<H::Digest, S::Node>,
    proof: &Proof<H::Digest, S::Layers, S::Rounds>,
    state: TS::State,
    u_prism: Seq<EF>,
    out: (TS, Result<(), VerifierError<S::GkrRejection, S::StackingRejection>>),
) -> bool where H::Digest: Eq {
    exists|inputs: WhirInputs<H>|
        {
            let outcome = whir_outcome::<H, TS>(
                inputs,
                state,
                cube_point(u_prism, params.l_skip as nat),
            );
            &&& #[trigger] are_whir_inputs(inputs, params, hasher, mvk, proof)
            &&& out.0.state() == outcome.0
            &&& out.1 == (match outcome.1 {
                Some(e) => Err::<(), VerifierError<S::GkrRejection, S::StackingRejection>>(
                    VerifierError::WhirError(e),
                ),
                None => Ok(()),
            })
        }
}

/// Whether `st` is what the reduction to stacked columns may give, from the state `state`.
pub open spec fn may_reduce<D, TS: FiatShamirTranscript<D>, S: SubProtocols<TS>>(
    sub: &S,
    mvk: &MultiStarkVerifyingKey0<D, S::Node>,
    proof: &Proof<D, S::Layers, S::Rounds>,
    state: TS::State,
    r: Vec<EF>,
    omega_skip_pows: Vec<BabyBear>,
    st: (TS, Result<Vec<EF>, S::StackingRejection>),
) -> bool {
    let ids = trace_order(proof.trace_vdata@);
    exists|t: TS, layouts: Vec<StackedLayout>, rots: Vec<Vec<bool>>|
        {
            &&& t.state() == state
            &&& are_layouts_of(
                layouts@,
                &mvk.params,
                commit_dims(mvk, proof.trace_vdata@, ids),
            )
            &&& views(rots@) == commit_rots(mvk, proof.trace_vdata@, ids)
            &&& #[trigger] call_ensures(
                S::verify_stacked_reduction,
                (
                    sub,
                    t,
                    &proof.stacking_proof,
                    &layouts,
                    &rots,
                    mvk.params.l_skip,
                    mvk.params.n_stack,
                    &proof.batch_constraint_proof.column_openings,
                    &r,
                    &omega_skip_pows,
                ),
                st,
            )
        }
}

/// Whether `out` may be the outcome once the batched constraints were verified with the outcome
/// `checked`.
pub open spec fn may_go_on<
    H: MerkleHasher<F = BabyBear>,
    TS: FiatShamirTranscript<H::Digest>,
    S: SubProtocols<TS>,
>(
    sub: &S,
    params: SystemParams,
    hasher: H,
    mvk: &MultiStarkVerifyingKey0<H::Digest, S::Node>,
    proof: &Proof<H::Digest, S::Layers, S::Rounds>,
    omega_skip_pows: Vec<BabyBear>,
    checked: (TS, Result<Vec<EF>, BatchConstraintError<S::GkrRejection>>),
    out: (TS, Result<(), VerifierError<S::GkrRejection, S::StackingRejection>>),
) -> bool where H::Digest: Eq {
    match checked.1 {
        Err(e) => out.0.state() == checked.0.state() && out.1 == Err::<
            (),
            VerifierError<S::GkrRejection, S::StackingRejection>,
        >(VerifierError::BatchConstraintError(e)),
        Ok(r) => exists|st: (TS, Result<Vec<EF>, S::StackingRejection>)|
            {
                &&& #[trigger] may_reduce::<H::Digest, TS, S>(
                    sub,
                    mvk,
                    proof,
                    checked.0.state(),
                    r,
                    omega_skip_pows,
                    st,
                )
                &&& match st.1 {
                    Err(e) => out.0.state() == st.0.state() && out.1 == Err::<
                        (),
                        VerifierError<S::GkrRejection, S::StackingRejection>,
                    >(VerifierError::StackedReductionError(e)),
                    Ok(u_prism) => may_open::<H, TS, S>(
                        params,
                        hasher,
                        mvk,
                        proof,
                        st.0.state(),
                        u_prism@,
                        out,
                    ),
                }
            },
    }
}

/// Whether `checked` is what the verification of the batched constraints may give, from the state
/// `state`.
pub open spec fn may_check<D, TS: FiatShamirTranscript<D>, S: SubProtocols<TS>>(
    sub: &S,
    mvk: &MultiStarkVerifyingKey0<D, S::Node>,
    proof: &Proof<D, S::Layers, S::Rounds>,
    state: TS::State,
    omega_skip_pows: Vec<BabyBear>,
    checked: (TS, Result<Vec<EF>, BatchConstraintError<S::GkrRejection>>),
) -> bool {
    exists|ids: Vec<usize>, ns: Vec<isize>|
        {
            &&& ids@ == trace_order(proof.trace_vdata@)
            &&& are_ns_of(ns@, proof.trace_vdata@, ids@, mvk.params.l_skip)
            &&& #[trigger] may_return::<D, TS, S>(
                sub,
                (BatchInputs {
                    mvk,
                    public_values: &proof.public_values,
                    proof: &proof.batch_constraint_proof,
                    trace_id_to_air_id: &ids,
                    n_per_trace: &ns,
                }),
                &proof.gkr_proof,
                &omega_skip_pows,
                state,
                checked,
            )
        }
}

/// Whether `out` may be the outcome once the preamble was observed.
pub open spec fn may_finish<
    H: MerkleHasher<F = BabyBear>,
    TS: FiatShamirTranscript<H::Digest>,
    S: SubProtocols<TS>,
>(
    sub: &S,
    params: SystemParams,
    hasher: H,
    mvk: &MultiStarkVerifyingKey0<H::Digest, S::Node>,
    proof: &Proof<H::Digest, S::Layers, S::Rounds>,
    state: TS::State,
    out: (TS, Result<(), VerifierError<S::GkrRejection, S::StackingRejection>>),
) -> bool where H::Digest: Eq {
    exists|
        omega_skip_pows: Vec<BabyBear>,
        checked: (TS, Result<Vec<EF>, BatchConstraintError<S::GkrRejection>>),
    |
        {
            &&& omega_skip_pows@ == base_powers(
                f_generator(mvk.params.l_skip as nat),
                pow2(mvk.params.l_skip as nat),
            )
            &&& #[trigger] may_check::<H::Digest, TS, S>(
                sub,
                mvk,
                proof,
                state,
                omega_skip_pows,
                checked,
            )
            &&& may_go_on::<H, TS, S>(
                sub,
                params,
                hasher,
                mvk,
                proof,
                omega_skip_pows,
                checked,
                out,
            )
        }
}

/// Whether the proof has no traces.
pub open spec fn has_no_traces<D>(vdata: Seq<Option<TraceVData<D>>>) -> bool {
    forall|a: int| !present(vdata, a)
}

/// Whether `out` may be the outcome of the verification of a proof from the state `s`. Where the
/// proof is refused before anything is observed, the state stays as it is.
pub open spec fn may_verify<
    H: MerkleHasher<F = BabyBear>,
    TS: FiatShamirTranscript<H::Digest>,
    S: SubProtocols<TS>,
>(
    sub: &S,
    params: SystemParams,
    hasher: H,
    mvk: &MultiStarkVerifyingKey<H::Digest, S::Node>,
    proof: &Proof<H::Digest, S::Layers, S::Rounds>,
    s: TS::State,
    out: (TS, Result<(), VerifierError<S::GkrRejection, S::StackingRejection>>),
) -> bool where H::Digest: Eq {
    let inner = &mvk.inner;
    let vdata = proof.trace_vdata@;
    let refused = |e: VerifierError<S::GkrRejection, S::StackingRejection>, state: TS::State|
        out.0.state() == state && out.1 == Err::<
            (),
            VerifierError<S::GkrRejection, S::StackingRejection>,
        >(e);
    if !params.same(&inner.params) {
        refused(VerifierError::SystemParamsMismatch, s)
    } else if has_no_traces(vdata) {
        refused(VerifierError::EmptyTraces, s)
    } else if shape_error(inner, proof) is Some {
        refused(VerifierError::ProofShapeError(shape_error(inner, proof)->0), s)
    } else if !heights_bounded(inner, vdata, trace_order(vdata)) {
        refused(VerifierError::TraceHeightsTooLarge, s)
    } else {
        let observed = preamble::<H::Digest, TS, S::Node, S::Layers, S::Rounds>(
            s,
            mvk,
            proof,
            inner.per_air@.len(),
        );
        if !observed.1 {
            refused(VerifierError::PreprocessedTraceHeightMismatch, observed.0)
        } else {
            may_finish::<H, TS, S>(sub, params, hasher, inner, proof, observed.0, out)
        }
    }
}

/// Whether the proof passes all checks that come before the batched constraints.
pub open spec fn reaches_constraints<D, TS: FiatShamirTranscript<D>, N, L, R>(
    params: SystemParams,
    mvk: &MultiStarkVerifyingKey<D, N>,
    proof: &Proof<D, L, R>,
    s: TS::State,
) -> bool {
    let vdata = proof.trace_vdata@;
    &&& params.same(&mvk.inner.params)
    &&& !has_no_traces(vdata)
    &&& shape_error(&mvk.inner, proof) is None
    &&& heights_bounded(&mvk.inner, vdata, trace_order(vdata))
    &&& preamble::<D, TS, N, L, R>(s, mvk, proof, mvk.inner.per_air@.len()).1
}

/// Whether what the sub-protocols return for this proof has the sizes that the verification relies
/// on: those that the batched constraints rely on, and the point of the stacked columns has one
/// univariate and `n_stack` other coordinates.
pub open spec fn has_right_sizes<D, TS: FiatShamirTranscript<D>, S: SubProtocols<TS>>(
    sub: &S,
    mvk: &MultiStarkVerifyingKey0<D, S::Node>,
    proof: &Proof<D, S::Layers, S::Rounds>,
) -> bool {
    &&& forall|ids: Vec<usize>, ns: Vec<isize>|
        ids@ == trace_order(proof.trace_vdata@) && #[trigger] are_ns_of(
            ns@,
            proof.trace_vdata@,
            ids@,
            mvk.params.l_skip,
        ) ==> returns_right_sizes::<D, TS, S>(
            sub,
            (BatchInputs {
                mvk,
                public_values: &proof.public_values,
                proof: &proof.batch_constraint_proof,
                trace_id_to_air_id: &ids,
                n_per_trace: &ns,
            }),
            &proof.gkr_proof,
        )
    &&& forall|
        state: TS::State,
        r: Vec<EF>,
        omega_skip_pows: Vec<BabyBear>,
        st: (TS, Result<Vec<EF>, S::StackingRejection>),
    | #[trigger]
        may_reduce::<D, TS, S>(sub, mvk, proof, state, r, omega_skip_pows, st) ==> (
        st.1 matches Ok(u) ==> u@.len() == mvk.params.n_stack + 1)
}

/// The number of rows that the interactions of an AIR take up, its trace lifted to the univariate
/// domain.
pub open spec fn interaction_height<D, N>(
    mvk: &MultiStarkVerifyingKey0<D, N>,
    vdata: Seq<Option<TraceVData<D>>>,
) -> spec_fn(int) -> nat {
    |a: int|
        mvk.per_air@[a].symbolic_constraints.interactions@.len() * pow2(
            if log_height(vdata, a) >= mvk.params.l_skip {
                log_height(vdata, a) as nat
            } else {
                mvk.params.l_skip as nat
            },
        )
}

/// Whether the rows that the interactions of all traces take up can be counted.
pub open spec fn interactions_fit<D, N>(
    mvk: &MultiStarkVerifyingKey0<D, N>,
    vdata: Seq<Option<TraceVData<D>>>,
) -> bool {
    sum_over(trace_order(vdata), interaction_height(mvk, vdata)) <= u64::MAX
}

/// The rows that the interactions of the first `n` traces take up, as a sum over their AIRs.
proof fn lemma_interaction_rows<D, N>(
    inputs: BatchInputs<D, N>,
    vdata: Seq<Option<TraceVData<D>>>,
    n: int,
)
    requires
        0 <= n <= inputs.num_traces(),
        are_ns_of(
            inputs.n_per_trace@,
            vdata,
            inputs.trace_id_to_air_id@,
            inputs.mvk.params.l_skip,
        ),
    ensures
        inputs.interaction_rows(n) == sum_over(
            inputs.trace_id_to_air_id@.take(n),
            interaction_height(inputs.mvk, vdata),
        ),
    decreases n,
{
    let ids = inputs.trace_id_to_air_id@;
    if n > 0 {
        lemma_interaction_rows(inputs, vdata, n - 1);
        assert(ids.take(n).drop_last() =~= ids.take(n - 1));
        let a = ids[n - 1] as int;
        assert(inputs.n_per_trace@[n - 1] == log_height(vdata, a) - inputs.mvk.params.l_skip);
    } else {
        assert(ids.take(0) =~= Seq::empty());
    }
}

proof fn lemma_n_max<D, N>(
    inputs: BatchInputs<D, N>,
    vdata: Seq<Option<TraceVData<D>>>,
    n: int,
)
    requires
        1 <= n <= inputs.num_traces(),
        is_trace_order(inputs.trace_id_to_air_id@, vdata),
        are_ns_of(
            inputs.n_per_trace@,
            vdata,
            inputs.trace_id_to_air_id@,
            inputs.mvk.params.l_skip,
        ),
    ensures
        inputs.max_lift(n) == largest_n(
            vdata,
            inputs.trace_id_to_air_id@,
            inputs.mvk.params.l_skip as nat,
        ),
    decreases n,
{
    let ids = inputs.trace_id_to_air_id@;
    assert(inputs.n_per_trace@[n - 1] == log_height(vdata, ids[n - 1] as int)
        - inputs.mvk.params.l_skip);
    if n > 1 {
        lemma_n_max(inputs, vdata, n - 1);
        assert(precedes(vdata, ids[0] as int, ids[n - 1] as int));
    } else {
        assert(inputs.max_lift(0) == 0);
    }
}

/// What the shape of the proof says of the inputs of the batched constraints.
proof fn lemma_batch_inputs<D, N, L, R>(
    inputs: BatchInputs<D, N>,
    mvk: &MultiStarkVerifyingKey0<D, N>,
    proof: &Proof<D, L, R>,
)
    requires
        mvk.wf(),
        interactions_fit(mvk, proof.trace_vdata@),
        shape_error(mvk, proof) is None,
        *inputs.mvk == *mvk,
        *inputs.public_values == proof.public_values,
        *inputs.proof == proof.batch_constraint_proof,
        inputs.trace_id_to_air_id@ == trace_order(proof.trace_vdata@),
        is_trace_order(inputs.trace_id_to_air_id@, proof.trace_vdata@),
        inputs.num_traces() >= 1,
        are_ns_of(
            inputs.n_per_trace@,
            proof.trace_vdata@,
            inputs.trace_id_to_air_id@,
            mvk.params.l_skip,
        ),
    ensures
        inputs.shape(),
        inputs.n_max() == largest_n(
            proof.trace_vdata@,
            inputs.trace_id_to_air_id@,
            mvk.params.l_skip as nat,
        ),
{
    let vdata = proof.trace_vdata@;
    let ids = inputs.trace_id_to_air_id@;
    let n = inputs.num_traces();
    lemma_n_max(inputs, vdata, n);
    lemma_interaction_rows(inputs, vdata, n);
    assert(ids.take(n) =~= ids);
    lemma_usize_bits();
    assert forall|t: int| 0 <= t < n implies #[trigger] inputs.trace_shape(t) by {
        let a = ids[t] as int;
        assert(air_vdata_shape(mvk, vdata, a));
        assert(mvk.per_air@[a].wf());
        assert(trace_openings_shape(
            mvk.per_air@[a],
            proof.batch_constraint_proof.column_openings@[t]@,
        ));
        assert(inputs.n_per_trace@[t] == log_height(vdata, a) - mvk.params.l_skip);
    }
}

/// Whether all constraints on trace heights hold.
fn check_heights<D, N>(
    mvk: &MultiStarkVerifyingKey0<D, N>,
    vdata: &Vec<Option<TraceVData<D>>>,
    ids: &Vec<usize>,
) -> (r: bool)
    requires
        mvk.wf(),
        vdata_shape(mvk, vdata@),
        is_trace_order(ids@, vdata@),
    ensures
        r == heights_bounded(mvk, vdata@, ids@),
{
    let l_skip = mvk.params.l_skip;
    let mut c: usize = 0;
    while c < mvk.trace_height_constraints.len()
        invariant
            c <= mvk.trace_height_constraints@.len(),
            l_skip == mvk.params.l_skip,
            mvk.wf(),
            vdata_shape(mvk, vdata@),
            is_trace_order(ids@, vdata@),
            forall|d: int|
                0 <= d < c ==> height_bounded(
                    vdata@,
                    ids@,
                    mvk.params.l_skip,
                    #[trigger] mvk.trace_height_constraints@[d],
                ),
        decreases mvk.trace_height_constraints@.len() - c,
    {
        let constraint = &mvk.trace_height_constraints[c];
        let ghost f = weighted_height(vdata@, l_skip, *constraint);
        let threshold = constraint.threshold as u64;
        proof {
            assert(ids@.take(0) =~= Seq::empty());
        }
        let mut sum: u64 = 0;
        let mut t: usize = 0;
        while t < ids.len() && sum < threshold
            invariant
                t <= ids@.len(),
                l_skip == mvk.params.l_skip,
                threshold == constraint.threshold,
                mvk.wf(),
                vdata_shape(mvk, vdata@),
                is_trace_order(ids@, vdata@),
                f == weighted_height(vdata@, l_skip, *constraint),
                constraint.coefficients@.len() >= mvk.per_air@.len(),
                sum == sum_over(ids@.take(t as int), f),
            decreases ids@.len() - t,
        {
            let a = ids[t];
            let height = height_of(vdata, a);
            let log_rows = if height >= l_skip {
                height
            } else {
                l_skip
            };
            proof {
                assert(air_vdata_shape(mvk, vdata@, a as int));
                lemma_usize_bits();
                lemma_pow2_mono(log_rows as nat, mvk.params.num_vars() as nat);
                lemma_pow2_mono(mvk.params.num_vars() as nat, 27);
                lemma2_to64();
                assert(ids@.take(t + 1).drop_last() =~= ids@.take(t as int));
            }
            let rows = pow2_usize(log_rows);
            let weight = constraint.coefficients[a];
            proof {
                assert(0 <= rows * weight <= 0x800_0000 * 0xffff_ffff) by (nonlinear_arith)
                    requires
                        0 <= rows <= 0x800_0000,
                        0 <= weight <= 0xffff_ffff,
                ;
            }
            sum = sum + rows as u64 * weight as u64;
            t = t + 1;
        }
        proof {
            lemma_sum_take(ids@, f, t as int);
            if sum < threshold {
                assert(ids@.take(t as int) =~= ids@);
            }
        }
        if sum >= threshold {
            assert(!height_bounded(
                vdata@,
                ids@,
                mvk.params.l_skip,
                mvk.trace_height_constraints@[c as int],
            ));
            return false;
        }
        c = c + 1;
    }
    true
}

proof fn lemma_sum_take(ids: Seq<usize>, f: spec_fn(int) -> nat, n: int)
    requires
        0 <= n <= ids.len(),
    ensures
        sum_over(ids.take(n), f) <= sum_over(ids, f),
    decreases ids.len() - n,
{
    if n == ids.len() {
        assert(ids.take(n) =~= ids);
    } else {
        lemma_sum_take(ids, f, n + 1);
        assert(ids.take(n + 1).drop_last() =~= ids.take(n));
    }
}

fn observe_all<D, TS: FiatShamirTranscript<D>>(transcript: &mut TS, values: &Vec<BabyBear>)
    ensures
        final(transcript).state() == all_observed::<D, TS>(old(transcript).state(), values@),
{
    let ghost s0 = transcript.state();
    let mut i: usize = 0;
    assert(values@.take(0).len() == 0);
    while i < values.len()
        invariant
            i <= values@.len(),
            transcript.state() == all_observed::<D, TS>(s0, values@.take(i as int)),
        decreases values@.len() - i,
    {
        transcript.observe(values[i]);
        assert(values@.take(i + 1).drop_last() =~= values@.take(i as int));
        i = i + 1;
    }
    assert(values@.take(i as int) =~= values@);
}

fn commit_all<D: Copy, TS: FiatShamirTranscript<D>>(transcript: &mut TS, digests: &Vec<D>)
    ensures
        final(transcript).state() == all_committed::<D, TS>(old(transcript).state(), digests@),
{
    let ghost s0 = transcript.state();
    let mut i: usize = 0;
    assert(digests@.take(0).len() == 0);
    while i < digests.len()
        invariant
            i <= digests@.len(),
            transcript.state() == all_committed::<D, TS>(s0, digests@.take(i as int)),
        decreases digests@.len() - i,
    {
        transcript.observe_commit(digests[i]);
        assert(digests@.take(i + 1).drop_last() =~= digests@.take(i as int));
        i = i + 1;
    }
    assert(digests@.take(i as int) =~= digests@);
}

/// Observes what is told of AIR `a`. Gives back whether its preprocessed trace, if it has one, is
/// as high as the proof says.
fn observe_air<D: Copy, TS: FiatShamirTranscript<D>, N, L, R>(
    transcript: &mut TS,
    mvk: &MultiStarkVerifyingKey0<D, N>,
    proof: &Proof<D, L, R>,
    a: usize,
) -> (ok: bool)
    requires
        mvk.wf(),
        vdata_shape(mvk, proof.trace_vdata@),
        proof.public_values@.len() == mvk.per_air@.len(),
        a < mvk.per_air@.len(),
    ensures
        (final(transcript).state(), ok) == air_observed::<D, TS, N, L, R>(
            old(transcript).state(),
            mvk,
            proof,
            a as int,
        ),
{
    let l_skip = mvk.params.l_skip;
    let vk = &mvk.per_air[a];
    proof {
        assert(mvk.per_air@[a as int].wf());
        assert(air_vdata_shape(mvk, proof.trace_vdata@, a as int));
    }
    if !vk.is_required {
        transcript.observe(BabyBear::from_bool(proof.trace_vdata[a].is_some()));
    }
    match &proof.trace_vdata[a] {
        Some(v) => {
            match &vk.preprocessed_data {
                Some(p) => {
                    if p.hypercube_dim + l_skip as isize != v.log_height as isize {
                        return false;
                    }
                    transcript.observe_commit(p.commit);
                },
                None => {
                    transcript.observe(BabyBear::from_usize(v.log_height));
                },
            }
            commit_all::<D, TS>(transcript, &v.cached_commitments);
        },
        None => {},
    }
    observe_all::<D, TS>(transcript, &proof.public_values[a]);
    true
}

fn observe_preamble<D: Copy, TS: FiatShamirTranscript<D>, N, L, R>(
    transcript: &mut TS,
    mvk: &MultiStarkVerifyingKey<D, N>,
    proof: &Proof<D, L, R>,
) -> (ok: bool)
    requires
        mvk.inner.wf(),
        vdata_shape(&mvk.inner, proof.trace_vdata@),
        proof.public_values@.len() == mvk.inner.per_air@.len(),
    ensures
        (final(transcript).state(), ok) == preamble::<D, TS, N, L, R>(
            old(transcript).state(),
            mvk,
            proof,
            mvk.inner.per_air@.len(),
        ),
{
    let ghost s0 = transcript.state();
    let n = mvk.inner.per_air.len();
    transcript.observe_commit(mvk.pre_hash);
    transcript.observe_commit(proof.common_main_commit);
    let mut a: usize = 0;
    while a < n
        invariant
            a <= n,
            n == mvk.inner.per_air@.len(),
            s0 == old(transcript).state(),
            mvk.inner.wf(),
            vdata_shape(&mvk.inner, proof.trace_vdata@),
            proof.public_values@.len() == mvk.inner.per_air@.len(),
            (transcript.state(), true) == preamble::<D, TS, N, L, R>(s0, mvk, proof, a as nat),
        decreases n - a,
    {
        if !observe_air::<D, TS, N, L, R>(transcript, &mvk.inner, proof, a) {
            proof {
                lemma_preamble_stops::<D, TS, N, L, R>(
                    s0,
                    mvk,
                    proof,
                    (a + 1) as nat,
                    n as nat,
                );
            }
            return false;
        }
        a = a + 1;
    }
    true
}

proof fn lemma_preamble_stops<D, TS: FiatShamirTranscript<D>, N, L, R>(
    s: TS::State,
    mvk: &MultiStarkVerifyingKey<D, N>,
    proof: &Proof<D, L, R>,
    m: nat,
    n: nat,
)
    requires
        m <= n,
        !preamble::<D, TS, N, L, R>(s, mvk, proof, m).1,
    ensures
        preamble::<D, TS, N, L, R>(s, mvk, proof, n) == preamble::<D, TS, N, L, R>(
            s,
            mvk,
            proof,
            m,
        ),
    decreases n - m,
{
    if m < n {
        lemma_preamble_stops::<D, TS, N, L, R>(s, mvk, proof, m, (n - 1) as nat);
    }
}

/// For each trace its log height, less `l_skip`.
fn heights_above<D>(vdata: &Vec<Option<TraceVData<D>>>, ids: &Vec<usize>, l_skip: usize) -> (r: Vec<
    isize,
>)
    requires
        is_trace_order(ids@, vdata@),
        l_skip <= 27,
        forall|a: int| present(vdata@, a) ==> #[trigger] log_height(vdata@, a) <= 27,
    ensures
        are_ns_of(r@, vdata@, ids@, l_skip),
{
    let mut r: Vec<isize> = Vec::with_capacity(ids.len());
    let mut t: usize = 0;
    while t < ids.len()
        invariant
            t <= ids@.len(),
            is_trace_order(ids@, vdata@),
            l_skip <= 27,
            forall|a: int| present(vdata@, a) ==> #[trigger] log_height(vdata@, a) <= 27,
            r@.len() == t,
            forall|u: int|
                0 <= u < t ==> (#[trigger] r@[u]) == log_height(vdata@, ids@[u] as int) - l_skip,
        decreases ids@.len() - t,
    {
        let height = height_of(vdata, ids[t]);
        assert(log_height(vdata@, ids@[t as int] as int) <= 27);
        r.push(height as isize - l_skip as isize);
        t = t + 1;
    }
    r
}

fn one_rot(need_rot: bool) -> (r: Vec<bool>)
    ensures
        r@ == seq![need_rot],
{
    let mut r: Vec<bool> = Vec::with_capacity(1);
    r.push(need_rot);
    assert(r@ =~= seq![need_rot]);
    r
}

fn collect_rots<D, N>(
    mvk: &MultiStarkVerifyingKey0<D, N>,
    vdata: &Vec<Option<TraceVData<D>>>,
    ids: &Vec<usize>,
) -> (r: Vec<Vec<bool>>)
    requires
        vdata_shape(mvk, vdata@),
        is_trace_order(ids@, vdata@),
    ensures
        views(r@) == commit_rots(mvk, vdata@, ids@),
{
    let n = ids.len();
    let ghost common = Seq::new(n as nat, |t: int| mvk.per_air@[ids@[t] as int].params.need_rot);
    let mut first: Vec<bool> = Vec::with_capacity(n);
    let mut t: usize = 0;
    while t < n
        invariant
            t <= n,
            n == ids@.len(),
            vdata_shape(mvk, vdata@),
            is_trace_order(ids@, vdata@),
            common == Seq::new(
                n as nat,
                |t: int| mvk.per_air@[ids@[t] as int].params.need_rot,
            ),
            first@.len() == t,
            forall|u: int| 0 <= u < t ==> #[trigger] first@[u] == common[u],
        decreases n - t,
    {
        first.push(mvk.per_air[ids[t]].params.need_rot);
        t = t + 1;
    }
    assert(first@ =~= common);
    let mut r: Vec<Vec<bool>> = Vec::new();
    r.push(first);
    let mut t: usize = 0;
    proof {
        assert(views(r@) =~= seq![common] + other_rots(mvk, vdata@, ids@, 0));
    }
    while t < n
        invariant
            t <= n,
            n == ids@.len(),
            vdata_shape(mvk, vdata@),
            is_trace_order(ids@, vdata@),
            views(r@) == seq![common] + other_rots(mvk, vdata@, ids@, t as int),
        decreases n - t,
    {
        let a = ids[t];
        let vk = &mvk.per_air[a];
        let need_rot = vk.params.need_rot;
        let ghost before = views(r@);
        let ghost mut count: nat = 0;
        proof {
            assert(present(vdata@, a as int));
            assert(before + Seq::new(0, |i: int| seq![need_rot]) =~= before);
        }
        if vk.preprocessed_data.is_some() {
            r.push(one_rot(need_rot));
            proof {
                count = 1;
                assert(views(r@) =~= before + Seq::new(1, |i: int| seq![need_rot]));
            }
        }
        let ghost base = count;
        let cached = match &vdata[a] {
            Some(v) => v.cached_commitments.len(),
            None => 0,
        };
        let mut c: usize = 0;
        while c < cached
            invariant
                c <= cached,
                count == base + c,
                views(r@) == before + Seq::new(count, |i: int| seq![need_rot]),
            decreases cached - c,
        {
            let ghost prev = r@;
            r.push(one_rot(need_rot));
            proof {
                count = count + 1;
                assert(views(r@) =~= views(prev).push(seq![need_rot]));
                assert(views(r@) =~= before + Seq::new(count, |i: int| seq![need_rot]));
            }
            c = c + 1;
        }
        proof {
            assert(views(r@) =~= seq![common] + other_rots(mvk, vdata@, ids@, t + 1));
        }
        t = t + 1;
    }
    r
}

fn collect_commits<D: Copy, N, L, R>(
    mvk: &MultiStarkVerifyingKey0<D, N>,
    proof: &Proof<D, L, R>,
    ids: &Vec<usize>,
) -> (r: Vec<D>)
    requires
        vdata_shape(mvk, proof.trace_vdata@),
        is_trace_order(ids@, proof.trace_vdata@),
    ensures
        r@ == all_commits(mvk, proof, ids@),
{
    let n = ids.len();
    let vdata = &proof.trace_vdata;
    let mut r: Vec<D> = Vec::new();
    r.push(proof.common_main_commit);
    let mut t: usize = 0;
    proof {
        assert(r@ =~= seq![proof.common_main_commit] + other_commits(mvk, vdata@, ids@, 0));
    }
    while t < n
        invariant
            t <= n,
            n == ids@.len(),
            *vdata == proof.trace_vdata,
            vdata_shape(mvk, vdata@),
            is_trace_order(ids@, vdata@),
            r@ == seq![proof.common_main_commit] + other_commits(mvk, vdata@, ids@, t as int),
        decreases n - t,
    {
        let a = ids[t];
        let ghost before = r@;
        proof {
            assert(present(vdata@, a as int));
        }
        if let Some(p) = &mvk.per_air[a].preprocessed_data {
            r.push(p.commit);
        }
        let ghost base = r@;
        if let Some(v) = &vdata[a] {
            let mut c: usize = 0;
            assert(base + v.cached_commitments@.take(0) =~= base);
            while c < v.cached_commitments.len()
                invariant
                    c <= v.cached_commitments@.len(),
                    r@ == base + v.cached_commitments@.take(c as int),
                decreases v.cached_commitments@.len() - c,
            {
                r.push(v.cached_commitments[c]);
                assert(base + v.cached_commitments@.take(c + 1) =~= (base
                    + v.cached_commitments@.take(c as int)).push(
                    v.cached_commitments@[c as int],
                ));
                c = c + 1;
            }
            assert(v.cached_commitments@.take(c as int) =~= v.cached_commitments@);
        }
        proof {
            assert(r@ =~= seq![proof.common_main_commit] + other_commits(
                mvk,
                vdata@,
                ids@,
                t + 1,
            ));
        }
        t = t + 1;
    }
    r
}

/// The point of the stacked columns in multilinear form.
pub fn to_cube(u_prism: &Vec<EF>, l_skip: usize) -> (r: Vec<EF>)
    requires
        u_prism@.len() >= 1,
    ensures
        r@ == cube_point(u_prism@, l_skip as nat),
{
    let mut r = exp_powers_of_2(u_prism[0], l_skip);
    let ghost base = r@;
    let mut i: usize = 1;
    assert(base + u_prism@.subrange(1, 1) =~= base);
    while i < u_prism.len()
        invariant
            1 <= i <= u_prism@.len(),
            r@ == base + u_prism@.subrange(1, i as int),
        decreases u_prism@.len() - i,
    {
        r.push(u_prism[i]);
        assert(base + u_prism@.subrange(1, i + 1) =~= (base + u_prism@.subrange(1, i as int)).push(
            u_prism@[i as int],
        ));
        i = i + 1;
    }
    assert(u_prism@.subrange(1, i as int) =~= u_prism@.skip(1));
    r
}

/// There is one commitment for each list of matrices that are stacked together.
pub proof fn lemma_num_commits<D, N>(
    mvk: &MultiStarkVerifyingKey0<D, N>,
    vdata: Seq<Option<TraceVData<D>>>,
    ids: Seq<usize>,
    n: int,
)
    requires
        vdata_shape(mvk, vdata),
        is_trace_order(ids, vdata),
        0 <= n <= ids.len(),
    ensures
        other_commits(mvk, vdata, ids, n).len()
            == crate::verification::proof_shape::other_dims(mvk, vdata, ids, n).len(),
    decreases n,
{
    if n > 0 {
        lemma_num_commits(mvk, vdata, ids, n - 1);
        let a = ids[n - 1] as int;
        assert(present(vdata, a));
        assert(air_vdata_shape(mvk, vdata, a));
    }
}

/// Whether any AIR has a trace.
fn any_trace<D>(vdata: &Vec<Option<TraceVData<D>>>) -> (r: bool)
    ensures
        r == !has_no_traces(vdata@),
{
    let mut a: usize = 0;
    while a < vdata.len()
        invariant
            a <= vdata@.len(),
            forall|b: int| 0 <= b < a ==> !present(vdata@, b),
        decreases vdata@.len() - a,
    {
        if vdata[a].is_some() {
            assert(present(vdata@, a as int));
            return true;
        }
        a = a + 1;
    }
    false
}

/// Verifies the WHIR proof at the point that the column values were reduced to.
fn open_columns<SC: StarkProtocolConfig, TS: FiatShamirTranscript<SC::Digest>, S: SubProtocols<TS>>(
    config: &SC,
    mvk: &MultiStarkVerifyingKey0<SC::Digest, S::Node>,
    proof: &Proof<SC::Digest, S::Layers, S::Rounds>,
    trace_id_to_air_id: &Vec<usize>,
    u_prism: &Vec<EF>,
    transcript: TS,
) -> (out: (TS, Result<(), VerifierError<S::GkrRejection, S::StackingRejection>>))
    requires
        <SC::Digest as PartialEqSpec>::obeys_eq_spec(),
        mvk.wf(),
        config.spec_params().same(&mvk.params),
        shape_error(mvk, proof) is None,
        is_trace_order(trace_id_to_air_id@, proof.trace_vdata@),
        trace_id_to_air_id@ == trace_order(proof.trace_vdata@),
        u_prism@.len() == mvk.params.n_stack + 1,
    ensures
        may_open::<SC::Hasher, TS, S>(
            config.spec_params(),
            config.spec_hasher(),
            mvk,
            proof,
            transcript.state(),
            u_prism@,
            out,
        ),
{
    let ghost s0 = transcript.state();
    let mut transcript = transcript;
    let u_cube = to_cube(u_prism, mvk.params.l_skip);
    let commits = collect_commits(mvk, proof, trace_id_to_air_id);
    proof {
        lemma_num_commits(
            mvk,
            proof.trace_vdata@,
            trace_id_to_air_id@,
            trace_id_to_air_id@.len() as int,
        );
    }
    let openings = proof.stacking_proof.stacking_openings.as_slice();
    let commitments = commits.as_slice();
    let opened = verify_whir::<SC, TS>(
        &mut transcript,
        config,
        &proof.whir_proof,
        openings,
        commitments,
        u_cube.as_slice(),
    );
    let out = match opened {
        Ok(_) => (transcript, Ok(())),
        Err(e) => (transcript, Err(VerifierError::WhirError(e))),
    };
    proof {
        let inputs = WhirInputs::<SC::Hasher> {
            params: &config.spec_params(),
            hasher: &config.spec_hasher(),
            proof: &proof.whir_proof,
            openings,
            commitments,
        };
        assert(are_whir_inputs(
            inputs,
            config.spec_params(),
            config.spec_hasher(),
            mvk,
            proof,
        ));
    }
    out
}

/// Verifies the proof once the preamble was observed.
fn check_proof<SC: StarkProtocolConfig, TS: FiatShamirTranscript<SC::Digest>, S: SubProtocols<TS>>(
    config: &SC,
    sub: &S,
    mvk: &MultiStarkVerifyingKey0<SC::Digest, S::Node>,
    proof: &Proof<SC::Digest, S::Layers, S::Rounds>,
    layouts: &Vec<StackedLayout>,
    trace_id_to_air_id: &Vec<usize>,
    transcript: TS,
) -> (out: (TS, Result<(), VerifierError<S::GkrRejection, S::StackingRejection>>))
    requires
        <SC::Digest as PartialEqSpec>::obeys_eq_spec(),
        mvk.wf(),
        interactions_fit(mvk, proof.trace_vdata@),
        has_right_sizes::<SC::Digest, TS, S>(sub, mvk, proof),
        config.spec_params().same(&mvk.params),
        shape_error(mvk, proof) is None,
        is_trace_order(trace_id_to_air_id@, proof.trace_vdata@),
        trace_id_to_air_id@ == trace_order(proof.trace_vdata@),
        trace_id_to_air_id@.len() >= 1,
        are_layouts_of(
            layouts@,
            &mvk.params,
            commit_dims(mvk, proof.trace_vdata@, trace_id_to_air_id@),
        ),
    ensures
        may_finish::<SC::Hasher, TS, S>(
            sub,
            config.spec_params(),
            config.spec_hasher(),
            mvk,
            proof,
            transcript.state(),
            out,
        ),
{
    let ghost s0 = transcript.state();
    let l_skip = mvk.params.l_skip;
    let omega_skip = BabyBear::two_adic_generator(l_skip);
    proof {
        lemma_usize_bits();
        assert(proof.trace_vdata@.len() == proof.trace_vdata.len());
        assert forall|a: int| present(proof.trace_vdata@, a) implies #[trigger] log_height(
            proof.trace_vdata@,
            a,
        ) <= 27 by {
            assert(air_vdata_shape(mvk, proof.trace_vdata@, a));
        }
    }
    let omega_skip_pows = powers_base(omega_skip, pow2_usize(l_skip));
    let n_per_trace = heights_above(&proof.trace_vdata, trace_id_to_air_id, l_skip);
    proof {
        let inputs = BatchInputs {
            mvk,
            public_values: &proof.public_values,
            proof: &proof.batch_constraint_proof,
            trace_id_to_air_id,
            n_per_trace: &n_per_trace,
        };
        lemma_batch_inputs(inputs, mvk, proof);
    }
    let start = meter::now();
    let checked = verify_zerocheck_and_logup::<SC::Digest, TS, S>(
        transcript,
        sub,
        mvk,
        &proof.public_values,
        &proof.gkr_proof,
        &proof.batch_constraint_proof,
        trace_id_to_air_id,
        &n_per_trace,
        &omega_skip_pows,
    );
    meter::phase(1, start);
    assert(may_check::<SC::Digest, TS, S>(sub, mvk, proof, s0, omega_skip_pows, checked));
    let ghost first = checked;
    let transcript = checked.0;
    let r = match checked.1 {
        Ok(r) => r,
        Err(e) => {
            return (transcript, Err(VerifierError::BatchConstraintError(e)));
        },
    };
    let need_rot_per_commit = collect_rots(mvk, &proof.trace_vdata, trace_id_to_air_id);
    let start = meter::now();
    let reduced = sub.verify_stacked_reduction(
        transcript,
        &proof.stacking_proof,
        layouts,
        &need_rot_per_commit,
        l_skip,
        mvk.params.n_stack,
        &proof.batch_constraint_proof.column_openings,
        &r,
        &omega_skip_pows,
    );
    meter::phase(3, start);
    assert(may_reduce::<SC::Digest, TS, S>(
        sub,
        mvk,
        proof,
        first.0.state(),
        r,
        omega_skip_pows,
        reduced,
    ));
    let transcript = reduced.0;
    match reduced.1 {
        Ok(u_prism) => {
            let start = meter::now();
            let out = open_columns::<SC, TS, S>(
                config,
                mvk,
                proof,
                trace_id_to_air_id,
                &u_prism,
                transcript,
            );
            meter::phase(4, start);
            out
        },
        Err(e) => (transcript, Err(VerifierError::StackedReductionError(e))),
    }
}

/// Verifies a proof.
pub fn verify<SC: StarkProtocolConfig, TS: FiatShamirTranscript<SC::Digest>, S: SubProtocols<TS>>(
    config: &SC,
    sub: &S,
    mvk: &MultiStarkVerifyingKey<SC::Digest, S::Node>,
    proof: &Proof<SC::Digest, S::Layers, S::Rounds>,
    transcript: TS,
) -> (out: (TS, Result<(), VerifierError<S::GkrRejection, S::StackingRejection>>))
    requires
        <SC::Digest as PartialEqSpec>::obeys_eq_spec(),
        config.spec_params().same(&mvk.inner.params) && !has_no_traces(proof.trace_vdata@)
            ==> mvk.inner.wf(),
        reaches_constraints::<SC::Digest, TS, S::Node, S::Layers, S::Rounds>(
            config.spec_params(),
            mvk,
            proof,
            transcript.state(),
        ) ==> {
            &&& interactions_fit(&mvk.inner, proof.trace_vdata@)
            &&& has_right_sizes::<SC::Digest, TS, S>(sub, &mvk.inner, proof)
        },
    ensures
        may_verify::<SC::Hasher, TS, S>(
            sub,
            config.spec_params(),
            config.spec_hasher(),
            mvk,
            proof,
            transcript.state(),
            out,
        ),
{
    let mut transcript = transcript;
    if !config.params().is_same(&mvk.inner.params) {
        return (transcript, Err(VerifierError::SystemParamsMismatch));
    }
    if !any_trace(&proof.trace_vdata) {
        return (transcript, Err(VerifierError::EmptyTraces));
    }
    let start = meter::now();
    let layouts = match verify_proof_shape(&mvk.inner, proof) {
        Ok(layouts) => layouts,
        Err(e) => {
            return (transcript, Err(VerifierError::ProofShapeError(e)));
        },
    };
    meter::phase(0, start);
    let trace_id_to_air_id = order_traces(&proof.trace_vdata);
    proof {
        let ids = trace_id_to_air_id@;
        trace_order_is_unique(ids, trace_order(proof.trace_vdata@), proof.trace_vdata@);
        let a = choose|a: int| present(proof.trace_vdata@, a);
        assert(ids.contains(a as usize));
    }
    if !check_heights(&mvk.inner, &proof.trace_vdata, &trace_id_to_air_id) {
        return (transcript, Err(VerifierError::TraceHeightsTooLarge));
    }
    if !observe_preamble::<SC::Digest, TS, S::Node, S::Layers, S::Rounds>(
        &mut transcript,
        mvk,
        proof,
    ) {
        return (transcript, Err(VerifierError::PreprocessedTraceHeightMismatch));
    }
    check_proof::<SC, TS, S>(
        config,
        sub,
        &mvk.inner,
        proof,
        &layouts,
        &trace_id_to_air_id,
        transcript,
    )
}

} // verus!
