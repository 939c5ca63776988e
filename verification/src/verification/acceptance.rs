//! What an accepted proof has been held to.

use vstd::arithmetic::power2::*;
use vstd::prelude::*;

use crate::digest_layers::views;
use crate::field::{e_pow, f_generator, f_pow, BabyBear, EF};
use crate::hasher::MerkleHasher;
use crate::keys::{MultiStarkVerifyingKey, MultiStarkVerifyingKey0};
use crate::params::SystemParams;
use crate::poly::base_powers;
use crate::proofs::Proof;
use crate::stacked_layout::StackedLayout;
use crate::transcript::FiatShamirTranscript;
use crate::verification::batch_constraints::{may_return, BatchConstraintError, BatchInputs};
use crate::verification::conversation::replayed;
use crate::verification::proof_shape::{are_layouts_of, commit_dims, shape_error, trace_order};
use crate::verification::protocol::{
    all_commits, are_ns_of, are_whir_inputs, commit_rots, cube_point, has_no_traces,
    heights_bounded, lemma_num_commits, may_check, may_go_on, may_open, may_reduce, may_verify,
    preamble, VerifierError,
};
use crate::verification::protocol_laws::cube_point_has_powers;
use crate::verification::statement_laws::{statement, statement_is_observed};
use crate::verification::subprotocols::SubProtocols;
use crate::verification::trace_order::{is_trace_order, log_height, trace_order_exists};
use crate::verification::whir::{whir_outcome, whir_shape, WhirInputs};

verus! {

/// Whether the three parts of a verification from the state `state` accept: the batched
/// constraints with the outcome `checked`, the reduction to stacked columns at their point with
/// the outcome `reduced`, and the WHIR proof at that point, on `inputs` of the right sizes.
pub open spec fn all_parts_accept<
    H: MerkleHasher<F = BabyBear>,
    TS: FiatShamirTranscript<H::Digest>,
    S: SubProtocols<TS>,
>(
    sub: &S,
    params: SystemParams,
    hasher: H,
    mvk: &MultiStarkVerifyingKey0<H::Digest, S::Node>,
    proof: &Proof<H::Digest, S::Layers, S::Rounds>,
    state: TS::State,
    omega_skip_pows: Vec<BabyBear>,
    checked: (TS, Result<Vec<EF>, BatchConstraintError<S::GkrRejection>>),
    reduced: (TS, Result<Vec<EF>, S::StackingRejection>),
    inputs: WhirInputs<H>,
) -> bool where H::Digest: Eq {
    &&& omega_skip_pows@ == base_powers(
        f_generator(mvk.params.l_skip as nat),
        pow2(mvk.params.l_skip as nat),
    )
    &&& may_check::<H::Digest, TS, S>(sub, mvk, proof, state, omega_skip_pows, checked)
    &&& checked.1 is Ok
    &&& may_reduce::<H::Digest, TS, S>(
        sub,
        mvk,
        proof,
        checked.0.state(),
        checked.1->Ok_0,
        omega_skip_pows,
        reduced,
    )
    &&& reduced.1 is Ok
    &&& are_whir_inputs(inputs, params, hasher, mvk, proof)
    &&& whir_shape(inputs.params, inputs.proof, inputs.openings@, inputs.commitments@.len())
    &&& whir_outcome::<H, TS>(
        inputs,
        reduced.0.state(),
        cube_point(reduced.1->Ok_0@, params.l_skip as nat),
    ).1 is None
}

/// An accepted proof has passed every check: the parameters are those of the verifying key, there
/// is a trace, all sizes are right, the traces are not too high, the preprocessed traces have the
/// heights that the key says, and each part of the verification has accepted.
pub proof fn accepted_proofs_pass_every_check<
    H: MerkleHasher<F = BabyBear>,
    TS: FiatShamirTranscript<H::Digest>,
    S: SubProtocols<TS>,
>(
    sub: &S,
    params: SystemParams,
    hasher: H,
    mvk: &MultiStarkVerifyingKey<H::Digest, S::Node>,
    proof: &Proof<H::Digest, S::Layers, S::Rounds>,
    s: TS::State,
    out: (TS, Result<(), VerifierError<S::GkrRejection, S::StackingRejection>>),
) where H::Digest: Eq
    requires
        may_verify::<H, TS, S>(sub, params, hasher, mvk, proof, s, out),
        out.1 is Ok,
    ensures
        params.same(&mvk.inner.params),
        !has_no_traces(proof.trace_vdata@),
        shape_error(&mvk.inner, proof) is None,
        heights_bounded(&mvk.inner, proof.trace_vdata@, trace_order(proof.trace_vdata@)),
        ({
            let observed = preamble::<H::Digest, TS, S::Node, S::Layers, S::Rounds>(
                s,
                mvk,
                proof,
                mvk.inner.per_air@.len(),
            );
            observed.1 && exists|
                omega_skip_pows: Vec<BabyBear>,
                checked: (TS, Result<Vec<EF>, BatchConstraintError<S::GkrRejection>>),
                reduced: (TS, Result<Vec<EF>, S::StackingRejection>),
                inputs: WhirInputs<H>,
            | #[trigger]
                all_parts_accept::<H, TS, S>(
                    sub,
                    params,
                    hasher,
                    &mvk.inner,
                    proof,
                    observed.0,
                    omega_skip_pows,
                    checked,
                    reduced,
                    inputs,
                )
        }),
{
    let inner = &mvk.inner;
    let vdata = proof.trace_vdata@;
    let ids = trace_order(vdata);
    let state = preamble::<H::Digest, TS, S::Node, S::Layers, S::Rounds>(
        s,
        mvk,
        proof,
        inner.per_air@.len(),
    ).0;
    let (pows, checked) = choose|
        pows: Vec<BabyBear>,
        checked: (TS, Result<Vec<EF>, BatchConstraintError<S::GkrRejection>>),
    |
        {
            &&& pows@ == base_powers(
                f_generator(inner.params.l_skip as nat),
                pow2(inner.params.l_skip as nat),
            )
            &&& #[trigger] may_check::<H::Digest, TS, S>(sub, inner, proof, state, pows, checked)
            &&& may_go_on::<H, TS, S>(sub, params, hasher, inner, proof, pows, checked, out)
        };
    let r = checked.1->Ok_0;
    let reduced = choose|reduced: (TS, Result<Vec<EF>, S::StackingRejection>)|
        {
            &&& #[trigger] may_reduce::<H::Digest, TS, S>(
                sub,
                inner,
                proof,
                checked.0.state(),
                r,
                pows,
                reduced,
            )
            &&& match reduced.1 {
                Err(e) => out.0.state() == reduced.0.state() && out.1 == Err::<
                    (),
                    VerifierError<S::GkrRejection, S::StackingRejection>,
                >(VerifierError::StackedReductionError(e)),
                Ok(u_prism) => may_open::<H, TS, S>(
                    params,
                    hasher,
                    inner,
                    proof,
                    reduced.0.state(),
                    u_prism@,
                    out,
                ),
            }
        };
    let u = cube_point(reduced.1->Ok_0@, params.l_skip as nat);
    let inputs = choose|inputs: WhirInputs<H>|
        {
            let outcome = whir_outcome::<H, TS>(inputs, reduced.0.state(), u);
            &&& #[trigger] are_whir_inputs(inputs, params, hasher, inner, proof)
            &&& out.0.state() == outcome.0
            &&& out.1 == (match outcome.1 {
                Some(e) => Err::<(), VerifierError<S::GkrRejection, S::StackingRejection>>(
                    VerifierError::WhirError(e),
                ),
                None => Ok(()),
            })
        };
    assert(vdata.len() == proof.trace_vdata.len());
    trace_order_exists(vdata);
    assert(is_trace_order(ids, vdata));
    lemma_num_commits(inner, vdata, ids, ids.len() as int);
    assert(all_parts_accept::<H, TS, S>(
        sub,
        params,
        hasher,
        inner,
        proof,
        state,
        pows,
        checked,
        reduced,
        inputs,
    ));
}

/// What an accepted verification runs through. The traces are checked from the state that the
/// whole statement has led to, in descending order of their heights, each with as many variables
/// besides the univariate ones as its height asks for, and with the powers of a generator of the
/// univariate domain. The reduction to stacked columns goes on from there, at the point that the
/// check has left. The WHIR proof is the last: on the claimed values of all stacked columns, under
/// all commitments, at the point of the reduction, whose univariate coordinate becomes its powers.
pub open spec fn runs_through<
    H: MerkleHasher<F = BabyBear>,
    TS: FiatShamirTranscript<H::Digest>,
    S: SubProtocols<TS>,
>(
    sub: &S,
    params: SystemParams,
    hasher: H,
    mvk: &MultiStarkVerifyingKey<H::Digest, S::Node>,
    proof: &Proof<H::Digest, S::Layers, S::Rounds>,
    s: TS::State,
    out: (TS, Result<(), VerifierError<S::GkrRejection, S::StackingRejection>>),
    ids: Vec<usize>,
    ns: Vec<isize>,
    pows: Vec<BabyBear>,
    checked: (TS, Result<Vec<EF>, BatchConstraintError<S::GkrRejection>>),
    reduced: (TS, Result<Vec<EF>, S::StackingRejection>),
    inputs: WhirInputs<H>,
    u: Seq<EF>,
) -> bool where H::Digest: Eq {
    let key = &mvk.inner;
    let l_skip = key.params.l_skip;
    let u_prism = reduced.1->Ok_0@;
    &&& is_trace_order(ids@, proof.trace_vdata@)
    &&& ns@.len() == ids@.len()
    &&& forall|t: int|
        0 <= t < ids@.len() ==> (#[trigger] ns@[t]) + l_skip
            == proof.trace_vdata@[ids@[t] as int]->0.log_height
    &&& pows@.len() == pow2(l_skip as nat)
    &&& forall|i: int|
        0 <= i < pows@.len() ==> #[trigger] pows@[i] == f_pow(
            f_generator(l_skip as nat),
            i as nat,
        )
    &&& may_return::<H::Digest, TS, S>(
        sub,
        (BatchInputs {
            mvk: key,
            public_values: &proof.public_values,
            proof: &proof.batch_constraint_proof,
            trace_id_to_air_id: &ids,
            n_per_trace: &ns,
        }),
        &proof.gkr_proof,
        &pows,
        replayed::<H::Digest, TS>(s, statement(mvk, proof, key.per_air@.len())),
        checked,
    )
    &&& checked.1 is Ok
    &&& exists|before: TS, layouts: Vec<StackedLayout>, rots: Vec<Vec<bool>>|
        {
            &&& before.state() == checked.0.state()
            &&& are_layouts_of(
                layouts@,
                &key.params,
                commit_dims(key, proof.trace_vdata@, ids@),
            )
            &&& views(rots@) == commit_rots(key, proof.trace_vdata@, ids@)
            &&& #[trigger] call_ensures(
                S::verify_stacked_reduction,
                (
                    sub,
                    before,
                    &proof.stacking_proof,
                    &layouts,
                    &rots,
                    key.params.l_skip,
                    key.params.n_stack,
                    &proof.batch_constraint_proof.column_openings,
                    &checked.1->Ok_0,
                    &pows,
                ),
                reduced,
            )
        }
    &&& reduced.1 is Ok
    &&& *inputs.params == params
    &&& *inputs.hasher == hasher
    &&& *inputs.proof == proof.whir_proof
    &&& inputs.openings@ == proof.stacking_proof.stacking_openings@
    &&& inputs.commitments@ == all_commits(key, proof, ids@)
    &&& u_prism.len() >= 1 && u_prism[0].wf() ==> {
        &&& u.len() == params.l_skip + u_prism.len() - 1
        &&& forall|i: int|
            0 <= i < params.l_skip ==> #[trigger] u[i] == e_pow(u_prism[0], pow2(i as nat))
        &&& forall|i: int|
            1 <= i < u_prism.len() ==> u[params.l_skip + i - 1] == #[trigger] u_prism[i]
    }
    &&& whir_outcome::<H, TS>(inputs, reduced.0.state(), u).1 is None
    &&& out.0.state() == whir_outcome::<H, TS>(inputs, reduced.0.state(), u).0
}

/// A proof is accepted only by way of a verification that runs through all its parts, each from
/// where the one before has ended.
pub proof fn accepted_proofs_run_through<
    'a,
    H: MerkleHasher<F = BabyBear>,
    TS: FiatShamirTranscript<H::Digest>,
    S: SubProtocols<TS>,
>(
    sub: &S,
    params: SystemParams,
    hasher: H,
    mvk: &MultiStarkVerifyingKey<H::Digest, S::Node>,
    proof: &Proof<H::Digest, S::Layers, S::Rounds>,
    s: TS::State,
    out: (TS, Result<(), VerifierError<S::GkrRejection, S::StackingRejection>>),
) -> (r: (
    Vec<usize>,
    Vec<isize>,
    Vec<BabyBear>,
    (TS, Result<Vec<EF>, BatchConstraintError<S::GkrRejection>>),
    (TS, Result<Vec<EF>, S::StackingRejection>),
    WhirInputs<'a, H>,
    Seq<EF>,
)) where H::Digest: Eq
    requires
        may_verify::<H, TS, S>(sub, params, hasher, mvk, proof, s, out),
        out.1 is Ok,
    ensures
        runs_through::<H, TS, S>(
            sub,
            params,
            hasher,
            mvk,
            proof,
            s,
            out,
            r.0,
            r.1,
            r.2,
            r.3,
            r.4,
            r.5,
            r.6,
        ),
{
    let inner = &mvk.inner;
    let vdata = proof.trace_vdata@;
    let n = inner.per_air@.len();
    accepted_proofs_pass_every_check::<H, TS, S>(sub, params, hasher, mvk, proof, s, out);
    statement_is_observed::<H::Digest, TS, S::Node, S::Layers, S::Rounds>(s, mvk, proof, n);
    let state = preamble::<H::Digest, TS, S::Node, S::Layers, S::Rounds>(s, mvk, proof, n).0;
    let (pows, checked) = choose|
        pows: Vec<BabyBear>,
        checked: (TS, Result<Vec<EF>, BatchConstraintError<S::GkrRejection>>),
    |
        {
            &&& pows@ == base_powers(
                f_generator(inner.params.l_skip as nat),
                pow2(inner.params.l_skip as nat),
            )
            &&& #[trigger] may_check::<H::Digest, TS, S>(sub, inner, proof, state, pows, checked)
            &&& may_go_on::<H, TS, S>(sub, params, hasher, inner, proof, pows, checked, out)
        };
    let (ids, ns) = choose|ids: Vec<usize>, ns: Vec<isize>|
        {
            &&& ids@ == trace_order(vdata)
            &&& are_ns_of(ns@, vdata, ids@, inner.params.l_skip)
            &&& #[trigger] may_return::<H::Digest, TS, S>(
                sub,
                (BatchInputs {
                    mvk: inner,
                    public_values: &proof.public_values,
                    proof: &proof.batch_constraint_proof,
                    trace_id_to_air_id: &ids,
                    n_per_trace: &ns,
                }),
                &proof.gkr_proof,
                &pows,
                state,
                checked,
            )
        };
    let r = checked.1->Ok_0;
    let reduced = choose|reduced: (TS, Result<Vec<EF>, S::StackingRejection>)|
        {
            &&& #[trigger] may_reduce::<H::Digest, TS, S>(
                sub,
                inner,
                proof,
                checked.0.state(),
                r,
                pows,
                reduced,
            )
            &&& match reduced.1 {
                Err(e) => out.0.state() == reduced.0.state() && out.1 == Err::<
                    (),
                    VerifierError<S::GkrRejection, S::StackingRejection>,
                >(VerifierError::StackedReductionError(e)),
                Ok(u_prism) => may_open::<H, TS, S>(
                    params,
                    hasher,
                    inner,
                    proof,
                    reduced.0.state(),
                    u_prism@,
                    out,
                ),
            }
        };
    let u_prism = reduced.1->Ok_0@;
    let u = cube_point(u_prism, params.l_skip as nat);
    let inputs = choose|inputs: WhirInputs<H>|
        {
            let outcome = whir_outcome::<H, TS>(inputs, reduced.0.state(), u);
            &&& #[trigger] are_whir_inputs(inputs, params, hasher, inner, proof)
            &&& out.0.state() == outcome.0
            &&& out.1 == (match outcome.1 {
                Some(e) => Err::<(), VerifierError<S::GkrRejection, S::StackingRejection>>(
                    VerifierError::WhirError(e),
                ),
                None => Ok(()),
            })
        };
    assert(vdata.len() == proof.trace_vdata.len());
    trace_order_exists(vdata);
    if u_prism.len() >= 1 && u_prism[0].wf() {
        cube_point_has_powers(u_prism, params.l_skip as nat);
    }
    assert forall|t: int| 0 <= t < ids@.len() implies (#[trigger] ns@[t]) + inner.params.l_skip
        == vdata[ids@[t] as int]->0.log_height by {
        assert(ns@[t] == log_height(vdata, ids@[t] as int) - inner.params.l_skip);
    }
    (ids, ns, pows, checked, reduced, inputs, u)
}

} // verus!
