//! What the checks of a whole proof are for.

use vstd::arithmetic::div_mod::lemma_fundamental_div_mod;
use vstd::arithmetic::power2::*;
use vstd::prelude::*;

use crate::field::{e_pow, f_generator, BabyBear, EF};
use crate::hasher::MerkleHasher;
use crate::keys::{LinearConstraint, MultiStarkVerifyingKey, MultiStarkVerifyingKey0};
use crate::multilinear::squares_are_powers;
use crate::params::SystemParams;
use crate::poly::base_powers;
use crate::proofs::{Proof, TraceVData};
use crate::stacked_layout::rows_before;
use crate::transcript::FiatShamirTranscript;
use crate::verification::batch_constraints::BatchConstraintError;
use crate::verification::proof_shape::{
    air_vdata_shape, cached_dims, commit_dims, first_cached, other_dims, part_width,
    preprocessed_dims, shape_error, stacked_width, trace_openings_shape, trace_order, vdata_shape,
};
use crate::verification::protocol::{
    all_commits, commit_rots, cube_point, has_no_traces, height_bounded, may_check, may_finish,
    may_go_on, may_verify, other_commits, other_rots, preamble, weighted_height, VerifierError,
};
use crate::verification::subprotocols::SubProtocols;
use crate::verification::trace_order::{
    is_order_of, is_trace_order, log_height, precedes, present, sum_over, trace_order_exists,
};
use crate::verification::whir::openings_shape;

verus! {

/// Parameters are the same only where they agree in every part, down to the number of queries of
/// each round.
pub proof fn same_parameters_agree_everywhere(a: &SystemParams, b: &SystemParams)
    ensures
        a.same(b) <==> {
            &&& a.l_skip == b.l_skip
            &&& a.n_stack == b.n_stack
            &&& a.log_blowup == b.log_blowup
            &&& a.max_constraint_degree == b.max_constraint_degree
            &&& a.logup.pow_bits == b.logup.pow_bits
            &&& a.whir.k == b.whir.k
            &&& a.whir.mu_pow_bits == b.whir.mu_pow_bits
            &&& a.whir.query_phase_pow_bits == b.whir.query_phase_pow_bits
            &&& a.whir.folding_pow_bits == b.whir.folding_pow_bits
            &&& a.whir.rounds@.len() == b.whir.rounds@.len()
            &&& forall|i: int|
                0 <= i < a.whir.rounds@.len() ==> (#[trigger] a.whir.rounds@[i]).num_queries
                    == b.whir.rounds@[i].num_queries
        },
{
    let (x, y) = (a.whir.rounds@, b.whir.rounds@);
    if x.len() == y.len() && (forall|i: int|
        0 <= i < x.len() ==> (#[trigger] x[i]).num_queries == y[i].num_queries) {
        assert(x =~= y);
    }
}

/// Whether the preprocessed trace of AIR `a`, if it has one, is as high as the proof says.
pub open spec fn preprocessed_fits<D, N, L, R>(
    mvk: &MultiStarkVerifyingKey0<D, N>,
    proof: &Proof<D, L, R>,
    a: int,
) -> bool {
    match (proof.trace_vdata@[a], mvk.per_air@[a].preprocessed_data) {
        (Some(v), Some(p)) => v.log_height == mvk.params.l_skip + p.hypercube_dim,
        _ => true,
    }
}

/// Preprocessed traces cannot be swapped for others: the preamble passes only where the
/// preprocessed trace of every AIR that has one is exactly as high as the proof says.
pub proof fn preprocessed_heights_are_checked<D, TS: FiatShamirTranscript<D>, N, L, R>(
    s: TS::State,
    mvk: &MultiStarkVerifyingKey<D, N>,
    proof: &Proof<D, L, R>,
    n: nat,
)
    ensures
        preamble::<D, TS, N, L, R>(s, mvk, proof, n).1 <==> (forall|a: int|
            0 <= a < n ==> #[trigger] preprocessed_fits(&mvk.inner, proof, a)),
    decreases n,
{
    if n > 0 {
        preprocessed_heights_are_checked::<D, TS, N, L, R>(s, mvk, proof, (n - 1) as nat);
        let all = forall|a: int| 0 <= a < n ==> #[trigger] preprocessed_fits(&mvk.inner, proof, a);
        let prev = forall|a: int|
            0 <= a < n - 1 ==> #[trigger] preprocessed_fits(&mvk.inner, proof, a);
        assert(all <==> prev && preprocessed_fits(&mvk.inner, proof, n - 1)) by {
            if prev && preprocessed_fits(&mvk.inner, proof, n - 1) {
                assert forall|a: int| 0 <= a < n implies #[trigger] preprocessed_fits(
                    &mvk.inner,
                    proof,
                    a,
                ) by {
                    if a < n - 1 {
                    }
                }
            }
        }
    }
}

/// The sum of `f` over those of the first `n` AIRs that have a trace.
pub open spec fn sum_of_present<D>(
    vdata: Seq<Option<TraceVData<D>>>,
    f: spec_fn(int) -> nat,
    n: nat,
) -> nat
    decreases n,
{
    if n == 0 {
        0
    } else {
        sum_of_present(vdata, f, (n - 1) as nat) + if vdata[n - 1] is Some {
            f(n - 1)
        } else {
            0
        }
    }
}

proof fn lemma_sum_remove(ids: Seq<usize>, f: spec_fn(int) -> nat, p: int)
    requires
        0 <= p < ids.len(),
    ensures
        sum_over(ids, f) == sum_over(ids.remove(p), f) + f(ids[p] as int),
    decreases ids.len(),
{
    let rest = ids.remove(p);
    if p == ids.len() - 1 {
        assert(rest =~= ids.drop_last());
    } else {
        lemma_sum_remove(ids.drop_last(), f, p);
        assert(rest.drop_last() =~= ids.drop_last().remove(p));
        assert(rest.last() == ids.last());
    }
}

/// A sum over the traces in order is a sum over the AIRs that have one.
proof fn lemma_sum_over_order<D>(
    ids: Seq<usize>,
    vdata: Seq<Option<TraceVData<D>>>,
    f: spec_fn(int) -> nat,
    n: nat,
)
    requires
        n <= vdata.len() <= usize::MAX,
        is_order_of(ids, vdata, n as int),
    ensures
        sum_over(ids, f) == sum_of_present(vdata, f, n),
    decreases n,
{
    if n == 0 {
        if ids.len() > 0 {
            assert(ids[0] < 0);
        }
    } else {
        let m = (n - 1) as nat;
        if present(vdata, n - 1) {
            assert(ids.contains((n - 1) as usize));
            let p = choose|p: int| 0 <= p < ids.len() && ids[p] == (n - 1) as usize;
            let rest = ids.remove(p);
            lemma_sum_remove(ids, f, p);
            assert forall|t: int| 0 <= t < rest.len() implies (#[trigger] rest[t]) < m && present(
                vdata,
                rest[t] as int,
            ) by {
                let u = if t < p {
                    t
                } else {
                    t + 1
                };
                assert(rest[t] == ids[u]);
                if ids[u] == (n - 1) as usize {
                    if u < p {
                        assert(precedes(vdata, ids[u] as int, ids[p] as int));
                    } else {
                        assert(precedes(vdata, ids[p] as int, ids[u] as int));
                    }
                }
            }
            assert forall|a: int, b: int| 0 <= a < b < rest.len() implies precedes(
                vdata,
                (#[trigger] rest[a]) as int,
                (#[trigger] rest[b]) as int,
            ) by {
                let u = if a < p {
                    a
                } else {
                    a + 1
                };
                let v = if b < p {
                    b
                } else {
                    b + 1
                };
                assert(rest[a] == ids[u] && rest[b] == ids[v]);
            }
            assert forall|a: int| 0 <= a < m && present(vdata, a) implies #[trigger] rest.contains(
                a as usize,
            ) by {
                assert(ids.contains(a as usize));
                let t = choose|t: int| 0 <= t < ids.len() && ids[t] == a as usize;
                if t < p {
                    assert(rest[t] == a as usize);
                } else {
                    assert(t != p);
                    assert(rest[t - 1] == a as usize);
                }
            }
            lemma_sum_over_order(rest, vdata, f, m);
        } else {
            assert forall|t: int| 0 <= t < ids.len() implies (#[trigger] ids[t]) < m && present(
                vdata,
                ids[t] as int,
            ) by {
                assert(present(vdata, ids[t] as int));
            }
            lemma_sum_over_order(ids, vdata, f, m);
        }
    }
}

/// Trace heights are bounded as the key asks: a constraint holds where the number of rows of every
/// AIR with a trace, at least that of the univariate domain, times the weight of that AIR, adds up
/// to less than the threshold, and only there.
pub proof fn weighted_heights_are_bounded<D>(
    vdata: Seq<Option<TraceVData<D>>>,
    ids: Seq<usize>,
    l_skip: usize,
    constraint: LinearConstraint,
)
    requires
        vdata.len() <= usize::MAX,
        is_trace_order(ids, vdata),
    ensures
        height_bounded(vdata, ids, l_skip, constraint) <==> sum_of_present(
            vdata,
            |a: int|
                {
                    let h = vdata[a]->0.log_height;
                    pow2(
                        if h < l_skip {
                            l_skip as nat
                        } else {
                            h as nat
                        },
                    ) * constraint.coefficients@[a] as nat
                },
            vdata.len(),
        ) < constraint.threshold,
{
    let f = weighted_height(vdata, l_skip, constraint);
    let g = |a: int|
        {
            let h = vdata[a]->0.log_height;
            pow2(
                if h < l_skip {
                    l_skip as nat
                } else {
                    h as nat
                },
            ) * constraint.coefficients@[a] as nat
        };
    lemma_sum_over_order(ids, vdata, f, vdata.len());
    assert(f =~= g);
}

/// The point of the stacked columns in multilinear form: coordinate `i` is the univariate
/// coordinate to the power `2^i` where that belongs to the univariate domain, and the coordinates
/// behind are the others as they are.
pub proof fn cube_point_has_powers(u_prism: Seq<EF>, l_skip: nat)
    requires
        u_prism.len() >= 1,
        u_prism[0].wf(),
    ensures
        cube_point(u_prism, l_skip).len() == l_skip + u_prism.len() - 1,
        forall|i: int|
            0 <= i < l_skip ==> #[trigger] cube_point(u_prism, l_skip)[i] == e_pow(
                u_prism[0],
                pow2(i as nat),
            ),
        forall|i: int|
            1 <= i < u_prism.len() ==> cube_point(u_prism, l_skip)[l_skip + i - 1]
                == #[trigger] u_prism[i],
{
    let c = cube_point(u_prism, l_skip);
    assert forall|i: int| 0 <= i < l_skip implies #[trigger] c[i] == e_pow(
        u_prism[0],
        pow2(i as nat),
    ) by {
        squares_are_powers(u_prism[0], i as nat);
    }
    assert forall|i: int| 1 <= i < u_prism.len() implies c[l_skip + i - 1]
        == #[trigger] u_prism[i] by {
        assert(c[l_skip + i - 1] == u_prism.skip(1)[i - 1]);
    }
}

/// One trace adds as many commitments as dimensions and rotations, behind those that are there.
proof fn lemma_one_step<D, N>(
    mvk: &MultiStarkVerifyingKey0<D, N>,
    vdata: Seq<Option<TraceVData<D>>>,
    ids: Seq<usize>,
    n: int,
)
    requires
        vdata_shape(mvk, vdata),
        is_trace_order(ids, vdata),
        0 < n <= ids.len(),
    ensures
        ({
            let a = ids[n - 1] as int;
            let count = first_cached(mvk.per_air@[a]) - 1
                + vdata[a]->0.cached_commitments@.len();
            let (x, y, z) = (
                other_commits(mvk, vdata, ids, n - 1),
                other_dims(mvk, vdata, ids, n - 1),
                other_rots(mvk, vdata, ids, n - 1),
            );
            &&& other_commits(mvk, vdata, ids, n).len() == x.len() + count
            &&& other_dims(mvk, vdata, ids, n).len() == y.len() + count
            &&& other_rots(mvk, vdata, ids, n).len() == z.len() + count
            &&& other_commits(mvk, vdata, ids, n).take(x.len() as int) == x
            &&& other_dims(mvk, vdata, ids, n).take(y.len() as int) == y
            &&& other_rots(mvk, vdata, ids, n).take(z.len() as int) == z
        }),
{
    let a = ids[n - 1] as int;
    let x = other_commits(mvk, vdata, ids, n - 1);
    let y = other_dims(mvk, vdata, ids, n - 1);
    let z = other_rots(mvk, vdata, ids, n - 1);
    assert(present(vdata, a));
    assert(air_vdata_shape(mvk, vdata, a));
    assert(other_commits(mvk, vdata, ids, n).take(x.len() as int) =~= x);
    assert(other_dims(mvk, vdata, ids, n).take(y.len() as int) =~= y);
    assert(other_rots(mvk, vdata, ids, n).take(z.len() as int) =~= z);
}

/// The lists of commitments, dimensions and rotations grow in step, and what is in them stays.
proof fn lemma_in_step<D, N>(
    mvk: &MultiStarkVerifyingKey0<D, N>,
    vdata: Seq<Option<TraceVData<D>>>,
    ids: Seq<usize>,
    m: int,
    n: int,
)
    requires
        vdata_shape(mvk, vdata),
        is_trace_order(ids, vdata),
        0 <= m <= n <= ids.len(),
    ensures
        other_commits(mvk, vdata, ids, m).len() == other_dims(mvk, vdata, ids, m).len(),
        other_commits(mvk, vdata, ids, m).len() == other_rots(mvk, vdata, ids, m).len(),
        other_commits(mvk, vdata, ids, n).len() == other_dims(mvk, vdata, ids, n).len(),
        other_commits(mvk, vdata, ids, n).len() == other_rots(mvk, vdata, ids, n).len(),
        other_commits(mvk, vdata, ids, m).len() <= other_commits(mvk, vdata, ids, n).len(),
        forall|c: int|
            0 <= c < other_commits(mvk, vdata, ids, m).len() ==> {
                &&& #[trigger] other_commits(mvk, vdata, ids, n)[c] == other_commits(
                    mvk,
                    vdata,
                    ids,
                    m,
                )[c]
                &&& other_dims(mvk, vdata, ids, n)[c] == other_dims(mvk, vdata, ids, m)[c]
                &&& other_rots(mvk, vdata, ids, n)[c] == other_rots(mvk, vdata, ids, m)[c]
            },
    decreases n,
{
    if n > 0 {
        lemma_one_step(mvk, vdata, ids, n);
        if m < n {
            lemma_in_step(mvk, vdata, ids, m, n - 1);
            let x = other_commits(mvk, vdata, ids, n - 1);
            let y = other_dims(mvk, vdata, ids, n - 1);
            let z = other_rots(mvk, vdata, ids, n - 1);
            assert forall|c: int| 0 <= c < other_commits(mvk, vdata, ids, m).len() implies {
                &&& #[trigger] other_commits(mvk, vdata, ids, n)[c] == other_commits(
                    mvk,
                    vdata,
                    ids,
                    m,
                )[c]
                &&& other_dims(mvk, vdata, ids, n)[c] == other_dims(mvk, vdata, ids, m)[c]
                &&& other_rots(mvk, vdata, ids, n)[c] == other_rots(mvk, vdata, ids, m)[c]
            } by {
                assert(x[c] == other_commits(mvk, vdata, ids, m)[c]);
                assert(other_commits(mvk, vdata, ids, n).take(x.len() as int)[c] == x[c]);
                assert(other_dims(mvk, vdata, ids, n).take(y.len() as int)[c] == y[c]);
                assert(other_rots(mvk, vdata, ids, n).take(z.len() as int)[c] == z[c]);
            }
        } else {
            lemma_in_step(mvk, vdata, ids, n - 1, n - 1);
        }
    }
}

/// Whether some commitment that is opened is `commit`, over a single matrix of the given width and
/// log height, with the given rotation.
pub open spec fn is_opened<D, N, L, R>(
    mvk: &MultiStarkVerifyingKey0<D, N>,
    proof: &Proof<D, L, R>,
    ids: Seq<usize>,
    commit: D,
    width: usize,
    log_height: usize,
    need_rot: bool,
) -> bool {
    exists|c: int|
        {
            &&& 1 <= c < all_commits(mvk, proof, ids).len()
            &&& #[trigger] all_commits(mvk, proof, ids)[c] == commit
            &&& commit_dims(mvk, proof.trace_vdata@, ids)[c] == seq![(width, log_height)]
            &&& commit_rots(mvk, proof.trace_vdata@, ids)[c] == seq![need_rot]
        }
}

/// Every commitment is opened: the first one is the common one, over the common parts of all
/// traces in order; and for every trace the preprocessed commitment of its key, if there is one,
/// and each of its cached commitments are among the others, with the width and the height of their
/// part and the rotation of their AIR. There are as many dimensions and rotations as commitments.
pub proof fn every_commitment_is_opened<D, N, L, R>(
    mvk: &MultiStarkVerifyingKey0<D, N>,
    proof: &Proof<D, L, R>,
    ids: Seq<usize>,
    a: int,
    i: int,
)
    requires
        proof.trace_vdata@.len() <= usize::MAX,
        vdata_shape(mvk, proof.trace_vdata@),
        is_trace_order(ids, proof.trace_vdata@),
        present(proof.trace_vdata@, a),
    ensures
        ({
            let commits = all_commits(mvk, proof, ids);
            let dims = commit_dims(mvk, proof.trace_vdata@, ids);
            let rots = commit_rots(mvk, proof.trace_vdata@, ids);
            let v = proof.trace_vdata@[a]->0;
            let vk = mvk.per_air@[a];
            &&& commits.len() == dims.len() == rots.len()
            &&& commits[0] == proof.common_main_commit
            &&& dims[0].len() == rots[0].len() == ids.len()
            &&& exists|t: int|
                {
                    &&& 0 <= t < ids.len()
                    &&& #[trigger] ids[t] == a
                    &&& dims[0][t] == (vk.params.width.common_main, v.log_height)
                    &&& rots[0][t] == vk.params.need_rot
                }
            &&& vk.preprocessed_data matches Some(p) ==> is_opened(
                mvk,
                proof,
                ids,
                p.commit,
                vk.params.width.preprocessed->0,
                v.log_height,
                vk.params.need_rot,
            )
            &&& 0 <= i < v.cached_commitments@.len() ==> is_opened(
                mvk,
                proof,
                ids,
                v.cached_commitments@[i],
                vk.params.width.cached_mains@[i],
                v.log_height,
                vk.params.need_rot,
            )
        }),
{
    let vdata = proof.trace_vdata@;
    let v = vdata[a]->0;
    let vk = mvk.per_air@[a];
    let n = ids.len() as int;
    assert(ids.contains(a as usize));
    let t = choose|t: int| 0 <= t < ids.len() && ids[t] == a as usize;
    assert(ids[t] == a);
    assert(air_vdata_shape(mvk, vdata, a));
    lemma_in_step(mvk, vdata, ids, t, n);
    lemma_in_step(mvk, vdata, ids, t + 1, n);
    let commits = all_commits(mvk, proof, ids);
    let dims = commit_dims(mvk, vdata, ids);
    let rots = commit_rots(mvk, vdata, ids);
    let before = other_commits(mvk, vdata, ids, t).len() as int;
    let some = other_commits(mvk, vdata, ids, t + 1);
    let h = v.log_height;
    if vk.preprocessed_data is Some {
        let p = vk.preprocessed_data->0;
        assert(some[before] == p.commit);
        assert(commits[1 + before] == other_commits(mvk, vdata, ids, n)[before]);
        assert(dims[1 + before] == other_dims(mvk, vdata, ids, n)[before]);
        assert(rots[1 + before] == other_rots(mvk, vdata, ids, n)[before]);
        assert(other_dims(mvk, vdata, ids, t + 1)[before] == preprocessed_dims(vk, h)[0]);
        assert(other_rots(mvk, vdata, ids, t + 1)[before] == seq![vk.params.need_rot]);
        assert(is_opened(
            mvk,
            proof,
            ids,
            p.commit,
            vk.params.width.preprocessed->0,
            h,
            vk.params.need_rot,
        ));
    }
    if 0 <= i < v.cached_commitments@.len() {
        let skip: int = if vk.preprocessed_data is Some {
            1
        } else {
            0
        };
        let c = before + skip + i;
        assert(some[c] == v.cached_commitments@[i]);
        assert(commits[1 + c] == other_commits(mvk, vdata, ids, n)[c]);
        assert(dims[1 + c] == other_dims(mvk, vdata, ids, n)[c]);
        assert(rots[1 + c] == other_rots(mvk, vdata, ids, n)[c]);
        assert(other_dims(mvk, vdata, ids, t + 1)[c] == cached_dims(
            vk,
            h,
            vk.params.width.cached_mains@.len(),
        )[i]);
        assert(other_rots(mvk, vdata, ids, t + 1)[c] == seq![vk.params.need_rot]);
        assert(is_opened(
            mvk,
            proof,
            ids,
            v.cached_commitments@[i],
            vk.params.width.cached_mains@[i],
            h,
            vk.params.need_rot,
        ));
    }
}

/// What a proof is refused for before anything of it is observed, in this order: other parameters
/// than those of the key, no trace at all, wrong sizes, traces that are too high. The transcript
/// stays as it is.
pub proof fn first_refusals<
    H: MerkleHasher<F = BabyBear>,
    TS: FiatShamirTranscript<H::Digest>,
    S: SubProtocols<TS>,
>(
    sub: &S,
    params: SystemParams,
    hasher: H,
    mvk: &MultiStarkVerifyingKey<H::Digest, S::Node>,
    proof: &Proof<H::Digest, S::Layers, S::Rounds>,
    s: TS::State,
    out: (TS, Result<(), VerifierError<S::GkrRejection, S::StackingRejection>>),
) where H::Digest: Eq
    requires
        may_verify::<H, TS, S>(sub, params, hasher, mvk, proof, s, out),
    ensures
        ({
            let vdata = proof.trace_vdata@;
            let other = !params.same(&mvk.inner.params);
            let empty = forall|a: int| 0 <= a < vdata.len() ==> (#[trigger] vdata[a]) is None;
            let shape = shape_error(&mvk.inner, proof);
            let high = exists|c: int|
                0 <= c < mvk.inner.trace_height_constraints@.len() && !height_bounded(
                    vdata,
                    trace_order(vdata),
                    mvk.inner.params.l_skip,
                    #[trigger] mvk.inner.trace_height_constraints@[c],
                );
            let e = out.1->Err_0;
            &&& (out.1 is Err && e is SystemParamsMismatch) <==> other
            &&& (out.1 is Err && e is EmptyTraces) <==> (!other && empty)
            &&& (out.1 is Err && e is ProofShapeError) <==> (!other && !empty && shape is Some)
            &&& out.1 is Err && e is ProofShapeError ==> shape == Some(e->ProofShapeError_0)
            &&& (out.1 is Err && e is TraceHeightsTooLarge) <==> (!other && !empty
                && shape is None && high)
            &&& other || empty || shape is Some || high ==> out.0.state() == s
        }),
{
    let vdata = proof.trace_vdata@;
    assert(has_no_traces(vdata) <==> (forall|a: int|
        0 <= a < vdata.len() ==> (#[trigger] vdata[a]) is None)) by {
        if has_no_traces(vdata) {
            assert forall|a: int| 0 <= a < vdata.len() implies (#[trigger] vdata[a]) is None by {
                assert(!present(vdata, a));
            }
        }
    }
    let n = mvk.inner.per_air@.len();
    let state = preamble::<H::Digest, TS, S::Node, S::Layers, S::Rounds>(s, mvk, proof, n).0;
    if may_finish::<H, TS, S>(sub, params, hasher, &mvk.inner, proof, state, out) {
        lemma_late_errors::<H, TS, S>(sub, params, hasher, &mvk.inner, proof, state, out);
    }
}

/// Once the preamble was observed, a proof is refused for other reasons.
proof fn lemma_late_errors<
    H: MerkleHasher<F = BabyBear>,
    TS: FiatShamirTranscript<H::Digest>,
    S: SubProtocols<TS>,
>(
    sub: &S,
    params: SystemParams,
    hasher: H,
    mvk: &MultiStarkVerifyingKey0<H::Digest, S::Node>,
    proof: &Proof<H::Digest, S::Layers, S::Rounds>,
    state: TS::State,
    out: (TS, Result<(), VerifierError<S::GkrRejection, S::StackingRejection>>),
) where H::Digest: Eq
    requires
        may_finish::<H, TS, S>(sub, params, hasher, mvk, proof, state, out),
    ensures
        out.1 is Err ==> {
            let e = out.1->Err_0;
            e is BatchConstraintError || e is StackedReductionError || e is WhirError
        },
{
    let (pows, checked) = choose|
        pows: Vec<BabyBear>,
        checked: (TS, Result<Vec<EF>, BatchConstraintError<S::GkrRejection>>),
    |
        {
            &&& pows@ == base_powers(
                f_generator(mvk.params.l_skip as nat),
                pow2(mvk.params.l_skip as nat),
            )
            &&& #[trigger] may_check::<H::Digest, TS, S>(sub, mvk, proof, state, pows, checked)
            &&& may_go_on::<H, TS, S>(sub, params, hasher, mvk, proof, pows, checked, out)
        };
    assert(may_go_on::<H, TS, S>(sub, params, hasher, mvk, proof, pows, checked, out));
}

/// A proof of the right shape leaves nothing open. For every AIR there is an entry that tells of
/// its trace and one for its public values; a required AIR has a trace; a trace fits into a
/// stacked column and has as many cached commitments and public values as its key says; and every
/// trace has a numerator, a denominator and a list of column values.
pub proof fn right_shape_covers_airs<D, N, L, R>(
    mvk: &MultiStarkVerifyingKey0<D, N>,
    proof: &Proof<D, L, R>,
    a: int,
)
    requires
        shape_error(mvk, proof) is None,
        0 <= a < mvk.per_air@.len(),
    ensures
        ({
            let vk = mvk.per_air@[a];
            let batch = proof.batch_constraint_proof;
            let num_traces = trace_order(proof.trace_vdata@).len();
            &&& proof.trace_vdata@.len() == mvk.per_air@.len()
            &&& proof.public_values@.len() == mvk.per_air@.len()
            &&& vk.is_required ==> proof.trace_vdata@[a] is Some
            &&& proof.trace_vdata@[a] matches Some(v) ==> {
                &&& v.log_height <= mvk.params.l_skip + mvk.params.n_stack
                &&& v.cached_commitments@.len() == vk.params.width.cached_mains@.len()
                &&& proof.public_values@[a]@.len() == vk.params.num_public_values
            }
            &&& batch.numerator_term_per_air@.len() == num_traces
            &&& batch.denominator_term_per_air@.len() == num_traces
            &&& batch.column_openings@.len() == num_traces
        }),
{
    assert(air_vdata_shape(mvk, proof.trace_vdata@, a));
    if proof.trace_vdata@[a] is Some {
        assert(present(proof.trace_vdata@, a));
    }
}

/// A proof of the right shape has a value for every column of every trace: the common ones first,
/// then the preprocessed ones, if there are any, and then those of each cached part; and as many
/// again where columns are rotated. Its rounds are those that the degree of the constraints and
/// the height of the highest trace ask for.
pub proof fn right_shape_covers_columns<D, N, L, R>(
    mvk: &MultiStarkVerifyingKey0<D, N>,
    proof: &Proof<D, L, R>,
    t: int,
    i: int,
)
    requires
        shape_error(mvk, proof) is None,
        proof.trace_vdata@.len() <= usize::MAX,
        0 <= t < trace_order(proof.trace_vdata@).len(),
    ensures
        ({
            let ids = trace_order(proof.trace_vdata@);
            let batch = proof.batch_constraint_proof;
            let vk = mvk.per_air@[ids[t] as int];
            let width = vk.params.width;
            let parts = batch.column_openings@[t]@;
            let times: int = if vk.params.need_rot {
                2
            } else {
                1
            };
            let first: int = if vk.preprocessed_data is Some {
                2
            } else {
                1
            };
            let degree = mvk.params.max_constraint_degree + 1;
            let h = log_height(proof.trace_vdata@, ids[t] as int);
            &&& parts.len() == first + width.cached_mains@.len()
            &&& parts[0]@.len() == width.common_main * times
            &&& first == 2 ==> parts[1]@.len() == width.preprocessed->0 * times
            &&& 0 <= i < width.cached_mains@.len() ==> parts[first + i]@.len()
                == width.cached_mains@[i] * times
            &&& batch.univariate_round_coeffs@.len() == degree * (pow2(
                mvk.params.l_skip as nat,
            ) - 1) + 1
            &&& h <= mvk.params.l_skip + batch.sumcheck_round_polys@.len()
            &&& 0 <= i < batch.sumcheck_round_polys@.len()
                ==> batch.sumcheck_round_polys@[i]@.len() == degree
        }),
{
    let vdata = proof.trace_vdata@;
    let ids = trace_order(vdata);
    let batch = proof.batch_constraint_proof;
    let vk = mvk.per_air@[ids[t] as int];
    assert(trace_openings_shape(vk, batch.column_openings@[t]@));
    let parts = batch.column_openings@[t]@;
    let first = first_cached(vk);
    assert(parts[0]@.len() == part_width(vk, 0) * (if vk.params.need_rot {
        2int
    } else {
        1int
    }));
    if first == 2 {
        assert(parts[1]@.len() == part_width(vk, 1) * (if vk.params.need_rot {
            2int
        } else {
            1int
        }));
    }
    if 0 <= i < vk.params.width.cached_mains@.len() {
        assert(parts[first + i]@.len() == part_width(vk, first + i) * (if vk.params.need_rot {
            2int
        } else {
            1int
        }));
    }
    trace_order_exists(vdata);
    assert(is_trace_order(ids, vdata));
    if t > 0 {
        assert(precedes(vdata, ids[0] as int, ids[t] as int));
    }
}

/// A proof of the right shape has a value for every stacked column: under each commitment there
/// are as many values as are needed to hold the rows of all its matrices, and no more. And its
/// WHIR proof has a message and a witness for every folding step, a witness for the queries of
/// every round, and a commitment, a value at the random point and openings for every round that
/// another one follows.
pub proof fn right_shape_covers_openings<D, N, L, R>(
    mvk: &MultiStarkVerifyingKey0<D, N>,
    proof: &Proof<D, L, R>,
    c: int,
)
    requires
        shape_error(mvk, proof) is None,
        0 <= c < proof.stacking_proof.stacking_openings@.len(),
    ensures
        ({
            let params = mvk.params;
            let dims = commit_dims(mvk, proof.trace_vdata@, trace_order(proof.trace_vdata@));
            let openings = proof.stacking_proof.stacking_openings@;
            let height = pow2((params.l_skip + params.n_stack) as nat) as int;
            let rows = rows_before(dims[c], params.l_skip as nat, dims[c].len() as int);
            let whir = proof.whir_proof;
            let rounds = params.whir.rounds@.len();
            &&& openings.len() == dims.len()
            &&& rows <= openings[c]@.len() * height < rows + height
            &&& whir.whir_sumcheck_polys@.len() == params.whir.k * rounds
            &&& whir.folding_pow_witnesses@.len() == params.whir.k * rounds
            &&& whir.query_phase_pow_witnesses@.len() == rounds
            &&& whir.codeword_commits@.len() == rounds - 1
            &&& whir.ood_values@.len() == rounds - 1
            &&& whir.codeword_opened_values@.len() == rounds - 1
            &&& whir.codeword_merkle_proofs@.len() == rounds - 1
        }),
{
    let params = mvk.params;
    let dims = commit_dims(mvk, proof.trace_vdata@, trace_order(proof.trace_vdata@));
    let openings = proof.stacking_proof.stacking_openings@;
    let height = pow2((params.l_skip + params.n_stack) as nat) as int;
    let rows = rows_before(dims[c], params.l_skip as nat, dims[c].len() as int) as int;
    lemma_pow2_pos((params.l_skip + params.n_stack) as nat);
    assert(openings[c]@.len() == stacked_width(&params, dims[c]));
    let q = (rows + height - 1) / height;
    lemma_fundamental_div_mod(rows + height - 1, height);
    assert(height * q == q * height) by (nonlinear_arith);
}

/// A proof of the right shape opens all that the queries read. For every commitment and every
/// query of the first round there are `2^k` rows, each with an entry for every stacked column, and
/// a path of the right length; for every query of a later round there are `2^k` values and such a
/// path.
pub proof fn right_shape_covers_queries<D, N, L, R>(
    mvk: &MultiStarkVerifyingKey0<D, N>,
    proof: &Proof<D, L, R>,
    c: int,
    i: int,
    q: int,
    j: int,
)
    requires
        mvk.params.wf(),
        shape_error(mvk, proof) is None,
        0 <= c < proof.stacking_proof.stacking_openings@.len(),
        0 <= i < mvk.params.whir.rounds@.len(),
        0 <= q < mvk.params.whir.rounds@[i].num_queries,
        0 <= j < pow2(mvk.params.whir.k as nat),
    ensures
        ({
            let params = mvk.params;
            let whir = proof.whir_proof;
            let log_domain = params.l_skip + params.n_stack + params.log_blowup;
            let width = proof.stacking_proof.stacking_openings@[c]@.len();
            let rows = whir.initial_round_opened_rows@[c]@;
            let paths = whir.initial_round_merkle_proofs@[c]@;
            let values = whir.codeword_opened_values@[i - 1]@;
            let later = whir.codeword_merkle_proofs@[i - 1]@;
            &&& i == 0 ==> {
                &&& rows.len() == paths.len() == params.whir.rounds@[0].num_queries
                &&& rows[q]@.len() == pow2(params.whir.k as nat)
                &&& rows[q]@[j]@.len() == width
                &&& paths[q]@.len() == log_domain - params.whir.k
            }
            &&& i > 0 ==> {
                &&& values.len() == later.len() == params.whir.rounds@[i].num_queries
                &&& values[q]@.len() == pow2(params.whir.k as nat)
                &&& later[q]@.len() == log_domain - i - params.whir.k
            }
        }),
{
    let params = mvk.params;
    let openings = proof.stacking_proof.stacking_openings@;
    assert(openings_shape(
        &proof.whir_proof,
        openings,
        openings.len(),
        params.whir.rounds@[i].num_queries as nat,
        (params.num_vars() + params.log_blowup) as nat,
        params.whir.k as nat,
        i,
    ));
}

} // verus!
