//! The sizes that the parts of a proof must have.

use vstd::arithmetic::power2::*;
use vstd::prelude::*;

use crate::bits::{lemma_pow2_mono, lemma_usize_bits, pow2_usize};
use crate::field::EF;
use crate::keys::{MultiStarkVerifyingKey0, StarkVerifyingKey};
use crate::params::SystemParams;
use crate::proofs::{BatchConstraintProof, Proof, TraceVData, WhirProof};
use crate::stacked_layout::{
    fits, is_column, is_layout_of, rows_before, sorted_columns_fit, Dims, StackedLayout,
};
use crate::verification::batch_sumcheck::sumcheck_shape;
use crate::verification::trace_order::{
    is_trace_order, log_height, order_traces, precedes, present, trace_order_is_unique,
};
use crate::verification::whir::{
    initial_openings_shape, later_openings_shape, openings_shape, total_width, whir_shape,
};

verus! {

/// The part of a proof whose sizes are wrong.
#[derive(Copy, Clone, Debug, PartialEq, Eq, Structural)]
pub enum ProofShapeError {
    /// What the verifier is told of the traces.
    TraceVData,
    /// The public values.
    PublicValues,
    /// The proof of the batched constraints.
    BatchConstraints,
    /// The values of the stacked columns.
    Stacking,
    /// The WHIR proof.
    Whir,
}

/// Whether what is told of AIR `a` fits its verifying key: a required AIR has a trace, the trace
/// fits into a stacked column, and there are as many cached commitments as cached parts.
pub open spec fn air_vdata_shape<D, N>(
    mvk: &MultiStarkVerifyingKey0<D, N>,
    vdata: Seq<Option<TraceVData<D>>>,
    a: int,
) -> bool {
    match vdata[a] {
        Some(v) => {
            &&& v.log_height <= mvk.params.num_vars()
            &&& v.cached_commitments@.len() == mvk.per_air@[a].params.width.cached_mains@.len()
        },
        None => !mvk.per_air@[a].is_required,
    }
}

pub open spec fn vdata_shape<D, N>(
    mvk: &MultiStarkVerifyingKey0<D, N>,
    vdata: Seq<Option<TraceVData<D>>>,
) -> bool {
    &&& vdata.len() == mvk.per_air@.len()
    &&& forall|a: int| 0 <= a < vdata.len() ==> #[trigger] air_vdata_shape(mvk, vdata, a)
}

/// Whether there are public values for all AIRs, and for those with a trace as many as their
/// verifying keys ask for.
pub open spec fn public_shape<D, N, L, R>(
    mvk: &MultiStarkVerifyingKey0<D, N>,
    proof: &Proof<D, L, R>,
) -> bool {
    &&& proof.public_values@.len() == mvk.per_air@.len()
    &&& forall|a: int|
        0 <= a < mvk.per_air@.len() && present(proof.trace_vdata@, a) ==> (
        #[trigger] proof.public_values@[a])@.len() == mvk.per_air@[a].params.num_public_values
}

/// The index of the first cached part among the parts of a trace.
pub open spec fn first_cached<D, N>(vk: StarkVerifyingKey<D, N>) -> int {
    if vk.preprocessed_data is Some {
        2
    } else {
        1
    }
}

/// The number of columns in part `p` of a trace.
pub open spec fn part_width<D, N>(vk: StarkVerifyingKey<D, N>, p: int) -> int {
    if p == 0 {
        vk.params.width.common_main as int
    } else if p < first_cached(vk) {
        vk.params.width.preprocessed->0 as int
    } else {
        vk.params.width.cached_mains@[p - first_cached(vk)] as int
    }
}

/// Whether there is a value for each column of each part of a trace, and one for each rotated
/// column where columns are rotated.
pub open spec fn trace_openings_shape<D, N>(
    vk: StarkVerifyingKey<D, N>,
    parts: Seq<Vec<EF>>,
) -> bool {
    &&& parts.len() == first_cached(vk) + vk.params.width.cached_mains@.len()
    &&& forall|p: int|
        0 <= p < parts.len() ==> (#[trigger] parts[p])@.len() == part_width(vk, p) * (
        if vk.params.need_rot {
            2int
        } else {
            1int
        })
}

/// The number of variables besides the univariate ones of the highest trace.
pub open spec fn largest_n<D>(
    vdata: Seq<Option<TraceVData<D>>>,
    ids: Seq<usize>,
    l_skip: nat,
) -> nat {
    if log_height(vdata, ids[0] as int) > l_skip {
        (log_height(vdata, ids[0] as int) - l_skip) as nat
    } else {
        0
    }
}

pub open spec fn batch_shape<D, N, L, R>(
    mvk: &MultiStarkVerifyingKey0<D, N>,
    proof: &Proof<D, L, R>,
    ids: Seq<usize>,
) -> bool {
    let batch = &proof.batch_constraint_proof;
    &&& batch.numerator_term_per_air@.len() == ids.len()
    &&& batch.column_openings@.len() == ids.len()
    &&& forall|t: int|
        0 <= t < ids.len() ==> trace_openings_shape(
            mvk.per_air@[ids[t] as int],
            (#[trigger] batch.column_openings@[t])@,
        )
    &&& sumcheck_shape(
        batch,
        mvk.params.l_skip as nat,
        (mvk.params.max_constraint_degree + 1) as nat,
        largest_n(proof.trace_vdata@, ids, mvk.params.l_skip as nat),
    )
}

/// The dimensions of the common main parts, which are committed to together.
pub open spec fn common_dims<D, N>(
    mvk: &MultiStarkVerifyingKey0<D, N>,
    vdata: Seq<Option<TraceVData<D>>>,
    ids: Seq<usize>,
) -> Dims {
    Seq::new(
        ids.len(),
        |t: int|
            (
                mvk.per_air@[ids[t] as int].params.width.common_main,
                log_height(vdata, ids[t] as int),
            ),
    )
}

/// The dimensions of the first `n` cached parts of a trace, each of which is committed to alone.
pub open spec fn cached_dims<D, N>(
    vk: StarkVerifyingKey<D, N>,
    log_height: usize,
    n: nat,
) -> Seq<Dims> {
    Seq::new(n, |i: int| seq![(vk.params.width.cached_mains@[i], log_height)])
}

/// The dimensions of the preprocessed part of a trace, which is committed to alone, if there is
/// one.
pub open spec fn preprocessed_dims<D, N>(vk: StarkVerifyingKey<D, N>, log_height: usize) -> Seq<
    Dims,
> {
    if vk.preprocessed_data is Some {
        seq![seq![(vk.params.width.preprocessed->0, log_height)]]
    } else {
        Seq::empty()
    }
}

/// The dimensions under each commitment to a part of the first `n` traces other than the common
/// main part.
pub open spec fn other_dims<D, N>(
    mvk: &MultiStarkVerifyingKey0<D, N>,
    vdata: Seq<Option<TraceVData<D>>>,
    ids: Seq<usize>,
    n: int,
) -> Seq<Dims>
    decreases n,
{
    if n <= 0 {
        Seq::empty()
    } else {
        let a = ids[n - 1] as int;
        let vk = mvk.per_air@[a];
        let h = log_height(vdata, a);
        other_dims(mvk, vdata, ids, n - 1) + preprocessed_dims(vk, h) + cached_dims(
            vk,
            h,
            vk.params.width.cached_mains@.len(),
        )
    }
}

/// The dimensions of what is stacked under each commitment.
pub open spec fn commit_dims<D, N>(
    mvk: &MultiStarkVerifyingKey0<D, N>,
    vdata: Seq<Option<TraceVData<D>>>,
    ids: Seq<usize>,
) -> Seq<Dims> {
    seq![common_dims(mvk, vdata, ids)] + other_dims(mvk, vdata, ids, ids.len() as int)
}

/// The number of stacked columns that matrices of the given dimensions fill.
pub open spec fn stacked_width(params: &SystemParams, dims: Dims) -> int {
    let height = pow2(params.num_vars() as nat) as int;
    (rows_before(dims, params.l_skip as nat, dims.len() as int) + height - 1) / height
}

/// Whether there is a value for each stacked column under each commitment.
pub open spec fn stacking_shape(
    params: &SystemParams,
    openings: Seq<Vec<EF>>,
    dims: Seq<Dims>,
) -> bool {
    &&& openings.len() == dims.len()
    &&& forall|c: int|
        0 <= c < openings.len() ==> (#[trigger] openings[c])@.len() == stacked_width(
            params,
            dims[c],
        )
}

/// The order of the traces.
pub open spec fn trace_order<D>(vdata: Seq<Option<TraceVData<D>>>) -> Seq<usize> {
    choose|ids: Seq<usize>| is_trace_order(ids, vdata)
}

/// The first part of the proof whose sizes are wrong, if any.
pub open spec fn shape_error<D, N, L, R>(
    mvk: &MultiStarkVerifyingKey0<D, N>,
    proof: &Proof<D, L, R>,
) -> Option<ProofShapeError> {
    let ids = trace_order(proof.trace_vdata@);
    let dims = commit_dims(mvk, proof.trace_vdata@, ids);
    let openings = proof.stacking_proof.stacking_openings@;
    if !vdata_shape(mvk, proof.trace_vdata@) {
        Some(ProofShapeError::TraceVData)
    } else if !public_shape(mvk, proof) {
        Some(ProofShapeError::PublicValues)
    } else if !batch_shape(mvk, proof, ids) {
        Some(ProofShapeError::BatchConstraints)
    } else if !stacking_shape(&mvk.params, openings, dims) {
        Some(ProofShapeError::Stacking)
    } else if !whir_shape(&mvk.params, &proof.whir_proof, openings, openings.len()) {
        Some(ProofShapeError::Whir)
    } else {
        None
    }
}

/// Whether `layouts` are the layouts of what is stacked under each commitment.
pub open spec fn are_layouts_of(
    layouts: Seq<StackedLayout>,
    params: &SystemParams,
    dims: Seq<Dims>,
) -> bool {
    &&& layouts.len() == dims.len()
    &&& forall|c: int|
        0 <= c < layouts.len() ==> is_layout_of(
            #[trigger] layouts[c],
            params.l_skip as nat,
            params.num_vars() as nat,
            dims[c],
        )
}

fn has_vdata_shape<D, N>(
    mvk: &MultiStarkVerifyingKey0<D, N>,
    vdata: &Vec<Option<TraceVData<D>>>,
) -> (r: bool)
    requires
        mvk.params.wf(),
    ensures
        r == vdata_shape(mvk, vdata@),
{
    if vdata.len() != mvk.per_air.len() {
        return false;
    }
    let limit = mvk.params.l_skip + mvk.params.n_stack;
    let mut a: usize = 0;
    while a < vdata.len()
        invariant
            a <= vdata@.len() == mvk.per_air@.len(),
            limit == mvk.params.num_vars(),
            forall|b: int| 0 <= b < a ==> #[trigger] air_vdata_shape(mvk, vdata@, b),
        decreases vdata@.len() - a,
    {
        let vk = &mvk.per_air[a];
        let ok = match &vdata[a] {
            Some(v) => v.log_height <= limit && v.cached_commitments.len()
                == vk.params.width.cached_mains.len(),
            None => !vk.is_required,
        };
        assert(ok == air_vdata_shape(mvk, vdata@, a as int));
        if !ok {
            return false;
        }
        a = a + 1;
    }
    true
}

fn has_public_shape<D, N, L, R>(
    mvk: &MultiStarkVerifyingKey0<D, N>,
    proof: &Proof<D, L, R>,
) -> (r: bool)
    requires
        proof.trace_vdata@.len() == mvk.per_air@.len(),
    ensures
        r == public_shape(mvk, proof),
{
    if proof.public_values.len() != mvk.per_air.len() {
        return false;
    }
    let mut a: usize = 0;
    while a < mvk.per_air.len()
        invariant
            a <= mvk.per_air@.len() == proof.public_values@.len(),
            proof.trace_vdata@.len() == mvk.per_air@.len(),
            forall|b: int|
                0 <= b < a && present(proof.trace_vdata@, b) ==> (
                #[trigger] proof.public_values@[b])@.len()
                    == mvk.per_air@[b].params.num_public_values,
        decreases mvk.per_air@.len() - a,
    {
        if proof.trace_vdata[a].is_some() && proof.public_values[a].len()
            != mvk.per_air[a].params.num_public_values {
            assert(present(proof.trace_vdata@, a as int));
            assert(proof.public_values@[a as int]@.len()
                != mvk.per_air@[a as int].params.num_public_values);
            return false;
        }
        a = a + 1;
    }
    true
}

/// Whether a list of `len` values has one for each of `width` columns, or two of each.
fn is_width(len: usize, width: usize, need_rot: bool) -> (r: bool)
    ensures
        r == (len == width * (if need_rot {
            2int
        } else {
            1int
        })),
{
    if need_rot {
        len % 2 == 0 && len / 2 == width
    } else {
        len == width
    }
}

fn has_trace_openings_shape<D, N>(vk: &StarkVerifyingKey<D, N>, parts: &Vec<Vec<EF>>) -> (r: bool)
    requires
        vk.preprocessed_data is Some ==> vk.params.width.preprocessed is Some,
        vk.params.width.cached_mains@.len() + 2 <= usize::MAX,
    ensures
        r == trace_openings_shape(*vk, parts@),
{
    let first: usize = if vk.preprocessed_data.is_some() {
        2
    } else {
        1
    };
    if parts.len() != first + vk.params.width.cached_mains.len() {
        return false;
    }
    let mut p: usize = 0;
    while p < parts.len()
        invariant
            p <= parts@.len(),
            first == first_cached(*vk),
            parts@.len() == first + vk.params.width.cached_mains@.len(),
            vk.preprocessed_data is Some ==> vk.params.width.preprocessed is Some,
            forall|q: int|
                0 <= q < p ==> (#[trigger] parts@[q])@.len() == part_width(*vk, q) * (
                if vk.params.need_rot {
                    2int
                } else {
                    1int
                }),
        decreases parts@.len() - p,
    {
        let width = if p == 0 {
            vk.params.width.common_main
        } else if p < first {
            match vk.params.width.preprocessed {
                Some(w) => w,
                None => 0,
            }
        } else {
            vk.params.width.cached_mains[p - first]
        };
        if !is_width(parts[p].len(), width, vk.params.need_rot) {
            assert(parts@[p as int]@.len() != part_width(*vk, p as int) * (
            if vk.params.need_rot {
                2int
            } else {
                1int
            }));
            return false;
        }
        p = p + 1;
    }
    true
}

fn has_sumcheck_shape(
    batch: &BatchConstraintProof,
    l_skip: usize,
    s_deg: usize,
    n_max: usize,
) -> (r: bool)
    requires
        l_skip <= 27,
    ensures
        r == sumcheck_shape(batch, l_skip as nat, s_deg as nat, n_max as nat),
{
    let size = pow2_usize(l_skip);
    let len = batch.univariate_round_coeffs.len();
    // s_deg * (2^l_skip - 1) + 1
    proof {
        lemma_pow2_mono(l_skip as nat, 27);
        lemma2_to64();
        assert(0 <= s_deg * (size - 1) && s_deg * (size - 1) <= 0xffff_ffff_ffff_ffff * 0x8000000)
            by (nonlinear_arith)
            requires
                0 <= s_deg <= 0xffff_ffff_ffff_ffff,
                1 <= size <= 0x8000000,
        ;
    }
    let expected = s_deg as u128 * (size - 1) as u128 + 1;
    if batch.numerator_term_per_air.len() != batch.denominator_term_per_air.len() || len as u128
        != expected || batch.sumcheck_round_polys.len() != n_max {
        return false;
    }
    let mut i: usize = 0;
    while i < n_max
        invariant
            i <= n_max == batch.sumcheck_round_polys@.len(),
            forall|j: int|
                0 <= j < i ==> (#[trigger] batch.sumcheck_round_polys@[j])@.len() == s_deg,
        decreases n_max - i,
    {
        if batch.sumcheck_round_polys[i].len() != s_deg {
            assert(batch.sumcheck_round_polys@[i as int]@.len() != s_deg);
            return false;
        }
        i = i + 1;
    }
    true
}

fn has_batch_shape<D, N, L, R>(
    mvk: &MultiStarkVerifyingKey0<D, N>,
    proof: &Proof<D, L, R>,
    ids: &Vec<usize>,
) -> (r: bool)
    requires
        mvk.wf(),
        vdata_shape(mvk, proof.trace_vdata@),
        is_trace_order(ids@, proof.trace_vdata@),
        ids@.len() >= 1,
    ensures
        r == batch_shape(mvk, proof, ids@),
{
    let batch = &proof.batch_constraint_proof;
    let n = ids.len();
    if batch.numerator_term_per_air.len() != n || batch.column_openings.len() != n {
        return false;
    }
    let mut t: usize = 0;
    while t < n
        invariant
            t <= n,
            n == ids@.len(),
            n == batch.column_openings@.len(),
            *batch == proof.batch_constraint_proof,
            mvk.wf(),
            vdata_shape(mvk, proof.trace_vdata@),
            is_trace_order(ids@, proof.trace_vdata@),
            forall|u: int|
                0 <= u < t ==> trace_openings_shape(
                    mvk.per_air@[ids@[u] as int],
                    (#[trigger] batch.column_openings@[u])@,
                ),
        decreases n - t,
    {
        proof {
            assert(ids@[t as int] < mvk.per_air@.len());
            assert(mvk.per_air@[ids@[t as int] as int].wf());
        }
        if !has_trace_openings_shape(&mvk.per_air[ids[t]], &batch.column_openings[t]) {
            assert(!trace_openings_shape(
                mvk.per_air@[ids@[t as int] as int],
                batch.column_openings@[t as int]@,
            ));
            return false;
        }
        t = t + 1;
    }
    let l_skip = mvk.params.l_skip;
    proof {
        assert(ids@[0] < mvk.per_air@.len());
        assert(present(proof.trace_vdata@, ids@[0] as int));
    }
    let height = height_of(&proof.trace_vdata, ids[0]);
    let n_max = if height > l_skip {
        height - l_skip
    } else {
        0
    };
    has_sumcheck_shape(batch, l_skip, mvk.params.max_constraint_degree + 1, n_max)
}

/// The log height of the trace of AIR `a`, which has one.
pub fn height_of<D>(vdata: &Vec<Option<TraceVData<D>>>, a: usize) -> (r: usize)
    requires
        present(vdata@, a as int),
    ensures
        r == log_height(vdata@, a as int),
{
    match &vdata[a] {
        Some(v) => v.log_height,
        None => 0,
    }
}

/// The layout of matrices in descending order of height, none higher than the stacked matrix.
fn layout_of(params: &SystemParams, dims: Vec<(usize, usize)>) -> (r: StackedLayout)
    requires
        params.wf(),
        forall|m: int| 0 <= m < dims@.len() ==> (#[trigger] dims@[m]).1 <= params.num_vars(),
        forall|a: int, b: int|
            0 <= a <= b < dims@.len() ==> (#[trigger] dims@[a]).1 >= (#[trigger] dims@[b]).1,
    ensures
        is_layout_of(r, params.l_skip as nat, params.num_vars() as nat, dims@),
{
    let ghost all = dims@;
    let log_height = params.l_skip + params.n_stack;
    proof {
        assert forall|m: int, j: int| is_column(all, m, j) implies #[trigger] fits(
            all,
            params.l_skip as nat,
            log_height as nat,
            m,
            j,
        ) by {
            sorted_columns_fit(all, params.l_skip as nat, log_height as nat, m, j);
        }
    }
    match StackedLayout::new(params.l_skip, log_height, dims) {
        Ok(layout) => layout,
        Err(_) => {
            proof {
                assert(false);
            }
            StackedLayout {
                l_skip: 0,
                height: 0,
                width: 0,
                sorted_cols: Vec::new(),
                mat_starts: Vec::new(),
            }
        },
    }
}

/// The layouts of what is stacked under each commitment.
fn build_layouts<D, N>(
    mvk: &MultiStarkVerifyingKey0<D, N>,
    vdata: &Vec<Option<TraceVData<D>>>,
    ids: &Vec<usize>,
) -> (r: Vec<StackedLayout>)
    requires
        mvk.wf(),
        vdata_shape(mvk, vdata@),
        is_trace_order(ids@, vdata@),
    ensures
        are_layouts_of(r@, &mvk.params, commit_dims(mvk, vdata@, ids@)),
{
    let n = ids.len();
    let params = &mvk.params;
    let ghost common = common_dims(mvk, vdata@, ids@);
    let mut dims: Vec<(usize, usize)> = Vec::with_capacity(n);
    let mut t: usize = 0;
    while t < n
        invariant
            t <= n,
            n == ids@.len(),
            vdata_shape(mvk, vdata@),
            is_trace_order(ids@, vdata@),
            common == common_dims(mvk, vdata@, ids@),
            dims@ == common.take(t as int),
        decreases n - t,
    {
        proof {
            assert(ids@[t as int] < mvk.per_air@.len());
        }
        let a = ids[t];
        dims.push((mvk.per_air[a].params.width.common_main, height_of(vdata, a)));
        assert(common.take(t + 1) =~= common.take(t as int).push(common[t as int]));
        t = t + 1;
    }
    proof {
        assert(common.take(n as int) =~= common);
        assert forall|m: int| 0 <= m < common.len() implies (#[trigger] common[m]).1
            <= params.num_vars() by {
            assert(ids@[m] < mvk.per_air@.len());
            assert(air_vdata_shape(mvk, vdata@, ids@[m] as int));
        }
        assert forall|a: int, b: int| 0 <= a <= b < common.len() implies (#[trigger] common[a]).1
            >= (#[trigger] common[b]).1 by {
            if a < b {
                assert(precedes(vdata@, ids@[a] as int, ids@[b] as int));
            }
        }
    }
    let mut layouts: Vec<StackedLayout> = Vec::new();
    layouts.push(layout_of(params, dims));
    let ghost mut so_far = seq![common];
    let mut t: usize = 0;
    proof {
        assert(so_far =~= seq![common] + other_dims(mvk, vdata@, ids@, 0));
    }
    while t < n
        invariant
            t <= n,
            n == ids@.len(),
            mvk.wf(),
            *params == mvk.params,
            vdata_shape(mvk, vdata@),
            is_trace_order(ids@, vdata@),
            so_far == seq![common] + other_dims(mvk, vdata@, ids@, t as int),
            are_layouts_of(layouts@, params, so_far),
        decreases n - t,
    {
        let ghost ti = t as int;
        proof {
            assert(ids@[ti] < mvk.per_air@.len());
            assert(mvk.per_air@[ids@[ti] as int].wf());
            assert(air_vdata_shape(mvk, vdata@, ids@[ti] as int));
        }
        let a = ids[t];
        let vk = &mvk.per_air[a];
        let height = height_of(vdata, a);
        let ghost before = so_far;
        if vk.preprocessed_data.is_some() {
            let width = match vk.params.width.preprocessed {
                Some(w) => w,
                None => 0,
            };
            let mut one: Vec<(usize, usize)> = Vec::with_capacity(1);
            one.push((width, height));
            assert(one@ =~= seq![(width, height)]);
            layouts.push(layout_of(params, one));
            proof {
                so_far = so_far.push(seq![(width, height)]);
            }
        }
        proof {
            assert(so_far =~= before + preprocessed_dims(*vk, height));
            assert(so_far + cached_dims(*vk, height, 0) =~= so_far);
        }
        let ghost base = so_far;
        let num = vk.params.width.cached_mains.len();
        let mut c: usize = 0;
        while c < num
            invariant
                c <= num,
                num == vk.params.width.cached_mains@.len(),
                params.wf(),
                height <= params.num_vars(),
                so_far == base + cached_dims(*vk, height, c as nat),
                are_layouts_of(layouts@, params, so_far),
            decreases num - c,
        {
            let width = vk.params.width.cached_mains[c];
            let mut one: Vec<(usize, usize)> = Vec::with_capacity(1);
            one.push((width, height));
            assert(one@ =~= seq![(width, height)]);
            layouts.push(layout_of(params, one));
            proof {
                so_far = so_far.push(seq![(width, height)]);
                assert(so_far =~= base + cached_dims(*vk, height, (c + 1) as nat));
            }
            c = c + 1;
        }
        proof {
            assert(so_far =~= seq![common] + other_dims(mvk, vdata@, ids@, ti + 1));
        }
        t = t + 1;
    }
    layouts
}

fn has_stacking_shape(
    params: &SystemParams,
    openings: &Vec<Vec<EF>>,
    layouts: &Vec<StackedLayout>,
    Ghost(dims): Ghost<Seq<Dims>>,
) -> (r: bool)
    requires
        are_layouts_of(layouts@, params, dims),
    ensures
        r == stacking_shape(params, openings@, dims),
{
    if openings.len() != layouts.len() {
        return false;
    }
    let mut c: usize = 0;
    while c < openings.len()
        invariant
            c <= openings@.len() == layouts@.len(),
            are_layouts_of(layouts@, params, dims),
            forall|d: int|
                0 <= d < c ==> (#[trigger] openings@[d])@.len() == stacked_width(params, dims[d]),
        decreases openings@.len() - c,
    {
        proof {
            assert(is_layout_of(
                layouts@[c as int],
                params.l_skip as nat,
                params.num_vars() as nat,
                dims[c as int],
            ));
        }
        if openings[c].len() != layouts[c].width {
            assert(openings@[c as int]@.len() != stacked_width(params, dims[c as int]));
            return false;
        }
        c = c + 1;
    }
    true
}

/// Sums the numbers of columns under the commitments, as long as the sum fits.
fn checked_total_width(openings: &Vec<Vec<EF>>) -> (r: Option<usize>)
    ensures
        match r {
            Some(w) => w == total_width(openings@, openings@.len() as int),
            None => total_width(openings@, openings@.len() as int) > usize::MAX,
        },
{
    let mut sum: usize = 0;
    let mut c: usize = 0;
    while c < openings.len()
        invariant
            c <= openings@.len(),
            sum == total_width(openings@, c as int),
        decreases openings@.len() - c,
    {
        match sum.checked_add(openings[c].len()) {
            Some(s) => {
                sum = s;
            },
            None => {
                proof {
                    lemma_total_width_grows(openings@, c + 1, openings@.len() as int);
                }
                return None;
            },
        }
        c = c + 1;
    }
    Some(sum)
}

proof fn lemma_total_width_grows(openings: Seq<Vec<EF>>, a: int, b: int)
    requires
        a <= b,
    ensures
        total_width(openings, a) <= total_width(openings, b),
    decreases b - a,
{
    if a < b {
        lemma_total_width_grows(openings, a, b - 1);
    }
}

/// Whether all of `rows` have `width` entries.
fn all_widths<T>(rows: &Vec<Vec<T>>, width: usize) -> (r: bool)
    ensures
        r == (forall|j: int| 0 <= j < rows@.len() ==> (#[trigger] rows@[j])@.len() == width),
{
    let mut j: usize = 0;
    while j < rows.len()
        invariant
            j <= rows@.len(),
            forall|i: int| 0 <= i < j ==> (#[trigger] rows@[i])@.len() == width,
        decreases rows@.len() - j,
    {
        if rows[j].len() != width {
            assert(rows@[j as int]@.len() != width);
            return false;
        }
        j = j + 1;
    }
    true
}

/// Whether each query opens `size` rows of `width` cells.
fn all_queries(queries: &Vec<Vec<Vec<crate::field::BabyBear>>>, size: usize, width: usize) -> (r:
    bool)
    ensures
        r == ((forall|q: int| 0 <= q < queries@.len() ==> (#[trigger] queries@[q])@.len() == size)
            && (forall|q: int, j: int|
            0 <= q < queries@.len() && 0 <= j < size ==> (#[trigger] queries@[q]@[j])@.len()
                == width)),
{
    let mut q: usize = 0;
    while q < queries.len()
        invariant
            q <= queries@.len(),
            forall|p: int| 0 <= p < q ==> (#[trigger] queries@[p])@.len() == size,
            forall|p: int, j: int|
                0 <= p < q && 0 <= j < size ==> (#[trigger] queries@[p]@[j])@.len() == width,
        decreases queries@.len() - q,
    {
        if queries[q].len() != size {
            assert(queries@[q as int]@.len() != size);
            return false;
        }
        if !all_widths(&queries[q], width) {
            let ghost j = choose|j: int|
                0 <= j < queries@[q as int]@.len() && (
                #[trigger] queries@[q as int]@[j])@.len() != width;
            assert(queries@[q as int]@[j]@.len() != width);
            return false;
        }
        q = q + 1;
    }
    true
}

fn has_initial_openings_shape<D>(
    proof: &WhirProof<D>,
    openings: &Vec<Vec<EF>>,
    num_queries: usize,
    log_domain: usize,
    k: usize,
) -> (r: bool)
    requires
        k < usize::BITS,
        k <= log_domain,
        total_width(openings@, openings@.len() as int) <= usize::MAX,
    ensures
        r == initial_openings_shape(
            proof,
            openings@,
            openings@.len(),
            num_queries as nat,
            log_domain as nat,
            k as nat,
        ),
{
    let n = openings.len();
    let depth = log_domain - k;
    let size = pow2_usize(k);
    let rows = &proof.initial_round_opened_rows;
    let paths = &proof.initial_round_merkle_proofs;
    if rows.len() != n || paths.len() != n {
        return false;
    }
    let mut c: usize = 0;
    while c < n
        invariant
            c <= n,
            n == openings@.len(),
            n == rows@.len(),
            n == paths@.len(),
            *rows == proof.initial_round_opened_rows,
            *paths == proof.initial_round_merkle_proofs,
            size == pow2(k as nat),
            forall|d: int|
                0 <= d < c ==> (#[trigger] proof.initial_round_opened_rows@[d])@.len()
                    == num_queries,
            forall|d: int|
                0 <= d < c ==> (#[trigger] proof.initial_round_merkle_proofs@[d])@.len()
                    == num_queries,
            forall|d: int, q: int|
                0 <= d < c && 0 <= q < num_queries ==> (
                #[trigger] proof.initial_round_opened_rows@[d]@[q])@.len() == pow2(k as nat),
            forall|d: int, q: int, j: int|
                0 <= d < c && 0 <= q < num_queries && 0 <= j < pow2(k as nat) ==> (
                #[trigger] proof.initial_round_opened_rows@[d]@[q]@[j])@.len()
                    == openings@[d]@.len(),
            depth == log_domain - k,
            forall|d: int, q: int|
                0 <= d < c && 0 <= q < num_queries ==> (
                #[trigger] proof.initial_round_merkle_proofs@[d]@[q])@.len() == depth,
        decreases n - c,
    {
        let ghost ci = c as int;
        if rows[c].len() != num_queries {
            assert(proof.initial_round_opened_rows@[ci]@.len() != num_queries);
            return false;
        }
        if paths[c].len() != num_queries {
            assert(proof.initial_round_merkle_proofs@[ci]@.len() != num_queries);
            return false;
        }
        if !all_widths(&paths[c], depth) {
            proof {
                let own = proof.initial_round_merkle_proofs@[ci]@;
                let q = choose|q: int|
                    0 <= q < own.len() && (#[trigger] own[q])@.len() != depth;
                assert(proof.initial_round_merkle_proofs@[ci]@[q]@.len() != depth);
            }
            return false;
        }
        if !all_queries(&rows[c], size, openings[c].len()) {
            proof {
                let opened = proof.initial_round_opened_rows@[ci]@;
                if exists|q: int| 0 <= q < opened.len() && (#[trigger] opened[q])@.len() != size {
                    let q = choose|q: int|
                        0 <= q < opened.len() && (#[trigger] opened[q])@.len() != size;
                    assert(proof.initial_round_opened_rows@[ci]@[q]@.len() != size);
                } else {
                    let (q, j) = choose|q: int, j: int|
                        0 <= q < opened.len() && 0 <= j < size && (
                        #[trigger] opened[q]@[j])@.len() != openings@[ci]@.len();
                    assert(proof.initial_round_opened_rows@[ci]@[q]@[j]@.len()
                        != openings@[ci]@.len());
                }
            }
            return false;
        }
        proof {
            let opened = proof.initial_round_opened_rows@[ci]@;
            assert forall|d: int, q: int|
                0 <= d < c + 1 && 0 <= q < num_queries implies (
            #[trigger] proof.initial_round_opened_rows@[d]@[q])@.len() == pow2(k as nat) by {
                if d == ci {
                    assert(opened[q]@.len() == size);
                }
            }
            assert forall|d: int, q: int, j: int|
                0 <= d < c + 1 && 0 <= q < num_queries && 0 <= j < pow2(k as nat) implies (
            #[trigger] proof.initial_round_opened_rows@[d]@[q]@[j])@.len()
                == openings@[d]@.len() by {
                if d == ci {
                    assert(opened[q]@[j]@.len() == openings@[ci]@.len());
                }
            }
            let own = proof.initial_round_merkle_proofs@[ci]@;
            assert forall|d: int, q: int|
                0 <= d < c + 1 && 0 <= q < num_queries implies (
            #[trigger] proof.initial_round_merkle_proofs@[d]@[q])@.len() == depth by {
                if d == ci {
                    assert(own[q]@.len() == depth);
                }
            }
        }
        c = c + 1;
    }
    true
}

fn has_later_openings_shape<D>(
    proof: &WhirProof<D>,
    round: usize,
    num_queries: usize,
    log_domain: usize,
    k: usize,
) -> (r: bool)
    requires
        k < usize::BITS,
        round >= 1,
        round + k <= log_domain,
    ensures
        r == later_openings_shape(
            proof,
            round as int,
            num_queries as nat,
            log_domain as nat,
            k as nat,
        ),
{
    let size = pow2_usize(k);
    if round - 1 >= proof.codeword_commits.len() || round - 1
        >= proof.codeword_opened_values.len() || round - 1 >= proof.codeword_merkle_proofs.len() {
        return false;
    }
    let opened = &proof.codeword_opened_values[round - 1];
    let paths = &proof.codeword_merkle_proofs[round - 1];
    if opened.len() != num_queries || paths.len() != num_queries {
        return false;
    }
    let depth = log_domain - round - k;
    if !all_widths(paths, depth) {
        proof {
            let q = choose|q: int|
                0 <= q < paths@.len() && (#[trigger] paths@[q])@.len() != depth;
            assert(proof.codeword_merkle_proofs@[round - 1]@[q]@.len() != depth);
        }
        return false;
    }
    let r = all_widths(opened, size);
    proof {
        if !r {
            let q = choose|q: int|
                0 <= q < opened@.len() && (#[trigger] opened@[q])@.len() != size;
            assert(proof.codeword_opened_values@[round - 1]@[q]@.len() != size);
        } else {
            assert forall|q: int| 0 <= q < num_queries implies (
            #[trigger] proof.codeword_merkle_proofs@[round - 1]@[q])@.len() == log_domain - round
                - k by {
                assert(paths@[q]@.len() == depth);
            }
        }
    }
    r
}

fn has_whir_shape<D>(params: &SystemParams, proof: &WhirProof<D>, openings: &Vec<Vec<EF>>) -> (r:
    bool)
    requires
        params.wf(),
    ensures
        r == whir_shape(params, proof, openings@, openings@.len()),
{
    let n = params.num_whir_rounds();
    let folds = params.num_whir_sumcheck_rounds();
    if proof.whir_sumcheck_polys.len() != folds || proof.folding_pow_witnesses.len() != folds
        || proof.query_phase_pow_witnesses.len() != n || proof.codeword_commits.len() != n - 1
        || proof.ood_values.len() != n - 1 || proof.codeword_opened_values.len() != n - 1
        || proof.codeword_merkle_proofs.len() != n - 1 {
        return false;
    }
    if checked_total_width(openings).is_none() {
        return false;
    }
    let k = params.k_whir();
    proof {
        lemma_usize_bits();
        assert(k <= params.num_folds()) by (nonlinear_arith)
            requires
                params.num_folds() == k * n,
                n >= 1,
                k >= 1,
        ;
    }
    let log_domain = params.l_skip + params.n_stack + params.log_blowup;
    let mut i: usize = 0;
    while i < n
        invariant
            i <= n,
            n == params.whir.rounds@.len(),
            params.wf(),
            log_domain == params.num_vars() + params.log_blowup,
            k == params.whir.k,
            k < usize::BITS,
            total_width(openings@, openings@.len() as int) <= usize::MAX,
            forall|j: int|
                0 <= j < i ==> #[trigger] openings_shape(
                    proof,
                    openings@,
                    openings@.len(),
                    params.whir.rounds@[j].num_queries as nat,
                    (params.num_vars() + params.log_blowup) as nat,
                    params.whir.k as nat,
                    j,
                ),
        decreases n - i,
    {
        let num_queries = params.whir.rounds[i].num_queries;
        proof {
            // Each round folds at least one variable.
            assert(i + k <= k * n) by (nonlinear_arith)
                requires
                    0 <= i < n,
                    k >= 1,
            ;
        }
        let ok = if i == 0 {
            has_initial_openings_shape(proof, openings, num_queries, log_domain, k)
        } else {
            has_later_openings_shape(proof, i, num_queries, log_domain, k)
        };
        assert(ok == openings_shape(
            proof,
            openings@,
            openings@.len(),
            params.whir.rounds@[i as int].num_queries as nat,
            (params.num_vars() + params.log_blowup) as nat,
            params.whir.k as nat,
            i as int,
        ));
        if !ok {
            return false;
        }
        i = i + 1;
    }
    true
}

/// Checks the sizes of all parts of a proof. Gives back the layouts of what is stacked under each
/// commitment: the common main parts of all traces first, then, trace by trace, the preprocessed
/// part and the cached parts.
pub fn verify_proof_shape<D, N, L, R>(
    mvk: &MultiStarkVerifyingKey0<D, N>,
    proof: &Proof<D, L, R>,
) -> (r: Result<Vec<StackedLayout>, ProofShapeError>)
    requires
        mvk.wf(),
        exists|a: int| present(proof.trace_vdata@, a),
    ensures
        match r {
            Ok(layouts) => {
                &&& shape_error(mvk, proof) is None
                &&& are_layouts_of(
                    layouts@,
                    &mvk.params,
                    commit_dims(mvk, proof.trace_vdata@, trace_order(proof.trace_vdata@)),
                )
            },
            Err(e) => shape_error(mvk, proof) == Some(e),
        },
{
    let ids = order_traces(&proof.trace_vdata);
    proof {
        trace_order_is_unique(ids@, trace_order(proof.trace_vdata@), proof.trace_vdata@);
        let a = choose|a: int| present(proof.trace_vdata@, a);
        assert(ids@.contains(a as usize));
    }
    if !has_vdata_shape(mvk, &proof.trace_vdata) {
        return Err(ProofShapeError::TraceVData);
    }
    if !has_public_shape(mvk, proof) {
        return Err(ProofShapeError::PublicValues);
    }
    if !has_batch_shape(mvk, proof, &ids) {
        return Err(ProofShapeError::BatchConstraints);
    }
    let layouts = build_layouts(mvk, &proof.trace_vdata, &ids);
    let openings = &proof.stacking_proof.stacking_openings;
    let ghost dims = commit_dims(mvk, proof.trace_vdata@, ids@);
    if !has_stacking_shape(&mvk.params, openings, &layouts, Ghost(dims)) {
        return Err(ProofShapeError::Stacking);
    }
    if !has_whir_shape(&mvk.params, &proof.whir_proof, openings) {
        return Err(ProofShapeError::Whir);
    }
    Ok(layouts)
}

} // verus!
