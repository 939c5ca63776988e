//! Verification of the batched constraints and interactions.

use vstd::arithmetic::div_mod::*;
use vstd::arithmetic::power2::*;
use vstd::prelude::*;

use crate::algebra::{f_inv, lemma_f_inv_unique};
use crate::bits::{lemma_pow2_mono, lemma_usize_bits, pow2_usize};
use crate::field::{
    bb, e_add, e_from, e_mul, e_one, e_pow, e_scale, e_zero, BabyBear, BabyBearExt4, Zero, EF, P,
};
use crate::keys::{MultiStarkVerifyingKey0, StarkVerifyingKey, SymbolicInteraction};
use crate::meter;
use crate::poly::{eq_mle, eval_eq_mle, square_times};
use crate::proofs::{by_rot, column_openings_by_rot, BatchConstraintProof, GkrProof};
use crate::transcript::{
    check_witness, ext_challenge, ext_observed, ext_sampled, observe_ext, sample_ext,
    witness_checked, witness_holds, FiatShamirTranscript,
};
use crate::verification::batch_sumcheck::{
    run_sumcheck, sumcheck, sumcheck_shape, Sumcheck, SumcheckError,
};
use crate::verification::subprotocols::{GkrVerificationError, SubProtocols, TraceOpenings};

verus! {

/// Why the batched constraints are refused.
#[derive(Copy, Clone, Debug, PartialEq, Eq)]
pub enum BatchConstraintError<Rejection> {
    /// The proof of work before the challenges of the interaction argument fails.
    InvalidLogupPowWitness,
    /// The sum over all interactions is refused.
    GkrVerificationFailed(GkrVerificationError<Rejection>),
    /// The numerators of the traces do not add up.
    GkrNumeratorMismatch { claim: EF },
    /// The denominators of the traces do not add up.
    GkrDenominatorMismatch { claim: EF },
    /// The polynomial of the univariate round does not add up to the claim.
    SumClaimMismatch { sum_claim: EF, sum_univ_domain_s_0: EF },
    /// The claim at the end of the sumcheck is not what the column values give.
    InconsistentClaims,
}

/// What the batched constraints are verified against. The traces are numbered in descending
/// order of height.
pub struct BatchInputs<'a, Digest, Node> {
    pub mvk: &'a MultiStarkVerifyingKey0<Digest, Node>,
    /// The public values of each AIR.
    pub public_values: &'a Vec<Vec<BabyBear>>,
    pub proof: &'a BatchConstraintProof,
    /// For each trace the AIR that it is of.
    pub trace_id_to_air_id: &'a Vec<usize>,
    /// For each trace its log height, less `l_skip`.
    pub n_per_trace: &'a Vec<isize>,
}

/// The number of variables of a trace besides the univariate ones.
pub open spec fn lift(n: isize) -> nat {
    if n > 0 {
        n as nat
    } else {
        0
    }
}

fn lifted(n: isize) -> (r: usize)
    ensures
        r == lift(n),
{
    if n > 0 {
        n as usize
    } else {
        0
    }
}

impl<'a, Digest, Node> BatchInputs<'a, Digest, Node> {
    pub open spec fn num_traces(&self) -> int {
        self.trace_id_to_air_id@.len() as int
    }

    /// The verifying key of the AIR of trace `t`.
    pub open spec fn air(&self, t: int) -> StarkVerifyingKey<Digest, Node> {
        self.mvk.per_air@[self.trace_id_to_air_id@[t] as int]
    }

    pub open spec fn interactions(&self, t: int) -> Seq<SymbolicInteraction> {
        self.air(t).symbolic_constraints.interactions@
    }

    /// The log2 of the number of rows of trace `t`, lifted to the univariate domain.
    pub open spec fn log_rows(&self, t: int) -> nat {
        self.mvk.params.l_skip as nat + lift(self.n_per_trace@[t])
    }

    /// The number of rows that the interactions of the first `n` traces take up.
    pub open spec fn interaction_rows(&self, n: int) -> nat
        decreases n,
    {
        if n <= 0 {
            0
        } else {
            self.interaction_rows(n - 1) + self.interactions(n - 1).len() * pow2(
                self.log_rows(n - 1),
            )
        }
    }

    /// The largest number of variables of the first `n` traces.
    pub open spec fn max_lift(&self, n: int) -> nat
        decreases n,
    {
        if n <= 0 {
            0
        } else if self.max_lift(n - 1) >= lift(self.n_per_trace@[n - 1]) {
            self.max_lift(n - 1)
        } else {
            lift(self.n_per_trace@[n - 1])
        }
    }

    pub open spec fn n_max(&self) -> nat {
        self.max_lift(self.num_traces())
    }

    /// Whether trace `t` has the sizes that its verifying key asks for.
    pub open spec fn trace_shape(&self, t: int) -> bool {
        let l_skip = self.mvk.params.l_skip as int;
        let n = self.n_per_trace@[t] as int;
        &&& self.trace_id_to_air_id@[t] < self.mvk.per_air@.len()
        &&& self.trace_id_to_air_id@[t] < self.public_values@.len()
        &&& self.air(t).symbolic_constraints.wf()
        &&& -l_skip <= n
        &&& l_skip + lift(self.n_per_trace@[t]) < usize::BITS
        &&& self.proof.column_openings@[t]@.len() >= (if self.air(
            t,
        ).preprocessed_data is Some {
            2int
        } else {
            1int
        })
    }

    /// Whether keys, traces and proof fit together.
    pub open spec fn shape(&self) -> bool {
        &&& self.num_traces() >= 1
        &&& self.n_per_trace@.len() == self.num_traces()
        &&& self.proof.column_openings@.len() == self.num_traces()
        &&& self.mvk.params.max_constraint_degree + 1 < P
        &&& self.mvk.params.l_skip <= 27
        &&& self.mvk.params.logup.pow_bits <= 30
        &&& self.interaction_rows(self.num_traces()) <= u64::MAX
        &&& forall|t: int| 0 <= t < self.num_traces() ==> #[trigger] self.trace_shape(t)
        &&& sumcheck_shape(
            self.proof,
            self.mvk.params.l_skip as nat,
            (self.mvk.params.max_constraint_degree + 1) as nat,
            self.n_max(),
        )
    }

    pub proof fn lemma_rows_mono(&self, a: int, b: int)
        requires
            a <= b,
        ensures
            self.interaction_rows(a) <= self.interaction_rows(b),
        decreases b - a,
    {
        if a < b {
            self.lemma_rows_mono(a, b - 1);
            let x = self.interactions(b - 1).len();
            let y = pow2(self.log_rows(b - 1));
            assert(x * y >= 0) by (nonlinear_arith);
        }
    }

    proof fn lemma_max_lift(&self, n: int, t: int)
        requires
            0 <= t < n,
        ensures
            lift(self.n_per_trace@[t]) <= self.max_lift(n),
        decreases n,
    {
        if t < n - 1 {
            self.lemma_max_lift(n - 1, t);
        }
    }

    /// The number of rows that all interactions take up.
    fn total_interactions(&self) -> (r: u64)
        requires
            self.shape(),
        ensures
            r == self.interaction_rows(self.num_traces()),
    {
        let l_skip = self.mvk.params.l_skip;
        let n = self.trace_id_to_air_id.len();
        let mut sum: u64 = 0;
        let mut t: usize = 0;
        while t < n
            invariant
                t <= n,
                n == self.num_traces(),
                l_skip == self.mvk.params.l_skip,
                self.shape(),
                sum == self.interaction_rows(t as int),
            decreases n - t,
        {
            proof {
                assert(self.trace_shape(t as int));
                self.lemma_rows_mono(t + 1, n as int);
                lemma_usize_bits();
            }
            let air_idx = self.trace_id_to_air_id[t];
            let num = self.mvk.per_air[air_idx].symbolic_constraints.interactions.len() as u64;
            let rows = pow2_usize(l_skip + lifted(self.n_per_trace[t])) as u64;
            proof {
                assert(num * rows >= 0) by (nonlinear_arith);
            }
            sum = sum + num * rows;
            t = t + 1;
        }
        sum
    }

    fn largest_lift(&self) -> (r: usize)
        requires
            self.shape(),
        ensures
            r == self.n_max(),
            r < usize::BITS,
    {
        let n = self.trace_id_to_air_id.len();
        let mut max: usize = 0;
        let mut t: usize = 0;
        while t < n
            invariant
                t <= n,
                n == self.num_traces(),
                self.shape(),
                max < usize::BITS,
                max == self.max_lift(t as int),
            decreases n - t,
        {
            proof {
                assert(self.trace_shape(t as int));
            }
            let l = lifted(self.n_per_trace[t]);
            if l > max {
                max = l;
            }
            t = t + 1;
        }
        max
    }
}

/// The low bits of `b`, from the lowest up.
pub open spec fn bits_of(b: int, len: nat) -> Seq<EF> {
    Seq::new(len, |j: int| e_from(bb((b / (pow2(j as nat) as int)) % 2)))
}

/// The weight of interaction `i` of trace `t`: how the part of `xi` above the rows of the trace
/// agrees with the number of the interaction among those of its height.
pub open spec fn interaction_weight<Digest, Node>(
    inputs: BatchInputs<Digest, Node>,
    xi: Seq<EF>,
    n_logup: nat,
    t: int,
    i: int,
) -> EF {
    let low = inputs.log_rows(t);
    let row = inputs.interaction_rows(t) + i * pow2(low);
    eq_mle(
        xi.subrange(low as int, (inputs.mvk.params.l_skip + n_logup) as int),
        bits_of(row / (pow2(low) as int), (n_logup - lift(inputs.n_per_trace@[t])) as nat),
    )
}

/// How `xi` agrees with the point `rs` in the univariate and in the first `i` other variables.
pub open spec fn eq_prefix(first: EF, xi: Seq<EF>, rs: Seq<EF>, l_skip: nat, i: nat) -> EF
    decreases i,
{
    if i == 0 {
        first
    } else {
        e_mul(
            eq_prefix(first, xi, rs, l_skip, (i - 1) as nat),
            eq_mle(seq![xi[l_skip + i - 1]], seq![rs[i as int]]),
        )
    }
}

/// The product of the coordinates of `rs` from `i` on.
pub open spec fn tail_product(rs: Seq<EF>, i: int) -> EF
    decreases rs.len() - i,
{
    if i >= rs.len() - 1 {
        rs.last()
    } else {
        e_mul(tail_product(rs, i + 1), rs[i])
    }
}

/// The weight of the traces with `i` variables besides the univariate ones. The product of the
/// coordinates that such a trace does not depend on makes up for its being summed over them.
pub open spec fn eq_weight(first: EF, xi: Seq<EF>, rs: Seq<EF>, l_skip: nat, i: nat) -> EF {
    let prefix = eq_prefix(first, xi, rs, l_skip, i);
    if i == rs.len() - 1 {
        prefix
    } else {
        e_mul(prefix, tail_product(rs, i as int + 1))
    }
}

/// The weights for all numbers of variables.
fn eq_weights(first: EF, xi: &Vec<EF>, rs: &Vec<EF>, l_skip: usize) -> (r: Vec<EF>)
    requires
        rs@.len() >= 1,
        l_skip + rs@.len() - 1 <= xi@.len(),
    ensures
        r@.len() == rs@.len(),
        forall|i: int|
            0 <= i < rs@.len() ==> #[trigger] r@[i] == eq_weight(
                first,
                xi@,
                rs@,
                l_skip as nat,
                i as nat,
            ),
{
    let n = rs.len();
    let mut r: Vec<EF> = Vec::with_capacity(n);
    r.push(first);
    let mut i: usize = 1;
    while i < n
        invariant
            1 <= i <= n,
            n == rs@.len(),
            l_skip + n - 1 <= xi@.len(),
            r@.len() == i,
            forall|j: int|
                0 <= j < i ==> #[trigger] r@[j] == eq_prefix(
                    first,
                    xi@,
                    rs@,
                    l_skip as nat,
                    j as nat,
                ),
        decreases n - i,
    {
        proof {
            assert(xi@.len() == xi.len());
        }
        let a: [EF; 1] = [xi[l_skip + (i - 1)]];
        let b: [EF; 1] = [rs[i]];
        let eq = eval_eq_mle(a.as_slice(), b.as_slice());
        proof {
            assert(a@ =~= seq![xi@[l_skip + i - 1]]);
            assert(b@ =~= seq![rs@[i as int]]);
        }
        let prev = r[i - 1];
        r.push(prev.mul(eq));
        i = i + 1;
    }
    let mut tail = rs[n - 1];
    let mut i: usize = n - 1;
    while i > 0
        invariant
            i <= n - 1,
            n == rs@.len(),
            r@.len() == n,
            tail == tail_product(rs@, i as int),
            forall|j: int|
                0 <= j < i ==> #[trigger] r@[j] == eq_prefix(
                    first,
                    xi@,
                    rs@,
                    l_skip as nat,
                    j as nat,
                ),
            forall|j: int|
                i <= j < n ==> #[trigger] r@[j] == eq_weight(
                    first,
                    xi@,
                    rs@,
                    l_skip as nat,
                    j as nat,
                ),
        decreases i,
    {
        i = i - 1;
        let v = r[i].mul(tail);
        r.set(i, v);
        tail = tail.mul(rs[i]);
    }
    r
}

/// The low `len` bits of `b` as field elements.
fn low_bits(b: u64, len: usize) -> (r: Vec<EF>)
    ensures
        r@ == bits_of(b as int, len as nat),
{
    let mut r: Vec<EF> = Vec::with_capacity(len);
    let mut rest: u64 = b;
    let mut j: usize = 0;
    proof {
        lemma2_to64();
    }
    while j < len
        invariant
            j <= len,
            r@.len() == j,
            rest == b as int / (pow2(j as nat) as int),
            forall|i: int| 0 <= i < j ==> #[trigger] r@[i] == bits_of(b as int, len as nat)[i],
        decreases len - j,
    {
        r.push(BabyBearExt4::from_base(BabyBear::from_bool(rest % 2 == 1)));
        proof {
            lemma_pow2_unfold((j + 1) as nat);
            lemma_pow2_pos(j as nat);
            lemma_div_denominator(b as int, pow2(j as nat) as int, 2);
        }
        rest = rest / 2;
        j = j + 1;
    }
    assert(r@ =~= bits_of(b as int, len as nat));
    r
}

/// The weights of the interactions of all traces.
fn interaction_weights<Digest, Node>(
    inputs: &BatchInputs<Digest, Node>,
    xi: &Vec<EF>,
    n_logup: usize,
) -> (r: Vec<Vec<EF>>)
    requires
        inputs.shape(),
        inputs.mvk.params.l_skip + n_logup <= xi@.len(),
        forall|t: int|
            0 <= t < inputs.num_traces() && inputs.interactions(t).len() > 0 ==> #[trigger] lift(
                inputs.n_per_trace@[t],
            ) <= n_logup,
    ensures
        r@.len() == inputs.num_traces(),
        forall|t: int|
            0 <= t < inputs.num_traces() ==> (#[trigger] r@[t])@ == Seq::new(
                inputs.interactions(t).len(),
                |i: int| interaction_weight(*inputs, xi@, n_logup as nat, t, i),
            ),
{
    let l_skip = inputs.mvk.params.l_skip;
    let n = inputs.trace_id_to_air_id.len();
    let mut all: Vec<Vec<EF>> = Vec::with_capacity(n);
    let mut row: u64 = 0;
    let mut t: usize = 0;
    while t < n
        invariant
            t <= n,
            n == inputs.num_traces(),
            l_skip == inputs.mvk.params.l_skip,
            inputs.shape(),
            l_skip + n_logup <= xi@.len(),
            forall|t: int|
                0 <= t < inputs.num_traces() && inputs.interactions(t).len() > 0
                    ==> #[trigger] lift(inputs.n_per_trace@[t]) <= n_logup,
            row == inputs.interaction_rows(t as int),
            all@.len() == t,
            forall|u: int|
                0 <= u < t ==> (#[trigger] all@[u])@ == Seq::new(
                    inputs.interactions(u).len(),
                    |i: int| interaction_weight(*inputs, xi@, n_logup as nat, u, i),
                ),
        decreases n - t,
    {
        let ghost ti = t as int;
        proof {
            assert(inputs.trace_shape(ti));
            inputs.lemma_rows_mono(ti + 1, n as int);
            lemma_usize_bits();
            assert(xi@.len() == xi.len());
        }
        let air_idx = inputs.trace_id_to_air_id[t];
        let num = inputs.mvk.per_air[air_idx].symbolic_constraints.interactions.len();
        let n_lift = lifted(inputs.n_per_trace[t]);
        let low = l_skip + n_lift;
        let height = pow2_usize(low) as u64;
        let ghost start = row as int;
        let ghost expected = Seq::new(
            num as nat,
            |i: int| interaction_weight(*inputs, xi@, n_logup as nat, ti, i),
        );
        let mut weights: Vec<EF> = Vec::with_capacity(num);
        let mut i: usize = 0;
        proof {
            assert(0 * height == 0);
        }
        while i < num
            invariant
                i <= num,
                t == ti,
                num == inputs.interactions(ti).len(),
                n_lift == lift(inputs.n_per_trace@[ti]),
                low == l_skip + n_lift,
                low == inputs.log_rows(ti),
                l_skip == inputs.mvk.params.l_skip,
                num > 0 ==> n_lift <= n_logup,
                l_skip + n_logup <= xi.len(),
                height == pow2(low as nat),
                height >= 1,
                start == inputs.interaction_rows(ti),
                start + num * height <= u64::MAX,
                row == start + i * height,
                expected == Seq::new(
                    num as nat,
                    |i: int| interaction_weight(*inputs, xi@, n_logup as nat, ti, i),
                ),
                weights@.len() == i,
                forall|j: int| 0 <= j < i ==> #[trigger] weights@[j] == expected[j],
            decreases num - i,
        {
            proof {
                assert(i * height + height == (i + 1) * height && (i + 1) * height <= num * height)
                    by (nonlinear_arith)
                    requires
                        i < num,
                        height >= 1,
                ;
            }
            let b_vec = low_bits(row / height, n_logup - n_lift);
            let part = vstd::slice::slice_subrange(xi.as_slice(), low, l_skip + n_logup);
            weights.push(eval_eq_mle(part, b_vec.as_slice()));
            row = row + height;
            i = i + 1;
        }
        assert(weights@ =~= expected);
        all.push(weights);
        t = t + 1;
    }
    all
}

/// The state after the pairs were observed in order.
pub open spec fn pairs_observed<D, TS: FiatShamirTranscript<D>>(
    s: TS::State,
    pairs: Seq<(EF, EF)>,
) -> TS::State
    decreases pairs.len(),
{
    if pairs.len() == 0 {
        s
    } else {
        ext_observed::<D, TS>(
            ext_observed::<D, TS>(pairs_observed::<D, TS>(s, pairs.drop_last()), pairs.last().0),
            pairs.last().1,
        )
    }
}

/// The state after the values of the parts from `from` up to `n` were observed.
pub open spec fn parts_observed<D, TS: FiatShamirTranscript<D>>(
    s: TS::State,
    parts: Seq<Vec<EF>>,
    need_rot: bool,
    from: int,
    n: int,
) -> TS::State
    decreases n - from,
{
    if n <= from {
        s
    } else {
        pairs_observed::<D, TS>(
            parts_observed::<D, TS>(s, parts, need_rot, from, n - 1),
            by_rot(parts[n - 1]@, need_rot),
        )
    }
}

/// The state after the common main values of the first `n` traces were observed.
pub open spec fn common_observed<D, TS: FiatShamirTranscript<D>, Node>(
    s: TS::State,
    inputs: BatchInputs<D, Node>,
    n: int,
) -> TS::State
    decreases n,
{
    if n <= 0 {
        s
    } else {
        parts_observed::<D, TS>(
            common_observed::<D, TS, Node>(s, inputs, n - 1),
            inputs.proof.column_openings@[n - 1]@,
            inputs.air(n - 1).params.need_rot,
            0,
            1,
        )
    }
}

/// The state after the other values of the first `n` traces were observed.
pub open spec fn others_observed<D, TS: FiatShamirTranscript<D>, Node>(
    s: TS::State,
    inputs: BatchInputs<D, Node>,
    n: int,
) -> TS::State
    decreases n,
{
    if n <= 0 {
        s
    } else {
        let parts = inputs.proof.column_openings@[n - 1]@;
        parts_observed::<D, TS>(
            others_observed::<D, TS, Node>(s, inputs, n - 1),
            parts,
            inputs.air(n - 1).params.need_rot,
            1,
            parts.len() as int,
        )
    }
}

fn observe_pairs<D, TS: FiatShamirTranscript<D>>(transcript: &mut TS, pairs: &Vec<(EF, EF)>)
    ensures
        final(transcript).state() == pairs_observed::<D, TS>(old(transcript).state(), pairs@),
{
    let ghost s0 = transcript.state();
    let mut i: usize = 0;
    assert(pairs@.take(0).len() == 0);
    while i < pairs.len()
        invariant
            i <= pairs@.len(),
            transcript.state() == pairs_observed::<D, TS>(s0, pairs@.take(i as int)),
        decreases pairs@.len() - i,
    {
        let (claim, claim_rot) = pairs[i];
        observe_ext::<D, TS>(transcript, claim);
        observe_ext::<D, TS>(transcript, claim_rot);
        assert(pairs@.take(i + 1).drop_last() =~= pairs@.take(i as int));
        i = i + 1;
    }
    assert(pairs@.take(i as int) =~= pairs@);
}

fn observe_parts<D, TS: FiatShamirTranscript<D>>(
    transcript: &mut TS,
    parts: &Vec<Vec<EF>>,
    need_rot: bool,
    from: usize,
    n: usize,
)
    requires
        from <= n <= parts@.len(),
    ensures
        final(transcript).state() == parts_observed::<D, TS>(
            old(transcript).state(),
            parts@,
            need_rot,
            from as int,
            n as int,
        ),
{
    let ghost s0 = transcript.state();
    let mut i: usize = from;
    while i < n
        invariant
            from <= i <= n <= parts@.len(),
            transcript.state() == parts_observed::<D, TS>(
                s0,
                parts@,
                need_rot,
                from as int,
                i as int,
            ),
        decreases n - i,
    {
        let pairs = column_openings_by_rot(&parts[i], need_rot);
        observe_pairs::<D, TS>(transcript, &pairs);
        i = i + 1;
    }
}

/// Observes the common main values of all traces.
fn observe_common<D, TS: FiatShamirTranscript<D>, Node>(
    transcript: &mut TS,
    inputs: &BatchInputs<D, Node>,
)
    requires
        inputs.shape(),
    ensures
        final(transcript).state() == common_observed::<D, TS, Node>(
            old(transcript).state(),
            *inputs,
            inputs.num_traces(),
        ),
{
    let ghost s0 = transcript.state();
    let n = inputs.trace_id_to_air_id.len();
    let mut t: usize = 0;
    while t < n
        invariant
            t <= n,
            n == inputs.num_traces(),
            inputs.shape(),
            transcript.state() == common_observed::<D, TS, Node>(s0, *inputs, t as int),
        decreases n - t,
    {
        proof {
            assert(inputs.trace_shape(t as int));
        }
        let need_rot = inputs.mvk.per_air[inputs.trace_id_to_air_id[t]].params.need_rot;
        observe_parts::<D, TS>(transcript, &inputs.proof.column_openings[t], need_rot, 0, 1);
        t = t + 1;
    }
}

/// Whether `o` holds the column values of trace `t`, and the point `rs` as far as it concerns
/// that trace. A trace with fewer rows than the univariate domain is evaluated on the subgroup
/// that has as many points, at a power of the univariate coordinate.
pub open spec fn is_openings_of<Digest, Node>(
    o: TraceOpenings,
    inputs: BatchInputs<Digest, Node>,
    rs: Seq<EF>,
    t: int,
) -> bool {
    let parts = inputs.proof.column_openings@[t]@;
    let need_rot = inputs.air(t).params.need_rot;
    let has_preprocessed = inputs.air(t).preprocessed_data is Some;
    let first_cached = if has_preprocessed {
        2int
    } else {
        1int
    };
    let num_cached = parts.len() - first_cached;
    let n = inputs.n_per_trace@[t] as int;
    let l_skip = inputs.mvk.params.l_skip as int;
    &&& match o.preprocessed {
        Some(p) => has_preprocessed && p@ == by_rot(parts[1]@, need_rot),
        None => !has_preprocessed,
    }
    &&& o.partitioned_main@.len() == num_cached + 1
    &&& forall|i: int|
        0 <= i < num_cached ==> (#[trigger] o.partitioned_main@[i])@ == by_rot(
            parts[first_cached + i]@,
            need_rot,
        )
    &&& o.partitioned_main@[num_cached]@ == by_rot(parts[0]@, need_rot)
    &&& if n < 0 {
        o.rs@ == seq![square_times(rs[0], (-n) as nat)] && o.l == l_skip + n
    } else {
        o.rs@ == rs.take(n + 1) && o.l == l_skip
    }
}

fn openings_of<Digest, Node>(
    inputs: &BatchInputs<Digest, Node>,
    rs: &Vec<EF>,
    t: usize,
) -> (o: TraceOpenings)
    requires
        inputs.shape(),
        t < inputs.num_traces(),
        rs@.len() == inputs.n_max() + 1,
    ensures
        is_openings_of(o, *inputs, rs@, t as int),
{
    proof {
        assert(inputs.trace_shape(t as int));
        inputs.lemma_max_lift(inputs.num_traces(), t as int);
    }
    let l_skip = inputs.mvk.params.l_skip;
    let vk = &inputs.mvk.per_air[inputs.trace_id_to_air_id[t]];
    let need_rot = vk.params.need_rot;
    let parts = &inputs.proof.column_openings[t];
    let has_preprocessed = vk.preprocessed_data.is_some();
    let preprocessed = if has_preprocessed {
        Some(column_openings_by_rot(&parts[1], need_rot))
    } else {
        None
    };
    let first_cached: usize = if has_preprocessed {
        2
    } else {
        1
    };
    let mut partitioned_main: Vec<Vec<(EF, EF)>> = Vec::with_capacity(parts.len());
    let mut i: usize = first_cached;
    while i < parts.len()
        invariant
            first_cached <= i <= parts@.len(),
            partitioned_main@.len() == i - first_cached,
            forall|j: int|
                0 <= j < i - first_cached ==> (#[trigger] partitioned_main@[j])@ == by_rot(
                    parts@[first_cached + j]@,
                    need_rot,
                ),
        decreases parts@.len() - i,
    {
        partitioned_main.push(column_openings_by_rot(&parts[i], need_rot));
        i = i + 1;
    }
    partitioned_main.push(column_openings_by_rot(&parts[0], need_rot));
    let n = inputs.n_per_trace[t];
    let mut point: Vec<EF> = Vec::new();
    if n < 0 {
        let k = (-n) as usize;
        let mut r = rs[0];
        let mut j: usize = 0;
        while j < k
            invariant
                j <= k,
                rs@.len() >= 1,
                r == square_times(rs@[0], j as nat),
            decreases k - j,
        {
            r = r.mul(r);
            j = j + 1;
        }
        point.push(r);
        assert(point@ =~= seq![square_times(rs@[0], k as nat)]);
        TraceOpenings { preprocessed, partitioned_main, rs: point, l: l_skip - k }
    } else {
        let k = n as usize + 1;
        let mut j: usize = 0;
        while j < k
            invariant
                j <= k <= rs@.len(),
                point@ == rs@.take(j as int),
            decreases k - j,
        {
            point.push(rs[j]);
            assert(rs@.take(j + 1) =~= rs@.take(j as int).push(rs@[j as int]));
            j = j + 1;
        }
        TraceOpenings { preprocessed, partitioned_main, rs: point, l: l_skip }
    }
}

/// The sum of the first `n` constraints, weighted with the powers of `lambda`.
pub open spec fn constraint_sum(idx: Seq<usize>, nodes: Seq<EF>, lambda: EF, n: nat) -> EF
    decreases n,
{
    if n == 0 {
        e_zero()
    } else {
        e_add(
            constraint_sum(idx, nodes, lambda, (n - 1) as nat),
            e_mul(nodes[idx[n - 1] as int], e_pow(lambda, (n - 1) as nat)),
        )
    }
}

/// The denominator of an interaction: its message and, after it, its bus, weighted with the
/// powers of `beta`.
pub open spec fn denominator(interaction: SymbolicInteraction, nodes: Seq<EF>, beta: EF) -> EF {
    let n = interaction.message@.len();
    e_add(
        constraint_sum(interaction.message@, nodes, beta, n),
        e_mul(e_add(e_from(bb(interaction.bus_index as int)), e_one()), e_pow(beta, n)),
    )
}

/// The weighted sum of the numerators of the first `n` interactions.
pub open spec fn numerator_sum(
    interactions: Seq<SymbolicInteraction>,
    weights: Seq<EF>,
    nodes: Seq<EF>,
    n: nat,
) -> EF
    decreases n,
{
    if n == 0 {
        e_zero()
    } else {
        e_add(
            numerator_sum(interactions, weights, nodes, (n - 1) as nat),
            e_mul(weights[n - 1], nodes[interactions[n - 1].count as int]),
        )
    }
}

/// The weighted sum of the denominators of the first `n` interactions.
pub open spec fn denominator_sum(
    interactions: Seq<SymbolicInteraction>,
    weights: Seq<EF>,
    nodes: Seq<EF>,
    beta: EF,
    n: nat,
) -> EF
    decreases n,
{
    if n == 0 {
        e_zero()
    } else {
        e_add(
            denominator_sum(interactions, weights, nodes, beta, (n - 1) as nat),
            e_mul(weights[n - 1], denominator(interactions[n - 1], nodes, beta)),
        )
    }
}

/// The factor that a trace is lifted to the univariate domain with.
pub open spec fn norm_factor(n: isize) -> BabyBear {
    if n < 0 {
        f_inv(bb(pow2((-n) as nat) as int))
    } else {
        bb(1)
    }
}

/// What one trace adds to the claim.
#[derive(Copy, Clone)]
pub struct TraceClaims {
    pub numerator: EF,
    pub denominator: EF,
    pub constraints: EF,
}

/// The challenges and weights that the traces are evaluated with.
pub struct Weights {
    pub lambda: EF,
    pub beta: EF,
    pub xi: Seq<EF>,
    pub rs: Seq<EF>,
    /// The number of variables of the interaction argument besides the univariate ones.
    pub n_logup: nat,
    /// How `xi` agrees with the point in the univariate variables.
    pub eq_uni: EF,
    pub eq_sharp_uni: EF,
}

/// What trace `t` adds, given the values of the nodes of its constraint graph.
pub open spec fn trace_claims<Digest, Node>(
    inputs: BatchInputs<Digest, Node>,
    w: Weights,
    nodes: Seq<EF>,
    t: int,
) -> TraceClaims {
    let l_skip = inputs.mvk.params.l_skip as nat;
    let n = inputs.n_per_trace@[t];
    let idx = inputs.air(t).symbolic_constraints.constraints.constraint_idx@;
    let interactions = inputs.interactions(t);
    let num = interactions.len();
    let weights = Seq::new(num, |i: int| interaction_weight(inputs, w.xi, w.n_logup, t, i));
    let eq_sharp = eq_weight(w.eq_sharp_uni, w.xi, w.rs, l_skip, lift(n));
    TraceClaims {
        numerator: e_mul(
            e_scale(numerator_sum(interactions, weights, nodes, num), norm_factor(n)),
            eq_sharp,
        ),
        denominator: e_mul(
            denominator_sum(interactions, weights, nodes, w.beta, num),
            eq_sharp,
        ),
        constraints: e_mul(
            eq_weight(w.eq_uni, w.xi, w.rs, l_skip, lift(n)),
            constraint_sum(idx, nodes, w.lambda, idx.len()),
        ),
    }
}

/// The sum of what the first `n` traces add, weighted with the powers of `mu`: first the
/// numerators and denominators of all traces in turn, then, `m` of them, the constraints.
pub open spec fn claims_sum(mu: EF, claims: Seq<TraceClaims>, n: nat, m: nat) -> EF
    decreases n, m,
{
    if m > 0 {
        e_add(
            claims_sum(mu, claims, n, (m - 1) as nat),
            e_mul(claims[m - 1].constraints, e_pow(mu, (2 * n + m - 1) as nat)),
        )
    } else if n > 0 {
        e_add(
            e_add(
                claims_sum(mu, claims, (n - 1) as nat, 0),
                e_mul(claims[n - 1].numerator, e_pow(mu, (2 * n - 2) as nat)),
            ),
            e_mul(claims[n - 1].denominator, e_pow(mu, (2 * n - 1) as nat)),
        )
    } else {
        e_zero()
    }
}

/// The claim that the column values give, by way of the values of the nodes of all traces.
pub open spec fn evaluated_claim<Digest, Node>(
    inputs: BatchInputs<Digest, Node>,
    w: Weights,
    mu: EF,
    nodes: Seq<Seq<EF>>,
) -> EF {
    let n = inputs.num_traces() as nat;
    let claims = Seq::new(n, |t: int| trace_claims(inputs, w, nodes[t], t));
    claims_sum(mu, claims, n, n)
}

/// Sums nodes of the graph, weighted with the powers of `x`; also gives the power that is next.
fn sum_nodes(idx: &Vec<usize>, nodes: &Vec<EF>, x: EF) -> (r: (EF, EF))
    requires
        forall|i: int| 0 <= i < idx@.len() ==> (#[trigger] idx@[i]) < nodes@.len(),
    ensures
        r.0 == constraint_sum(idx@, nodes@, x, idx@.len()),
        r.1 == e_pow(x, idx@.len()),
{
    let mut sum = BabyBearExt4::zero();
    let mut power = BabyBearExt4::one();
    let mut i: usize = 0;
    while i < idx.len()
        invariant
            i <= idx@.len(),
            forall|i: int| 0 <= i < idx@.len() ==> (#[trigger] idx@[i]) < nodes@.len(),
            sum == constraint_sum(idx@, nodes@, x, i as nat),
            power == e_pow(x, i as nat),
        decreases idx@.len() - i,
    {
        sum = sum.add(nodes[idx[i]].mul(power));
        power = power.mul(x);
        i = i + 1;
    }
    (sum, power)
}

/// Evaluates what trace `t` adds.
fn eval_trace<Digest, Node>(
    inputs: &BatchInputs<Digest, Node>,
    nodes: &Vec<EF>,
    interaction_weights: &Vec<EF>,
    eq_ns: &Vec<EF>,
    eq_sharp_ns: &Vec<EF>,
    lambda: EF,
    beta: EF,
    t: usize,
    Ghost(w): Ghost<Weights>,
) -> (r: TraceClaims)
    requires
        inputs.shape(),
        t < inputs.num_traces(),
        nodes@.len() == inputs.air(t as int).symbolic_constraints.constraints.nodes@.len(),
        lambda == w.lambda,
        beta == w.beta,
        interaction_weights@ == Seq::new(
            inputs.interactions(t as int).len(),
            |i: int| interaction_weight(*inputs, w.xi, w.n_logup, t as int, i),
        ),
        eq_ns@.len() == inputs.n_max() + 1,
        eq_sharp_ns@.len() == inputs.n_max() + 1,
        forall|i: int|
            0 <= i < eq_ns@.len() ==> #[trigger] eq_ns@[i] == eq_weight(
                w.eq_uni,
                w.xi,
                w.rs,
                inputs.mvk.params.l_skip as nat,
                i as nat,
            ),
        forall|i: int|
            0 <= i < eq_sharp_ns@.len() ==> #[trigger] eq_sharp_ns@[i] == eq_weight(
                w.eq_sharp_uni,
                w.xi,
                w.rs,
                inputs.mvk.params.l_skip as nat,
                i as nat,
            ),
    ensures
        r == trace_claims(*inputs, w, nodes@, t as int),
{
    proof {
        assert(inputs.trace_shape(t as int));
        inputs.lemma_max_lift(inputs.num_traces(), t as int);
    }
    let dag = &inputs.mvk.per_air[inputs.trace_id_to_air_id[t]].symbolic_constraints;
    let n = inputs.n_per_trace[t];
    let n_lift = lifted(n);
    let (expr, _) = sum_nodes(&dag.constraints.constraint_idx, nodes, lambda);
    let interactions = &dag.interactions;
    let mut num = BabyBearExt4::zero();
    let mut denom = BabyBearExt4::zero();
    let mut i: usize = 0;
    while i < interactions.len()
        invariant
            i <= interactions@.len(),
            interaction_weights@.len() == interactions@.len(),
            forall|j: int|
                0 <= j < interactions@.len() ==> #[trigger] interactions@[j].wf(nodes@.len()),
            num == numerator_sum(interactions@, interaction_weights@, nodes@, i as nat),
            denom == denominator_sum(
                interactions@,
                interaction_weights@,
                nodes@,
                beta,
                i as nat,
            ),
        decreases interactions@.len() - i,
    {
        let interaction = &interactions[i];
        proof {
            assert(interactions@[i as int].wf(nodes@.len()));
        }
        let eq_3b = interaction_weights[i];
        let (message, power) = sum_nodes(&interaction.message, nodes, beta);
        let bus = BabyBearExt4::from_usize(interaction.bus_index as usize).add(
            BabyBearExt4::one(),
        );
        let d = message.add(bus.mul(power));
        num = num.add(eq_3b.mul(nodes[interaction.count]));
        denom = denom.add(eq_3b.mul(d));
        i = i + 1;
    }
    let norm = if n < 0 {
        let k = (-n) as usize;
        let size = pow2_usize(k);
        proof {
            lemma_pow2_mono(k as nat, 27);
            lemma2_to64();
            lemma_small_mod(size as nat, P as nat);
        }
        let size_inv = BabyBear::from_usize(size).inverse();
        proof {
            lemma_f_inv_unique(bb(size as int), size_inv);
        }
        size_inv
    } else {
        BabyBear::one()
    };
    TraceClaims {
        numerator: num.scale(norm).mul(eq_sharp_ns[n_lift]),
        denominator: denom.mul(eq_sharp_ns[n_lift]),
        constraints: eq_ns[n_lift].mul(expr),
    }
}

/// Sums what all traces add, weighted with the powers of `mu`.
fn sum_claims(mu: EF, claims: &Vec<TraceClaims>) -> (r: EF)
    ensures
        r == claims_sum(mu, claims@, claims@.len(), claims@.len()),
{
    let n = claims.len();
    let mut sum = BabyBearExt4::zero();
    let mut power = BabyBearExt4::one();
    let mut i: usize = 0;
    while i < n
        invariant
            i <= n,
            n == claims@.len(),
            sum == claims_sum(mu, claims@, i as nat, 0),
            power == e_pow(mu, (2 * i) as nat),
        decreases n - i,
    {
        proof {
            assert(e_pow(mu, (2 * i + 1) as nat) == e_mul(e_pow(mu, (2 * i) as nat), mu));
            assert(e_pow(mu, (2 * (i + 1)) as nat) == e_mul(e_pow(mu, (2 * i + 1) as nat), mu));
        }
        sum = sum.add(claims[i].numerator.mul(power));
        power = power.mul(mu);
        sum = sum.add(claims[i].denominator.mul(power));
        power = power.mul(mu);
        i = i + 1;
    }
    let mut i: usize = 0;
    while i < n
        invariant
            i <= n,
            n == claims@.len(),
            sum == claims_sum(mu, claims@, n as nat, i as nat),
            power == e_pow(mu, (2 * n + i) as nat),
        decreases n - i,
    {
        proof {
            assert(e_pow(mu, (2 * n + i + 1) as nat) == e_mul(
                e_pow(mu, (2 * n + i) as nat),
                mu,
            ));
        }
        sum = sum.add(claims[i].constraints.mul(power));
        power = power.mul(mu);
        i = i + 1;
    }
    sum
}

/// Evaluates the claim that the column values give, by way of the values `nodes` of the nodes of
/// all constraint graphs.
pub fn eval_claim<Digest, Node>(
    inputs: &BatchInputs<Digest, Node>,
    xi: &Vec<EF>,
    n_logup: usize,
    rs: &Vec<EF>,
    lambda: EF,
    beta: EF,
    mu: EF,
    eq_uni: EF,
    eq_sharp_uni: EF,
    nodes: &Vec<Vec<EF>>,
) -> (r: EF)
    requires
        inputs.shape(),
        rs@.len() == inputs.n_max() + 1,
        inputs.mvk.params.l_skip + inputs.n_max() <= xi@.len(),
        inputs.mvk.params.l_skip + n_logup <= xi@.len(),
        forall|t: int|
            0 <= t < inputs.num_traces() && inputs.interactions(t).len() > 0 ==> #[trigger] lift(
                inputs.n_per_trace@[t],
            ) <= n_logup,
        nodes@.len() == inputs.num_traces(),
        forall|t: int|
            0 <= t < inputs.num_traces() ==> (#[trigger] nodes@[t])@.len() == inputs.air(
                t,
            ).symbolic_constraints.constraints.nodes@.len(),
    ensures
        r == evaluated_claim(
            *inputs,
            (Weights {
                lambda,
                beta,
                xi: xi@,
                rs: rs@,
                n_logup: n_logup as nat,
                eq_uni,
                eq_sharp_uni,
            }),
            mu,
            Seq::new(nodes@.len(), |t: int| nodes@[t]@),
        ),
{
    let ghost w = Weights {
        lambda,
        beta,
        xi: xi@,
        rs: rs@,
        n_logup: n_logup as nat,
        eq_uni,
        eq_sharp_uni,
    };
    let l_skip = inputs.mvk.params.l_skip;
    let n = inputs.trace_id_to_air_id.len();
    let weights = interaction_weights(inputs, xi, n_logup);
    let eq_ns = eq_weights(eq_uni, xi, rs, l_skip);
    let eq_sharp_ns = eq_weights(eq_sharp_uni, xi, rs, l_skip);
    let mut claims: Vec<TraceClaims> = Vec::with_capacity(n);
    let mut t: usize = 0;
    while t < n
        invariant
            t <= n,
            n == inputs.num_traces(),
            l_skip == inputs.mvk.params.l_skip,
            inputs.shape(),
            lambda == w.lambda,
            beta == w.beta,
            nodes@.len() == n,
            forall|t: int|
                0 <= t < n ==> (#[trigger] nodes@[t])@.len() == inputs.air(
                    t,
                ).symbolic_constraints.constraints.nodes@.len(),
            weights@.len() == n,
            forall|t: int|
                0 <= t < n ==> (#[trigger] weights@[t])@ == Seq::new(
                    inputs.interactions(t).len(),
                    |i: int| interaction_weight(*inputs, w.xi, w.n_logup, t, i),
                ),
            eq_ns@.len() == inputs.n_max() + 1,
            eq_sharp_ns@.len() == inputs.n_max() + 1,
            forall|i: int|
                0 <= i < eq_ns@.len() ==> #[trigger] eq_ns@[i] == eq_weight(
                    w.eq_uni,
                    w.xi,
                    w.rs,
                    l_skip as nat,
                    i as nat,
                ),
            forall|i: int|
                0 <= i < eq_sharp_ns@.len() ==> #[trigger] eq_sharp_ns@[i] == eq_weight(
                    w.eq_sharp_uni,
                    w.xi,
                    w.rs,
                    l_skip as nat,
                    i as nat,
                ),
            claims@.len() == t,
            forall|u: int|
                0 <= u < t ==> #[trigger] claims@[u] == trace_claims(*inputs, w, nodes@[u]@, u),
        decreases n - t,
    {
        claims.push(
            eval_trace(
                inputs,
                &nodes[t],
                &weights[t],
                &eq_ns,
                &eq_sharp_ns,
                lambda,
                beta,
                t,
                Ghost(w),
            ),
        );
        t = t + 1;
    }
    proof {
        let values = Seq::new(nodes@.len(), |t: int| nodes@[t]@);
        assert(claims@ =~= Seq::new(n as nat, |t: int| trace_claims(*inputs, w, values[t], t)));
    }
    sum_claims(mu, &claims)
}

/// Whether `v` is what the evaluation of equality on the univariate domain may give.
pub open spec fn may_be_eq_uni<TS, S: SubProtocols<TS>>(
    sub: &S,
    l_skip: usize,
    x: EF,
    y: EF,
    v: EF,
) -> bool {
    call_ensures(S::eval_eq_uni, (sub, l_skip, x, y), v)
}

/// Whether `v` is what the evaluation of equality between the univariate domain and the
/// hypercube may give at the point `xi`.
pub open spec fn may_be_eq_sharp_uni<TS, S: SubProtocols<TS>>(
    sub: &S,
    omega_skip_pows: &Vec<BabyBear>,
    xi: Seq<EF>,
    z: EF,
    v: EF,
) -> bool {
    exists|x: Vec<EF>|
        x@ == xi && #[trigger] call_ensures(S::eval_eq_sharp_uni, (sub, omega_skip_pows, &x, z), v)
}

/// Whether `values` are what the evaluation of the nodes of trace `t` may give.
pub open spec fn may_be_nodes<Digest, TS, S: SubProtocols<TS>>(
    sub: &S,
    inputs: BatchInputs<Digest, S::Node>,
    rs: Seq<EF>,
    t: int,
    values: Seq<EF>,
) -> bool {
    exists|o: TraceOpenings, v: Vec<EF>|
        is_openings_of(o, inputs, rs, t) && v@ == values && #[trigger] call_ensures(
            S::eval_nodes,
            (
                sub,
                &o,
                &inputs.public_values@[inputs.trace_id_to_air_id@[t] as int],
                &inputs.air(t).symbolic_constraints.constraints.nodes,
            ),
            v,
        )
}

/// The error that a refused sumcheck is reported with.
pub open spec fn sumcheck_refusal<R>(e: SumcheckError) -> BatchConstraintError<R> {
    match e {
        SumcheckError::Numerator { claim } => BatchConstraintError::GkrNumeratorMismatch { claim },
        SumcheckError::Denominator { claim } => BatchConstraintError::GkrDenominatorMismatch {
            claim,
        },
        SumcheckError::SumClaim { sum_claim, sum_univ_domain_s_0 } =>
            BatchConstraintError::SumClaimMismatch { sum_claim, sum_univ_domain_s_0 },
    }
}

fn report_sumcheck<R>(e: SumcheckError) -> (r: BatchConstraintError<R>)
    ensures
        r == sumcheck_refusal::<R>(e),
{
    match e {
        SumcheckError::Numerator { claim } => BatchConstraintError::GkrNumeratorMismatch { claim },
        SumcheckError::Denominator { claim } => BatchConstraintError::GkrDenominatorMismatch {
            claim,
        },
        SumcheckError::SumClaim { sum_claim, sum_univ_domain_s_0 } =>
            BatchConstraintError::SumClaimMismatch { sum_claim, sum_univ_domain_s_0 },
    }
}

/// Whether `out` is the outcome of the last part of the verification, once the sumcheck has run
/// and the equality polynomials and the nodes have been evaluated: the column values are observed,
/// and the claim at the end of the sumcheck is held against the one that the column values give.
pub open spec fn ends_with<Digest, TS: FiatShamirTranscript<Digest>, S: SubProtocols<TS>>(
    sub: &S,
    inputs: BatchInputs<Digest, S::Node>,
    omega_skip_pows: &Vec<BabyBear>,
    w: Weights,
    nodes: Seq<Seq<EF>>,
    s: Sumcheck<TS::State>,
    out: (TS, Result<Vec<EF>, BatchConstraintError<S::GkrRejection>>),
) -> bool {
    let l_skip = inputs.mvk.params.l_skip;
    let n = inputs.num_traces();
    &&& may_be_eq_uni::<TS, S>(sub, l_skip, s.xi[0], s.rs[0], w.eq_uni)
    &&& may_be_eq_sharp_uni::<TS, S>(
        sub,
        omega_skip_pows,
        s.xi.take(l_skip as int),
        s.rs[0],
        w.eq_sharp_uni,
    )
    &&& nodes.len() == n
    &&& forall|t: int|
        0 <= t < n ==> may_be_nodes::<Digest, TS, S>(sub, inputs, s.rs, t, #[trigger] nodes[t])
    &&& out.0.state() == others_observed::<Digest, TS, S::Node>(
        common_observed::<Digest, TS, S::Node>(s.state, inputs, n),
        inputs,
        n,
    )
    &&& match out.1 {
        Ok(rs) => s.cur_sum == evaluated_claim(inputs, w, s.mu, nodes) && rs@ == s.rs,
        Err(e) => s.cur_sum != evaluated_claim(inputs, w, s.mu, nodes) && e
            == BatchConstraintError::<S::GkrRejection>::InconsistentClaims,
    }
}

/// Whether `out` may be the outcome once the sumcheck has run.
pub open spec fn may_end_with<Digest, TS: FiatShamirTranscript<Digest>, S: SubProtocols<TS>>(
    sub: &S,
    inputs: BatchInputs<Digest, S::Node>,
    omega_skip_pows: &Vec<BabyBear>,
    beta: EF,
    n_logup: nat,
    s: Sumcheck<TS::State>,
    out: (TS, Result<Vec<EF>, BatchConstraintError<S::GkrRejection>>),
) -> bool {
    match s.err {
        Some(e) => out.0.state() == s.state && out.1 == Err::<
            Vec<EF>,
            BatchConstraintError<S::GkrRejection>,
        >(sumcheck_refusal(e)),
        None => exists|w: Weights, nodes: Seq<Seq<EF>>|
            {
                &&& w.lambda == s.lambda
                &&& w.beta == beta
                &&& w.xi == s.xi
                &&& w.rs == s.rs
                &&& w.n_logup == n_logup
                &&& #[trigger] ends_with::<Digest, TS, S>(
                    sub,
                    inputs,
                    omega_skip_pows,
                    w,
                    nodes,
                    s,
                    out,
                )
            },
    }
}

/// Whether `out` may be the outcome once the sum over all interactions was verified with the
/// result `gkr`, or, where there are none, was skipped.
pub open spec fn may_go_on_with<Digest, TS: FiatShamirTranscript<Digest>, S: SubProtocols<TS>>(
    sub: &S,
    inputs: BatchInputs<Digest, S::Node>,
    omega_skip_pows: &Vec<BabyBear>,
    alpha: EF,
    beta: EF,
    n_logup: nat,
    state: TS::State,
    p: EF,
    q: EF,
    xi: Seq<EF>,
    out: (TS, Result<Vec<EF>, BatchConstraintError<S::GkrRejection>>),
) -> bool {
    let l_skip = inputs.mvk.params.l_skip as nat;
    let n_max = inputs.n_max();
    let n_global = if n_max >= n_logup {
        n_max
    } else {
        n_logup
    };
    let s = sumcheck::<Digest, TS>(
        state,
        inputs.proof,
        l_skip,
        n_max,
        xi,
        l_skip + n_global,
        p,
        q,
        alpha,
    );
    may_end_with::<Digest, TS, S>(sub, inputs, omega_skip_pows, beta, n_logup, s, out)
}

/// Whether `gkr` is what the verification of the sum over all interactions, from the state
/// `state`, may give.
pub open spec fn may_be_gkr<Digest, TS: FiatShamirTranscript<Digest>, S: SubProtocols<TS>>(
    sub: &S,
    proof: &GkrProof<S::Layers>,
    state: TS::State,
    total_rounds: usize,
    gkr: (TS, Result<(EF, EF, Vec<EF>), GkrVerificationError<S::GkrRejection>>),
) -> bool {
    exists|t: TS|
        t.state() == state && #[trigger] call_ensures(
            S::verify_gkr,
            (sub, proof, t, total_rounds),
            gkr,
        )
}

/// Whether `out` may be the outcome once the number of variables of the interaction argument is
/// known to be `n_logup`.
pub open spec fn may_follow<Digest, TS: FiatShamirTranscript<Digest>, S: SubProtocols<TS>>(
    sub: &S,
    inputs: BatchInputs<Digest, S::Node>,
    gkr_proof: &GkrProof<S::Layers>,
    omega_skip_pows: &Vec<BabyBear>,
    alpha: EF,
    beta: EF,
    state: TS::State,
    n_logup: usize,
    out: (TS, Result<Vec<EF>, BatchConstraintError<S::GkrRejection>>),
) -> bool {
    let l_skip = inputs.mvk.params.l_skip;
    if inputs.interaction_rows(inputs.num_traces()) > 0 {
        exists|gkr: (TS, Result<(EF, EF, Vec<EF>), GkrVerificationError<S::GkrRejection>>)|
            {
                &&& #[trigger] may_be_gkr::<Digest, TS, S>(
                    sub,
                    gkr_proof,
                    state,
                    (l_skip + n_logup) as usize,
                    gkr,
                )
                &&& match gkr.1 {
                    Ok((p, q, xi)) => may_go_on_with::<Digest, TS, S>(
                        sub,
                        inputs,
                        omega_skip_pows,
                        alpha,
                        beta,
                        n_logup as nat,
                        gkr.0.state(),
                        p,
                        q,
                        xi@,
                        out,
                    ),
                    Err(e) => out.0.state() == gkr.0.state() && out.1 == Err::<
                        Vec<EF>,
                        BatchConstraintError<S::GkrRejection>,
                    >(BatchConstraintError::GkrVerificationFailed(e)),
                }
            }
    } else if gkr_proof.q0_claim != e_one() {
        out.0.state() == state && out.1 == Err::<Vec<EF>, BatchConstraintError<S::GkrRejection>>(
            BatchConstraintError::GkrVerificationFailed(
                GkrVerificationError::InvalidZeroRoundValue { actual: gkr_proof.q0_claim },
            ),
        )
    } else {
        may_go_on_with::<Digest, TS, S>(
            sub,
            inputs,
            omega_skip_pows,
            alpha,
            beta,
            n_logup as nat,
            state,
            e_zero(),
            alpha,
            Seq::empty(),
            out,
        )
    }
}

/// Whether `out` may be the outcome of the verification of the batched constraints, from the
/// state `s`.
pub open spec fn may_return<Digest, TS: FiatShamirTranscript<Digest>, S: SubProtocols<TS>>(
    sub: &S,
    inputs: BatchInputs<Digest, S::Node>,
    gkr_proof: &GkrProof<S::Layers>,
    omega_skip_pows: &Vec<BabyBear>,
    s: TS::State,
    out: (TS, Result<Vec<EF>, BatchConstraintError<S::GkrRejection>>),
) -> bool {
    let l_skip = inputs.mvk.params.l_skip;
    let bits = inputs.mvk.params.logup.pow_bits as nat;
    let s1 = witness_checked::<Digest, TS>(s, bits, gkr_proof.logup_pow_witness);
    if !witness_holds::<Digest, TS>(s, bits, gkr_proof.logup_pow_witness) {
        out.0.state() == s1 && out.1 == Err::<Vec<EF>, BatchConstraintError<S::GkrRejection>>(
            BatchConstraintError::InvalidLogupPowWitness,
        )
    } else {
        let alpha = ext_challenge::<Digest, TS>(s1);
        let s2 = ext_sampled::<Digest, TS>(s1);
        let beta = ext_challenge::<Digest, TS>(s2);
        let total = inputs.interaction_rows(inputs.num_traces()) as u64;
        exists|n_logup: usize|
            {
                &&& #[trigger] call_ensures(S::calculate_n_logup, (sub, l_skip, total), n_logup)
                &&& may_follow::<Digest, TS, S>(
                    sub,
                    inputs,
                    gkr_proof,
                    omega_skip_pows,
                    alpha,
                    beta,
                    ext_sampled::<Digest, TS>(s2),
                    n_logup,
                    out,
                )
            }
    }
}

/// Whether what the sub-protocols return for these inputs has the sizes that the verification
/// relies on: the interaction argument has enough variables for every trace with interactions,
/// there is a variable at all, the point of the interaction argument has as many coordinates as it
/// has rounds, and each node of a graph has one value.
pub open spec fn returns_right_sizes<
    Digest,
    TS: FiatShamirTranscript<Digest>,
    S: SubProtocols<TS>,
>(sub: &S, inputs: BatchInputs<Digest, S::Node>, gkr_proof: &GkrProof<S::Layers>) -> bool {
    let l_skip = inputs.mvk.params.l_skip;
    let total = inputs.interaction_rows(inputs.num_traces()) as u64;
    &&& forall|n_logup: usize| #[trigger]
        call_ensures(S::calculate_n_logup, (sub, l_skip, total), n_logup) ==> {
            &&& l_skip + n_logup <= usize::MAX
            &&& l_skip + n_logup >= 1 || inputs.n_max() >= 1
            &&& forall|t: int|
                0 <= t < inputs.num_traces() && inputs.interactions(t).len() > 0
                    ==> #[trigger] lift(inputs.n_per_trace@[t]) <= n_logup
            &&& total > 0 ==> forall|
                state: TS::State,
                gkr: (TS, Result<(EF, EF, Vec<EF>), GkrVerificationError<S::GkrRejection>>),
            | #[trigger]
                may_be_gkr::<Digest, TS, S>(
                    sub,
                    gkr_proof,
                    state,
                    (l_skip + n_logup) as usize,
                    gkr,
                ) ==> (gkr.1 matches Ok(r) ==> r.2@.len() == l_skip + n_logup)
        }
    &&& forall|rs: Seq<EF>, t: int, values: Seq<EF>|
        {
            &&& 0 <= t < inputs.num_traces()
            &&& rs.len() == inputs.n_max() + 1
            &&& #[trigger] may_be_nodes::<Digest, TS, S>(sub, inputs, rs, t, values)
        } ==> values.len() == inputs.air(t).symbolic_constraints.constraints.nodes@.len()
}

/// The last part of the verification, once the sumcheck has run.
fn finish<Digest, TS: FiatShamirTranscript<Digest>, S: SubProtocols<TS>>(
    transcript: TS,
    sub: &S,
    inputs: &BatchInputs<Digest, S::Node>,
    gkr_proof: &GkrProof<S::Layers>,
    omega_skip_pows: &Vec<BabyBear>,
    beta: EF,
    n_logup: usize,
    xi: Vec<EF>,
    lambda: EF,
    mu: EF,
    cur_sum: EF,
    rs: Vec<EF>,
    Ghost(s): Ghost<Sumcheck<TS::State>>,
) -> (out: (TS, Result<Vec<EF>, BatchConstraintError<S::GkrRejection>>))
    requires
        inputs.shape(),
        returns_right_sizes::<Digest, TS, S>(sub, *inputs, gkr_proof),
        rs@.len() == inputs.n_max() + 1,
        xi@.len() >= 1,
        inputs.mvk.params.l_skip + inputs.n_max() <= xi@.len(),
        inputs.mvk.params.l_skip + n_logup <= xi@.len(),
        forall|t: int|
            0 <= t < inputs.num_traces() && inputs.interactions(t).len() > 0 ==> #[trigger] lift(
                inputs.n_per_trace@[t],
            ) <= n_logup,
        s.err is None,
        s.state == transcript.state(),
        s.xi == xi@,
        s.lambda == lambda,
        s.mu == mu,
        s.cur_sum == cur_sum,
        s.rs == rs@,
    ensures
        may_end_with::<Digest, TS, S>(
            sub,
            *inputs,
            omega_skip_pows,
            beta,
            n_logup as nat,
            s,
            out,
        ),
{
    let mut transcript = transcript;
    let l_skip = inputs.mvk.params.l_skip;
    let n = inputs.trace_id_to_air_id.len();
    let mut xi_skip: Vec<EF> = Vec::with_capacity(l_skip);
    let mut i: usize = 0;
    while i < l_skip
        invariant
            i <= l_skip <= xi@.len(),
            xi_skip@ == xi@.take(i as int),
        decreases l_skip - i,
    {
        xi_skip.push(xi[i]);
        assert(xi@.take(i + 1) =~= xi@.take(i as int).push(xi@[i as int]));
        i = i + 1;
    }
    let eq_uni = sub.eval_eq_uni(l_skip, xi[0], rs[0]);
    let eq_sharp_uni = sub.eval_eq_sharp_uni(omega_skip_pows, &xi_skip, rs[0]);
    observe_common::<Digest, TS, S::Node>(&mut transcript, inputs);
    let ghost s1 = transcript.state();
    let mut nodes: Vec<Vec<EF>> = Vec::with_capacity(n);
    let mut t: usize = 0;
    while t < n
        invariant
            t <= n,
            n == inputs.num_traces(),
            inputs.shape(),
            returns_right_sizes::<Digest, TS, S>(sub, *inputs, gkr_proof),
            rs@.len() == inputs.n_max() + 1,
            transcript.state() == others_observed::<Digest, TS, S::Node>(s1, *inputs, t as int),
            nodes@.len() == t,
            forall|u: int|
                0 <= u < t ==> (#[trigger] nodes@[u])@.len() == inputs.air(
                    u,
                ).symbolic_constraints.constraints.nodes@.len(),
            forall|u: int|
                0 <= u < t ==> may_be_nodes::<Digest, TS, S>(
                    sub,
                    *inputs,
                    rs@,
                    u,
                    (#[trigger] nodes@[u])@,
                ),
        decreases n - t,
    {
        proof {
            assert(inputs.trace_shape(t as int));
        }
        let air_idx = inputs.trace_id_to_air_id[t];
        let vk = &inputs.mvk.per_air[air_idx];
        let parts = &inputs.proof.column_openings[t];
        observe_parts::<Digest, TS>(
            &mut transcript,
            parts,
            vk.params.need_rot,
            1,
            parts.len(),
        );
        let openings = openings_of(inputs, &rs, t);
        let values = sub.eval_nodes(
            &openings,
            &inputs.public_values[air_idx],
            &vk.symbolic_constraints.constraints.nodes,
        );
        proof {
            assert(may_be_nodes::<Digest, TS, S>(sub, *inputs, rs@, t as int, values@));
        }
        nodes.push(values);
        t = t + 1;
    }
    let claim = eval_claim(
        inputs,
        &xi,
        n_logup,
        &rs,
        lambda,
        beta,
        mu,
        eq_uni,
        eq_sharp_uni,
        &nodes,
    );
    let ghost w = Weights {
        lambda,
        beta,
        xi: xi@,
        rs: rs@,
        n_logup: n_logup as nat,
        eq_uni,
        eq_sharp_uni,
    };
    let ghost values = Seq::new(nodes@.len(), |t: int| nodes@[t]@);
    if cur_sum != claim {
        let out = (transcript, Err(BatchConstraintError::InconsistentClaims));
        assert(ends_with::<Digest, TS, S>(sub, *inputs, omega_skip_pows, w, values, s, out));
        out
    } else {
        let out = (transcript, Ok(rs));
        assert(ends_with::<Digest, TS, S>(sub, *inputs, omega_skip_pows, w, values, s, out));
        out
    }
}

/// Verifies the constraints and interactions of all traces, batched into one sumcheck. Gives back
/// the point that the column values speak of.
///
/// The public values are those of all AIRs, also of those without a trace.
pub fn verify_zerocheck_and_logup<
    Digest,
    TS: FiatShamirTranscript<Digest>,
    S: SubProtocols<TS>,
>(
    transcript: TS,
    sub: &S,
    mvk: &MultiStarkVerifyingKey0<Digest, S::Node>,
    public_values: &Vec<Vec<BabyBear>>,
    gkr_proof: &GkrProof<S::Layers>,
    batch_proof: &BatchConstraintProof,
    trace_id_to_air_id: &Vec<usize>,
    n_per_trace: &Vec<isize>,
    omega_skip_pows: &Vec<BabyBear>,
) -> (out: (TS, Result<Vec<EF>, BatchConstraintError<S::GkrRejection>>))
    requires
        ({
            let inputs = BatchInputs {
                mvk,
                public_values,
                proof: batch_proof,
                trace_id_to_air_id,
                n_per_trace,
            };
            &&& inputs.shape()
            &&& returns_right_sizes::<Digest, TS, S>(sub, inputs, gkr_proof)
        }),
    ensures
        may_return::<Digest, TS, S>(
            sub,
            (BatchInputs {
                mvk,
                public_values,
                proof: batch_proof,
                trace_id_to_air_id,
                n_per_trace,
            }),
            gkr_proof,
            omega_skip_pows,
            transcript.state(),
            out,
        ),
{
    let inputs = BatchInputs {
        mvk,
        public_values,
        proof: batch_proof,
        trace_id_to_air_id,
        n_per_trace,
    };
    let ghost s0 = transcript.state();
    let mut transcript = transcript;
    let l_skip = mvk.params.l_skip;
    if !check_witness::<Digest, TS>(
        &mut transcript,
        mvk.params.logup.pow_bits,
        gkr_proof.logup_pow_witness,
    ) {
        return (transcript, Err(BatchConstraintError::InvalidLogupPowWitness));
    }
    let alpha_logup = sample_ext::<Digest, TS>(&mut transcript);
    let beta_logup = sample_ext::<Digest, TS>(&mut transcript);
    let total_interactions = inputs.total_interactions();
    let n_logup = sub.calculate_n_logup(l_skip, total_interactions);
    let ghost s2 = transcript.state();
    let mut xi: Vec<EF> = Vec::new();
    let mut p_xi_claim = BabyBearExt4::zero();
    let mut q_xi_claim = alpha_logup;
    let ghost mut gkr_out: (
        TS,
        Result<(EF, EF, Vec<EF>), GkrVerificationError<S::GkrRejection>>,
    ) = arbitrary();
    if total_interactions > 0 {
        let start = meter::now();
        let gkr = sub.verify_gkr(gkr_proof, transcript, l_skip + n_logup);
        meter::phase(2, start);
        proof {
            gkr_out = gkr;
            assert(may_be_gkr::<Digest, TS, S>(
                sub,
                gkr_proof,
                s2,
                (l_skip + n_logup) as usize,
                gkr,
            ));
        }
        transcript = gkr.0;
        match gkr.1 {
            Ok((p, q, point)) => {
                p_xi_claim = p;
                q_xi_claim = q;
                xi = point;
            },
            Err(e) => {
                return (transcript, Err(BatchConstraintError::GkrVerificationFailed(e)));
            },
        }
    } else if gkr_proof.q0_claim != BabyBearExt4::one() {
        let e = GkrVerificationError::InvalidZeroRoundValue { actual: gkr_proof.q0_claim };
        return (transcript, Err(BatchConstraintError::GkrVerificationFailed(e)));
    }
    assert(total_interactions == 0 ==> xi@ =~= Seq::empty());
    let ghost s3 = transcript.state();
    let ghost xi3 = xi@;
    let n_max = inputs.largest_lift();
    let n_global = if n_max >= n_logup {
        n_max
    } else {
        n_logup
    };
    let ghost s = sumcheck::<Digest, TS>(
        s3,
        batch_proof,
        l_skip as nat,
        n_max as nat,
        xi3,
        (l_skip + n_global) as nat,
        p_xi_claim,
        q_xi_claim,
        alpha_logup,
    );
    let start = meter::now();
    let swept = run_sumcheck::<Digest, TS>(
        &mut transcript,
        batch_proof,
        l_skip,
        mvk.params.max_constraint_degree + 1,
        n_max,
        xi,
        l_skip + n_global,
        p_xi_claim,
        q_xi_claim,
        alpha_logup,
    );
    meter::phase(5, start);
    let start = meter::now();
    let out = match swept {
        Ok(o) => finish::<Digest, TS, S>(
            transcript,
            sub,
            &inputs,
            gkr_proof,
            omega_skip_pows,
            beta_logup,
            n_logup,
            o.xi,
            o.lambda,
            o.mu,
            o.cur_sum,
            o.rs,
            Ghost(s),
        ),
        Err(e) => (transcript, Err(report_sumcheck(e))),
    };
    meter::phase(6, start);
    proof {
        assert(may_go_on_with::<Digest, TS, S>(
            sub,
            inputs,
            omega_skip_pows,
            alpha_logup,
            beta_logup,
            n_logup as nat,
            s3,
            p_xi_claim,
            q_xi_claim,
            xi3,
            out,
        ));
        if total_interactions > 0 {
            assert(may_be_gkr::<Digest, TS, S>(
                sub,
                gkr_proof,
                s2,
                (l_skip + n_logup) as usize,
                gkr_out,
            ));
        }
        assert(may_follow::<Digest, TS, S>(
            sub,
            inputs,
            gkr_proof,
            omega_skip_pows,
            alpha_logup,
            beta_logup,
            s2,
            n_logup,
            out,
        ));
    }
    out
}

} // verus!
