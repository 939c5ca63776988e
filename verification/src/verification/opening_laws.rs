//! What the constraints of a trace are evaluated on.

use vstd::arithmetic::power2::*;
use vstd::prelude::*;

use crate::field::{e_pow, e_zero, EF};
use crate::multilinear::squares_are_powers;
use crate::verification::batch_constraints::{is_openings_of, may_be_nodes, BatchInputs};
use crate::verification::subprotocols::{SubProtocols, TraceOpenings};

verus! {

/// Whether `pairs` are all of the column values: two for each column where columns are rotated,
/// and otherwise one, with zero for the rotated column.
pub open spec fn are_columns(pairs: Seq<(EF, EF)>, values: Seq<EF>, need_rot: bool) -> bool {
    if need_rot {
        &&& pairs.len() == values.len() / 2
        &&& forall|i: int|
            0 <= i < pairs.len() ==> #[trigger] pairs[i] == (values[2 * i], values[2 * i + 1])
    } else {
        &&& pairs.len() == values.len()
        &&& forall|i: int| 0 <= i < pairs.len() ==> #[trigger] pairs[i] == (values[i], e_zero())
    }
}

/// The constraints of a trace are evaluated on what belongs to it: the graph and the public values
/// of its AIR; all its column values, the cached parts first, then the common one, and the
/// preprocessed ones apart; and the point. Of the point a trace with `n` variables besides the
/// univariate ones takes the univariate coordinate and the first `n` others. A trace with fewer
/// rows than the univariate domain, `2^-n` times fewer, takes that power of the univariate
/// coordinate, on a domain that is as many times smaller.
pub proof fn constraints_are_evaluated_on_own_trace<Digest, TS, S: SubProtocols<TS>>(
    sub: &S,
    inputs: BatchInputs<Digest, S::Node>,
    rs: Seq<EF>,
    t: int,
    values: Seq<EF>,
) -> (r: (TraceOpenings, Vec<EF>))
    requires
        may_be_nodes::<Digest, TS, S>(sub, inputs, rs, t, values),
        rs.len() >= 1,
        rs[0].wf(),
    ensures
        ({
            let a = inputs.trace_id_to_air_id@[t] as int;
            let vk = inputs.mvk.per_air@[a];
            let need_rot = vk.params.need_rot;
            let n = inputs.n_per_trace@[t] as int;
            let l_skip = inputs.mvk.params.l_skip as int;
            let parts = inputs.proof.column_openings@[t]@;
            let (o, v) = r;
            let main = o.partitioned_main@;
            let first: int = if vk.preprocessed_data is Some {
                2
            } else {
                1
            };
            &&& v@ == values
            &&& call_ensures(
                S::eval_nodes,
                (
                    sub,
                    &o,
                    &inputs.public_values@[a],
                    &vk.symbolic_constraints.constraints.nodes,
                ),
                v,
            )
            &&& main.len() == parts.len() - first + 1
            &&& are_columns(main[parts.len() - first]@, parts[0]@, need_rot)
            &&& forall|i: int|
                0 <= i < parts.len() - first ==> are_columns(
                    (#[trigger] main[i])@,
                    parts[first + i]@,
                    need_rot,
                )
            &&& o.preprocessed is Some <==> vk.preprocessed_data is Some
            &&& o.preprocessed matches Some(p) ==> are_columns(p@, parts[1]@, need_rot)
            &&& n >= 0 ==> o.l == l_skip && o.rs@ == rs.take(n + 1)
            &&& n < 0 ==> {
                &&& o.l == l_skip + n
                &&& o.rs@.len() == 1
                &&& o.rs@[0] == e_pow(rs[0], pow2((-n) as nat))
            }
        }),
{
    let a = inputs.trace_id_to_air_id@[t] as int;
    let nodes = &inputs.air(t).symbolic_constraints.constraints.nodes;
    let (o, v) = choose|o: TraceOpenings, v: Vec<EF>|
        is_openings_of(o, inputs, rs, t) && v@ == values && #[trigger] call_ensures(
            S::eval_nodes,
            (sub, &o, &inputs.public_values@[a], nodes),
            v,
        );
    let n = inputs.n_per_trace@[t] as int;
    if n < 0 {
        squares_are_powers(rs[0], (-n) as nat);
    }
    (o, v)
}

} // verus!
