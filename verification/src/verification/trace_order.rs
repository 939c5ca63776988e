//! The order of the traces of a proof.

use vstd::prelude::*;

use crate::proofs::TraceVData;

verus! {

/// Whether AIR `a` has a trace.
pub open spec fn present<D>(vdata: Seq<Option<TraceVData<D>>>, a: int) -> bool {
    0 <= a < vdata.len() && vdata[a] is Some
}

/// The log height of the trace of AIR `a`.
pub open spec fn log_height<D>(vdata: Seq<Option<TraceVData<D>>>, a: int) -> usize {
    vdata[a]->0.log_height
}

/// Whether the trace of AIR `a` comes before that of AIR `b`: it is higher, or it is as high and
/// its AIR comes first.
pub open spec fn precedes<D>(vdata: Seq<Option<TraceVData<D>>>, a: int, b: int) -> bool {
    log_height(vdata, a) > log_height(vdata, b) || (log_height(vdata, a) == log_height(vdata, b)
        && a < b)
}

/// Whether `ids` lists the AIRs among the first `n` that have a trace, in the order of their
/// traces.
pub open spec fn is_order_of<D>(
    ids: Seq<usize>,
    vdata: Seq<Option<TraceVData<D>>>,
    n: int,
) -> bool {
    &&& forall|t: int| 0 <= t < ids.len() ==> (#[trigger] ids[t]) < n && present(
        vdata,
        ids[t] as int,
    )
    &&& forall|a: int, b: int|
        0 <= a < b < ids.len() ==> precedes(
            vdata,
            (#[trigger] ids[a]) as int,
            (#[trigger] ids[b]) as int,
        )
    &&& forall|a: int| 0 <= a < n && present(vdata, a) ==> #[trigger] ids.contains(a as usize)
}

/// Whether `ids` lists all AIRs that have a trace, in the order of their traces.
pub open spec fn is_trace_order<D>(ids: Seq<usize>, vdata: Seq<Option<TraceVData<D>>>) -> bool {
    is_order_of(ids, vdata, vdata.len() as int)
}

/// The AIRs that have a trace, in descending order of the height of their traces.
pub fn order_traces<D>(vdata: &Vec<Option<TraceVData<D>>>) -> (ids: Vec<usize>)
    ensures
        is_trace_order(ids@, vdata@),
{
    let mut ids: Vec<usize> = Vec::new();
    let mut a: usize = 0;
    while a < vdata.len()
        invariant
            a <= vdata@.len(),
            is_order_of(ids@, vdata@, a as int),
        decreases vdata@.len() - a,
    {
        if let Some(v) = &vdata[a] {
            let height = v.log_height;
            let mut p: usize = 0;
            let mut searching = true;
            while searching
                invariant
                    a < vdata@.len(),
                    is_order_of(ids@, vdata@, a as int),
                    height == log_height(vdata@, a as int),
                    p <= ids@.len(),
                    forall|t: int|
                        0 <= t < p ==> log_height(vdata@, (#[trigger] ids@[t]) as int) >= height,
                    !searching ==> (p == ids@.len() || log_height(vdata@, ids@[p as int] as int)
                        < height),
                decreases ids@.len() - p + (if searching {
                    1int
                } else {
                    0int
                }),
            {
                if p < ids.len() {
                    proof {
                        assert(present(vdata@, ids@[p as int] as int));
                    }
                    match &vdata[ids[p]] {
                        Some(w) => {
                            if w.log_height >= height {
                                p = p + 1;
                            } else {
                                searching = false;
                            }
                        },
                        None => {
                            searching = false;
                        },
                    }
                } else {
                    searching = false;
                }
            }
            let ghost before = ids@;
            ids.insert(p, a);
            proof {
                lemma_inserted(before, vdata@, a, p as int);
            }
        } else {
            proof {
                assert(!present(vdata@, a as int));
            }
        }
        a = a + 1;
    }
    ids
}

proof fn lemma_inserted<D>(
    before: Seq<usize>,
    vdata: Seq<Option<TraceVData<D>>>,
    a: usize,
    p: int,
)
    requires
        is_order_of(before, vdata, a as int),
        present(vdata, a as int),
        0 <= p <= before.len(),
        forall|t: int|
            0 <= t < p ==> log_height(vdata, (#[trigger] before[t]) as int) >= log_height(
                vdata,
                a as int,
            ),
        p < before.len() ==> log_height(vdata, before[p] as int) < log_height(vdata, a as int),
    ensures
        is_order_of(before.insert(p, a), vdata, a + 1),
{
    let ids = before.insert(p, a);
    assert forall|t: int| 0 <= t < ids.len() implies (#[trigger] ids[t]) < a + 1 && present(
        vdata,
        ids[t] as int,
    ) by {
        if t < p {
            assert(ids[t] == before[t]);
        } else if t > p {
            assert(ids[t] == before[t - 1]);
        }
    }
    assert forall|x: int, y: int| 0 <= x < y < ids.len() implies precedes(
        vdata,
        (#[trigger] ids[x]) as int,
        (#[trigger] ids[y]) as int,
    ) by {
        if x < p {
            assert(ids[x] == before[x]);
        } else if x > p {
            assert(ids[x] == before[x - 1]);
        }
        if y < p {
            assert(ids[y] == before[y]);
        } else if y > p {
            assert(ids[y] == before[y - 1]);
        }
        if x == p {
            // Everything after p is lower than the new trace.
            if y - 1 > p {
                assert(precedes(vdata, before[p] as int, before[y - 1] as int));
            }
        }
    }
    assert forall|b: int| 0 <= b < a + 1 && present(vdata, b) implies #[trigger] ids.contains(
        b as usize,
    ) by {
        if b == a {
            assert(ids[p] == a);
        } else {
            assert(before.contains(b as usize));
            let t = choose|t: int| 0 <= t < before.len() && before[t] == b as usize;
            if t < p {
                assert(ids[t] == b as usize);
            } else {
                assert(ids[t + 1] == b as usize);
            }
        }
    }
}

/// Where in `ids` the trace of AIR `a` goes: behind the traces that are as high.
proof fn lemma_place<D>(ids: Seq<usize>, vdata: Seq<Option<TraceVData<D>>>, a: int) -> (p: int)
    ensures
        0 <= p <= ids.len(),
        forall|t: int|
            0 <= t < p ==> log_height(vdata, (#[trigger] ids[t]) as int) >= log_height(vdata, a),
        p < ids.len() ==> log_height(vdata, ids[p] as int) < log_height(vdata, a),
    decreases ids.len(),
{
    if ids.len() == 0 {
        0
    } else {
        let before = ids.drop_last();
        let p = lemma_place(before, vdata, a);
        assert forall|t: int| 0 <= t < p implies log_height(vdata, (#[trigger] ids[t]) as int)
            >= log_height(vdata, a) by {
            assert(ids[t] == before[t]);
        }
        if p == before.len() && log_height(vdata, ids[p] as int) >= log_height(vdata, a) {
            p + 1
        } else {
            p
        }
    }
}

proof fn lemma_order<D>(vdata: Seq<Option<TraceVData<D>>>, n: int) -> (ids: Seq<usize>)
    requires
        0 <= n <= vdata.len() <= usize::MAX,
    ensures
        is_order_of(ids, vdata, n),
    decreases n,
{
    if n == 0 {
        Seq::empty()
    } else {
        let before = lemma_order(vdata, n - 1);
        let a = (n - 1) as usize;
        if present(vdata, n - 1) {
            let p = lemma_place(before, vdata, n - 1);
            lemma_inserted(before, vdata, a, p);
            before.insert(p, a)
        } else {
            before
        }
    }
}

/// Traces can always be put in order.
pub proof fn trace_order_exists<D>(vdata: Seq<Option<TraceVData<D>>>)
    requires
        vdata.len() <= usize::MAX,
    ensures
        exists|ids: Seq<usize>| is_trace_order(ids, vdata),
{
    let ids = lemma_order(vdata, vdata.len() as int);
    assert(is_trace_order(ids, vdata));
}

/// The order of the traces is unique.
pub proof fn trace_order_is_unique<D>(
    x: Seq<usize>,
    y: Seq<usize>,
    vdata: Seq<Option<TraceVData<D>>>,
)
    requires
        is_trace_order(x, vdata),
        is_trace_order(y, vdata),
    ensures
        x == y,
{
    lemma_prefixes_agree(x, y, vdata, x.len() as int);
    lemma_prefixes_agree(y, x, vdata, y.len() as int);
    assert(x =~= y);
}

proof fn lemma_prefixes_agree<D>(
    x: Seq<usize>,
    y: Seq<usize>,
    vdata: Seq<Option<TraceVData<D>>>,
    n: int,
)
    requires
        is_trace_order(x, vdata),
        is_trace_order(y, vdata),
        0 <= n <= x.len(),
    ensures
        n <= y.len(),
        forall|t: int| 0 <= t < n ==> #[trigger] x[t] == y[t],
    decreases n,
{
    if n > 0 {
        lemma_prefixes_agree(x, y, vdata, n - 1);
        let a = x[n - 1];
        assert(present(vdata, a as int));
        assert(y.contains((a as int) as usize));
        let i = choose|i: int| 0 <= i < y.len() && y[i] == a;
        if i < n - 1 {
            assert(x[i] == a);
            assert(precedes(vdata, x[i] as int, x[n - 1] as int));
        }
        let b = y[n - 1];
        if b != a {
            assert(precedes(vdata, y[n - 1] as int, y[i] as int));
            assert(present(vdata, b as int));
            assert(x.contains((b as int) as usize));
            let j = choose|j: int| 0 <= j < x.len() && x[j] == b;
            if j < n - 1 {
                assert(y[j] == b);
                assert(precedes(vdata, y[j] as int, y[n - 1] as int));
            } else {
                assert(precedes(vdata, x[n - 1] as int, x[j] as int));
            }
        }
    }
}

/// The sum of `f` over the entries of `ids`.
pub open spec fn sum_over(ids: Seq<usize>, f: spec_fn(int) -> nat) -> nat
    decreases ids.len(),
{
    if ids.len() == 0 {
        0
    } else {
        sum_over(ids.drop_last(), f) + f(ids.last() as int)
    }
}

/// Traces go by height: a trace never comes behind one that is lower, of two traces of one height
/// the one whose AIR comes first comes first, and every trace is listed once.
pub proof fn traces_go_by_height<D>(
    ids: Seq<usize>,
    vdata: Seq<Option<TraceVData<D>>>,
    t: int,
    u: int,
)
    requires
        vdata.len() <= usize::MAX,
        is_trace_order(ids, vdata),
        0 <= t < u < ids.len(),
    ensures
        vdata[ids[t] as int] is Some && vdata[ids[u] as int] is Some,
        ids[t] != ids[u],
        ({
            let (v, w) = (vdata[ids[t] as int]->0, vdata[ids[u] as int]->0);
            &&& v.log_height >= w.log_height
            &&& v.log_height == w.log_height ==> ids[t] < ids[u]
        }),
{
    assert(precedes(vdata, ids[t] as int, ids[u] as int));
    assert(present(vdata, ids[t] as int));
    assert(present(vdata, ids[u] as int));
}

} // verus!
