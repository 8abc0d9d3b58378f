use vstd::prelude::*;

use crate::hotstuff_run::{hs_run_quiescent, hs_run_trace, lemma_hs_run_message_count, HsRun};
use crate::metrics::Metrics;
use crate::pbft_run::{lemma_pbft_run_message_count, pbft_run_quiescent, pbft_run_trace, PbftRun};
use crate::tm_run::{lemma_tm_run_message_count, tm_run_quiescent, tm_run_trace, TmRun};
use crate::types::Value;

verus! {

/// One line of the comparison table: what running `protocol` on `n` nodes cost.
#[derive(Debug)]
pub struct SimResult {
    pub protocol: &'static str,
    pub n: usize,
    pub message_count: u64,
    pub rounds: u64,
    pub duration_us: u64,
}

/// The name of the `k`-th protocol each cluster size is run with.
pub open spec fn protocol_name(k: int) -> Seq<char> {
    if k == 0 {
        "PBFT"@
    } else if k == 1 {
        "Tendermint"@
    } else {
        "HotStuff"@
    }
}

/// The name of the `k`-th protocol each cluster size is run with:
/// PBFT, then Tendermint, then HotStuff.
pub fn protocol_at(k: usize) -> (name: &'static str)
    requires
        k < 3,
    ensures
        name@ == protocol_name(k as int),
{
    if k == 0 {
        "PBFT"
    } else if k == 1 {
        "Tendermint"
    } else {
        "HotStuff"
    }
}

/// The runs of a comparison, in order: for each size of `node_counts` in
/// turn, PBFT, Tendermint and HotStuff on it; run `i` is the protocol
/// `plan[i].0` (an index for `protocol_at`) on `plan[i].1` nodes.
pub fn run_schedule(node_counts: &[usize]) -> (plan: Vec<(usize, usize)>)
    requires
        3 * node_counts@.len() <= usize::MAX,
    ensures
        plan@.len() == 3 * node_counts@.len(),
        forall|i: int| 0 <= i < plan@.len() ==> #[trigger] plan@[i] == ((i % 3) as usize, node_counts@[i / 3]),
{
    let mut plan: Vec<(usize, usize)> = Vec::new();
    let mut c: usize = 0;
    while c < node_counts.len()
        invariant
            c <= node_counts@.len(),
            3 * node_counts@.len() <= usize::MAX,
            plan@.len() == 3 * c,
            forall|i: int| 0 <= i < plan@.len() ==> #[trigger] plan@[i] == ((i % 3) as usize, node_counts@[i / 3]),
        decreases node_counts@.len() - c,
    {
        let n = node_counts[c];
        let mut k: usize = 0;
        while k < 3
            invariant
                c < node_counts@.len(),
                n == node_counts@[c as int],
                k <= 3,
                3 * node_counts@.len() <= usize::MAX,
                plan@.len() == 3 * c + k,
                forall|i: int| 0 <= i < plan@.len() ==> #[trigger] plan@[i] == ((i % 3) as usize, node_counts@[i / 3]),
            decreases 3 - k,
        {
            proof {
                let i = 3 * c + k;
                assert(i % 3 == k && i / 3 == c) by (nonlinear_arith)
                    requires
                        i == 3 * c + k,
                        0 <= k < 3,
                        c >= 0,
                ;
            }
            plan.push((k, n));
            k = k + 1;
        }
        c = c + 1;
    }
    plan
}

impl SimResult {
    /// The result of running `protocol` on `n` nodes at the cost `m`.
    pub fn new(protocol: &'static str, n: usize, m: &Metrics) -> (r: Self)
        ensures
            r.protocol == protocol,
            r.n == n,
            r.message_count == m.message_count,
            r.rounds == m.rounds,
            r.duration_us == m.duration_us,
    {
        SimResult {
            protocol,
            n,
            message_count: m.message_count,
            rounds: m.rounds,
            duration_us: m.duration_us,
        }
    }
}

/// The table of a comparison: `metrics` holds, for each size of
/// `node_counts` in turn, the cost of PBFT, Tendermint and HotStuff on it.
pub fn tabulate(node_counts: &[usize], metrics: &[Metrics]) -> (results: Vec<SimResult>)
    requires
        metrics@.len() == 3 * node_counts@.len(),
    ensures
        results@.len() == metrics@.len(),
        forall|i: int|
            0 <= i < results@.len() ==> {
                let r = #[trigger] results@[i];
                &&& r.protocol@ == protocol_name(i % 3)
                &&& r.n == node_counts@[i / 3]
                &&& r.message_count == metrics@[i].message_count
                &&& r.rounds == metrics@[i].rounds
                &&& r.duration_us == metrics@[i].duration_us
            },
{
    let mut results: Vec<SimResult> = Vec::new();
    let mut i: usize = 0;
    while i < metrics.len()
        invariant
            i <= metrics@.len(),
            metrics@.len() == 3 * node_counts@.len(),
            results@.len() == i,
            forall|j: int|
                0 <= j < i ==> {
                    let r = #[trigger] results@[j];
                    &&& r.protocol@ == protocol_name(j % 3)
                    &&& r.n == node_counts@[j / 3]
                    &&& r.message_count == metrics@[j].message_count
                    &&& r.rounds == metrics@[j].rounds
                    &&& r.duration_us == metrics@[j].duration_us
                },
        decreases metrics@.len() - i,
    {
        let n = node_counts[i / 3];
        results.push(SimResult::new(protocol_at(i % 3), n, &metrics[i]));
        i = i + 1;
    }
    results
}

/// What the comparison shows of the message counts: runs of PBFT,
/// Tendermint and HotStuff on the same `n >= 4` nodes that have come to rest,
/// whatever values they agree on and whatever order their channels were read
/// in, have sent as many messages for PBFT as for Tendermint, and fewer for
/// HotStuff: `7 * (n - 1) < (n - 1) * (2n + 1)`.
pub proof fn lemma_hotstuff_sends_fewer(
    n: nat,
    v1: Value,
    v2: Value,
    v3: Value,
    pbft: Seq<PbftRun>,
    tm: Seq<TmRun>,
    hs: Seq<HsRun>,
)
    requires
        4 <= n <= u64::MAX,
        pbft_run_trace(n, v1, pbft),
        tm_run_trace(n, v2, tm),
        hs_run_trace(n, v3, hs),
        pbft_run_quiescent(pbft.last()),
        tm_run_quiescent(tm.last()),
        hs_run_quiescent(hs.last()),
    ensures
        pbft.last().sent == tm.last().sent,
        hs.last().sent < pbft.last().sent,
{
    lemma_pbft_run_message_count(n, v1, pbft);
    lemma_tm_run_message_count(n, v2, tm);
    lemma_hs_run_message_count(n, v3, hs);
    assert(7 * (n - 1) < (n - 1) * (2 * n + 1)) by (nonlinear_arith)
        requires
            n >= 4,
    ;
}

} // verus!
