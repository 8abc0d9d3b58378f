use vstd::prelude::*;

use crate::pbft::{lemma_pbft_react, pbft_react, pbft_transition, PbftMsg, PbftView};
use crate::pbft_run::{
    inv, inv_counts, inv_reads, lemma_counts_bound, lemma_counts_init, lemma_counts_step, lemma_decisions,
    lemma_init, lemma_quiescent, lemma_reads_init, lemma_reads_step, lemma_rest_count, lemma_shape, lemma_step,
    pbft_run_after, pbft_run_deliver, pbft_run_init, pbft_run_open, pbft_run_quiescent, pbft_run_step, PbftRun,
};
use crate::step::{lemma_post_with_heads, post, post_count, with_heads, Outgoing};
use crate::types::{NodeId, Value};

verus! {

/// A step a node has begun and not finished: it read `read` in the state
/// `before`, and has still to hand `out` over and make `decision` known.
pub struct PbftPending {
    pub before: PbftView,
    pub read: (NodeId, PbftMsg),
    pub out: Seq<Outgoing<PbftMsg>>,
    pub decision: Option<Value>,
}

/// A PBFT run as the network runs it, with each node's step split in two
/// events: the node reads the head of its channel and reacts, which changes
/// only its own state and channel; later it hands its reaction over, under
/// the network's lock, and makes its decision known. Other nodes' events may
/// come in between. `state` is the cluster as it is, its history counting
/// the hand-overs made; `pending` holds, by node, the steps begun and not
/// yet handed over.
pub struct PbftSplitRun {
    pub state: PbftRun,
    pub pending: Map<int, PbftPending>,
}

/// A fresh cluster of `n` nodes holding `value`, before anything is sent.
pub open spec fn pbft_split_init(n: nat, value: Value) -> PbftSplitRun {
    PbftSplitRun { state: pbft_run_init(n, value), pending: Map::empty() }
}

/// Node `j`, which has no step under way and has not decided, reads the
/// head of its channel and reacts to it as its `handle` does.
#[verifier::opaque]
pub open spec fn pbft_split_read(s: PbftSplitRun, j: int, t: PbftSplitRun) -> bool {
    let c = s.state;
    &&& 0 <= j < c.n
    &&& c.nodes.len() == c.n
    &&& c.queues.len() == c.n
    &&& !s.pending.contains_key(j)
    &&& c.queues[j].len() > 0
    &&& !c.nodes[j].decided
    &&& j == 0 ==> c.opened == 2
    &&& exists|node: PbftView, out: Seq<Outgoing<PbftMsg>>, d: Option<Value>|
        #[trigger] pbft_transition(c.nodes[j], c.queues[j][0].0, c.queues[j][0].1, node, out, d) && t
            == (PbftSplitRun {
            state: PbftRun { nodes: c.nodes.update(j, node), queues: c.queues.update(j, c.queues[j].drop_first()), ..c },
            pending: s.pending.insert(
                j,
                PbftPending { before: c.nodes[j], read: c.queues[j][0], out, decision: d },
            ),
        })
}

/// The cluster `c` after node `j` has handed over the reaction of its step
/// `p` and made its decision known.
pub open spec fn pbft_split_after(c: PbftRun, j: int, p: PbftPending) -> PbftRun {
    let node = c.nodes[j];
    let newly = !p.before.prepared && node.prepared;
    PbftRun {
        queues: post(c.queues, j as NodeId, p.out),
        decisions: if p.decision is Some { c.decisions.insert(j as NodeId, p.decision->0) } else { c.decisions },
        prepare_sent: if p.read.1 is PrePrepare && p.out.len() > 0 {
            c.prepare_sent.insert(j as NodeId)
        } else {
            c.prepare_sent
        },
        prepared_with: if newly {
            c.prepared_with.insert(j as NodeId, node.prepares.dom())
        } else {
            c.prepared_with
        },
        commits_before: if newly {
            c.commits_before.insert(j as NodeId, p.before.commits.dom())
        } else {
            c.commits_before
        },
        sent: (c.sent + post_count(c.n, p.out)) as nat,
        reads: c.reads + 1,
        ..c
    }
}

/// Node `j` finishes its step: it hands its reaction over and makes its
/// decision known.
pub open spec fn pbft_split_finish(s: PbftSplitRun, j: int, t: PbftSplitRun) -> bool {
    &&& s.pending.contains_key(j)
    &&& t == PbftSplitRun { state: pbft_split_after(s.state, j, s.pending[j]), pending: s.pending.remove(j) }
}

/// `t` follows `s` by one event: a node begins or finishes a step, or the
/// primary broadcasts an opening message.
pub open spec fn pbft_split_step(s: PbftSplitRun, t: PbftSplitRun) -> bool {
    ||| exists|j: int| pbft_split_read(s, j, t)
    ||| exists|j: int| pbft_split_finish(s, j, t)
    ||| pbft_run_open(s.state, t.state) && t.pending == s.pending
}

/// `trace` is such a run of a cluster of `n` nodes holding `value`.
pub open spec fn pbft_split_trace(n: nat, value: Value, trace: Seq<PbftSplitRun>) -> bool {
    &&& trace.len() >= 1
    &&& trace[0] == pbft_split_init(n, value)
    &&& forall|i: int| 0 <= i < trace.len() - 1 ==> pbft_split_step(#[trigger] trace[i], trace[i + 1])
}

/// No step is under way, the primary has sent its opening messages, and no
/// node that has not decided has a message left to read.
pub open spec fn pbft_split_quiescent(s: PbftSplitRun) -> bool {
    &&& s.pending == Map::<int, PbftPending>::empty()
    &&& pbft_run_quiescent(s.state)
}

/// The messages read by the steps under way.
spec fn heads(pending: Map<int, PbftPending>) -> Map<int, (NodeId, PbftMsg)> {
    Map::new(|k: int| pending.contains_key(k), |k: int| pending[k].read)
}

/// The run of whole steps that a split run is: each step under way not yet
/// begun, its node in the state before it and its message back at the head
/// of its channel.
spec fn whole(s: PbftSplitRun) -> PbftRun {
    let c = s.state;
    PbftRun {
        nodes: Seq::new(
            c.nodes.len(),
            |k: int| if s.pending.contains_key(k) { s.pending[k].before } else { c.nodes[k] },
        ),
        queues: with_heads(c.queues, heads(s.pending)),
        ..c
    }
}

/// What holds of every split run reached.
spec fn split_inv(s: PbftSplitRun) -> bool {
    let c = s.state;
    &&& inv(whole(s))
    &&& inv_counts(whole(s))
    &&& inv_reads(whole(s))
    &&& c.nodes.len() == c.n
    &&& c.queues.len() == c.n
    &&& s.pending.dom().finite()
    &&& forall|j: int|
        #[trigger] s.pending.contains_key(j) ==> {
            let p = s.pending[j];
            &&& 0 <= j < c.n
            &&& !p.before.decided
            &&& j == 0 ==> c.opened == 2
            &&& pbft_transition(p.before, p.read.0, p.read.1, c.nodes[j], p.out, p.decision)
        }
}

proof fn lemma_split_init(n: nat, v: Value)
    requires
        2 <= n <= u64::MAX,
    ensures
        split_inv(pbft_split_init(n, v)),
        whole(pbft_split_init(n, v)) == pbft_run_init(n, v),
{
    let s = pbft_split_init(n, v);
    assert(heads(s.pending) =~= Map::<int, (NodeId, PbftMsg)>::empty());
    assert(whole(s).queues =~= s.state.queues);
    assert(whole(s).nodes =~= s.state.nodes);
    assert(whole(s) == s.state);
    lemma_init(n, v);
    lemma_counts_init(n, v);
    lemma_reads_init(n, v);
}

/// Beginning a step changes nothing of the run of whole steps.
proof fn lemma_read_whole(s: PbftSplitRun, j: int, t: PbftSplitRun)
    requires
        split_inv(s),
        pbft_split_read(s, j, t),
    ensures
        split_inv(t),
        whole(t) == whole(s),
        t.state.reads + t.state.opened == s.state.reads + s.state.opened,
        t.pending.dom() == s.pending.dom().insert(j),
{
    reveal(pbft_split_read);
    let c = s.state;
    let (node, out, d) = choose|node: PbftView, out: Seq<Outgoing<PbftMsg>>, d: Option<Value>|
        #[trigger] pbft_transition(c.nodes[j], c.queues[j][0].0, c.queues[j][0].1, node, out, d) && t
            == (PbftSplitRun {
            state: PbftRun { nodes: c.nodes.update(j, node), queues: c.queues.update(j, c.queues[j].drop_first()), ..c },
            pending: s.pending.insert(
                j,
                PbftPending { before: c.nodes[j], read: c.queues[j][0], out, decision: d },
            ),
        });
    assert(whole(t).nodes =~= whole(s).nodes);
    assert(whole(t).queues =~= whole(s).queues) by {
        assert forall|k: int| 0 <= k < c.n implies #[trigger] whole(t).queues[k] == whole(s).queues[k] by {
            if k == j {
                assert(seq![c.queues[j][0]] + c.queues[j].drop_first() =~= c.queues[j]);
            }
        }
    }
    assert(whole(t) == whole(s));
    assert(t.pending.dom() =~= s.pending.dom().insert(j));
}

/// Finishing a step is, in the run of whole steps, that whole step.
proof fn lemma_finish_whole(s: PbftSplitRun, j: int, t: PbftSplitRun)
    requires
        split_inv(s),
        pbft_split_finish(s, j, t),
    ensures
        pbft_run_deliver(whole(s), j, whole(t)),
        t.state.reads == s.state.reads + 1,
        t.state.opened == s.state.opened,
        t.pending.dom() == s.pending.dom().remove(j),
{
    let c = s.state;
    let p = s.pending[j];
    let a = whole(s);
    let node = c.nodes[j];
    let rest_heads = heads(s.pending.remove(j));
    lemma_shape(a);
    assert(a.nodes[j] == p.before);
    assert(a.queues[j] == seq![p.read] + c.queues[j]);
    assert(a.queues[j][0] == p.read);
    let rest = a.queues.update(j, a.queues[j].drop_first());
    assert(rest =~= with_heads(c.queues, rest_heads)) by {
        assert(a.queues[j].drop_first() =~= c.queues[j]);
    }
    lemma_post_with_heads(c.queues, rest_heads, j as NodeId, p.out);
    let b = pbft_run_after(a, j, node, p.out, p.decision);
    assert(heads(t.pending) =~= rest_heads);
    assert(whole(t).queues == b.queues);
    assert(whole(t).nodes =~= b.nodes);
    assert(whole(t) == b);
    assert(t.pending.dom() =~= s.pending.dom().remove(j));
    reveal(pbft_run_deliver);
    assert(pbft_transition(a.nodes[j], a.queues[j][0].0, a.queues[j][0].1, node, p.out, p.decision));
}

/// An opening broadcast is the same in the run of whole steps.
proof fn lemma_open_whole(s: PbftSplitRun, t: PbftSplitRun)
    requires
        split_inv(s),
        pbft_run_open(s.state, t.state),
        t.pending == s.pending,
    ensures
        pbft_run_open(whole(s), whole(t)),
{
    let c = s.state;
    let a = whole(s);
    lemma_shape(a);
    assert(!s.pending.contains_key(0)) by {
        if s.pending.contains_key(0) {
            assert(c.opened == 2);
        }
    }
    assert(a.nodes[0] == c.nodes[0]);
    let p = c.nodes[0];
    let hs = heads(s.pending);
    if c.opened == 0 {
        let out = seq![Outgoing::Broadcast(PbftMsg::PrePrepare { seq: p.seq, value: p.value })];
        lemma_post_with_heads(c.queues, hs, 0, out);
        assert(whole(t).nodes =~= a.nodes);
        assert(whole(t) == PbftRun { queues: post(a.queues, 0, out), opened: 1, sent: (a.sent + a.n - 1) as nat, ..a });
    } else {
        let out = seq![Outgoing::Broadcast(PbftMsg::Prepare { seq: p.seq, sender: p.node_id, value: p.value })];
        lemma_post_with_heads(c.queues, hs, 0, out);
        let p2 = PbftView { prepares: p.prepares.insert(p.node_id, p.value), ..p };
        assert(whole(t).nodes =~= a.nodes.update(0, p2));
        assert(whole(t) == PbftRun {
            nodes: a.nodes.update(0, p2),
            queues: post(a.queues, 0, out),
            opened: 2,
            prepare_sent: a.prepare_sent.insert(0),
            sent: (a.sent + a.n - 1) as nat,
            ..a
        });
    }
}

/// Every event keeps the invariant, and counts: beginning a step adds to
/// the steps under way, finishing one reads a message, an opening adds one.
proof fn lemma_split_step(s: PbftSplitRun, t: PbftSplitRun)
    requires
        split_inv(s),
        pbft_split_step(s, t),
    ensures
        split_inv(t),
        t.state.n == s.state.n,
        t.state.value == s.state.value,
        2 * t.state.reads + t.pending.dom().len() + t.state.opened == 2 * s.state.reads + s.pending.dom().len()
            + s.state.opened + 1,
{
    let c = s.state;
    if exists|j: int| pbft_split_read(s, j, t) {
        let j = choose|j: int| pbft_split_read(s, j, t);
        lemma_read_whole(s, j, t);
        reveal(pbft_split_read);
        assert(!s.pending.contains_key(j));
        let (node, out, d) = choose|node: PbftView, out: Seq<Outgoing<PbftMsg>>, d: Option<Value>|
            #[trigger] pbft_transition(c.nodes[j], c.queues[j][0].0, c.queues[j][0].1, node, out, d) && t
                == (PbftSplitRun {
                state: PbftRun { nodes: c.nodes.update(j, node), queues: c.queues.update(j, c.queues[j].drop_first()), ..c },
                pending: s.pending.insert(
                    j,
                    PbftPending { before: c.nodes[j], read: c.queues[j][0], out, decision: d },
                ),
            });
        assert forall|k: int| #[trigger] t.pending.contains_key(k) implies {
            let p = t.pending[k];
            &&& 0 <= k < t.state.n
            &&& !p.before.decided
            &&& k == 0 ==> t.state.opened == 2
            &&& pbft_transition(p.before, p.read.0, p.read.1, t.state.nodes[k], p.out, p.decision)
        } by {
            if k != j {
                assert(s.pending.contains_key(k));
            }
        }
    } else if exists|j: int| pbft_split_finish(s, j, t) {
        let j = choose|j: int| pbft_split_finish(s, j, t);
        lemma_finish_whole(s, j, t);
        assert(pbft_run_step(whole(s), whole(t)));
        lemma_step(whole(s), whole(t));
        lemma_counts_step(whole(s), whole(t));
        lemma_reads_step(whole(s), whole(t));
        lemma_shape(whole(t));
        assert forall|k: int| #[trigger] t.pending.contains_key(k) implies {
            let p = t.pending[k];
            &&& 0 <= k < t.state.n
            &&& !p.before.decided
            &&& k == 0 ==> t.state.opened == 2
            &&& pbft_transition(p.before, p.read.0, p.read.1, t.state.nodes[k], p.out, p.decision)
        } by {
            assert(s.pending.contains_key(k));
        }
    } else {
        lemma_open_whole(s, t);
        assert(pbft_run_step(whole(s), whole(t)));
        lemma_step(whole(s), whole(t));
        lemma_counts_step(whole(s), whole(t));
        lemma_reads_step(whole(s), whole(t));
        lemma_shape(whole(t));
        assert forall|k: int| #[trigger] t.pending.contains_key(k) implies {
            let p = t.pending[k];
            &&& 0 <= k < t.state.n
            &&& !p.before.decided
            &&& k == 0 ==> t.state.opened == 2
            &&& pbft_transition(p.before, p.read.0, p.read.1, t.state.nodes[k], p.out, p.decision)
        } by {
            assert(s.pending.contains_key(k));
            if k == 0 {
                assert(c.opened == 2);
            }
        }
    }
}

proof fn lemma_split_trace(n: nat, value: Value, trace: Seq<PbftSplitRun>, i: int)
    requires
        2 <= n <= u64::MAX,
        pbft_split_trace(n, value, trace),
        0 <= i < trace.len(),
    ensures
        split_inv(trace[i]),
        trace[i].state.n == n,
        trace[i].state.value == value,
        2 * trace[i].state.reads + trace[i].pending.dom().len() + trace[i].state.opened == i,
    decreases i,
{
    if i == 0 {
        lemma_split_init(n, value);
    } else {
        lemma_split_trace(n, value, trace, i - 1);
        lemma_split_step(trace[i - 1], trace[i]);
    }
}

/// At rest, the run of whole steps is the run itself, at rest.
proof fn lemma_split_rest(s: PbftSplitRun)
    requires
        split_inv(s),
        pbft_split_quiescent(s),
    ensures
        whole(s) == s.state,
        pbft_run_quiescent(whole(s)),
{
    assert(heads(s.pending) =~= Map::<int, (NodeId, PbftMsg)>::empty());
    assert(whole(s).queues =~= s.state.queues);
    assert(whole(s).nodes =~= s.state.nodes);
    assert(whole(s) == s.state);
}

/// Consensus holds of PBFT runs with each node's read and hand-over as
/// separate events, with other nodes' events in between, as the network
/// runs them: with `n >= 2` nodes every node that decides decides the
/// primary's value, and a run at rest has every node decided.
pub proof fn lemma_pbft_split_consensus(n: nat, value: Value, trace: Seq<PbftSplitRun>)
    requires
        2 <= n <= u64::MAX,
        pbft_split_trace(n, value, trace),
    ensures
        forall|id: NodeId|
            #[trigger] trace.last().state.decisions.contains_key(id) ==> trace.last().state.decisions[id] == value,
        pbft_split_quiescent(trace.last()) ==> forall|id: NodeId|
            id < n ==> #[trigger] trace.last().state.decisions.contains_key(id) && trace.last().state.decisions[id]
                == value,
{
    lemma_split_trace(n, value, trace, trace.len() - 1);
    let s = trace.last();
    lemma_decisions(whole(s));
    assert(whole(s).decisions == s.state.decisions);
    if pbft_split_quiescent(s) {
        lemma_split_rest(s);
        lemma_quiescent(whole(s));
    }
}

/// Such runs come to rest: a run holds at most
/// `2 * ((n - 1) * (2n + 1) + 2) + n + 1` states, and one not at rest can
/// always take another event.
pub proof fn lemma_pbft_split_terminates(n: nat, value: Value, trace: Seq<PbftSplitRun>)
    requires
        2 <= n <= u64::MAX,
        pbft_split_trace(n, value, trace),
    ensures
        trace.len() <= 2 * ((n - 1) * (2 * n + 1) + 2) + n + 1,
        !pbft_split_quiescent(trace.last()) ==> exists|t: PbftSplitRun| pbft_split_step(trace.last(), t),
{
    lemma_split_trace(n, value, trace, trace.len() - 1);
    let s = trace.last();
    lemma_counts_bound(whole(s));
    assert(s.pending.dom().subset_of(Set::new(|k: int| 0 <= k < n)));
    assert(Set::new(|k: int| 0 <= k < n) =~= vstd::set_lib::set_int_range(0, n as int));
    vstd::set_lib::lemma_int_range(0, n as int);
    vstd::set_lib::lemma_len_subset(s.pending.dom(), vstd::set_lib::set_int_range(0, n as int));
    if !pbft_split_quiescent(s) {
        let t = lemma_split_next(s);
        assert(pbft_split_step(s, t));
    }
}

/// A reachable split run that is not at rest can take an event.
proof fn lemma_split_next(s: PbftSplitRun) -> (t: PbftSplitRun)
    requires
        split_inv(s),
        !pbft_split_quiescent(s),
    ensures
        pbft_split_step(s, t),
{
    let c = s.state;
    if s.pending != Map::<int, PbftPending>::empty() {
        let j = choose|j: int| s.pending.contains_key(j);
        assert(s.pending.contains_key(j)) by {
            if !(exists|j: int| s.pending.contains_key(j)) {
                assert(s.pending =~= Map::<int, PbftPending>::empty());
            }
        }
        let t = PbftSplitRun { state: pbft_split_after(c, j, s.pending[j]), pending: s.pending.remove(j) };
        assert(pbft_split_finish(s, j, t));
        t
    } else {
        lemma_split_rest_shape(s);
        lemma_shape(whole(s));
        let p = c.nodes[0];
        if c.opened == 0 {
            let st = PbftRun {
                queues: post(c.queues, 0, seq![Outgoing::Broadcast(PbftMsg::PrePrepare { seq: p.seq, value: p.value })]),
                opened: 1,
                sent: (c.sent + c.n - 1) as nat,
                ..c
            };
            let t = PbftSplitRun { state: st, pending: s.pending };
            assert(pbft_run_open(c, st));
            t
        } else if c.opened == 1 {
            let st = PbftRun {
                nodes: c.nodes.update(0, PbftView { prepares: p.prepares.insert(p.node_id, p.value), ..p }),
                queues: post(
                    c.queues,
                    0,
                    seq![Outgoing::Broadcast(PbftMsg::Prepare { seq: p.seq, sender: p.node_id, value: p.value })],
                ),
                opened: 2,
                prepare_sent: c.prepare_sent.insert(0),
                sent: (c.sent + c.n - 1) as nat,
                ..c
            };
            let t = PbftSplitRun { state: st, pending: s.pending };
            assert(pbft_run_open(c, st));
            t
        } else {
            let j = choose|j: int| 0 <= j < c.nodes.len() && !(#[trigger] c.nodes[j]).decided && c.queues[j].len() != 0;
            let (f, m) = c.queues[j][0];
            let r = pbft_react(c.nodes[j], f, m);
            lemma_pbft_react(c.nodes[j], f, m, r.0, r.1, r.2);
            let t = PbftSplitRun {
                state: PbftRun { nodes: c.nodes.update(j, r.0), queues: c.queues.update(j, c.queues[j].drop_first()), ..c },
                pending: s.pending.insert(j, PbftPending { before: c.nodes[j], read: c.queues[j][0], out: r.1, decision: r.2 }),
            };
            assert(pbft_split_read(s, j, t)) by {
                reveal(pbft_split_read);
                assert(pbft_transition(c.nodes[j], c.queues[j][0].0, c.queues[j][0].1, r.0, r.1, r.2));
            }
            t
        }
    }
}

/// With no step under way, the run of whole steps is the run itself.
proof fn lemma_split_rest_shape(s: PbftSplitRun)
    requires
        split_inv(s),
        s.pending == Map::<int, PbftPending>::empty(),
    ensures
        whole(s) == s.state,
{
    assert(heads(s.pending) =~= Map::<int, (NodeId, PbftMsg)>::empty());
    assert(whole(s).queues =~= s.state.queues);
    assert(whole(s).nodes =~= s.state.nodes);
}

/// Such a run at rest has handed exactly `(n - 1) * (2n + 1)` messages to
/// the channels, whatever order its events came in.
pub proof fn lemma_pbft_split_message_count(n: nat, value: Value, trace: Seq<PbftSplitRun>)
    requires
        2 <= n <= u64::MAX,
        pbft_split_trace(n, value, trace),
    ensures
        pbft_split_quiescent(trace.last()) ==> trace.last().state.sent == (n - 1) * (2 * n + 1),
{
    lemma_split_trace(n, value, trace, trace.len() - 1);
    let s = trace.last();
    if pbft_split_quiescent(s) {
        lemma_split_rest(s);
        lemma_rest_count(whole(s));
    }
}

} // verus!
