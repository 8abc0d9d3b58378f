use vstd::prelude::*;

use crate::hotstuff::{
    hs_leader_react, hs_leader_transition, hs_replica_react, hs_replica_transition, lemma_hs_leader_react,
    lemma_hs_replica_react, HsLeaderView, HsMsg, HsReplicaView,
};
use crate::hotstuff_run::{
    hs_inv, hs_run_deliver, hs_run_init, hs_run_quiescent, hs_run_step, lemma_hs_bound, lemma_hs_decided,
    lemma_hs_inv_init, lemma_hs_inv_step, lemma_hs_rest_count, lemma_hs_shape, payloads, vote_phase, HsRun,
};
use crate::step::{lemma_post_with_heads, post, post_count, with_heads, Outgoing};
use crate::types::{NodeId, Value};

verus! {

/// A step the leader has begun and not finished: it read `read` in the
/// state `before`, and has still to hand `out` over and make `decision`
/// known.
pub struct HsLeaderPending {
    pub before: HsLeaderView,
    pub read: (NodeId, HsMsg),
    pub out: Seq<Outgoing<HsMsg>>,
    pub decision: Option<Value>,
}

/// A step a replica has begun and not finished, as for the leader.
pub struct HsReplicaPending {
    pub before: HsReplicaView,
    pub read: (NodeId, HsMsg),
    pub out: Seq<Outgoing<HsMsg>>,
    pub decision: Option<Value>,
}

/// A HotStuff run as the network runs it, with each node's step split in
/// two events: the node reads the head of its channel and reacts, which
/// changes only its own state and channel; later it hands its reaction
/// over, under the network's lock, and makes its decision known. Other
/// nodes' events may come in between. `state` is the cluster as it is, its
/// history counting the hand-overs made; `leader_pending` and
/// `replica_pending` (by node) hold the steps begun and not yet handed over.
pub struct HsSplitRun {
    pub state: HsRun,
    pub leader_pending: Option<HsLeaderPending>,
    pub replica_pending: Map<int, HsReplicaPending>,
}

/// The cluster of `n` nodes just after its leader, holding `value`, has
/// proposed.
pub open spec fn hs_split_init(n: nat, value: Value) -> HsSplitRun {
    HsSplitRun { state: hs_run_init(n, value), leader_pending: None, replica_pending: Map::empty() }
}

/// The leader, which has no step under way and has not decided, reads the
/// head of its channel and reacts to it as its `handle` does.
#[verifier::opaque]
pub open spec fn hs_split_read_leader(s: HsSplitRun, t: HsSplitRun) -> bool {
    let c = s.state;
    &&& c.queues.len() == c.n
    &&& 0 < c.n
    &&& s.leader_pending is None
    &&& c.queues[0].len() > 0
    &&& !c.leader.decided
    &&& exists|l2: HsLeaderView, out: Seq<Outgoing<HsMsg>>, d: Option<Value>|
        #[trigger] hs_leader_transition(c.leader, c.queues[0][0].1, l2, out, d) && t == (HsSplitRun {
            state: HsRun { leader: l2, queues: c.queues.update(0, c.queues[0].drop_first()), ..c },
            leader_pending: Some(HsLeaderPending { before: c.leader, read: c.queues[0][0], out, decision: d }),
            replica_pending: s.replica_pending,
        })
}

/// Node `j`, a replica with no step under way that has not decided, reads
/// the head of its channel: a message from another than its leader it
/// ignores, to one from its leader it reacts as its `handle` does.
#[verifier::opaque]
pub open spec fn hs_split_read_replica(s: HsSplitRun, j: int, t: HsSplitRun) -> bool {
    let c = s.state;
    let i = j - 1;
    &&& 1 <= j < c.n
    &&& c.queues.len() == c.n
    &&& c.replicas.len() == c.n - 1
    &&& !s.replica_pending.contains_key(j)
    &&& c.queues[j].len() > 0
    &&& !c.replicas[i].decided
    &&& {
        let (from, msg) = c.queues[j][0];
        let popped = c.queues.update(j, c.queues[j].drop_first());
        let before = c.replicas[i];
        if from != before.leader_id {
            t == HsSplitRun {
                state: HsRun { queues: popped, ..c },
                replica_pending: s.replica_pending.insert(
                    j,
                    HsReplicaPending { before, read: c.queues[j][0], out: Seq::empty(), decision: None },
                ),
                ..s
            }
        } else {
            exists|r2: HsReplicaView, out: Seq<Outgoing<HsMsg>>, d: Option<Value>|
                #[trigger] hs_replica_transition(before, msg, r2, out, d) && t == (HsSplitRun {
                    state: HsRun { replicas: c.replicas.update(i, r2), queues: popped, ..c },
                    replica_pending: s.replica_pending.insert(
                        j,
                        HsReplicaPending { before, read: c.queues[j][0], out, decision: d },
                    ),
                    ..s
                })
        }
    }
}

/// The cluster `c` after the leader has handed over the reaction of its
/// step `p` and made its decision known.
pub open spec fn hs_split_after_leader(c: HsRun, p: HsLeaderPending) -> HsRun {
    let msg = p.read.1;
    HsRun {
        queues: post(c.queues, 0, p.out),
        decisions: if p.decision is Some { c.decisions.insert(0, p.decision->0) } else { c.decisions },
        broadcasts: c.broadcasts + payloads(p.out),
        votes_read: if msg is Vote { c.votes_read.insert((msg->sender, msg->phase)) } else { c.votes_read },
        sent: (c.sent + post_count(c.n, p.out)) as nat,
        reads: c.reads + 1,
        ..c
    }
}

/// The cluster `c` after replica `j` has finished its step `p`: a message it
/// ignored is only counted as read; otherwise it hands its reaction over
/// and makes its decision known.
pub open spec fn hs_split_after_replica(c: HsRun, j: int, p: HsReplicaPending) -> HsRun {
    if p.read.0 != p.before.leader_id {
        HsRun { reads: c.reads + 1, ..c }
    } else {
        HsRun {
            queues: post(c.queues, j as NodeId, p.out),
            decisions: if p.decision is Some { c.decisions.insert(j as NodeId, p.decision->0) } else { c.decisions },
            read: c.read.update(j - 1, c.read[j - 1] + 1),
            votes_sent: if p.out.len() > 0 {
                c.votes_sent.insert((j as NodeId, vote_phase(p.read.1)))
            } else {
                c.votes_sent
            },
            sent: (c.sent + post_count(c.n, p.out)) as nat,
            reads: c.reads + 1,
            ..c
        }
    }
}

/// The leader finishes its step.
pub open spec fn hs_split_finish_leader(s: HsSplitRun, t: HsSplitRun) -> bool {
    &&& s.leader_pending is Some
    &&& t == HsSplitRun {
        state: hs_split_after_leader(s.state, s.leader_pending->0),
        leader_pending: None,
        ..s
    }
}

/// Replica `j` finishes its step.
pub open spec fn hs_split_finish_replica(s: HsSplitRun, j: int, t: HsSplitRun) -> bool {
    &&& s.replica_pending.contains_key(j)
    &&& t == HsSplitRun {
        state: hs_split_after_replica(s.state, j, s.replica_pending[j]),
        replica_pending: s.replica_pending.remove(j),
        ..s
    }
}

/// `t` follows `s` by one event: a node begins or finishes a step.
pub open spec fn hs_split_step(s: HsSplitRun, t: HsSplitRun) -> bool {
    ||| hs_split_read_leader(s, t)
    ||| exists|j: int| hs_split_read_replica(s, j, t)
    ||| hs_split_finish_leader(s, t)
    ||| exists|j: int| hs_split_finish_replica(s, j, t)
}

/// `trace` is such a run of a cluster of `n` nodes whose leader holds
/// `value`.
pub open spec fn hs_split_trace(n: nat, value: Value, trace: Seq<HsSplitRun>) -> bool {
    &&& trace.len() >= 1
    &&& trace[0] == hs_split_init(n, value)
    &&& forall|i: int| 0 <= i < trace.len() - 1 ==> hs_split_step(#[trigger] trace[i], trace[i + 1])
}

/// No step is under way, and no node that has not decided has a message
/// left to read.
pub open spec fn hs_split_quiescent(s: HsSplitRun) -> bool {
    &&& s.leader_pending is None
    &&& s.replica_pending == Map::<int, HsReplicaPending>::empty()
    &&& hs_run_quiescent(s.state)
}

/// The messages read by the steps under way, by node.
spec fn heads(s: HsSplitRun) -> Map<int, (NodeId, HsMsg)> {
    Map::new(
        |k: int| (k == 0 && s.leader_pending is Some) || (k != 0 && s.replica_pending.contains_key(k)),
        |k: int| if k == 0 { s.leader_pending->0.read } else { s.replica_pending[k].read },
    )
}

/// How many steps are under way.
spec fn pending_count(s: HsSplitRun) -> nat {
    (if s.leader_pending is Some { 1nat } else { 0nat }) + s.replica_pending.dom().len()
}

/// The run of whole steps that a split run is: each step under way not yet
/// begun, its node in the state before it and its message back at the head
/// of its channel.
spec fn whole(s: HsSplitRun) -> HsRun {
    let c = s.state;
    HsRun {
        leader: if s.leader_pending is Some { s.leader_pending->0.before } else { c.leader },
        replicas: Seq::new(
            c.replicas.len(),
            |i: int| if s.replica_pending.contains_key(i + 1) { s.replica_pending[i + 1].before } else { c.replicas[i] },
        ),
        queues: with_heads(c.queues, heads(s)),
        ..c
    }
}

/// What the steps under way have done so far, as their nodes' `handle`
/// does.
spec fn pending_ok(s: HsSplitRun) -> bool {
    let c = s.state;
    &&& s.leader_pending is Some ==> {
        let p = s.leader_pending->0;
        &&& !p.before.decided
        &&& hs_leader_transition(p.before, p.read.1, c.leader, p.out, p.decision)
    }
    &&& forall|j: int|
        #[trigger] s.replica_pending.contains_key(j) ==> {
            let p = s.replica_pending[j];
            &&& 1 <= j < c.n
            &&& !p.before.decided
            &&& p.read.0 != p.before.leader_id ==> c.replicas[j - 1] == p.before && p.out == Seq::<Outgoing<HsMsg>>::empty()
                && p.decision is None
            &&& p.read.0 == p.before.leader_id ==> hs_replica_transition(
                p.before,
                p.read.1,
                c.replicas[j - 1],
                p.out,
                p.decision,
            )
        }
}

/// What holds of every split run reached.
spec fn split_inv(s: HsSplitRun) -> bool {
    let c = s.state;
    &&& hs_inv(whole(s))
    &&& c.replicas.len() == c.n - 1
    &&& c.queues.len() == c.n
    &&& s.replica_pending.dom().finite()
    &&& pending_ok(s)
}

proof fn lemma_split_init(n: nat, v: Value)
    requires
        2 <= n <= u64::MAX,
    ensures
        split_inv(hs_split_init(n, v)),
{
    let s = hs_split_init(n, v);
    assert(heads(s) =~= Map::<int, (NodeId, HsMsg)>::empty());
    assert(whole(s).queues =~= s.state.queues);
    assert(whole(s).replicas =~= s.state.replicas);
    assert(whole(s) == s.state);
    lemma_hs_inv_init(n, v);
    lemma_hs_shape(s.state);
}

/// The leader beginning a step changes nothing of the run of whole steps.
proof fn lemma_read_leader(s: HsSplitRun, t: HsSplitRun)
    requires
        split_inv(s),
        hs_split_read_leader(s, t),
    ensures
        split_inv(t),
        whole(t) == whole(s),
        t.state.reads == s.state.reads,
        pending_count(t) == pending_count(s) + 1,
{
    reveal(hs_split_read_leader);
    let c = s.state;
    let (l2, out, d) = choose|l2: HsLeaderView, out: Seq<Outgoing<HsMsg>>, d: Option<Value>|
        #[trigger] hs_leader_transition(c.leader, c.queues[0][0].1, l2, out, d) && t == (HsSplitRun {
            state: HsRun { leader: l2, queues: c.queues.update(0, c.queues[0].drop_first()), ..c },
            leader_pending: Some(HsLeaderPending { before: c.leader, read: c.queues[0][0], out, decision: d }),
            replica_pending: s.replica_pending,
        });
    assert(whole(t).replicas =~= whole(s).replicas);
    assert(whole(t).queues =~= whole(s).queues) by {
        assert forall|k: int| 0 <= k < c.n implies #[trigger] whole(t).queues[k] == whole(s).queues[k] by {
            if k == 0 {
                assert(seq![c.queues[0][0]] + c.queues[0].drop_first() =~= c.queues[0]);
            }
        }
    }
    assert(whole(t) == whole(s));
    assert forall|j: int| #[trigger] t.replica_pending.contains_key(j) implies {
        let p = t.replica_pending[j];
        &&& 1 <= j < t.state.n
        &&& !p.before.decided
        &&& p.read.0 != p.before.leader_id ==> t.state.replicas[j - 1] == p.before && p.out
            == Seq::<Outgoing<HsMsg>>::empty() && p.decision is None
        &&& p.read.0 == p.before.leader_id ==> hs_replica_transition(
            p.before,
            p.read.1,
            t.state.replicas[j - 1],
            p.out,
            p.decision,
        )
    } by {
        assert(s.replica_pending.contains_key(j));
    }
}

/// A replica beginning a step changes nothing of the run of whole steps.
proof fn lemma_read_replica(s: HsSplitRun, j: int, t: HsSplitRun)
    requires
        split_inv(s),
        hs_split_read_replica(s, j, t),
    ensures
        split_inv(t),
        whole(t) == whole(s),
        t.state.reads == s.state.reads,
        pending_count(t) == pending_count(s) + 1,
{
    reveal(hs_split_read_replica);
    let c = s.state;
    let i = j - 1;
    let (from, msg) = c.queues[j][0];
    let before = c.replicas[i];
    let popped = c.queues.update(j, c.queues[j].drop_first());
    if from != before.leader_id {
        assert(t.state.replicas =~= c.replicas);
    } else {
        let (r2, out, d) = choose|r2: HsReplicaView, out: Seq<Outgoing<HsMsg>>, d: Option<Value>|
            #[trigger] hs_replica_transition(before, msg, r2, out, d) && t == (HsSplitRun {
                state: HsRun { replicas: c.replicas.update(i, r2), queues: popped, ..c },
                replica_pending: s.replica_pending.insert(j, HsReplicaPending { before, read: c.queues[j][0], out, decision: d }),
                ..s
            });
    }
    assert(t.state.queues == popped);
    assert(whole(t).replicas =~= whole(s).replicas);
    assert(whole(t).queues =~= whole(s).queues) by {
        assert forall|k: int| 0 <= k < c.n implies #[trigger] whole(t).queues[k] == whole(s).queues[k] by {
            if k == j {
                assert(seq![c.queues[j][0]] + c.queues[j].drop_first() =~= c.queues[j]);
            }
        }
    }
    assert(whole(t) == whole(s));
    assert(t.replica_pending.dom() =~= s.replica_pending.dom().insert(j));
    assert forall|k: int| #[trigger] t.replica_pending.contains_key(k) implies {
        let p = t.replica_pending[k];
        &&& 1 <= k < t.state.n
        &&& !p.before.decided
        &&& p.read.0 != p.before.leader_id ==> t.state.replicas[k - 1] == p.before && p.out
            == Seq::<Outgoing<HsMsg>>::empty() && p.decision is None
        &&& p.read.0 == p.before.leader_id ==> hs_replica_transition(
            p.before,
            p.read.1,
            t.state.replicas[k - 1],
            p.out,
            p.decision,
        )
    } by {
        if k != j {
            assert(s.replica_pending.contains_key(k));
        }
    }
}

/// The leader finishing its step is, in the run of whole steps, that whole
/// step.
proof fn lemma_finish_leader(s: HsSplitRun, t: HsSplitRun)
    requires
        split_inv(s),
        hs_split_finish_leader(s, t),
    ensures
        hs_run_deliver(whole(s), 0, whole(t)),
        pending_count(t) + 1 == pending_count(s),
{
    let c = s.state;
    let p = s.leader_pending->0;
    let a = whole(s);
    lemma_hs_shape(a);
    assert(a.leader == p.before);
    assert(a.queues[0] == seq![p.read] + c.queues[0]);
    assert(a.queues[0][0] == p.read);
    let rest = a.queues.update(0, a.queues[0].drop_first());
    assert(rest =~= with_heads(c.queues, heads(t))) by {
        assert(a.queues[0].drop_first() =~= c.queues[0]);
    }
    lemma_post_with_heads(c.queues, heads(t), 0, p.out);
    let w = whole(t);
    assert(w.replicas =~= a.replicas);
    assert(w.queues == post(rest, 0, p.out));
    assert(w == HsRun {
        leader: w.leader,
        queues: post(rest, 0, p.out),
        decisions: if p.decision is Some { a.decisions.insert(0, p.decision->0) } else { a.decisions },
        broadcasts: a.broadcasts + payloads(p.out),
        votes_read: if p.read.1 is Vote {
            a.votes_read.insert((p.read.1->sender, p.read.1->phase))
        } else {
            a.votes_read
        },
        sent: (a.sent + post_count(a.n, p.out)) as nat,
        reads: a.reads + 1,
        ..a
    });
    assert(hs_leader_transition(a.leader, a.queues[0][0].1, w.leader, p.out, p.decision));
    reveal(hs_run_deliver);
}

/// A replica finishing its step is, in the run of whole steps, that whole
/// step.
proof fn lemma_finish_replica(s: HsSplitRun, j: int, t: HsSplitRun)
    requires
        split_inv(s),
        hs_split_finish_replica(s, j, t),
    ensures
        hs_run_deliver(whole(s), j, whole(t)),
        pending_count(t) + 1 == pending_count(s),
{
    let c = s.state;
    let p = s.replica_pending[j];
    let i = j - 1;
    let a = whole(s);
    lemma_hs_shape(a);
    assert(a.replicas[i] == p.before);
    assert(a.queues[j] == seq![p.read] + c.queues[j]);
    assert(a.queues[j][0] == p.read);
    let rest = a.queues.update(j, a.queues[j].drop_first());
    assert(rest =~= with_heads(c.queues, heads(t))) by {
        assert(a.queues[j].drop_first() =~= c.queues[j]);
    }
    assert(t.replica_pending.dom() =~= s.replica_pending.dom().remove(j));
    let w = whole(t);
    if p.read.0 != p.before.leader_id {
        assert(w.replicas =~= a.replicas);
        assert(w == HsRun { queues: rest, reads: a.reads + 1, ..a });
    } else {
        lemma_post_with_heads(c.queues, heads(t), j as NodeId, p.out);
        assert(w.replicas =~= a.replicas.update(i, c.replicas[i]));
        assert(w.queues == post(rest, j as NodeId, p.out));
        assert(w == HsRun {
            replicas: a.replicas.update(i, c.replicas[i]),
            queues: post(rest, j as NodeId, p.out),
            decisions: if p.decision is Some { a.decisions.insert(j as NodeId, p.decision->0) } else { a.decisions },
            read: a.read.update(i, a.read[i] + 1),
            votes_sent: if p.out.len() > 0 {
                a.votes_sent.insert((j as NodeId, vote_phase(p.read.1)))
            } else {
                a.votes_sent
            },
            sent: (a.sent + post_count(a.n, p.out)) as nat,
            reads: a.reads + 1,
            ..a
        });
        assert(hs_replica_transition(a.replicas[i], a.queues[j][0].1, c.replicas[i], p.out, p.decision));
    }
    reveal(hs_run_deliver);
}

/// Every event keeps the invariant, and counts: beginning a step adds to
/// the steps under way, finishing one reads a message.
proof fn lemma_split_step(s: HsSplitRun, t: HsSplitRun)
    requires
        split_inv(s),
        hs_split_step(s, t),
    ensures
        split_inv(t),
        t.state.n == s.state.n,
        t.state.value == s.state.value,
        2 * t.state.reads + pending_count(t) == 2 * s.state.reads + pending_count(s) + 1,
{
    let c = s.state;
    if hs_split_read_leader(s, t) {
        lemma_read_leader(s, t);
        reveal(hs_split_read_leader);
    } else if exists|j: int| hs_split_read_replica(s, j, t) {
        let j = choose|j: int| hs_split_read_replica(s, j, t);
        lemma_read_replica(s, j, t);
        reveal(hs_split_read_replica);
    } else if hs_split_finish_leader(s, t) {
        lemma_finish_leader(s, t);
        assert(hs_run_step(whole(s), whole(t)));
        lemma_hs_inv_step(whole(s), whole(t));
        lemma_post_with_heads(c.queues, heads(t), 0, s.leader_pending->0.out);
        assert forall|k: int| #[trigger] t.replica_pending.contains_key(k) implies {
            let p = t.replica_pending[k];
            &&& 1 <= k < t.state.n
            &&& !p.before.decided
            &&& p.read.0 != p.before.leader_id ==> t.state.replicas[k - 1] == p.before && p.out
                == Seq::<Outgoing<HsMsg>>::empty() && p.decision is None
            &&& p.read.0 == p.before.leader_id ==> hs_replica_transition(
                p.before,
                p.read.1,
                t.state.replicas[k - 1],
                p.out,
                p.decision,
            )
        } by {
            assert(s.replica_pending.contains_key(k));
        }
    } else {
        let j = choose|j: int| hs_split_finish_replica(s, j, t);
        lemma_finish_replica(s, j, t);
        assert(hs_run_step(whole(s), whole(t)));
        lemma_hs_inv_step(whole(s), whole(t));
        lemma_post_with_heads(c.queues, heads(t), j as NodeId, s.replica_pending[j].out);
        assert forall|k: int| #[trigger] t.replica_pending.contains_key(k) implies {
            let p = t.replica_pending[k];
            &&& 1 <= k < t.state.n
            &&& !p.before.decided
            &&& p.read.0 != p.before.leader_id ==> t.state.replicas[k - 1] == p.before && p.out
                == Seq::<Outgoing<HsMsg>>::empty() && p.decision is None
            &&& p.read.0 == p.before.leader_id ==> hs_replica_transition(
                p.before,
                p.read.1,
                t.state.replicas[k - 1],
                p.out,
                p.decision,
            )
        } by {
            assert(s.replica_pending.contains_key(k));
        }
    }
}

proof fn lemma_split_trace(n: nat, value: Value, trace: Seq<HsSplitRun>, i: int)
    requires
        2 <= n <= u64::MAX,
        hs_split_trace(n, value, trace),
        0 <= i < trace.len(),
    ensures
        split_inv(trace[i]),
        trace[i].state.n == n,
        trace[i].state.value == value,
        2 * trace[i].state.reads + pending_count(trace[i]) == i,
    decreases i,
{
    if i == 0 {
        lemma_split_init(n, value);
        assert(pending_count(trace[0]) == 0);
    } else {
        lemma_split_trace(n, value, trace, i - 1);
        lemma_split_step(trace[i - 1], trace[i]);
    }
}

/// With no step under way, the run of whole steps is the run itself.
proof fn lemma_split_rest(s: HsSplitRun)
    requires
        split_inv(s),
        s.leader_pending is None,
        s.replica_pending == Map::<int, HsReplicaPending>::empty(),
    ensures
        whole(s) == s.state,
{
    assert(heads(s) =~= Map::<int, (NodeId, HsMsg)>::empty());
    assert(whole(s).queues =~= s.state.queues);
    assert(whole(s).replicas =~= s.state.replicas);
}

/// Consensus holds of HotStuff runs with each node's read and hand-over as
/// separate events, with other nodes' events in between, as the network
/// runs them: with `n >= 2` nodes every node that decides decides the
/// leader's value, and a run at rest has every node decided.
pub proof fn lemma_hs_split_consensus(n: nat, value: Value, trace: Seq<HsSplitRun>)
    requires
        2 <= n <= u64::MAX,
        hs_split_trace(n, value, trace),
    ensures
        forall|id: NodeId|
            #[trigger] trace.last().state.decisions.contains_key(id) ==> trace.last().state.decisions[id] == value,
        hs_split_quiescent(trace.last()) ==> forall|id: NodeId|
            id < n ==> #[trigger] trace.last().state.decisions.contains_key(id) && trace.last().state.decisions[id]
                == value,
{
    lemma_split_trace(n, value, trace, trace.len() - 1);
    let s = trace.last();
    lemma_hs_decided(whole(s));
    assert(whole(s).decisions == s.state.decisions);
    if hs_split_quiescent(s) {
        lemma_split_rest(s);
    }
}

/// Such runs come to rest: a run holds at most `14 * (n - 1) + n + 1`
/// states, and one not at rest can always take another event.
pub proof fn lemma_hs_split_terminates(n: nat, value: Value, trace: Seq<HsSplitRun>)
    requires
        2 <= n <= u64::MAX,
        hs_split_trace(n, value, trace),
    ensures
        trace.len() <= 14 * (n - 1) + n + 1,
        !hs_split_quiescent(trace.last()) ==> exists|t: HsSplitRun| hs_split_step(trace.last(), t),
{
    lemma_split_trace(n, value, trace, trace.len() - 1);
    let s = trace.last();
    lemma_hs_bound(whole(s));
    assert(s.replica_pending.dom().subset_of(Set::new(|k: int| 1 <= k < n)));
    assert(Set::new(|k: int| 1 <= k < n) =~= vstd::set_lib::set_int_range(1, n as int));
    vstd::set_lib::lemma_int_range(1, n as int);
    vstd::set_lib::lemma_len_subset(s.replica_pending.dom(), vstd::set_lib::set_int_range(1, n as int));
    if !hs_split_quiescent(s) {
        let t = lemma_split_next(s);
        assert(hs_split_step(s, t));
    }
}

/// Such a run at rest has handed exactly `7 * (n - 1)` messages to the
/// channels, whatever order its events came in.
pub proof fn lemma_hs_split_message_count(n: nat, value: Value, trace: Seq<HsSplitRun>)
    requires
        2 <= n <= u64::MAX,
        hs_split_trace(n, value, trace),
    ensures
        hs_split_quiescent(trace.last()) ==> trace.last().state.sent == 7 * (n - 1),
{
    lemma_split_trace(n, value, trace, trace.len() - 1);
    let s = trace.last();
    if hs_split_quiescent(s) {
        lemma_split_rest(s);
        lemma_hs_rest_count(whole(s));
    }
}

/// A reachable split run that is not at rest can take an event.
proof fn lemma_split_next(s: HsSplitRun) -> (t: HsSplitRun)
    requires
        split_inv(s),
        !hs_split_quiescent(s),
    ensures
        hs_split_step(s, t),
{
    let c = s.state;
    if s.leader_pending is Some {
        let t = HsSplitRun { state: hs_split_after_leader(c, s.leader_pending->0), leader_pending: None, ..s };
        assert(hs_split_finish_leader(s, t));
        t
    } else if s.replica_pending != Map::<int, HsReplicaPending>::empty() {
        let j = choose|j: int| s.replica_pending.contains_key(j);
        assert(s.replica_pending.contains_key(j)) by {
            if !(exists|j: int| s.replica_pending.contains_key(j)) {
                assert(s.replica_pending =~= Map::<int, HsReplicaPending>::empty());
            }
        }
        let t = HsSplitRun {
            state: hs_split_after_replica(c, j, s.replica_pending[j]),
            replica_pending: s.replica_pending.remove(j),
            ..s
        };
        assert(hs_split_finish_replica(s, j, t));
        t
    } else {
        lemma_split_rest(s);
        lemma_hs_shape(c);
        if !c.leader.decided && c.queues[0].len() > 0 {
            let msg = c.queues[0][0].1;
            let r = hs_leader_react(c.leader, msg);
            lemma_hs_leader_react(c.leader, msg, r.0, r.1, r.2);
            let t = HsSplitRun {
                state: HsRun { leader: r.0, queues: c.queues.update(0, c.queues[0].drop_first()), ..c },
                leader_pending: Some(HsLeaderPending { before: c.leader, read: c.queues[0][0], out: r.1, decision: r.2 }),
                replica_pending: s.replica_pending,
            };
            assert(hs_split_read_leader(s, t)) by {
                reveal(hs_split_read_leader);
                assert(hs_leader_transition(c.leader, c.queues[0][0].1, r.0, r.1, r.2));
            }
            t
        } else {
            let i = choose|i: int|
                0 <= i < c.replicas.len() && !(#[trigger] c.replicas[i]).decided && c.queues[i + 1].len() != 0;
            let j = i + 1;
            let (from, msg) = c.queues[j][0];
            let before = c.replicas[i];
            let popped = c.queues.update(j, c.queues[j].drop_first());
            if from != before.leader_id {
                let t = HsSplitRun {
                    state: HsRun { queues: popped, ..c },
                    replica_pending: s.replica_pending.insert(
                        j,
                        HsReplicaPending { before, read: c.queues[j][0], out: Seq::empty(), decision: None },
                    ),
                    ..s
                };
                assert(hs_split_read_replica(s, j, t)) by {
                    reveal(hs_split_read_replica);
                }
                t
            } else {
                let r = hs_replica_react(before, from, msg);
                lemma_hs_replica_react(before, msg, r.0, r.1, r.2);
                let t = HsSplitRun {
                    state: HsRun { replicas: c.replicas.update(i, r.0), queues: popped, ..c },
                    replica_pending: s.replica_pending.insert(
                        j,
                        HsReplicaPending { before, read: c.queues[j][0], out: r.1, decision: r.2 },
                    ),
                    ..s
                };
                assert(hs_split_read_replica(s, j, t)) by {
                    reveal(hs_split_read_replica);
                    assert(hs_replica_transition(before, msg, r.0, r.1, r.2));
                }
                t
            }
        }
    }
}

} // verus!
