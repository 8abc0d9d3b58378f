use vstd::prelude::*;

use crate::pbft::{pbft_transition, PbftMsg, PbftView};
use crate::pbft_run::{
    inv, inv_counts, inv_reads, lemma_counts_bound, lemma_counts_init, lemma_counts_step, lemma_decisions,
    lemma_head, lemma_init, lemma_quiescent, lemma_reads_init, lemma_reads_step, lemma_rest_count, lemma_shape,
    lemma_step, pbft_run_after, pbft_run_deliver, pbft_run_init, pbft_run_open, pbft_run_quiescent,
    pbft_run_step, PbftRun,
};
use crate::quorum::quorum;
use crate::step::{post, post_count, Outgoing};
use crate::tendermint::{tm_transition, TmMsg, TmView};
use crate::types::{NodeId, Value};

verus! {

/// A run of a Tendermint cluster of `n` nodes as the network carries it: one
/// FIFO channel per node, a broadcast reaching every channel at once (the
/// network's lock keeps other sends out meanwhile), a node reading only once
/// it has sent what its `start` had it send, and a node that has decided
/// reading no more. The last four fields record the run's history.
///
/// A step is one node reading one message and reacting to it at once. In
/// the network a node reads, updates its own state, and only then hands its
/// messages over, each broadcast under the network's lock, while the other
/// nodes go on. Every such execution is one of these runs: no node reads
/// another's state, the message a node has read stays at the head of its
/// channel whatever others append behind it, and a step sends at most one
/// message (the opening, which sends two, is split into two steps), so each
/// step can be taken at the moment its message enters the channels, or at
/// its read if it sends nothing. Module `tm_split` models the read and
/// the hand-over as separate events and proves the same laws there.
pub struct TmRun {
    pub n: nat,
    pub value: Value,
    /// `nodes[j]` is node `j`.
    pub nodes: Seq<TmView>,
    /// `queues[j]`: the messages sent to node `j` and not read yet, oldest first.
    pub queues: Seq<Seq<(NodeId, TmMsg)>>,
    /// What each node that has decided decided.
    pub decisions: Map<NodeId, Value>,
    /// How many of its two opening messages the proposer has broadcast.
    pub opened: nat,
    /// For each node that has broadcast its precommit, the senders of the
    /// prevotes it held when it did.
    pub precommitted_with: Map<NodeId, Set<NodeId>>,
    /// For each node that has broadcast its precommit, the other nodes whose
    /// precommits it had read when it did.
    pub precommits_before: Map<NodeId, Set<NodeId>>,
    /// How many messages the run has handed to the channels.
    pub sent: nat,
    /// How many messages the nodes have read.
    pub reads: nat,
}

/// The run of a fresh cluster of `n` nodes holding `value`, in round 0,
/// before anything is sent.
pub open spec fn tm_run_init(n: nat, value: Value) -> TmRun {
    TmRun {
        n,
        value,
        nodes: Seq::new(
            n,
            |j: int|
                TmView {
                    node_id: j as NodeId,
                    is_proposer: j == 0,
                    value,
                    round: 0,
                    quorum: quorum(n),
                    prevotes: Map::empty(),
                    precommits: Map::empty(),
                    prevoted: false,
                    precommitted: false,
                    decided: false,
                },
        ),
        queues: Seq::new(n, |j: int| Seq::empty()),
        decisions: Map::empty(),
        opened: 0,
        precommitted_with: Map::empty(),
        precommits_before: Map::empty(),
        sent: 0,
        reads: 0,
    }
}

/// The proposer broadcasts the next of the two messages its `start` returns:
/// its proposal, then its own prevote. `start` also has the proposer hold
/// its own prevote and count as having prevoted; as only the proposer reads
/// its state, and it reads nothing before both messages are out, the run
/// makes that change with the second.
pub open spec fn tm_run_open(s: TmRun, t: TmRun) -> bool {
    let p = s.nodes[0];
    &&& s.n >= 1
    &&& s.nodes.len() == s.n
    &&& s.queues.len() == s.n
    &&& if s.opened == 0 {
        t == TmRun {
            queues: post(s.queues, 0, seq![Outgoing::Broadcast(TmMsg::Proposal { round: p.round, value: p.value })]),
            opened: 1,
            sent: (s.sent + s.n - 1) as nat,
            ..s
        }
    } else {
        &&& s.opened == 1
        &&& t == TmRun {
            nodes: s.nodes.update(
                0,
                TmView { prevotes: p.prevotes.insert(p.node_id, p.value), prevoted: true, ..p },
            ),
            queues: post(
                s.queues,
                0,
                seq![Outgoing::Broadcast(TmMsg::Prevote { round: p.round, sender: p.node_id, value: p.value })],
            ),
            opened: 2,
            sent: (s.sent + s.n - 1) as nat,
            ..s
        }
    }
}

/// The run after node `j` of `s` has read the oldest message of its channel
/// and, in reaction, become `node`, sent `out` and decided `d`.
pub open spec fn tm_run_after(
    s: TmRun,
    j: int,
    node: TmView,
    out: Seq<Outgoing<TmMsg>>,
    d: Option<Value>,
) -> TmRun {
    let old = s.nodes[j];
    let newly = !old.precommitted && node.precommitted;
    TmRun {
        nodes: s.nodes.update(j, node),
        queues: post(s.queues.update(j, s.queues[j].drop_first()), j as NodeId, out),
        decisions: if d is Some { s.decisions.insert(j as NodeId, d->0) } else { s.decisions },
        precommitted_with: if newly {
            s.precommitted_with.insert(j as NodeId, node.prevotes.dom())
        } else {
            s.precommitted_with
        },
        precommits_before: if newly {
            s.precommits_before.insert(j as NodeId, old.precommits.dom())
        } else {
            s.precommits_before
        },
        sent: (s.sent + post_count(s.n, out)) as nat,
        reads: s.reads + 1,
        ..s
    }
}

/// Node `j` of `s`, which has not decided, reads the oldest message of its
/// channel and reacts to it as its `handle` does, giving `t`.
#[verifier::opaque]
pub open spec fn tm_run_deliver(s: TmRun, j: int, t: TmRun) -> bool {
    &&& 0 <= j < s.n
    &&& s.nodes.len() == s.n
    &&& s.queues.len() == s.n
    &&& s.queues[j].len() > 0
    &&& !s.nodes[j].decided
    &&& j == 0 ==> s.opened == 2
    &&& exists|node: TmView, out: Seq<Outgoing<TmMsg>>, d: Option<Value>|
        #[trigger] tm_transition(s.nodes[j], s.queues[j][0].0, s.queues[j][0].1, node, out, d)
            && t == tm_run_after(s, j, node, out, d)
}

/// `t` follows `s` by one node reading one message, or by the proposer
/// broadcasting an opening message.
pub open spec fn tm_run_step(s: TmRun, t: TmRun) -> bool {
    ||| exists|j: int| tm_run_deliver(s, j, t)
    ||| tm_run_open(s, t)
}

/// `trace` is a run of a cluster of `n` nodes holding `value`, from before
/// anything is sent on, one event at a time.
pub open spec fn tm_run_trace(n: nat, value: Value, trace: Seq<TmRun>) -> bool {
    &&& trace.len() >= 1
    &&& trace[0] == tm_run_init(n, value)
    &&& forall|i: int| 0 <= i < trace.len() - 1 ==> tm_run_step(#[trigger] trace[i], trace[i + 1])
}

/// The proposer has sent its opening messages, and no node that has not
/// decided has a message left to read.
pub open spec fn tm_run_quiescent(s: TmRun) -> bool {
    &&& s.opened == 2
    &&& forall|j: int| 0 <= j < s.nodes.len() && !(#[trigger] s.nodes[j]).decided ==> s.queues[j].len() == 0
}

// A Tendermint height runs as a PBFT instance does: the proposal plays the
// pre-prepare, prevotes the prepares and precommits the commits, and round
// 0 plays sequence number 1. The functions below map a Tendermint run onto
// the PBFT run it behaves as.
spec fn seq_of(round: u64) -> u64 {
    if round == 0 {
        1
    } else {
        0
    }
}

spec fn view_of(nd: TmView) -> PbftView {
    PbftView {
        node_id: nd.node_id,
        is_primary: nd.is_proposer,
        value: nd.value,
        seq: seq_of(nd.round),
        quorum: nd.quorum,
        prepares: nd.prevotes,
        commits: nd.precommits,
        prepared: nd.precommitted,
        decided: nd.decided,
    }
}

spec fn msg_of(m: TmMsg) -> PbftMsg {
    match m {
        TmMsg::Proposal { round, value } => PbftMsg::PrePrepare { seq: seq_of(round), value },
        TmMsg::Prevote { round, sender, value } => PbftMsg::Prepare { seq: seq_of(round), sender, value },
        TmMsg::Precommit { round, sender, value } => PbftMsg::Commit { seq: seq_of(round), sender, value },
    }
}

spec fn entry_of(e: (NodeId, TmMsg)) -> (NodeId, PbftMsg) {
    (e.0, msg_of(e.1))
}

spec fn channel_of(q: Seq<(NodeId, TmMsg)>) -> Seq<(NodeId, PbftMsg)> {
    q.map_values(|e: (NodeId, TmMsg)| entry_of(e))
}

spec fn out_of(out: Seq<Outgoing<TmMsg>>) -> Seq<Outgoing<PbftMsg>> {
    out.map_values(
        |o: Outgoing<TmMsg>|
            match o {
                Outgoing::Broadcast(m) => Outgoing::Broadcast(msg_of(m)),
                Outgoing::SendTo(k, m) => Outgoing::SendTo(k, msg_of(m)),
            },
    )
}

spec fn prevoters(s: TmRun) -> Set<NodeId> {
    Set::new(|k: NodeId| k < s.n && s.nodes[k as int].prevoted)
}

spec fn pbft_of(s: TmRun) -> PbftRun {
    PbftRun {
        n: s.n,
        value: s.value,
        nodes: s.nodes.map_values(|nd: TmView| view_of(nd)),
        queues: s.queues.map_values(|q: Seq<(NodeId, TmMsg)>| channel_of(q)),
        decisions: s.decisions,
        opened: s.opened,
        prepare_sent: prevoters(s),
        prepared_with: s.precommitted_with,
        commits_before: s.precommits_before,
        sent: s.sent,
        reads: s.reads,
    }
}

proof fn lemma_init_maps(n: nat, v: Value)
    requires
        2 <= n <= u64::MAX,
    ensures
        pbft_of(tm_run_init(n, v)) == pbft_run_init(n, v),
{
    let s = tm_run_init(n, v);
    let a = pbft_of(s);
    let b = pbft_run_init(n, v);
    assert(a.nodes =~= b.nodes);
    assert forall|j: int| 0 <= j < n implies #[trigger] a.queues[j] =~= b.queues[j] by {
        assert(a.queues[j] == channel_of(s.queues[j]));
    }
    assert(a.queues =~= b.queues);
    assert(a.prepare_sent =~= b.prepare_sent);
}

/// A Tendermint validator in round 0 moves as its PBFT image does, when a
/// proposal reaches it only before it has prevoted and when it does not
/// propose.
proof fn lemma_transition_maps(
    old: TmView,
    f: NodeId,
    m: TmMsg,
    node: TmView,
    out: Seq<Outgoing<TmMsg>>,
    d: Option<Value>,
)
    requires
        tm_transition(old, f, m, node, out, d),
        old.round == 0,
        m is Proposal ==> !old.prevoted && !old.is_proposer,
    ensures
        pbft_transition(view_of(old), f, msg_of(m), view_of(node), out_of(out), d),
        node.prevoted == (old.prevoted || (m is Proposal && out.len() > 0)),
        out.len() == 0 || (out.len() == 1 && out[0] is Broadcast),
{
    match m {
        TmMsg::Proposal { round, value } => {
            if round == old.round && f == 0 && !old.prevoted {
                assert(out_of(out) =~= seq![
                    Outgoing::Broadcast(PbftMsg::Prepare { seq: 1, sender: old.node_id, value }),
                ]);
                assert(view_of(node) == PbftView {
                    prepares: view_of(old).prepares.insert(view_of(old).node_id, value),
                    ..view_of(old)
                });
            } else {
                assert(out_of(out) =~= Seq::<Outgoing<PbftMsg>>::empty());
            }
        },
        TmMsg::Prevote { round, sender, value } => {
            if round == old.round {
                let prevotes = old.prevotes.insert(sender, value);
                if !old.precommitted && crate::tally::reaches_quorum(prevotes, old.quorum, old.value) {
                    assert(out_of(out) =~= seq![
                        Outgoing::Broadcast(PbftMsg::Commit { seq: 1, sender: old.node_id, value: old.value }),
                    ]);
                } else {
                    assert(out_of(out) =~= Seq::<Outgoing<PbftMsg>>::empty());
                }
            } else {
                assert(out_of(out) =~= Seq::<Outgoing<PbftMsg>>::empty());
            }
        },
        TmMsg::Precommit { .. } => {
            assert(out_of(out) =~= Seq::<Outgoing<PbftMsg>>::empty());
        },
    }
}

/// Mapping the messages commutes with handing a node's single broadcast, or
/// nothing, to the channels.
proof fn lemma_post_maps(qs: Seq<Seq<(NodeId, TmMsg)>>, from: NodeId, out: Seq<Outgoing<TmMsg>>)
    requires
        out.len() == 0 || (out.len() == 1 && out[0] is Broadcast),
    ensures
        post(qs, from, out).map_values(|q: Seq<(NodeId, TmMsg)>| channel_of(q)) == post(
            qs.map_values(|q: Seq<(NodeId, TmMsg)>| channel_of(q)),
            from,
            out_of(out),
        ),
{
    reveal_with_fuel(post, 2);
    let mq = qs.map_values(|q: Seq<(NodeId, TmMsg)>| channel_of(q));
    if out.len() == 1 {
        let m = out[0]->Broadcast_0;
        let pm = msg_of(m);
        assert(out[0] == Outgoing::Broadcast(m));
        assert(out_of(out)[0] == Outgoing::Broadcast(pm));
        assert(out.drop_first() =~= Seq::<Outgoing<TmMsg>>::empty());
        assert(out_of(out).drop_first() =~= Seq::<Outgoing<PbftMsg>>::empty());
        let q2 = Seq::new(qs.len(), |k: int| if k != from { qs[k].push((from, m)) } else { qs[k] });
        let p2 = Seq::new(mq.len(), |k: int| if k != from { mq[k].push((from, pm)) } else { mq[k] });
        assert(post(qs, from, out) == post(q2, from, out.drop_first()));
        assert(post(mq, from, out_of(out)) == post(p2, from, out_of(out).drop_first()));
        assert forall|k: int| 0 <= k < qs.len() implies #[trigger] channel_of(q2[k]) =~= p2[k] by {
            if k != from {
                assert(channel_of(q2[k]) =~= channel_of(qs[k]).push(entry_of((from, m))));
            }
        }
        assert(q2.map_values(|q: Seq<(NodeId, TmMsg)>| channel_of(q)) =~= p2);
    } else {
        assert(out_of(out) =~= Seq::<Outgoing<PbftMsg>>::empty());
        assert(qs.map_values(|q: Seq<(NodeId, TmMsg)>| channel_of(q)) =~= mq);
    }
}

/// One step of a reachable Tendermint run is one step of its PBFT image.
proof fn lemma_step_maps(s: TmRun, j: int, t: TmRun)
    requires
        inv(pbft_of(s)),
        tm_run_deliver(s, j, t),
    ensures
        pbft_run_deliver(pbft_of(s), j, pbft_of(t)),
{
    reveal(tm_run_deliver);
    reveal(pbft_run_deliver);
    let a = pbft_of(s);
    let (node, out, d) = choose|node: TmView, out: Seq<Outgoing<TmMsg>>, d: Option<Value>|
        #[trigger] tm_transition(s.nodes[j], s.queues[j][0].0, s.queues[j][0].1, node, out, d)
            && t == tm_run_after(s, j, node, out, d);
    let old = s.nodes[j];
    let (f, m) = s.queues[j][0];
    assert(a.queues[j] == channel_of(s.queues[j]));
    assert(a.queues[j][0] == entry_of(s.queues[j][0]));
    assert(a.nodes[j] == view_of(old));
    lemma_head(a, j);
    assert(old.round == 0);
    if m is Proposal {
        assert(a.queues[j][0].1 is PrePrepare);
        assert(!prevoters(s).contains(j as NodeId));
        assert(!old.prevoted);
    }
    lemma_transition_maps(old, f, m, node, out, d);
    let pn = view_of(node);
    let po = out_of(out);
    let b = pbft_run_after(a, j, pn, po, d);
    let c = pbft_of(t);
    assert(c.nodes =~= b.nodes);
    let rest = s.queues.update(j, s.queues[j].drop_first());
    assert(rest.map_values(|q: Seq<(NodeId, TmMsg)>| channel_of(q)) =~= a.queues.update(
        j,
        a.queues[j].drop_first(),
    )) by {
        assert(channel_of(s.queues[j].drop_first()) =~= a.queues[j].drop_first());
    }
    lemma_post_maps(rest, j as NodeId, out);
    assert(c.queues == b.queues);
    assert(c.prepare_sent =~= b.prepare_sent) by {
        assert forall|k: NodeId| c.prepare_sent.contains(k) == b.prepare_sent.contains(k) by {
            if k < s.n && k != j {
                assert(t.nodes[k as int] == s.nodes[k as int]);
            }
        }
    }
    assert(c.prepared_with == b.prepared_with);
    assert(c.commits_before == b.commits_before);
    assert(post_count(s.n, po) == post_count(s.n, out)) by {
        reveal_with_fuel(post_count, 2);
        if out.len() == 1 {
            assert(out.drop_first().len() == 0);
            assert(po.drop_first().len() == 0);
        }
    }
    assert(c == b);
    assert(pbft_transition(a.nodes[j], a.queues[j][0].0, a.queues[j][0].1, pn, po, d));
}

/// The proposer's opening broadcasts are those of its PBFT image.
proof fn lemma_open_maps(s: TmRun, t: TmRun)
    requires
        inv(pbft_of(s)),
        tm_run_open(s, t),
    ensures
        pbft_run_open(pbft_of(s), pbft_of(t)),
{
    let a = pbft_of(s);
    let c = pbft_of(t);
    let p = s.nodes[0];
    lemma_shape(a);
    assert(a.nodes[0] == view_of(p));
    assert(p.round == 0);
    let pp = a.nodes[0];
    if s.opened == 0 {
        let out = seq![Outgoing::Broadcast(TmMsg::Proposal { round: p.round, value: p.value })];
        lemma_post_maps(s.queues, 0, out);
        assert(out_of(out) =~= seq![Outgoing::Broadcast(PbftMsg::PrePrepare { seq: pp.seq, value: pp.value })]);
        assert(c.nodes =~= a.nodes);
        assert(c.prepare_sent =~= a.prepare_sent);
        assert(c == PbftRun {
            queues: post(a.queues, 0, seq![Outgoing::Broadcast(PbftMsg::PrePrepare { seq: pp.seq, value: pp.value })]),
            opened: 1,
            sent: (a.sent + a.n - 1) as nat,
            ..a
        });
    } else {
        let out = seq![Outgoing::Broadcast(TmMsg::Prevote { round: p.round, sender: p.node_id, value: p.value })];
        lemma_post_maps(s.queues, 0, out);
        let pm = PbftMsg::Prepare { seq: pp.seq, sender: pp.node_id, value: pp.value };
        assert(out_of(out) =~= seq![Outgoing::Broadcast(pm)]);
        assert(c.nodes =~= a.nodes.update(0, PbftView { prepares: pp.prepares.insert(pp.node_id, pp.value), ..pp }));
        assert(c.prepare_sent =~= a.prepare_sent.insert(0)) by {
            assert forall|k: NodeId| c.prepare_sent.contains(k) == a.prepare_sent.insert(0).contains(k) by {
                if k < s.n && k != 0 {
                    assert(t.nodes[k as int] == s.nodes[k as int]);
                }
            }
        }
        assert(c == PbftRun {
            nodes: a.nodes.update(0, PbftView { prepares: pp.prepares.insert(pp.node_id, pp.value), ..pp }),
            queues: post(a.queues, 0, seq![Outgoing::Broadcast(pm)]),
            opened: 2,
            prepare_sent: a.prepare_sent.insert(0),
            sent: (a.sent + a.n - 1) as nat,
            ..a
        });
    }
}

/// What holds of every Tendermint run reached: its PBFT image is a
/// reachable PBFT run.
pub(crate) closed spec fn tm_inv(s: TmRun) -> bool {
    &&& inv(pbft_of(s))
    &&& inv_counts(pbft_of(s))
    &&& inv_reads(pbft_of(s))
}

pub(crate) proof fn lemma_tm_inv_init(n: nat, value: Value)
    requires
        2 <= n <= u64::MAX,
    ensures
        tm_inv(tm_run_init(n, value)),
{
    lemma_init_maps(n, value);
    lemma_init(n, value);
    lemma_counts_init(n, value);
    lemma_reads_init(n, value);
}

/// Every step keeps the invariant, and reads one message or sends one
/// opening broadcast.
pub(crate) proof fn lemma_tm_inv_step(s: TmRun, t: TmRun)
    requires
        tm_inv(s),
        tm_run_step(s, t),
    ensures
        tm_inv(t),
        t.reads + t.opened == s.reads + s.opened + 1,
        t.n == s.n,
        t.value == s.value,
{
    if tm_run_open(s, t) {
        lemma_open_maps(s, t);
    } else {
        let j = choose|j: int| tm_run_deliver(s, j, t);
        lemma_step_maps(s, j, t);
        reveal(tm_run_deliver);
    }
    assert(pbft_run_step(pbft_of(s), pbft_of(t)));
    lemma_counts_step(pbft_of(s), pbft_of(t));
    lemma_reads_step(pbft_of(s), pbft_of(t));
    lemma_step(pbft_of(s), pbft_of(t));
}

/// The shape of a reached run.
pub(crate) proof fn lemma_tm_shape(s: TmRun)
    requires
        tm_inv(s),
    ensures
        2 <= s.n <= u64::MAX,
        s.nodes.len() == s.n,
        s.queues.len() == s.n,
        s.opened <= 2,
{
    lemma_shape(pbft_of(s));
}

/// In a reached run every decision is the proposer's value, and at rest
/// every node has decided.
pub(crate) proof fn lemma_tm_decided(s: TmRun)
    requires
        tm_inv(s),
    ensures
        forall|id: NodeId| #[trigger] s.decisions.contains_key(id) ==> s.decisions[id] == s.value,
        tm_run_quiescent(s) ==> forall|id: NodeId|
            id < s.n ==> #[trigger] s.decisions.contains_key(id) && s.decisions[id] == s.value,
{
    let a = pbft_of(s);
    lemma_decisions(a);
    assert(a.decisions == s.decisions && a.value == s.value && a.n == s.n);
    if tm_run_quiescent(s) {
        lemma_quiescent_maps(s);
        lemma_quiescent(a);
    }
}

/// A reached run has read at most `(n - 1) * (2n + 1)` messages.
pub(crate) proof fn lemma_tm_bound(s: TmRun)
    requires
        tm_inv(s),
    ensures
        s.reads + s.opened <= (s.n - 1) * (2 * s.n + 1) + 2,
{
    lemma_counts_bound(pbft_of(s));
}

/// A reached run at rest has sent `(n - 1) * (2n + 1)` messages.
pub(crate) proof fn lemma_tm_rest_count(s: TmRun)
    requires
        tm_inv(s),
        tm_run_quiescent(s),
    ensures
        s.sent == (s.n - 1) * (2 * s.n + 1),
{
    lemma_quiescent_maps(s);
    lemma_rest_count(pbft_of(s));
}

proof fn lemma_trace_inv(n: nat, value: Value, trace: Seq<TmRun>, i: int)
    requires
        2 <= n <= u64::MAX,
        tm_run_trace(n, value, trace),
        0 <= i < trace.len(),
    ensures
        tm_inv(trace[i]),
        trace[i].reads + trace[i].opened == i,
        trace[i].value == value,
        trace[i].n == n,
    decreases i,
{
    if i == 0 {
        lemma_tm_inv_init(n, value);
    } else {
        lemma_trace_inv(n, value, trace, i - 1);
        lemma_tm_inv_step(trace[i - 1], trace[i]);
    }
}

/// Consensus in a Tendermint run of `n >= 2` nodes, whatever order the
/// channels are read in: every node that decides decides the proposer's
/// value, and the run stops (no node that has not decided has a message left
/// to read) only once every node has decided.
pub proof fn lemma_tm_run_consensus(n: nat, value: Value, trace: Seq<TmRun>)
    requires
        2 <= n <= u64::MAX,
        tm_run_trace(n, value, trace),
    ensures
        forall|id: NodeId| #[trigger] trace.last().decisions.contains_key(id) ==> trace.last().decisions[id] == value,
        tm_run_quiescent(trace.last()) ==> forall|id: NodeId|
            id < n ==> #[trigger] trace.last().decisions.contains_key(id) && trace.last().decisions[id] == value,
{
    lemma_trace_inv(n, value, trace, trace.len() - 1);
    lemma_tm_decided(trace.last());
}

/// A run at rest maps to a PBFT run at rest.
proof fn lemma_quiescent_maps(s: TmRun)
    requires
        inv(pbft_of(s)),
        tm_run_quiescent(s),
    ensures
        pbft_run_quiescent(pbft_of(s)),
{
    let a = pbft_of(s);
    lemma_shape(a);
    assert forall|j: int| 0 <= j < a.nodes.len() && !(#[trigger] a.nodes[j]).decided implies a.queues[j].len() == 0 by {
        assert(a.nodes[j] == view_of(s.nodes[j]));
        assert(s.queues[j].len() == 0);
        assert(a.queues[j] == channel_of(s.queues[j]));
    }
}

/// Every Tendermint run of `n >= 2` nodes comes to rest, whatever order the
/// channels are read in: it holds at most `(n - 1) * (2n + 1) + 3` states,
/// and a run that is not at rest can always take another step.
pub proof fn lemma_tm_run_terminates(n: nat, value: Value, trace: Seq<TmRun>)
    requires
        2 <= n <= u64::MAX,
        tm_run_trace(n, value, trace),
    ensures
        trace.len() <= (n - 1) * (2 * n + 1) + 3,
        !tm_run_quiescent(trace.last()) ==> exists|t: TmRun| tm_run_step(trace.last(), t),
{
    lemma_trace_inv(n, value, trace, trace.len() - 1);
    let s = trace.last();
    lemma_tm_bound(s);
    if !tm_run_quiescent(s) {
        let t = lemma_next(s);
        assert(tm_run_step(s, t));
    }
}

/// A reachable run that is not at rest can take a step.
pub(crate) proof fn lemma_next(s: TmRun) -> (t: TmRun)
    requires
        tm_inv(s),
        !tm_run_quiescent(s),
    ensures
        tm_run_step(s, t),
{
    let a = pbft_of(s);
    lemma_shape(a);
    let p = s.nodes[0];
    if s.opened == 0 {
        let t = TmRun {
            queues: post(s.queues, 0, seq![Outgoing::Broadcast(TmMsg::Proposal { round: p.round, value: p.value })]),
            opened: 1,
            sent: (s.sent + s.n - 1) as nat,
            ..s
        };
        assert(tm_run_open(s, t));
        t
    } else if s.opened == 1 {
        let t = TmRun {
            nodes: s.nodes.update(
                0,
                TmView { prevotes: p.prevotes.insert(p.node_id, p.value), prevoted: true, ..p },
            ),
            queues: post(
                s.queues,
                0,
                seq![Outgoing::Broadcast(TmMsg::Prevote { round: p.round, sender: p.node_id, value: p.value })],
            ),
            opened: 2,
            sent: (s.sent + s.n - 1) as nat,
            ..s
        };
        assert(tm_run_open(s, t));
        t
    } else {
        let j = choose|j: int| 0 <= j < s.nodes.len() && !(#[trigger] s.nodes[j]).decided && s.queues[j].len() != 0;
        let (f, m) = s.queues[j][0];
        let r = crate::tendermint::tm_react(s.nodes[j], f, m);
        crate::tendermint::lemma_tm_react(s.nodes[j], f, m, r.0, r.1, r.2);
        let t = tm_run_after(s, j, r.0, r.1, r.2);
        assert(tm_run_deliver(s, j, t)) by {
            reveal(tm_run_deliver);
            assert(tm_transition(s.nodes[j], s.queues[j][0].0, s.queues[j][0].1, r.0, r.1, r.2));
        }
        t
    }
}

/// A Tendermint run of `n >= 2` nodes that has come to rest has handed
/// exactly `(n - 1) * (2n + 1)` messages to the channels, whatever order
/// they were read in: the proposal, a prevote from every node and a
/// precommit from every node, each to the `n - 1` others.
pub proof fn lemma_tm_run_message_count(n: nat, value: Value, trace: Seq<TmRun>)
    requires
        2 <= n <= u64::MAX,
        tm_run_trace(n, value, trace),
    ensures
        tm_run_quiescent(trace.last()) ==> trace.last().sent == (n - 1) * (2 * n + 1),
{
    lemma_trace_inv(n, value, trace, trace.len() - 1);
    if tm_run_quiescent(trace.last()) {
        lemma_tm_rest_count(trace.last());
    }
}

} // verus!
