use vstd::prelude::*;

use crate::pbft::{pbft_transition, PbftMsg, PbftView};
use crate::quorum::{lemma_others_form_quorum, quorum};
use crate::step::{lemma_queued_nonnegative, lemma_queued_post, lemma_queued_update, post, post_count, queued, Outgoing};
use crate::tally::{reaches_quorum, voted_for, votes_for};
use crate::types::{NodeId, Value};

verus! {

/// A run of a PBFT cluster of `n` nodes as the network carries it: one FIFO
/// channel per node, a broadcast reaching every channel at once (the
/// network's lock keeps other sends out meanwhile), a node reading only once
/// it has sent what its `start` had it send, and a node that has decided
/// reading no more. The last five fields record the run's history.
///
/// A step is one node reading one message and reacting to it at once. In
/// the network a node reads, updates its own state, and only then hands its
/// messages over, each broadcast under the network's lock, while the other
/// nodes go on. Every such execution is one of these runs: no node reads
/// another's state, the message a node has read stays at the head of its
/// channel whatever others append behind it, and a step sends at most one
/// message (the opening, which sends two, is split into two steps), so each
/// step can be taken at the moment its message enters the channels, or at
/// its read if it sends nothing. Module `pbft_split` models the read and
/// the hand-over as separate events and proves the same laws there.
pub struct PbftRun {
    pub n: nat,
    pub value: Value,
    /// `nodes[j]` is node `j`.
    pub nodes: Seq<PbftView>,
    /// `queues[j]`: the messages sent to node `j` and not read yet, oldest first.
    pub queues: Seq<Seq<(NodeId, PbftMsg)>>,
    /// What each node that has decided decided.
    pub decisions: Map<NodeId, Value>,
    /// How many of its two opening messages the primary has broadcast.
    pub opened: nat,
    /// The nodes that have broadcast their prepare.
    pub prepare_sent: Set<NodeId>,
    /// For each node that has broadcast its commit, the senders of the
    /// prepares it held when it did.
    pub prepared_with: Map<NodeId, Set<NodeId>>,
    /// For each node that has broadcast its commit, the other nodes whose
    /// commits it had read when it did.
    pub commits_before: Map<NodeId, Set<NodeId>>,
    /// How many messages the run has handed to the channels.
    pub sent: nat,
    /// How many messages the nodes have read.
    pub reads: nat,
}

/// The run of a fresh cluster of `n` nodes holding `value`, for sequence
/// number 1, before anything is sent.
pub open spec fn pbft_run_init(n: nat, value: Value) -> PbftRun {
    PbftRun {
        n,
        value,
        nodes: Seq::new(
            n,
            |j: int|
                PbftView {
                    node_id: j as NodeId,
                    is_primary: j == 0,
                    value,
                    seq: 1,
                    quorum: quorum(n),
                    prepares: Map::empty(),
                    commits: Map::empty(),
                    prepared: false,
                    decided: false,
                },
        ),
        queues: Seq::new(n, |j: int| Seq::empty()),
        decisions: Map::empty(),
        opened: 0,
        prepare_sent: Set::empty(),
        prepared_with: Map::empty(),
        commits_before: Map::empty(),
        sent: 0,
        reads: 0,
    }
}

/// The primary broadcasts the next of the two messages its `start` returns:
/// its proposal, then its own prepare. `start` also has the primary hold its
/// own prepare; as only the primary reads its state, and it reads nothing
/// before both messages are out, the run makes that change with the second.
pub open spec fn pbft_run_open(s: PbftRun, t: PbftRun) -> bool {
    let p = s.nodes[0];
    &&& s.n >= 1
    &&& s.nodes.len() == s.n
    &&& s.queues.len() == s.n
    &&& if s.opened == 0 {
        t == PbftRun {
            queues: post(s.queues, 0, seq![Outgoing::Broadcast(PbftMsg::PrePrepare { seq: p.seq, value: p.value })]),
            opened: 1,
            sent: (s.sent + s.n - 1) as nat,
            ..s
        }
    } else {
        &&& s.opened == 1
        &&& t == PbftRun {
            nodes: s.nodes.update(0, PbftView { prepares: p.prepares.insert(p.node_id, p.value), ..p }),
            queues: post(
                s.queues,
                0,
                seq![Outgoing::Broadcast(PbftMsg::Prepare { seq: p.seq, sender: p.node_id, value: p.value })],
            ),
            opened: 2,
            prepare_sent: s.prepare_sent.insert(0),
            sent: (s.sent + s.n - 1) as nat,
            ..s
        }
    }
}

/// The run after node `j` of `s` has read the oldest message of its channel
/// and, in reaction, become `node`, sent `out` and decided `d`.
pub open spec fn pbft_run_after(
    s: PbftRun,
    j: int,
    node: PbftView,
    out: Seq<Outgoing<PbftMsg>>,
    d: Option<Value>,
) -> PbftRun {
    let (from, msg) = s.queues[j][0];
    let old = s.nodes[j];
    let newly = !old.prepared && node.prepared;
    PbftRun {
        nodes: s.nodes.update(j, node),
        queues: post(s.queues.update(j, s.queues[j].drop_first()), j as NodeId, out),
        decisions: if d is Some { s.decisions.insert(j as NodeId, d->0) } else { s.decisions },
        prepare_sent: if msg is PrePrepare && out.len() > 0 {
            s.prepare_sent.insert(j as NodeId)
        } else {
            s.prepare_sent
        },
        prepared_with: if newly {
            s.prepared_with.insert(j as NodeId, node.prepares.dom())
        } else {
            s.prepared_with
        },
        commits_before: if newly {
            s.commits_before.insert(j as NodeId, old.commits.dom())
        } else {
            s.commits_before
        },
        sent: (s.sent + post_count(s.n, out)) as nat,
        reads: s.reads + 1,
        ..s
    }
}

/// Node `j` of `s`, which has not decided, reads the oldest message of its
/// channel and reacts to it as its `handle` does, giving `t`.
#[verifier::opaque]
pub open spec fn pbft_run_deliver(s: PbftRun, j: int, t: PbftRun) -> bool {
    &&& 0 <= j < s.n
    &&& s.nodes.len() == s.n
    &&& s.queues.len() == s.n
    &&& s.queues[j].len() > 0
    &&& !s.nodes[j].decided
    &&& j == 0 ==> s.opened == 2
    &&& exists|node: PbftView, out: Seq<Outgoing<PbftMsg>>, d: Option<Value>|
        #[trigger] pbft_transition(s.nodes[j], s.queues[j][0].0, s.queues[j][0].1, node, out, d)
            && t == pbft_run_after(s, j, node, out, d)
}

/// `t` follows `s` by one node reading one message, or by the primary
/// broadcasting an opening message.
pub open spec fn pbft_run_step(s: PbftRun, t: PbftRun) -> bool {
    ||| exists|j: int| pbft_run_deliver(s, j, t)
    ||| pbft_run_open(s, t)
}

/// `trace` is a run of a cluster of `n` nodes holding `value`, from before
/// anything is sent on, one event at a time.
pub open spec fn pbft_run_trace(n: nat, value: Value, trace: Seq<PbftRun>) -> bool {
    &&& trace.len() >= 1
    &&& trace[0] == pbft_run_init(n, value)
    &&& forall|i: int| 0 <= i < trace.len() - 1 ==> pbft_run_step(#[trigger] trace[i], trace[i + 1])
}

/// The primary has sent its opening messages, and no node that has not
/// decided has a message left to read.
pub open spec fn pbft_run_quiescent(s: PbftRun) -> bool {
    &&& s.opened == 2
    &&& forall|j: int| 0 <= j < s.nodes.len() && !(#[trigger] s.nodes[j]).decided ==> s.queues[j].len() == 0
}

spec fn ids(n: nat) -> Set<NodeId> {
    Set::new(|k: NodeId| k < n)
}

spec fn pp_entry(v: Value) -> (NodeId, PbftMsg) {
    (0 as NodeId, PbftMsg::PrePrepare { seq: 1, value: v })
}

spec fn prep_entry(w: NodeId, v: Value) -> (NodeId, PbftMsg) {
    (w, PbftMsg::Prepare { seq: 1, sender: w, value: v })
}

spec fn commit_entry(x: NodeId, v: Value) -> (NodeId, PbftMsg) {
    (x, PbftMsg::Commit { seq: 1, sender: x, value: v })
}

spec fn committed(s: PbftRun) -> Set<NodeId> {
    s.prepared_with.dom()
}

spec fn inv_shape(s: PbftRun) -> bool {
    &&& 2 <= s.n <= u64::MAX
    &&& s.nodes.len() == s.n
    &&& s.queues.len() == s.n
    &&& forall|j: int|
        0 <= j < s.n ==> {
            let nd = #[trigger] s.nodes[j];
            &&& nd.node_id == j
            &&& nd.is_primary == (j == 0)
            &&& nd.value == s.value
            &&& nd.seq == 1
            &&& nd.quorum == quorum(s.n)
        }
}

spec fn inv_sets(s: PbftRun) -> bool {
    &&& s.prepare_sent.subset_of(ids(s.n))
    &&& s.prepare_sent.contains(0) == (s.opened == 2)
    &&& committed(s).subset_of(ids(s.n))
    &&& s.commits_before.dom() == committed(s)
}

spec fn inv_msgs(s: PbftRun) -> bool {
    forall|j: int, e: int|
        0 <= j < s.n && 0 <= e < s.queues[j].len() ==> {
            let (f, m) = #[trigger] s.queues[j][e];
            &&& f < s.n
            &&& f != j
            &&& {
                ||| (f, m) == pp_entry(s.value)
                ||| (f, m) == prep_entry(f, s.value) && s.prepare_sent.contains(f)
                ||| (f, m) == commit_entry(f, s.value) && committed(s).contains(f)
            }
        }
}

spec fn inv_tallies(s: PbftRun) -> bool {
    forall|j: int|
        0 <= j < s.n ==> {
            let nd = #[trigger] s.nodes[j];
            &&& forall|k: NodeId| #[trigger] nd.prepares.dom().contains(k) ==> nd.prepares[k] == s.value
                && s.prepare_sent.contains(k)
            &&& s.prepare_sent.contains(j as NodeId) == nd.prepares.dom().contains(j as NodeId)
            &&& j != 0 && !s.prepare_sent.contains(j as NodeId) ==> !nd.prepares.dom().contains(0)
            &&& forall|k: NodeId| #[trigger] nd.commits.dom().contains(k) ==> nd.commits[k] == s.value
                && committed(s).contains(k)
            &&& committed(s).contains(j as NodeId) == nd.prepared
            &&& nd.prepared == nd.commits.dom().contains(j as NodeId)
        }
}

spec fn inv_prepare_delivery(s: PbftRun) -> bool {
    forall|w: NodeId, d: int|
        #![trigger s.prepare_sent.contains(w), s.queues[d]]
        0 <= d < s.n && d != w && s.prepare_sent.contains(w) ==> {
            &&& s.nodes[d].prepares.dom().contains(w) == !s.queues[d].contains(prep_entry(w, s.value))
            &&& forall|e1: int, e2: int|
                0 <= e1 < s.queues[d].len() && 0 <= e2 < s.queues[d].len() && #[trigger] s.queues[d][e1]
                    == prep_entry(w, s.value) && #[trigger] s.queues[d][e2] == prep_entry(w, s.value) ==> e1
                    == e2
        }
}

spec fn inv_pp(s: PbftRun) -> bool {
    forall|d: int|
        1 <= d < s.n ==> {
            &&& forall|e1: int, e2: int|
                0 <= e1 < s.queues[d].len() && 0 <= e2 < s.queues[d].len() && #[trigger] s.queues[d][e1]
                    == pp_entry(s.value) && #[trigger] s.queues[d][e2] == pp_entry(s.value) ==> e1 == e2
            &&& s.prepare_sent.contains(d as NodeId) ==> !(#[trigger] s.queues[d]).contains(pp_entry(s.value))
            &&& !s.prepare_sent.contains(d as NodeId) && s.opened >= 1 ==> exists|e0: int|
                0 <= e0 < s.queues[d].len() && s.queues[d][e0] == pp_entry(s.value) && forall|e: int|
                    0 <= e < s.queues[d].len() && #[trigger] s.queues[d][e] == prep_entry(0, s.value) ==> e
                        > e0
        }
}

/// The primary reads only once its opening is out; before the proposal
/// nothing has been sent.
spec fn inv_open(s: PbftRun) -> bool {
    &&& s.opened <= 2
    &&& s.opened < 2 ==> s.nodes[0].prepares == Map::<NodeId, Value>::empty() && s.nodes[0].commits == Map::<
        NodeId,
        Value,
    >::empty() && !s.nodes[0].prepared && !s.nodes[0].decided
    &&& s.opened == 0 ==> s.prepare_sent == Set::<NodeId>::empty() && committed(s) == Set::<NodeId>::empty()
        && forall|d: int|
        0 <= d < s.n ==> (#[trigger] s.queues[d]).len() == 0
}

spec fn inv_commit_delivery(s: PbftRun) -> bool {
    forall|x: NodeId, d: int|
        #![trigger committed(s).contains(x), s.queues[d]]
        0 <= d < s.n && d != x && committed(s).contains(x) ==> s.nodes[d].commits.dom().contains(x)
            || s.queues[d].contains(commit_entry(x, s.value))
}

/// A commit reaches a node after every prepare its sender held.
spec fn inv_order(s: PbftRun) -> bool {
    &&& forall|d: int, e: int, w: NodeId|
        #![trigger s.queues[d][e], s.prepared_with[s.queues[d][e].0].contains(w)]
        0 <= d < s.n && 0 <= e < s.queues[d].len() && s.queues[d][e].1 is Commit
            && s.prepared_with[s.queues[d][e].0].contains(w) && w != d ==> s.nodes[d].prepares.dom().contains(w)
            || exists|e2: int| 0 <= e2 < e && s.queues[d][e2] == prep_entry(w, s.value)
    &&& forall|d: int, x: NodeId, w: NodeId|
        #![trigger s.nodes[d].commits.dom().contains(x), s.prepared_with[x].contains(w)]
        0 <= d < s.n && s.nodes[d].commits.dom().contains(x) && x != d
            && s.prepared_with[x].contains(w) && w != d ==> s.nodes[d].prepares.dom().contains(w)
}

spec fn inv_committed(s: PbftRun) -> bool {
    let q = quorum(s.n);
    forall|x: NodeId|
        #[trigger] committed(s).contains(x) ==> {
            let pt = s.prepared_with[x];
            let pc = s.commits_before[x];
            &&& pt.subset_of(s.prepare_sent)
            &&& pt.len() >= q
            &&& (x == 0 || pt.contains(0)) ==> pt.contains(x)
            &&& pc.subset_of(committed(s))
            &&& !pc.contains(x)
            &&& pc.len() < q
            &&& pc.len() > 0 ==> pt.len() >= q + 1
            &&& forall|y: NodeId| #[trigger] pc.contains(y) ==> !s.commits_before[y].contains(x)
        }
}

spec fn inv_votes(s: PbftRun) -> bool {
    let q = quorum(s.n);
    forall|d: int|
        0 <= d < s.n ==> {
            let nd = #[trigger] s.nodes[d];
            &&& !nd.prepared ==> nd.prepares.dom().remove(d as NodeId).len() < q
            &&& !nd.decided ==> nd.commits.dom().len() < q || (nd.prepared && nd.commits.dom().remove(
                d as NodeId,
            ) == s.commits_before[d as NodeId])
            &&& nd.decided ==> nd.commits.dom().len() >= q
        }
}

spec fn inv_decisions(s: PbftRun) -> bool {
    &&& forall|id: NodeId| #[trigger] s.decisions.contains_key(id) <==> id < s.n && s.nodes[id as int].decided
    &&& forall|id: NodeId| #[trigger] s.decisions.contains_key(id) ==> s.decisions[id] == s.value
}

/// What holds of every state a run reaches.
#[verifier::opaque]
pub(crate) closed spec fn inv(s: PbftRun) -> bool {
    &&& inv_shape(s)
    &&& inv_sets(s)
    &&& inv_msgs(s)
    &&& inv_tallies(s)
    &&& inv_prepare_delivery(s)
    &&& inv_pp(s)
    &&& inv_commit_delivery(s)
    &&& inv_order(s)
    &&& inv_committed(s)
    &&& inv_votes(s)
    &&& inv_decisions(s)
    &&& inv_open(s)
}

/// A tally in which every vote is for `v` reaches a quorum for `v` exactly
/// when enough senders voted.
proof fn lemma_uniform_reach(m: Map<NodeId, Value>, q: nat, v: Value)
    requires
        m.dom().finite(),
        forall|k: NodeId| #[trigger] m.dom().contains(k) ==> m[k] == v,
    ensures
        reaches_quorum(m, q, v) <==> m.dom().len() >= q,
{
    assert(m.dom().filter(voted_for(m, v)) =~= m.dom());
}

pub(crate) proof fn lemma_init(n: nat, v: Value)
    requires
        2 <= n <= u64::MAX,
    ensures
        inv(pbft_run_init(n, v)),
{
    reveal(inv);
    let s = pbft_run_init(n, v);
    lemma_ids(n);
    assert(inv_shape(s));
    assert(inv_sets(s)) by {
        assert(s.commits_before.dom() =~= committed(s));
    }
    assert(inv_msgs(s));
    assert(inv_tallies(s));
    assert(inv_prepare_delivery(s));
    assert(inv_pp(s));
    assert(inv_commit_delivery(s));
    assert(inv_order(s));
    assert(inv_committed(s));
    assert forall|d: int| 0 <= d < s.n implies {
        let nd = #[trigger] s.nodes[d];
        &&& !nd.prepared ==> nd.prepares.dom().remove(d as NodeId).len() < quorum(s.n)
        &&& !nd.decided ==> nd.commits.dom().len() < quorum(s.n) || (nd.prepared && nd.commits.dom().remove(
            d as NodeId,
        ) == s.commits_before[d as NodeId])
        &&& nd.decided ==> nd.commits.dom().len() >= quorum(s.n)
    } by {
        assert(s.nodes[d].prepares.dom().remove(d as NodeId) =~= Set::empty());
        assert(s.nodes[d].commits.dom() =~= Set::empty());
    }
    assert(inv_votes(s));
    assert(inv_decisions(s));
    assert(inv_open(s));
}

/// What reading a message does to the channels: node `j` loses the message
/// it read, every other node gains what `j` broadcast, if anything.
proof fn lemma_queues_after(s: PbftRun, j: int, node: PbftView, out: Seq<Outgoing<PbftMsg>>, d: Option<Value>)
    requires
        0 <= j < s.queues.len(),
        s.queues.len() <= u64::MAX,
        s.queues[j].len() > 0,
        out.len() == 0 || (out.len() == 1 && out[0] is Broadcast),
    ensures
        ({
            let t = pbft_run_after(s, j, node, out, d);
            &&& t.queues.len() == s.queues.len()
            &&& t.queues[j] == s.queues[j].drop_first()
            &&& forall|k: int|
                0 <= k < s.queues.len() && k != j ==> #[trigger] t.queues[k] == if out.len() == 0 {
                    s.queues[k]
                } else {
                    s.queues[k].push((j as NodeId, out[0]->Broadcast_0))
                }
        }),
{
    reveal_with_fuel(post, 2);
    let rest = s.queues.update(j, s.queues[j].drop_first());
    let t = pbft_run_after(s, j, node, out, d);
    if out.len() == 1 {
        assert(out.drop_first() =~= Seq::<Outgoing<PbftMsg>>::empty());
        let m = out[0]->Broadcast_0;
        assert(out[0] == Outgoing::Broadcast(m));
        let q2 = Seq::new(rest.len(), |k: int| if k != (j as NodeId) { rest[k].push((j as NodeId, m)) } else { rest[k] });
        assert(post(rest, j as NodeId, out) == post(q2, j as NodeId, out.drop_first()));
        assert(t.queues == q2);
    } else {
        assert(t.queues == rest);
    }
}

proof fn lemma_step_preprepare(s: PbftRun, j: int, node: PbftView, out: Seq<Outgoing<PbftMsg>>, d: Option<Value>)
    requires
        j == 0 ==> s.opened == 2,
        inv(s),
        0 <= j < s.n,
        s.queues[j].len() > 0,
        !s.nodes[j].decided,
        pbft_transition(s.nodes[j], s.queues[j][0].0, s.queues[j][0].1, node, out, d),
        s.queues[j][0] == pp_entry(s.value),
    ensures
        inv(pbft_run_after(s, j, node, out, d)),
{
    reveal(inv);
    assert(s.opened >= 1) by {
        if s.opened == 0 {
            assert(s.queues[j].len() == 0);
        }
    }
    let t = pbft_run_after(s, j, node, out, d);
    let n = s.n;
    let v = s.value;
    let jj = j as NodeId;
    let old = s.nodes[j];
    assert(j != 0);
    let pj = prep_entry(jj, v);
    assert(node == PbftView { prepares: old.prepares.insert(jj, v), ..old });
    assert(out == seq![Outgoing::Broadcast(pj.1)]);
    assert(d is None);
    lemma_queues_after(s, j, node, out, d);
    assert(!s.prepare_sent.contains(jj)) by {
        assert(s.queues[j].contains(pp_entry(v)));
    }
    assert(t.prepare_sent == s.prepare_sent.insert(jj));
    assert(t.prepared_with == s.prepared_with);
    assert(t.commits_before == s.commits_before);
    assert(committed(t) == committed(s));
    // no prepare of `j` was on its way
    assert forall|k: int, e: int| 0 <= k < n && 0 <= e < s.queues[k].len() implies #[trigger] s.queues[k][e] != pj by {
        let (f, m) = s.queues[k][e];
    }
    assert forall|k: int| 0 <= k < n && k != j implies #[trigger] t.queues[k] == s.queues[k].push(pj) by {}
    assert(inv_shape(t));
    assert(inv_sets(t));
    assert forall|k: int, e: int| 0 <= k < t.n && 0 <= e < t.queues[k].len() implies {
        let (f, m) = #[trigger] t.queues[k][e];
        &&& f < t.n
        &&& f != k
        &&& {
            ||| (f, m) == pp_entry(t.value)
            ||| (f, m) == prep_entry(f, t.value) && t.prepare_sent.contains(f)
            ||| (f, m) == commit_entry(f, t.value) && committed(t).contains(f)
        }
    } by {
        if k == j {
            assert(t.queues[k][e] == s.queues[k][e + 1]);
        } else if e < s.queues[k].len() {
            assert(t.queues[k][e] == s.queues[k][e]);
        }
    }
    assert(inv_msgs(t));
    assert forall|k: int| 0 <= k < n implies {
        let nd = #[trigger] t.nodes[k];
        &&& forall|x: NodeId| #[trigger] nd.prepares.dom().contains(x) ==> nd.prepares[x] == t.value
            && t.prepare_sent.contains(x)
        &&& t.prepare_sent.contains(k as NodeId) == nd.prepares.dom().contains(k as NodeId)
        &&& k != 0 && !t.prepare_sent.contains(k as NodeId) ==> !nd.prepares.dom().contains(0)
        &&& forall|x: NodeId| #[trigger] nd.commits.dom().contains(x) ==> nd.commits[x] == t.value
            && committed(t).contains(x)
        &&& committed(t).contains(k as NodeId) == nd.prepared
        &&& nd.prepared == nd.commits.dom().contains(k as NodeId)
    } by {
        assert(s.nodes[k] == s.nodes[k]);
    }
    assert(inv_tallies(t));
    assert forall|w: NodeId, k: int|
        #![trigger t.prepare_sent.contains(w), t.queues[k]]
        0 <= k < t.n && k != w && t.prepare_sent.contains(w) implies {
            &&& t.nodes[k].prepares.dom().contains(w) == !t.queues[k].contains(prep_entry(w, t.value))
            &&& forall|e1: int, e2: int|
                0 <= e1 < t.queues[k].len() && 0 <= e2 < t.queues[k].len() && #[trigger] t.queues[k][e1]
                    == prep_entry(w, t.value) && #[trigger] t.queues[k][e2] == prep_entry(w, t.value) ==> e1
                    == e2
        } by {
        let pw = prep_entry(w, v);
        assert(s.nodes[k] == s.nodes[k]);
        if k == j {
            assert(w != jj);
            assert(t.queues[k].contains(pw) == s.queues[k].contains(pw)) by {
                if t.queues[k].contains(pw) {
                    let e = choose|e: int| 0 <= e < t.queues[k].len() && t.queues[k][e] == pw;
                    assert(s.queues[k][e + 1] == pw);
                }
                if s.queues[k].contains(pw) {
                    let e = choose|e: int| 0 <= e < s.queues[k].len() && s.queues[k][e] == pw;
                    assert(e != 0);
                    assert(t.queues[k][e - 1] == pw);
                }
            }
            assert forall|e1: int, e2: int|
                0 <= e1 < t.queues[k].len() && 0 <= e2 < t.queues[k].len() && #[trigger] t.queues[k][e1]
                    == pw && #[trigger] t.queues[k][e2] == pw implies e1 == e2 by {
                assert(s.queues[k][e1 + 1] == pw && s.queues[k][e2 + 1] == pw);
            }
        } else if w == jj {
            assert(!s.nodes[k].prepares.dom().contains(w));
            assert(t.queues[k][s.queues[k].len() as int] == pw);
            assert forall|e1: int, e2: int|
                0 <= e1 < t.queues[k].len() && 0 <= e2 < t.queues[k].len() && #[trigger] t.queues[k][e1]
                    == pw && #[trigger] t.queues[k][e2] == pw implies e1 == e2 by {
                if e1 < s.queues[k].len() {
                    assert(s.queues[k][e1] == pw);
                }
                if e2 < s.queues[k].len() {
                    assert(s.queues[k][e2] == pw);
                }
            }
        } else {
            assert(t.queues[k].contains(pw) == s.queues[k].contains(pw)) by {
                if t.queues[k].contains(pw) {
                    let e = choose|e: int| 0 <= e < t.queues[k].len() && t.queues[k][e] == pw;
                    assert(e < s.queues[k].len());
                    assert(s.queues[k][e] == pw);
                }
                if s.queues[k].contains(pw) {
                    let e = choose|e: int| 0 <= e < s.queues[k].len() && s.queues[k][e] == pw;
                    assert(t.queues[k][e] == pw);
                }
            }
            assert forall|e1: int, e2: int|
                0 <= e1 < t.queues[k].len() && 0 <= e2 < t.queues[k].len() && #[trigger] t.queues[k][e1]
                    == pw && #[trigger] t.queues[k][e2] == pw implies e1 == e2 by {
                assert(e1 < s.queues[k].len() && e2 < s.queues[k].len());
                assert(s.queues[k][e1] == pw && s.queues[k][e2] == pw);
            }
        }
    }
    assert(inv_prepare_delivery(t));
    let ppe = pp_entry(v);
    assert forall|k: int| 1 <= k < t.n implies {
        &&& forall|e1: int, e2: int|
            0 <= e1 < t.queues[k].len() && 0 <= e2 < t.queues[k].len() && #[trigger] t.queues[k][e1]
                == pp_entry(t.value) && #[trigger] t.queues[k][e2] == pp_entry(t.value) ==> e1 == e2
        &&& t.prepare_sent.contains(k as NodeId) ==> !(#[trigger] t.queues[k]).contains(pp_entry(t.value))
        &&& !t.prepare_sent.contains(k as NodeId) && t.opened >= 1 ==> exists|e0: int|
            0 <= e0 < t.queues[k].len() && t.queues[k][e0] == pp_entry(t.value) && forall|e: int|
                0 <= e < t.queues[k].len() && #[trigger] t.queues[k][e] == prep_entry(0, t.value) ==> e
                    > e0
    } by {
        if k == j {
            assert forall|e1: int, e2: int|
                0 <= e1 < t.queues[k].len() && 0 <= e2 < t.queues[k].len() && #[trigger] t.queues[k][e1]
                    == ppe && #[trigger] t.queues[k][e2] == ppe implies e1 == e2 by {
                assert(s.queues[k][e1 + 1] == ppe && s.queues[k][e2 + 1] == ppe);
            }
            if t.queues[k].contains(ppe) {
                let e = choose|e: int| 0 <= e < t.queues[k].len() && t.queues[k][e] == ppe;
                assert(s.queues[k][e + 1] == ppe);
                assert(s.queues[k][0] == ppe);
            }
        } else {
            assert forall|e1: int, e2: int|
                0 <= e1 < t.queues[k].len() && 0 <= e2 < t.queues[k].len() && #[trigger] t.queues[k][e1]
                    == ppe && #[trigger] t.queues[k][e2] == ppe implies e1 == e2 by {
                assert(e1 < s.queues[k].len() && e2 < s.queues[k].len());
                assert(s.queues[k][e1] == ppe && s.queues[k][e2] == ppe);
            }
            if s.prepare_sent.contains(k as NodeId) {
                if t.queues[k].contains(ppe) {
                    let e = choose|e: int| 0 <= e < t.queues[k].len() && t.queues[k][e] == ppe;
                    assert(e < s.queues[k].len());
                    assert(s.queues[k][e] == ppe);
                }
            } else {
                let e0 = choose|e0: int|
                    0 <= e0 < s.queues[k].len() && s.queues[k][e0] == ppe && forall|e: int|
                        0 <= e < s.queues[k].len() && #[trigger] s.queues[k][e] == prep_entry(0, v) ==> e > e0;
                assert(t.queues[k][e0] == ppe);
                assert forall|e: int| 0 <= e < t.queues[k].len() && #[trigger] t.queues[k][e] == prep_entry(0, v) implies e > e0 by {
                    if e < s.queues[k].len() {
                        assert(s.queues[k][e] == prep_entry(0, v));
                    }
                }
            }
        }
    }
    assert(inv_pp(t));
    assert forall|x: NodeId, k: int|
        #![trigger committed(t).contains(x), t.queues[k]]
        0 <= k < t.n && k != x && committed(t).contains(x) implies t.nodes[k].commits.dom().contains(x)
            || t.queues[k].contains(commit_entry(x, t.value)) by {
        let ce = commit_entry(x, v);
        assert(s.nodes[k] == s.nodes[k]);
        if !s.nodes[k].commits.dom().contains(x) {
            assert(s.queues[k].contains(ce));
            let e = choose|e: int| 0 <= e < s.queues[k].len() && s.queues[k][e] == ce;
            if k == j {
                assert(e != 0);
                assert(t.queues[k][e - 1] == ce);
            } else {
                assert(t.queues[k][e] == ce);
            }
        }
    }
    assert(inv_commit_delivery(t));
    assert forall|k: int, e: int, w: NodeId|
        #![trigger t.queues[k][e], t.prepared_with[t.queues[k][e].0].contains(w)]
        0 <= k < t.n && 0 <= e < t.queues[k].len() && t.queues[k][e].1 is Commit
            && t.prepared_with[t.queues[k][e].0].contains(w) && w != k implies t.nodes[k].prepares.dom().contains(w)
            || exists|e2: int| 0 <= e2 < e && t.queues[k][e2] == prep_entry(w, t.value) by {
        let pw = prep_entry(w, v);
        if k == j {
            assert(t.queues[k][e] == s.queues[k][e + 1]);
            if !s.nodes[k].prepares.dom().contains(w) {
                let e2 = choose|e2: int| 0 <= e2 < e + 1 && s.queues[k][e2] == pw;
                assert(e2 != 0);
                assert(t.queues[k][e2 - 1] == pw);
            }
        } else {
            assert(e < s.queues[k].len());
            assert(t.queues[k][e] == s.queues[k][e]);
            if !s.nodes[k].prepares.dom().contains(w) {
                let e2 = choose|e2: int| 0 <= e2 < e && s.queues[k][e2] == pw;
                assert(t.queues[k][e2] == pw);
            }
        }
    }
    assert forall|k: int, x: NodeId, w: NodeId|
        #![trigger t.nodes[k].commits.dom().contains(x), t.prepared_with[x].contains(w)]
        0 <= k < t.n && t.nodes[k].commits.dom().contains(x) && x != k
            && t.prepared_with[x].contains(w) && w != k implies t.nodes[k].prepares.dom().contains(w) by {
        assert(s.nodes[k].commits.dom().contains(x));
    }
    assert(inv_order(t));
    assert(inv_committed(t)) by {
        assert forall|x: NodeId| #[trigger] committed(t).contains(x) implies s.prepared_with[x].subset_of(t.prepare_sent) by {
            assert(committed(s).contains(x));
        }
    }
    assert forall|k: int| 0 <= k < t.n implies {
        let nd = #[trigger] t.nodes[k];
        &&& !nd.prepared ==> nd.prepares.dom().remove(k as NodeId).len() < quorum(t.n)
        &&& !nd.decided ==> nd.commits.dom().len() < quorum(t.n) || (nd.prepared && nd.commits.dom().remove(
            k as NodeId,
        ) == t.commits_before[k as NodeId])
        &&& nd.decided ==> nd.commits.dom().len() >= quorum(t.n)
    } by {
        assert(s.nodes[k] == s.nodes[k]);
        if k == j {
            assert(node.prepares.dom().remove(jj) =~= old.prepares.dom().remove(jj));
        }
    }
    assert(inv_votes(t));
    assert forall|id: NodeId| #[trigger] t.decisions.contains_key(id) <==> id < t.n && t.nodes[id as int].decided by {
        if id < t.n {
            assert(s.nodes[id as int] == s.nodes[id as int]);
        }
    }
    assert(inv_decisions(t));
    assert(inv_open(t));
}

/// The facts of the invariant about node `j`'s channel survive its losing the
/// message at its head, when that message is not a proposal.
proof fn lemma_reader_channel(s: PbftRun, t: PbftRun, j: int)
    requires
        inv(s),
        0 <= j < s.n,
        s.queues[j].len() > 0,
        !(s.queues[j][0].1 is PrePrepare),
        t.queues[j] == s.queues[j].drop_first(),
        t.prepare_sent == s.prepare_sent,
    ensures
        forall|w: NodeId|
            s.queues[j][0] != prep_entry(w, s.value) ==> (#[trigger] t.queues[j].contains(prep_entry(w, s.value))
                == s.queues[j].contains(prep_entry(w, s.value))),
        forall|w: NodeId|
            s.queues[j][0] == prep_entry(w, s.value) && s.prepare_sent.contains(w) && w != j
                ==> !(#[trigger] t.queues[j].contains(prep_entry(w, s.value))),
        forall|w: NodeId, e1: int, e2: int|
            #![trigger t.queues[j][e1], t.queues[j][e2], s.prepare_sent.contains(w)]
            0 <= e1 < t.queues[j].len() && 0 <= e2 < t.queues[j].len() && t.queues[j][e1]
                == prep_entry(w, s.value) && t.queues[j][e2] == prep_entry(w, s.value)
                && s.prepare_sent.contains(w) && w != j ==> e1 == e2,
        j >= 1 ==> {
            &&& forall|e1: int, e2: int|
                0 <= e1 < t.queues[j].len() && 0 <= e2 < t.queues[j].len() && #[trigger] t.queues[j][e1]
                    == pp_entry(s.value) && #[trigger] t.queues[j][e2] == pp_entry(s.value) ==> e1 == e2
            &&& s.prepare_sent.contains(j as NodeId) ==> !t.queues[j].contains(pp_entry(s.value))
            &&& !s.prepare_sent.contains(j as NodeId) && s.opened >= 1 ==> exists|e0: int|
                0 <= e0 < t.queues[j].len() && t.queues[j][e0] == pp_entry(s.value) && forall|e: int|
                    0 <= e < t.queues[j].len() && #[trigger] t.queues[j][e] == prep_entry(0, s.value) ==> e
                        > e0
        },
        forall|x: NodeId|
            s.queues[j].contains(commit_entry(x, s.value)) && s.queues[j][0] != commit_entry(x, s.value)
                ==> #[trigger] t.queues[j].contains(commit_entry(x, s.value)),
        forall|e: int, w: NodeId|
            #![trigger t.queues[j][e], s.prepared_with[t.queues[j][e].0].contains(w)]
            0 <= e < t.queues[j].len() && t.queues[j][e].1 is Commit
                && s.prepared_with[t.queues[j][e].0].contains(w) && w != j ==> s.nodes[j].prepares.dom().contains(w)
                || s.queues[j][0] == prep_entry(w, s.value)
                || exists|e2: int| 0 <= e2 < e && t.queues[j][e2] == prep_entry(w, s.value),
{
    reveal(inv);
    let v = s.value;
    assert forall|w: NodeId| s.queues[j][0] != prep_entry(w, v) implies (#[trigger] t.queues[j].contains(prep_entry(w, v))
        == s.queues[j].contains(prep_entry(w, v))) by {
        let pw = prep_entry(w, v);
        if t.queues[j].contains(pw) {
            let e = choose|e: int| 0 <= e < t.queues[j].len() && t.queues[j][e] == pw;
            assert(s.queues[j][e + 1] == pw);
        }
        if s.queues[j].contains(pw) {
            let e = choose|e: int| 0 <= e < s.queues[j].len() && s.queues[j][e] == pw;
            assert(e != 0);
            assert(t.queues[j][e - 1] == pw);
        }
    }
    assert forall|w: NodeId|
        s.queues[j][0] == prep_entry(w, v) && s.prepare_sent.contains(w) && w != j
            implies !(#[trigger] t.queues[j].contains(prep_entry(w, v))) by {
        let pw = prep_entry(w, v);
        if t.queues[j].contains(pw) {
            let e = choose|e: int| 0 <= e < t.queues[j].len() && t.queues[j][e] == pw;
            assert(s.queues[j][e + 1] == pw);
            assert(s.queues[j][0] == pw);
            assert(s.queues[j] == s.queues[j]);
        }
    }
    assert forall|w: NodeId, e1: int, e2: int|
        #![trigger t.queues[j][e1], t.queues[j][e2], s.prepare_sent.contains(w)]
        0 <= e1 < t.queues[j].len() && 0 <= e2 < t.queues[j].len() && t.queues[j][e1]
            == prep_entry(w, v) && t.queues[j][e2] == prep_entry(w, v)
            && s.prepare_sent.contains(w) && w != j implies e1 == e2 by {
        assert(s.queues[j][e1 + 1] == prep_entry(w, v) && s.queues[j][e2 + 1] == prep_entry(w, v));
    }
    if j >= 1 {
        let ppe = pp_entry(v);
        assert forall|e1: int, e2: int|
            0 <= e1 < t.queues[j].len() && 0 <= e2 < t.queues[j].len() && #[trigger] t.queues[j][e1]
                == ppe && #[trigger] t.queues[j][e2] == ppe implies e1 == e2 by {
            assert(s.queues[j][e1 + 1] == ppe && s.queues[j][e2 + 1] == ppe);
        }
        if t.queues[j].contains(ppe) {
            let e = choose|e: int| 0 <= e < t.queues[j].len() && t.queues[j][e] == ppe;
            assert(s.queues[j][e + 1] == ppe);
        }
        if !s.prepare_sent.contains(j as NodeId) {
            let e0 = choose|e0: int|
                0 <= e0 < s.queues[j].len() && s.queues[j][e0] == ppe && forall|e: int|
                    0 <= e < s.queues[j].len() && #[trigger] s.queues[j][e] == prep_entry(0, v) ==> e > e0;
            assert(e0 != 0);
            assert(t.queues[j][e0 - 1] == ppe);
            assert forall|e: int| 0 <= e < t.queues[j].len() && #[trigger] t.queues[j][e] == prep_entry(0, v) implies e > e0 - 1 by {
                assert(s.queues[j][e + 1] == prep_entry(0, v));
            }
        }
    }
    assert forall|x: NodeId| s.queues[j].contains(commit_entry(x, v)) && s.queues[j][0] != commit_entry(x, v) implies #[trigger] t.queues[j].contains(commit_entry(x, v)) by {
        let e = choose|e: int| 0 <= e < s.queues[j].len() && s.queues[j][e] == commit_entry(x, v);
        assert(e != 0);
        assert(t.queues[j][e - 1] == commit_entry(x, v));
    }
    assert forall|e: int, w: NodeId|
        0 <= e < t.queues[j].len() && t.queues[j][e].1 is Commit
            && s.prepared_with[t.queues[j][e].0].contains(w) && w != j implies s.nodes[j].prepares.dom().contains(w)
            || s.queues[j][0] == prep_entry(w, v)
            || exists|e2: int| 0 <= e2 < e && t.queues[j][e2] == prep_entry(w, v) by {
        assert(t.queues[j][e] == s.queues[j][e + 1]);
        if !s.nodes[j].prepares.dom().contains(w) && s.queues[j][0] != prep_entry(w, v) {
            let e2 = choose|e2: int| 0 <= e2 < e + 1 && s.queues[j][e2] == prep_entry(w, v);
            assert(e2 != 0);
            assert(t.queues[j][e2 - 1] == prep_entry(w, v));
        }
    }
}

proof fn lemma_step_commit(
    s: PbftRun,
    j: int,
    x: NodeId,
    node: PbftView,
    out: Seq<Outgoing<PbftMsg>>,
    d: Option<Value>,
)
    requires
        j == 0 ==> s.opened == 2,
        inv(s),
        0 <= j < s.n,
        s.queues[j].len() > 0,
        !s.nodes[j].decided,
        pbft_transition(s.nodes[j], s.queues[j][0].0, s.queues[j][0].1, node, out, d),
        s.queues[j][0] == commit_entry(x, s.value),
    ensures
        inv(pbft_run_after(s, j, node, out, d)),
{
    reveal(inv);
    assert(s.opened >= 1) by {
        if s.opened == 0 {
            assert(s.queues[j].len() == 0);
        }
    }
    let t = pbft_run_after(s, j, node, out, d);
    let n = s.n;
    let v = s.value;
    let q = quorum(n);
    let jj = j as NodeId;
    let old = s.nodes[j];
    assert(x < n && x != j && committed(s).contains(x));
    let commits = old.commits.insert(x, v);
    assert(out.len() == 0);
    assert(node.prepares == old.prepares && node.prepared == old.prepared);
    assert(node.commits == commits);
    lemma_queues_after(s, j, node, out, d);
    lemma_reader_channel(s, t, j);
    assert(t.prepare_sent == s.prepare_sent);
    assert(t.prepared_with == s.prepared_with);
    assert(t.commits_before == s.commits_before);
    assert(committed(t) == committed(s));
    lemma_within(committed(s), n);
    lemma_within(old.commits.dom(), n);
    assert(commits.dom().subset_of(committed(s)));
    lemma_within(commits.dom(), n);
    lemma_uniform_reach(commits, q, v);
    assert(node.decided == (commits.dom().len() >= q));
    assert forall|k: int| 0 <= k < n && k != j implies #[trigger] t.queues[k] == s.queues[k] by {}
    assert(inv_shape(t));
    assert(inv_sets(t));
    assert forall|k: int, e: int| 0 <= k < t.n && 0 <= e < t.queues[k].len() implies {
        let (f, m) = #[trigger] t.queues[k][e];
        &&& f < t.n
        &&& f != k
        &&& {
            ||| (f, m) == pp_entry(t.value)
            ||| (f, m) == prep_entry(f, t.value) && t.prepare_sent.contains(f)
            ||| (f, m) == commit_entry(f, t.value) && committed(t).contains(f)
        }
    } by {
        if k == j {
            assert(t.queues[k][e] == s.queues[k][e + 1]);
        } else {
            assert(t.queues[k][e] == s.queues[k][e]);
        }
    }
    assert(inv_msgs(t));
    assert forall|k: int| 0 <= k < n implies {
        let nd = #[trigger] t.nodes[k];
        &&& forall|y: NodeId| #[trigger] nd.prepares.dom().contains(y) ==> nd.prepares[y] == t.value
            && t.prepare_sent.contains(y)
        &&& t.prepare_sent.contains(k as NodeId) == nd.prepares.dom().contains(k as NodeId)
        &&& k != 0 && !t.prepare_sent.contains(k as NodeId) ==> !nd.prepares.dom().contains(0)
        &&& forall|y: NodeId| #[trigger] nd.commits.dom().contains(y) ==> nd.commits[y] == t.value
            && committed(t).contains(y)
        &&& committed(t).contains(k as NodeId) == nd.prepared
        &&& nd.prepared == nd.commits.dom().contains(k as NodeId)
    } by {
        assert(s.nodes[k] == s.nodes[k]);
    }
    assert(inv_tallies(t));
    assert forall|w: NodeId, k: int|
        #![trigger t.prepare_sent.contains(w), t.queues[k]]
        0 <= k < t.n && k != w && t.prepare_sent.contains(w) implies {
            &&& t.nodes[k].prepares.dom().contains(w) == !t.queues[k].contains(prep_entry(w, t.value))
            &&& forall|e1: int, e2: int|
                0 <= e1 < t.queues[k].len() && 0 <= e2 < t.queues[k].len() && #[trigger] t.queues[k][e1]
                    == prep_entry(w, t.value) && #[trigger] t.queues[k][e2] == prep_entry(w, t.value) ==> e1
                    == e2
        } by {
        assert(s.nodes[k] == s.nodes[k]);
        assert(s.queues[k] == s.queues[k]);
        if k == j {
            assert(s.queues[j][0] != prep_entry(w, v));
            assert(t.queues[j].contains(prep_entry(w, v)) == s.queues[j].contains(prep_entry(w, v)));
            assert forall|e1: int, e2: int|
                0 <= e1 < t.queues[k].len() && 0 <= e2 < t.queues[k].len() && #[trigger] t.queues[k][e1]
                    == prep_entry(w, t.value) && #[trigger] t.queues[k][e2] == prep_entry(w, t.value) implies e1
                    == e2 by {
                assert(s.prepare_sent.contains(w));
            }
        }
    }
    assert(inv_prepare_delivery(t));
    assert forall|k: int| 1 <= k < t.n implies {
        &&& forall|e1: int, e2: int|
            0 <= e1 < t.queues[k].len() && 0 <= e2 < t.queues[k].len() && #[trigger] t.queues[k][e1]
                == pp_entry(t.value) && #[trigger] t.queues[k][e2] == pp_entry(t.value) ==> e1 == e2
        &&& t.prepare_sent.contains(k as NodeId) ==> !(#[trigger] t.queues[k]).contains(pp_entry(t.value))
        &&& !t.prepare_sent.contains(k as NodeId) && t.opened >= 1 ==> exists|e0: int|
            0 <= e0 < t.queues[k].len() && t.queues[k][e0] == pp_entry(t.value) && forall|e: int|
                0 <= e < t.queues[k].len() && #[trigger] t.queues[k][e] == prep_entry(0, t.value) ==> e
                    > e0
    } by {
        assert(s.queues[k] == s.queues[k]);
        if k == j {
            assert(t.opened == s.opened && t.value == s.value);
            if !s.prepare_sent.contains(j as NodeId) {
                let e0 = choose|e0: int|
                    0 <= e0 < t.queues[j].len() && t.queues[j][e0] == pp_entry(s.value) && forall|e: int|
                        0 <= e < t.queues[j].len() && #[trigger] t.queues[j][e] == prep_entry(0, s.value) ==> e
                            > e0;
                assert(t.queues[k][e0] == pp_entry(t.value));
            }
        }
    }
    assert(inv_pp(t));
    assert forall|y: NodeId, k: int|
        #![trigger committed(t).contains(y), t.queues[k]]
        0 <= k < t.n && k != y && committed(t).contains(y) implies t.nodes[k].commits.dom().contains(y)
            || t.queues[k].contains(commit_entry(y, t.value)) by {
        assert(s.nodes[k] == s.nodes[k]);
        assert(s.queues[k] == s.queues[k]);
        if k == j && y != x && !old.commits.dom().contains(y) {
            assert(s.queues[j].contains(commit_entry(y, v)));
            assert(t.queues[j].contains(commit_entry(y, v)));
        }
    }
    assert(inv_commit_delivery(t));
    assert forall|k: int, e: int, w: NodeId|
        #![trigger t.queues[k][e], t.prepared_with[t.queues[k][e].0].contains(w)]
        0 <= k < t.n && 0 <= e < t.queues[k].len() && t.queues[k][e].1 is Commit
            && t.prepared_with[t.queues[k][e].0].contains(w) && w != k implies t.nodes[k].prepares.dom().contains(w)
            || exists|e2: int| 0 <= e2 < e && t.queues[k][e2] == prep_entry(w, t.value) by {
        if k == j {
            assert(s.queues[j][0] != prep_entry(w, v));
        } else {
            assert(t.queues[k][e] == s.queues[k][e]);
        }
    }
    assert forall|k: int, y: NodeId, w: NodeId|
        #![trigger t.nodes[k].commits.dom().contains(y), t.prepared_with[y].contains(w)]
        0 <= k < t.n && t.nodes[k].commits.dom().contains(y) && y != k
            && t.prepared_with[y].contains(w) && w != k implies t.nodes[k].prepares.dom().contains(w) by {
        if k == j && y == x && !old.commits.dom().contains(x) {
            assert(s.queues[j][0].1 is Commit);
            assert(s.prepared_with[s.queues[j][0].0].contains(w));
        } else {
            assert(s.nodes[k].commits.dom().contains(y));
        }
    }
    assert(inv_order(t));
    assert(inv_committed(t));
    assert forall|k: int| 0 <= k < t.n implies {
        let nd = #[trigger] t.nodes[k];
        &&& !nd.prepared ==> nd.prepares.dom().remove(k as NodeId).len() < quorum(t.n)
        &&& !nd.decided ==> nd.commits.dom().len() < quorum(t.n) || (nd.prepared && nd.commits.dom().remove(
            k as NodeId,
        ) == t.commits_before[k as NodeId])
        &&& nd.decided ==> nd.commits.dom().len() >= quorum(t.n)
    } by {
        assert(s.nodes[k] == s.nodes[k]);
    }
    assert(inv_votes(t));
    assert forall|id: NodeId| #[trigger] t.decisions.contains_key(id) <==> id < t.n && t.nodes[id as int].decided by {
        if id < t.n {
            assert(s.nodes[id as int] == s.nodes[id as int]);
        }
    }
    assert(inv_decisions(t));
    assert(inv_open(t));
}

/// What node `j` knows of a prepare from `w` at the head of its channel.
proof fn lemma_prepare_head(s: PbftRun, j: int, w: NodeId)
    requires
        inv(s),
        0 <= j < s.n,
        s.queues[j].len() > 0,
        s.queues[j][0] == prep_entry(w, s.value),
    ensures
        w < s.n,
        w != j,
        s.prepare_sent.contains(w),
        !s.nodes[j].prepares.dom().contains(w),
        w == 0 && j != 0 ==> s.prepare_sent.contains(j as NodeId),
        s.nodes[j].prepares.insert(w, s.value).dom().subset_of(s.prepare_sent),
        s.nodes[j].prepares.insert(w, s.value).dom().finite(),
        s.nodes[j].prepares.dom().finite(),
        forall|k: NodeId| #[trigger] s.nodes[j].prepares.insert(w, s.value).dom().contains(k)
            ==> s.nodes[j].prepares.insert(w, s.value)[k] == s.value,
{
    reveal(inv);
    let v = s.value;
    let old = s.nodes[j];
    assert(s.queues[j][0] == s.queues[j][0]);
    assert(s.queues[j].contains(prep_entry(w, v)));
    if w == 0 && j != 0 && !s.prepare_sent.contains(j as NodeId) {
        let e0 = choose|e0: int|
            0 <= e0 < s.queues[j].len() && s.queues[j][e0] == pp_entry(v) && forall|e: int|
                0 <= e < s.queues[j].len() && #[trigger] s.queues[j][e] == prep_entry(0, v) ==> e > e0;
        assert(s.queues[j][0] == prep_entry(0, v));
    }
    let p2 = old.prepares.insert(w, v);
    assert(p2.dom().subset_of(s.prepare_sent));
    lemma_within(s.prepare_sent, s.n);
    vstd::set_lib::lemma_len_subset(p2.dom(), s.prepare_sent);
    vstd::set_lib::lemma_len_subset(old.prepares.dom(), s.prepare_sent);
}

/// The prepares and commits that node `j` holds when it broadcasts its
/// commit, on reading a prepare from `w`, meet what the invariant asks of a
/// committed node.
proof fn lemma_fire_committed(s: PbftRun, j: int, w: NodeId)
    requires
        j == 0 ==> s.opened == 2,
        inv(s),
        0 <= j < s.n,
        s.queues[j].len() > 0,
        s.queues[j][0] == prep_entry(w, s.value),
        !s.nodes[j].decided,
        !s.nodes[j].prepared,
        reaches_quorum(s.nodes[j].prepares.insert(w, s.value), quorum(s.n), s.value),
    ensures
        ({
            let q = quorum(s.n);
            let pt = s.nodes[j].prepares.insert(w, s.value).dom();
            let pc = s.nodes[j].commits.dom();
            let jj = j as NodeId;
            &&& pt.subset_of(s.prepare_sent)
            &&& pt.len() >= q
            &&& (jj == 0 || pt.contains(0)) ==> pt.contains(jj)
            &&& pc.subset_of(committed(s))
            &&& !pc.contains(jj)
            &&& pc.len() < q
            &&& pc.len() > 0 ==> pt.len() >= q + 1
            &&& forall|y: NodeId| #[trigger] pc.contains(y) ==> !s.commits_before[y].contains(jj)
            &&& !committed(s).contains(jj)
        }),
{
    reveal(inv);
    let n = s.n;
    let v = s.value;
    let q = quorum(n);
    let jj = j as NodeId;
    let old = s.nodes[j];
    let p2 = old.prepares.insert(w, v);
    let pt = p2.dom();
    let pc = old.commits.dom();
    lemma_prepare_head(s, j, w);
    lemma_uniform_reach(p2, q, v);
    assert(!committed(s).contains(jj));
    assert(!pc.contains(jj));
    lemma_within(committed(s), n);
    lemma_len_mono(pc, committed(s), n);
    if jj == 0 {
        assert(s.prepare_sent.contains(0));
        assert(old.prepares.dom().contains(jj));
    }
    if pt.contains(0) && jj != 0 {
        assert(s.prepare_sent.contains(jj));
    }
    if pc.len() > 0 {
        let y = pc.choose();
        assert(pc.contains(y));
        assert(committed(s).contains(y));
        let py = s.prepared_with[y];
        assert(py.subset_of(s.prepare_sent));
        assert(py.remove(jj).subset_of(old.prepares.dom().remove(jj))) by {
            assert forall|u: NodeId| py.remove(jj).contains(u) implies old.prepares.dom().remove(jj).contains(u) by {
                assert(old.commits.dom().contains(y) && y != j && py.contains(u) && u != j);
            }
        }
        lemma_within(s.prepare_sent, n);
        lemma_len_mono(py.remove(jj), old.prepares.dom().remove(jj), n);
        lemma_len_mono(py, s.prepare_sent, n);
        assert(py.contains(jj)) by {
            if !py.contains(jj) {
                assert(py.remove(jj) =~= py);
            }
        }
        assert(s.prepare_sent.contains(jj));
        assert(old.prepares.dom().contains(jj));
        assert(py.subset_of(old.prepares.dom())) by {
            assert forall|u: NodeId| py.contains(u) implies old.prepares.dom().contains(u) by {
                if u != jj {
                    assert(py.remove(jj).contains(u));
                }
            }
        }
        lemma_len_mono(py, old.prepares.dom(), n);
        assert(pt =~= old.prepares.dom().insert(w));
    }
}

/// Node `j` reads a prepare from `w` that does not make it broadcast a commit.
#[verifier::spinoff_prover]
proof fn lemma_step_prepare_quiet(
    s: PbftRun,
    j: int,
    w: NodeId,
    node: PbftView,
    out: Seq<Outgoing<PbftMsg>>,
    d: Option<Value>,
)
    requires
        j == 0 ==> s.opened == 2,
        inv(s),
        0 <= j < s.n,
        s.queues[j].len() > 0,
        !s.nodes[j].decided,
        pbft_transition(s.nodes[j], s.queues[j][0].0, s.queues[j][0].1, node, out, d),
        s.queues[j][0] == prep_entry(w, s.value),
        !node.prepared || s.nodes[j].prepared,
    ensures
        inv(pbft_run_after(s, j, node, out, d)),
{
    reveal(inv);
    assert(s.opened >= 1) by {
        if s.opened == 0 {
            assert(s.queues[j].len() == 0);
        }
    }
    let t = pbft_run_after(s, j, node, out, d);
    let n = s.n;
    let v = s.value;
    let q = quorum(n);
    let jj = j as NodeId;
    let old = s.nodes[j];
    lemma_prepare_head(s, j, w);
    let p2 = old.prepares.insert(w, v);
    assert(node == PbftView { prepares: p2, ..old });
    assert(out.len() == 0 && d is None);
    lemma_queues_after(s, j, node, out, d);
    lemma_reader_channel(s, t, j);
    assert(t.n == s.n && t.opened == s.opened && t.value == s.value);
    assert(t.prepare_sent == s.prepare_sent);
    assert(t.prepared_with == s.prepared_with);
    assert(t.commits_before == s.commits_before);
    assert(committed(t) == committed(s));
    lemma_uniform_reach(p2, q, v);
    assert forall|k: int| 0 <= k < n && k != j implies #[trigger] t.queues[k] == s.queues[k] by {}
    assert(inv_shape(t));
    assert(inv_sets(t));
    assert forall|k: int, e: int| 0 <= k < t.n && 0 <= e < t.queues[k].len() implies {
        let (f, m) = #[trigger] t.queues[k][e];
        &&& f < t.n
        &&& f != k
        &&& {
            ||| (f, m) == pp_entry(t.value)
            ||| (f, m) == prep_entry(f, t.value) && t.prepare_sent.contains(f)
            ||| (f, m) == commit_entry(f, t.value) && committed(t).contains(f)
        }
    } by {
        if k == j {
            assert(t.queues[k][e] == s.queues[k][e + 1]);
        } else {
            assert(t.queues[k][e] == s.queues[k][e]);
        }
    }
    assert(inv_msgs(t));
    assert forall|k: int| 0 <= k < n implies {
        let nd = #[trigger] t.nodes[k];
        &&& forall|y: NodeId| #[trigger] nd.prepares.dom().contains(y) ==> nd.prepares[y] == t.value
            && t.prepare_sent.contains(y)
        &&& t.prepare_sent.contains(k as NodeId) == nd.prepares.dom().contains(k as NodeId)
        &&& k != 0 && !t.prepare_sent.contains(k as NodeId) ==> !nd.prepares.dom().contains(0)
        &&& forall|y: NodeId| #[trigger] nd.commits.dom().contains(y) ==> nd.commits[y] == t.value
            && committed(t).contains(y)
        &&& committed(t).contains(k as NodeId) == nd.prepared
        &&& nd.prepared == nd.commits.dom().contains(k as NodeId)
    } by {
        assert(s.nodes[k] == s.nodes[k]);
    }
    assert(inv_tallies(t));
    assert forall|u: NodeId, k: int|
        #![trigger t.prepare_sent.contains(u), t.queues[k]]
        0 <= k < t.n && k != u && t.prepare_sent.contains(u) implies {
            &&& t.nodes[k].prepares.dom().contains(u) == !t.queues[k].contains(prep_entry(u, t.value))
            &&& forall|e1: int, e2: int|
                0 <= e1 < t.queues[k].len() && 0 <= e2 < t.queues[k].len() && #[trigger] t.queues[k][e1]
                    == prep_entry(u, t.value) && #[trigger] t.queues[k][e2] == prep_entry(u, t.value) ==> e1
                    == e2
        } by {
        assert(s.nodes[k] == s.nodes[k]);
        assert(s.queues[k] == s.queues[k]);
        if k == j {
            if u == w {
                assert(!t.queues[j].contains(prep_entry(w, v)));
            } else {
                assert(s.queues[j][0] != prep_entry(u, v));
                assert(t.queues[j].contains(prep_entry(u, v)) == s.queues[j].contains(prep_entry(u, v)));
            }
            assert forall|e1: int, e2: int|
                0 <= e1 < t.queues[k].len() && 0 <= e2 < t.queues[k].len() && #[trigger] t.queues[k][e1]
                    == prep_entry(u, t.value) && #[trigger] t.queues[k][e2] == prep_entry(u, t.value) implies e1
                    == e2 by {
                assert(s.prepare_sent.contains(u));
            }
        }
    }
    assert(inv_prepare_delivery(t));
    assert forall|k: int| 1 <= k < t.n implies {
        &&& forall|e1: int, e2: int|
            0 <= e1 < t.queues[k].len() && 0 <= e2 < t.queues[k].len() && #[trigger] t.queues[k][e1]
                == pp_entry(t.value) && #[trigger] t.queues[k][e2] == pp_entry(t.value) ==> e1 == e2
        &&& t.prepare_sent.contains(k as NodeId) ==> !(#[trigger] t.queues[k]).contains(pp_entry(t.value))
        &&& !t.prepare_sent.contains(k as NodeId) && t.opened >= 1 ==> exists|e0: int|
            0 <= e0 < t.queues[k].len() && t.queues[k][e0] == pp_entry(t.value) && forall|e: int|
                0 <= e < t.queues[k].len() && #[trigger] t.queues[k][e] == prep_entry(0, t.value) ==> e
                    > e0
    } by {
        assert(s.queues[k] == s.queues[k]);
        if k == j {
            assert(t.opened == s.opened && t.value == s.value);
            if !s.prepare_sent.contains(j as NodeId) {
                let e0 = choose|e0: int|
                    0 <= e0 < t.queues[j].len() && t.queues[j][e0] == pp_entry(s.value) && forall|e: int|
                        0 <= e < t.queues[j].len() && #[trigger] t.queues[j][e] == prep_entry(0, s.value) ==> e
                            > e0;
                assert(t.queues[k][e0] == pp_entry(t.value));
            }
        }
    }
    assert(inv_pp(t));
    assert forall|y: NodeId, k: int|
        #![trigger committed(t).contains(y), t.queues[k]]
        0 <= k < t.n && k != y && committed(t).contains(y) implies t.nodes[k].commits.dom().contains(y)
            || t.queues[k].contains(commit_entry(y, t.value)) by {
        assert(s.nodes[k] == s.nodes[k]);
        assert(s.queues[k] == s.queues[k]);
        if k == j && !old.commits.dom().contains(y) {
            assert(s.queues[j].contains(commit_entry(y, v)));
            assert(t.queues[j].contains(commit_entry(y, v)));
        }
    }
    assert(inv_commit_delivery(t));
    assert forall|k: int, e: int, u: NodeId|
        #![trigger t.queues[k][e], t.prepared_with[t.queues[k][e].0].contains(u)]
        0 <= k < t.n && 0 <= e < t.queues[k].len() && t.queues[k][e].1 is Commit
            && t.prepared_with[t.queues[k][e].0].contains(u) && u != k implies t.nodes[k].prepares.dom().contains(u)
            || exists|e2: int| 0 <= e2 < e && t.queues[k][e2] == prep_entry(u, t.value) by {
        if k != j {
            assert(t.queues[k][e] == s.queues[k][e]);
        }
    }
    assert forall|k: int, y: NodeId, u: NodeId|
        #![trigger t.nodes[k].commits.dom().contains(y), t.prepared_with[y].contains(u)]
        0 <= k < t.n && t.nodes[k].commits.dom().contains(y) && y != k
            && t.prepared_with[y].contains(u) && u != k implies t.nodes[k].prepares.dom().contains(u) by {
        assert(s.nodes[k].commits.dom().contains(y));
    }
    assert(inv_order(t));
    assert(inv_committed(t));
    assert forall|k: int| 0 <= k < t.n implies {
        let nd = #[trigger] t.nodes[k];
        &&& !nd.prepared ==> nd.prepares.dom().remove(k as NodeId).len() < quorum(t.n)
        &&& !nd.decided ==> nd.commits.dom().len() < quorum(t.n) || (nd.prepared && nd.commits.dom().remove(
            k as NodeId,
        ) == t.commits_before[k as NodeId])
        &&& nd.decided ==> nd.commits.dom().len() >= quorum(t.n)
    } by {
        assert(s.nodes[k] == s.nodes[k]);
        if k == j && !old.prepared {
            vstd::set_lib::lemma_len_subset(p2.dom().remove(jj), p2.dom());
        }
    }
    assert(inv_votes(t));
    assert forall|id: NodeId| #[trigger] t.decisions.contains_key(id) <==> id < t.n && t.nodes[id as int].decided by {
        if id < t.n {
            assert(s.nodes[id as int] == s.nodes[id as int]);
        }
    }
    assert(inv_decisions(t));
    assert(inv_open(t));
}

/// Node `j` reads a prepare from `w` that makes it broadcast its commit.
proof fn lemma_step_prepare_fire(
    s: PbftRun,
    j: int,
    w: NodeId,
    node: PbftView,
    out: Seq<Outgoing<PbftMsg>>,
    d: Option<Value>,
)
    requires
        j == 0 ==> s.opened == 2,
        inv(s),
        0 <= j < s.n,
        s.queues[j].len() > 0,
        !s.nodes[j].decided,
        pbft_transition(s.nodes[j], s.queues[j][0].0, s.queues[j][0].1, node, out, d),
        s.queues[j][0] == prep_entry(w, s.value),
        node.prepared,
        !s.nodes[j].prepared,
    ensures
        inv(pbft_run_after(s, j, node, out, d)),
{
    reveal(inv);
    assert(s.opened >= 1) by {
        if s.opened == 0 {
            assert(s.queues[j].len() == 0);
        }
    }
    let t = pbft_run_after(s, j, node, out, d);
    let n = s.n;
    let v = s.value;
    let q = quorum(n);
    let jj = j as NodeId;
    let old = s.nodes[j];
    lemma_prepare_head(s, j, w);
    let p2 = old.prepares.insert(w, v);
    let c2 = old.commits.insert(jj, v);
    let ce = commit_entry(jj, v);
    assert(reaches_quorum(p2, q, v));
    assert(node == PbftView { prepares: p2, commits: c2, prepared: true, ..old });
    assert(out == seq![Outgoing::Broadcast(ce.1)]);
    assert(d is None);
    lemma_queues_after(s, j, node, out, d);
    lemma_reader_channel(s, t, j);
    lemma_fire_committed(s, j, w);
    assert(t.prepare_sent == s.prepare_sent);
    assert(t.prepared_with == s.prepared_with.insert(jj, p2.dom()));
    assert(t.commits_before == s.commits_before.insert(jj, old.commits.dom()));
    assert(committed(t) =~= committed(s).insert(jj));
    assert(!committed(s).contains(jj));
    assert(!old.commits.dom().contains(jj));
    assert forall|k: int| 0 <= k < n && k != j implies #[trigger] t.queues[k] == s.queues[k].push(ce) by {}
    assert(inv_shape(t));
    assert(inv_sets(t)) by {
        assert(t.commits_before.dom() =~= committed(t));
    }
    assert forall|k: int, e: int| 0 <= k < t.n && 0 <= e < t.queues[k].len() implies {
        let (f, m) = #[trigger] t.queues[k][e];
        &&& f < t.n
        &&& f != k
        &&& {
            ||| (f, m) == pp_entry(t.value)
            ||| (f, m) == prep_entry(f, t.value) && t.prepare_sent.contains(f)
            ||| (f, m) == commit_entry(f, t.value) && committed(t).contains(f)
        }
    } by {
        if k == j {
            assert(t.queues[k][e] == s.queues[k][e + 1]);
        } else if e < s.queues[k].len() {
            assert(t.queues[k][e] == s.queues[k][e]);
        } else {
            assert(t.queues[k][e] == ce);
        }
    }
    assert(inv_msgs(t));
    assert forall|k: int| 0 <= k < n implies {
        let nd = #[trigger] t.nodes[k];
        &&& forall|y: NodeId| #[trigger] nd.prepares.dom().contains(y) ==> nd.prepares[y] == t.value
            && t.prepare_sent.contains(y)
        &&& t.prepare_sent.contains(k as NodeId) == nd.prepares.dom().contains(k as NodeId)
        &&& k != 0 && !t.prepare_sent.contains(k as NodeId) ==> !nd.prepares.dom().contains(0)
        &&& forall|y: NodeId| #[trigger] nd.commits.dom().contains(y) ==> nd.commits[y] == t.value
            && committed(t).contains(y)
        &&& committed(t).contains(k as NodeId) == nd.prepared
        &&& nd.prepared == nd.commits.dom().contains(k as NodeId)
    } by {
        assert(s.nodes[k] == s.nodes[k]);
    }
    assert(inv_tallies(t));
    assert forall|u: NodeId, k: int|
        #![trigger t.prepare_sent.contains(u), t.queues[k]]
        0 <= k < t.n && k != u && t.prepare_sent.contains(u) implies {
            &&& t.nodes[k].prepares.dom().contains(u) == !t.queues[k].contains(prep_entry(u, t.value))
            &&& forall|e1: int, e2: int|
                0 <= e1 < t.queues[k].len() && 0 <= e2 < t.queues[k].len() && #[trigger] t.queues[k][e1]
                    == prep_entry(u, t.value) && #[trigger] t.queues[k][e2] == prep_entry(u, t.value) ==> e1
                    == e2
        } by {
        let pu = prep_entry(u, v);
        assert(s.nodes[k] == s.nodes[k]);
        assert(s.queues[k] == s.queues[k]);
        if k == j {
            if u == w {
                assert(!t.queues[j].contains(prep_entry(w, v)));
            } else {
                assert(s.queues[j][0] != prep_entry(u, v));
                assert(t.queues[j].contains(prep_entry(u, v)) == s.queues[j].contains(prep_entry(u, v)));
            }
            assert forall|e1: int, e2: int|
                0 <= e1 < t.queues[k].len() && 0 <= e2 < t.queues[k].len() && #[trigger] t.queues[k][e1]
                    == prep_entry(u, t.value) && #[trigger] t.queues[k][e2] == prep_entry(u, t.value) implies e1
                    == e2 by {
                assert(s.prepare_sent.contains(u));
            }
        } else {
            assert(t.queues[k].contains(pu) == s.queues[k].contains(pu)) by {
                if t.queues[k].contains(pu) {
                    let e = choose|e: int| 0 <= e < t.queues[k].len() && t.queues[k][e] == pu;
                    assert(e < s.queues[k].len());
                    assert(s.queues[k][e] == pu);
                }
                if s.queues[k].contains(pu) {
                    let e = choose|e: int| 0 <= e < s.queues[k].len() && s.queues[k][e] == pu;
                    assert(t.queues[k][e] == pu);
                }
            }
            assert forall|e1: int, e2: int|
                0 <= e1 < t.queues[k].len() && 0 <= e2 < t.queues[k].len() && #[trigger] t.queues[k][e1]
                    == pu && #[trigger] t.queues[k][e2] == pu implies e1 == e2 by {
                assert(e1 < s.queues[k].len() && e2 < s.queues[k].len());
                assert(s.queues[k][e1] == pu && s.queues[k][e2] == pu);
            }
        }
    }
    assert(inv_prepare_delivery(t));
    let ppe = pp_entry(v);
    assert forall|k: int| 1 <= k < t.n implies {
        &&& forall|e1: int, e2: int|
            0 <= e1 < t.queues[k].len() && 0 <= e2 < t.queues[k].len() && #[trigger] t.queues[k][e1]
                == pp_entry(t.value) && #[trigger] t.queues[k][e2] == pp_entry(t.value) ==> e1 == e2
        &&& t.prepare_sent.contains(k as NodeId) ==> !(#[trigger] t.queues[k]).contains(pp_entry(t.value))
        &&& !t.prepare_sent.contains(k as NodeId) && t.opened >= 1 ==> exists|e0: int|
            0 <= e0 < t.queues[k].len() && t.queues[k][e0] == pp_entry(t.value) && forall|e: int|
                0 <= e < t.queues[k].len() && #[trigger] t.queues[k][e] == prep_entry(0, t.value) ==> e
                    > e0
    } by {
        assert(s.queues[k] == s.queues[k]);
        if k != j {
            assert forall|e1: int, e2: int|
                0 <= e1 < t.queues[k].len() && 0 <= e2 < t.queues[k].len() && #[trigger] t.queues[k][e1]
                    == ppe && #[trigger] t.queues[k][e2] == ppe implies e1 == e2 by {
                assert(e1 < s.queues[k].len() && e2 < s.queues[k].len());
                assert(s.queues[k][e1] == ppe && s.queues[k][e2] == ppe);
            }
            if s.prepare_sent.contains(k as NodeId) {
                if t.queues[k].contains(ppe) {
                    let e = choose|e: int| 0 <= e < t.queues[k].len() && t.queues[k][e] == ppe;
                    assert(e < s.queues[k].len());
                    assert(s.queues[k][e] == ppe);
                }
            } else {
                let e0 = choose|e0: int|
                    0 <= e0 < s.queues[k].len() && s.queues[k][e0] == ppe && forall|e: int|
                        0 <= e < s.queues[k].len() && #[trigger] s.queues[k][e] == prep_entry(0, v) ==> e > e0;
                assert(t.queues[k][e0] == ppe);
                assert forall|e: int| 0 <= e < t.queues[k].len() && #[trigger] t.queues[k][e] == prep_entry(0, v) implies e > e0 by {
                    if e < s.queues[k].len() {
                        assert(s.queues[k][e] == prep_entry(0, v));
                    }
                }
            }
        }
    }
    assert(inv_pp(t));
    assert forall|y: NodeId, k: int|
        #![trigger committed(t).contains(y), t.queues[k]]
        0 <= k < t.n && k != y && committed(t).contains(y) implies t.nodes[k].commits.dom().contains(y)
            || t.queues[k].contains(commit_entry(y, t.value)) by {
        let cy = commit_entry(y, v);
        assert(s.nodes[k] == s.nodes[k]);
        assert(s.queues[k] == s.queues[k]);
        if y == jj {
            assert(t.queues[k][s.queues[k].len() as int] == ce);
        } else if !s.nodes[k].commits.dom().contains(y) {
            assert(s.queues[k].contains(cy));
            let e = choose|e: int| 0 <= e < s.queues[k].len() && s.queues[k][e] == cy;
            if k == j {
                assert(e != 0);
                assert(t.queues[k][e - 1] == cy);
            } else {
                assert(t.queues[k][e] == cy);
            }
        }
    }
    assert(inv_commit_delivery(t));
    lemma_fire_order(s, j, w, t);
    assert(inv_order(t));
    assert forall|x: NodeId| #[trigger] committed(t).contains(x) implies {
        let pt = t.prepared_with[x];
        let pc = t.commits_before[x];
        &&& pt.subset_of(t.prepare_sent)
        &&& pt.len() >= q
        &&& (x == 0 || pt.contains(0)) ==> pt.contains(x)
        &&& pc.subset_of(committed(t))
        &&& !pc.contains(x)
        &&& pc.len() < q
        &&& pc.len() > 0 ==> pt.len() >= q + 1
        &&& forall|y: NodeId| #[trigger] pc.contains(y) ==> !t.commits_before[y].contains(x)
    } by {
        if x != jj {
            assert(committed(s).contains(x));
            assert forall|y: NodeId| #[trigger] t.commits_before[x].contains(y) implies !t.commits_before[y].contains(x) by {
                assert(committed(s).contains(y));
            }
        } else {
            assert forall|y: NodeId| #[trigger] t.commits_before[x].contains(y) implies !t.commits_before[y].contains(x) by {
                assert(committed(s).contains(y));
                assert(s.commits_before[y].subset_of(committed(s)));
            }
        }
    }
    assert(inv_committed(t));
    assert forall|k: int| 0 <= k < t.n implies {
        let nd = #[trigger] t.nodes[k];
        &&& !nd.prepared ==> nd.prepares.dom().remove(k as NodeId).len() < quorum(t.n)
        &&& !nd.decided ==> nd.commits.dom().len() < quorum(t.n) || (nd.prepared && nd.commits.dom().remove(
            k as NodeId,
        ) == t.commits_before[k as NodeId])
        &&& nd.decided ==> nd.commits.dom().len() >= quorum(t.n)
    } by {
        assert(s.nodes[k] == s.nodes[k]);
        if k == j {
            assert(c2.dom().remove(jj) =~= old.commits.dom());
        }
    }
    assert(inv_votes(t));
    assert forall|id: NodeId| #[trigger] t.decisions.contains_key(id) <==> id < t.n && t.nodes[id as int].decided by {
        if id < t.n {
            assert(s.nodes[id as int] == s.nodes[id as int]);
        }
    }
    assert(inv_decisions(t));
    assert(inv_open(t));
}

/// The order of prepares and commits on the channels survives node `j`
/// broadcasting its commit on reading a prepare from `w`.
proof fn lemma_fire_order(s: PbftRun, j: int, w: NodeId, t: PbftRun)
    requires
        inv(s),
        0 <= j < s.n,
        s.queues[j].len() > 0,
        s.queues[j][0] == prep_entry(w, s.value),
        !s.nodes[j].prepared,
        t.n == s.n,
        t.value == s.value,
        t.queues.len() == s.n,
        t.queues[j] == s.queues[j].drop_first(),
        forall|k: int| 0 <= k < s.n && k != j ==> #[trigger] t.queues[k] == s.queues[k].push(commit_entry(j as NodeId, s.value)),
        t.nodes == s.nodes.update(j, t.nodes[j]),
        t.nodes[j].prepares == s.nodes[j].prepares.insert(w, s.value),
        t.nodes[j].commits == s.nodes[j].commits.insert(j as NodeId, s.value),
        t.prepare_sent == s.prepare_sent,
        t.prepared_with == s.prepared_with.insert(j as NodeId, t.nodes[j].prepares.dom()),
    ensures
        inv_order(t),
{
    reveal(inv);
    let n = s.n;
    let v = s.value;
    let jj = j as NodeId;
    let old = s.nodes[j];
    let ce = commit_entry(jj, v);
    lemma_prepare_head(s, j, w);
    lemma_reader_channel(s, t, j);
    assert(!committed(s).contains(jj));
    assert forall|k: int, e: int, u: NodeId|
        #![trigger t.queues[k][e], t.prepared_with[t.queues[k][e].0].contains(u)]
        0 <= k < t.n && 0 <= e < t.queues[k].len() && t.queues[k][e].1 is Commit
            && t.prepared_with[t.queues[k][e].0].contains(u) && u != k implies t.nodes[k].prepares.dom().contains(u)
            || exists|e2: int| 0 <= e2 < e && t.queues[k][e2] == prep_entry(u, t.value) by {
        let pu = prep_entry(u, v);
        if k == j {
            let f = t.queues[k][e].0;
            assert(t.queues[k][e] == s.queues[k][e + 1]);
            assert(f != jj);
            assert(t.prepared_with[f] == s.prepared_with[f]);
            assert(s.prepared_with[t.queues[j][e].0].contains(u));
        } else if e < s.queues[k].len() {
            assert(t.queues[k][e] == s.queues[k][e]);
            let f = s.queues[k][e].0;
            assert(committed(s).contains(f));
            assert(f != jj);
            assert(s.prepared_with[s.queues[k][e].0].contains(u));
            assert(s.nodes[k] == t.nodes[k]);
            if !s.nodes[k].prepares.dom().contains(u) {
                let e2 = choose|e2: int| 0 <= e2 < e && s.queues[k][e2] == pu;
                assert(t.queues[k][e2] == pu);
            }
        } else {
            assert(t.queues[k][e] == ce);
            assert(t.prepared_with[jj].contains(u));
            assert(s.prepare_sent.contains(u));
            assert(s.nodes[k] == t.nodes[k]);
            assert(s.queues[k] == s.queues[k]);
            if !s.nodes[k].prepares.dom().contains(u) {
                assert(s.queues[k].contains(pu));
                let e2 = choose|e2: int| 0 <= e2 < s.queues[k].len() && s.queues[k][e2] == pu;
                assert(t.queues[k][e2] == pu);
            }
        }
    }
    assert forall|k: int, y: NodeId, u: NodeId|
        #![trigger t.nodes[k].commits.dom().contains(y), t.prepared_with[y].contains(u)]
        0 <= k < t.n && t.nodes[k].commits.dom().contains(y) && y != k
            && t.prepared_with[y].contains(u) && u != k implies t.nodes[k].prepares.dom().contains(u) by {
        assert(s.nodes[k].commits.dom().contains(y));
        assert(committed(s).contains(y));
        assert(y != jj);
        assert(s.prepared_with[y].contains(u));
    }
}

proof fn lemma_ids(n: nat)
    requires
        n <= u64::MAX,
    ensures
        ids(n).finite(),
        ids(n).len() == n,
{
    assert(ids(n) =~= Set::<NodeId>::range(0, n as NodeId));
    vstd::set_lib::range_set_properties::<NodeId>(0, n as NodeId);
}

/// A set of node ids of a cluster of `n` nodes is finite and has at most `n`
/// elements.
proof fn lemma_within(a: Set<NodeId>, n: nat)
    requires
        n <= u64::MAX,
        a.subset_of(ids(n)),
    ensures
        a.finite(),
        a.len() <= n,
{
    lemma_ids(n);
    vstd::set_lib::lemma_len_subset(a, ids(n));
}

proof fn lemma_len_mono(a: Set<NodeId>, b: Set<NodeId>, n: nat)
    requires
        n <= u64::MAX,
        a.subset_of(b),
        b.subset_of(ids(n)),
    ensures
        a.finite(),
        b.finite(),
        a.len() <= b.len(),
{
    lemma_within(b, n);
    vstd::set_lib::lemma_len_subset(a, b);
}

spec fn has_read_all(s: PbftRun) -> bool {
    &&& s.opened == 2
    &&& forall|u: int, w: NodeId|
        0 <= u < s.n && !s.nodes[u].decided && s.prepare_sent.contains(w) && w != u ==> #[trigger] s.nodes[u].prepares.dom().contains(w)
    &&& forall|u: int, x: NodeId|
        0 <= u < s.n && !s.nodes[u].decided && committed(s).contains(x) && x != u ==> #[trigger] s.nodes[u].commits.dom().contains(x)
    &&& forall|u: int| 1 <= u < s.n && !(#[trigger] s.nodes[u]).decided ==> s.prepare_sent.contains(u as NodeId)
}

proof fn lemma_read_all_decided(s: PbftRun, d: int)
    requires
        inv(s),
        has_read_all(s),
        0 <= d < s.n,
    ensures
        s.nodes[d].decided,
{
    reveal(inv);
    if !s.nodes[d].decided {
        lemma_undecided_contradiction(s, d);
    }
}

proof fn lemma_undecided_contradiction(s: PbftRun, d: int)
    requires
        inv(s),
        has_read_all(s),
        0 <= d < s.n,
        !s.nodes[d].decided,
    ensures
        s.nodes[d].decided,
{
    reveal(inv);
    let n = s.n;
    let v = s.value;
    let q = quorum(n);
    let c = committed(s);
    lemma_others_form_quorum(n);
    lemma_ids(n);
    lemma_within(c, n);
    if forall|u: int| 0 <= u < n ==> !(#[trigger] s.nodes[u]).decided {
        // nobody has decided: everybody has read everything, so everybody
        // has prepared and read every commit before preparing
        assert(s.prepare_sent =~= ids(n)) by {
            assert forall|w: NodeId| ids(n).contains(w) implies s.prepare_sent.contains(w) by {
                if w != 0 {
                    assert(!s.nodes[w as int].decided);
                }
            }
        }
        assert forall|u: int| 0 <= u < n implies #[trigger] s.nodes[u].prepared by {
            let nd = s.nodes[u];
            assert(!nd.decided);
            assert(ids(n).remove(u as NodeId).subset_of(nd.prepares.dom().remove(u as NodeId)));
            lemma_len_mono(ids(n).remove(u as NodeId), nd.prepares.dom().remove(u as NodeId), n);
        }
        assert forall|w: NodeId| ids(n).contains(w) implies c.contains(w) by {
            assert(s.nodes[w as int].prepared);
        }
        assert(c =~= ids(n));
        let x: int = if d == 0 { 1 } else { 0 };
        assert forall|u: int| 0 <= u < n implies #[trigger] s.commits_before[u as NodeId] =~= ids(n).remove(u as NodeId) by {
            let nd = s.nodes[u];
            assert(!nd.decided);
            assert(ids(n).subset_of(nd.commits.dom()));
            lemma_len_mono(ids(n), nd.commits.dom(), n);
            assert(nd.commits.dom().remove(u as NodeId) == s.commits_before[u as NodeId]);
        }
        assert(s.commits_before[d as NodeId].contains(x as NodeId));
        assert(s.commits_before[x as NodeId].contains(d as NodeId));
        assert(c.contains(d as NodeId));
    } else {
        let y0 = choose|u: int| 0 <= u < n && (#[trigger] s.nodes[u]).decided;
        let dom0 = s.nodes[y0].commits.dom();
        lemma_len_mono(dom0, c, n);
        assert(c.len() >= q);
        let nd = s.nodes[d];
        let dd = d as NodeId;
        lemma_within(nd.commits.dom(), n);
        // the undecided node has read every commit, and prepared after them
        if !nd.prepared {
            assert(c.subset_of(nd.commits.dom()));
            lemma_len_mono(c, nd.commits.dom(), n);
        }
        assert(nd.prepared);
        assert(c.contains(dd));
        assert(c.subset_of(nd.commits.dom()));
        if nd.commits.dom().len() < q {
            lemma_len_mono(c, nd.commits.dom(), n);
        }
        let pc = s.commits_before[dd];
        assert(pc == nd.commits.dom().remove(dd));
        assert(c.remove(dd) =~= pc);
        lemma_len_mono(pc, c, n);
        assert(c.len() == pc.len() + 1);
        assert(c.len() == q);
        // a node that never prepared
        lemma_outsider_exists(c, Set::empty(), n);
        let y: NodeId = choose|y: NodeId| ids(n).contains(y) && !c.contains(y) && !Set::<NodeId>::empty().contains(y);
        lemma_outsider(s, d, y);
        let pt = s.prepared_with[dd];
        if q >= 2 {
            assert(pc.len() > 0);
            lemma_within(pt, n);
            assert(pt.len() >= q + 1);
            assert(pt.remove(y).len() >= q);
        } else {
            assert(pt.remove(y) =~= Set::empty()) by {
                lemma_within(pt, n);
                if pt.remove(y).len() > 0 {
                    let w = pt.remove(y).choose();
                }
            }
            lemma_within(pt, n);
            assert(pt.contains(y)) by {
                if !pt.contains(y) {
                    assert(pt =~= pt.remove(y));
                }
            }
            if n >= 3 {
                lemma_outsider_exists(c, Set::empty().insert(y), n);
                let y2: NodeId = choose|y2: NodeId| ids(n).contains(y2) && !c.contains(y2) && !Set::<NodeId>::empty().insert(y).contains(y2);
                lemma_outsider(s, d, y2);
                assert(pt.remove(y2) =~= Set::empty()) by {
                    lemma_within(pt, n);
                    if pt.remove(y2).len() > 0 {
                        let w = pt.remove(y2).choose();
                    }
                }
                assert(pt.remove(y2).contains(y));
            } else {
                assert(n == 2);
                if d == 0 {
                    assert(pt.contains(0));
                    assert(pt.remove(y).contains(0));
                } else {
                    assert(y == 0);
                    assert(pt.contains(dd));
                    assert(pt.remove(y).contains(dd));
                }
            }
        }
    }
}

/// Outside a set `c` of fewer nodes than the cluster, minus the nodes `e`,
/// there is a node.
proof fn lemma_outsider_exists(c: Set<NodeId>, e: Set<NodeId>, n: nat)
    requires
        n <= u64::MAX,
        c.subset_of(ids(n)),
        e.finite(),
        c.len() + e.len() < n,
    ensures
        exists|y: NodeId| ids(n).contains(y) && !c.contains(y) && !e.contains(y),
{
    lemma_ids(n);
    lemma_within(c, n);
    if forall|y: NodeId| ids(n).contains(y) ==> c.contains(y) || e.contains(y) {
        assert(ids(n).subset_of(c + e));
        vstd::set_lib::lemma_len_union(c, e);
        vstd::set_lib::lemma_len_subset(ids(n), c + e);
    }
}

/// A node that never prepared read the commit of a node `d` only once it
/// held fewer than `q` of the prepares `d` held when it prepared.
proof fn lemma_outsider(s: PbftRun, d: int, y: NodeId)
    requires
        inv(s),
        has_read_all(s),
        0 <= d < s.n,
        !s.nodes[d].decided,
        s.nodes[d].prepared,
        committed(s).len() == quorum(s.n),
        committed(s).contains(d as NodeId),
        ids(s.n).contains(y),
        !committed(s).contains(y),
    ensures
        s.prepared_with[d as NodeId].remove(y).len() < quorum(s.n),
{
    reveal(inv);
    let n = s.n;
    let q = quorum(n);
    let c = committed(s);
    let dd = d as NodeId;
    lemma_within(c, n);
    let ny = s.nodes[y as int];
    assert(!ny.prepared);
    assert(ny.commits.dom().subset_of(c));
    lemma_len_mono(ny.commits.dom(), c, n);
    if !ny.decided {
        assert(c.subset_of(ny.commits.dom()));
        lemma_len_mono(c, ny.commits.dom(), n);
    }
    assert(ny.decided);
    assert(ny.commits.dom().contains(dd)) by {
        if !ny.commits.dom().contains(dd) {
            assert(ny.commits.dom().subset_of(c.remove(dd)));
            lemma_len_mono(ny.commits.dom(), c.remove(dd), n);
        }
    }
    let pt = s.prepared_with[dd];
    assert(pt.remove(y).subset_of(ny.prepares.dom().remove(y)));
    assert(ny.prepares.dom().subset_of(ids(n)));
    lemma_len_mono(pt.remove(y), ny.prepares.dom().remove(y), n);
}

pub(crate) proof fn lemma_quiescent(s: PbftRun)
    requires
        inv(s),
        pbft_run_quiescent(s),
    ensures
        forall|j: int| 0 <= j < s.n ==> (#[trigger] s.nodes[j]).decided,
        forall|id: NodeId| id < s.n ==> #[trigger] s.decisions.contains_key(id) && s.decisions[id] == s.value,
{
    reveal(inv);
    let n = s.n;
    let v = s.value;
    let q = quorum(n);
    let c = committed(s);
    lemma_others_form_quorum(n);
    lemma_ids(n);
    lemma_within(c, n);
    // an undecided node has read everything sent to it
    assert forall|u: int, w: NodeId|
        0 <= u < n && !s.nodes[u].decided && s.prepare_sent.contains(w) && w != u implies #[trigger] s.nodes[u].prepares.dom().contains(w) by {
        assert(s.queues[u].len() == 0);
        assert(!s.queues[u].contains(prep_entry(w, v)));
    }
    assert forall|u: int, x: NodeId|
        0 <= u < n && !s.nodes[u].decided && c.contains(x) && x != u implies #[trigger] s.nodes[u].commits.dom().contains(x) by {
        assert(s.queues[u].len() == 0);
        assert(!s.queues[u].contains(commit_entry(x, v)));
    }
    assert forall|u: int| 1 <= u < n && !s.nodes[u].decided implies s.prepare_sent.contains(u as NodeId) by {
        assert(s.queues[u].len() == 0);
    }
    assert forall|d: int| 0 <= d < n implies (#[trigger] s.nodes[d]).decided by {
        lemma_read_all_decided(s, d);
    }
    assert forall|id: NodeId| id < n implies #[trigger] s.decisions.contains_key(id) && s.decisions[id] == v by {
        assert(s.nodes[id as int].decided);
    }
}

/// The shape of a run the invariant holds of.
pub(crate) proof fn lemma_shape(s: PbftRun)
    requires
        inv(s),
    ensures
        2 <= s.n <= u64::MAX,
        s.nodes.len() == s.n,
        s.queues.len() == s.n,
        s.opened <= 2,
        forall|k: int|
            0 <= k < s.n ==> (#[trigger] s.nodes[k]).seq == 1 && s.nodes[k].node_id == k && s.nodes[k].value
                == s.value,
{
    reveal(inv);
}

/// What the invariant says of node `j` and of the message at the head of its
/// channel.
pub(crate) proof fn lemma_head(s: PbftRun, j: int)
    requires
        inv(s),
        0 <= j < s.n,
        s.queues[j].len() > 0,
    ensures
        2 <= s.n <= u64::MAX,
        s.nodes.len() == s.n,
        s.queues.len() == s.n,
        s.nodes[j].seq == 1,
        s.nodes[j].is_primary == (j == 0),
        s.queues[j][0].0 != j,
        s.queues[j][0].1 is PrePrepare ==> j != 0 && !s.prepare_sent.contains(j as NodeId),
{
    reveal(inv);
    assert(s.nodes[j] == s.nodes[j]);
    assert(s.queues[j][0] == s.queues[j][0]);
    if s.queues[j][0].1 is PrePrepare {
        assert(s.queues[j].contains(pp_entry(s.value)));
    }
}

pub(crate) proof fn lemma_step(s: PbftRun, t: PbftRun)
    requires
        inv(s),
        pbft_run_step(s, t),
    ensures
        inv(t),
        t.n == s.n,
        t.value == s.value,
{
    if pbft_run_open(s, t) {
        lemma_open(s, t);
        return;
    }
    reveal(pbft_run_deliver);
    let j = choose|j: int| pbft_run_deliver(s, j, t);
    let (node, out, d) = choose|node: PbftView, out: Seq<Outgoing<PbftMsg>>, d: Option<Value>|
        #[trigger] pbft_transition(s.nodes[j], s.queues[j][0].0, s.queues[j][0].1, node, out, d)
            && t == pbft_run_after(s, j, node, out, d);
    let v = s.value;
    let f = s.queues[j][0].0;
    assert(s.queues[j][0] == pp_entry(v) || s.queues[j][0] == prep_entry(f, v) || s.queues[j][0]
        == commit_entry(f, v)) by {
        reveal(inv);
        assert(s.queues[j][0] == s.queues[j][0]);
    }
    if s.queues[j][0] == pp_entry(v) {
        lemma_step_preprepare(s, j, node, out, d);
    } else if s.queues[j][0] == prep_entry(f, v) {
        if node.prepared && !s.nodes[j].prepared {
            lemma_step_prepare_fire(s, j, f, node, out, d);
        } else {
            lemma_step_prepare_quiet(s, j, f, node, out, d);
        }
    } else {
        lemma_step_commit(s, j, f, node, out, d);
    }
}

/// Handing one broadcast of `from` to the channels appends it to every
/// other node's channel.
proof fn lemma_post_broadcast(qs: Seq<Seq<(NodeId, PbftMsg)>>, from: NodeId, m: PbftMsg)
    ensures
        post(qs, from, seq![Outgoing::Broadcast(m)]) == Seq::new(
            qs.len(),
            |k: int| if k != from { qs[k].push((from, m)) } else { qs[k] },
        ),
{
    reveal_with_fuel(post, 2);
    let out = seq![Outgoing::Broadcast(m)];
    assert(out.drop_first() =~= Seq::<Outgoing<PbftMsg>>::empty());
}

/// The primary's opening broadcasts keep the invariant.
proof fn lemma_open(s: PbftRun, t: PbftRun)
    requires
        inv(s),
        pbft_run_open(s, t),
    ensures
        inv(t),
        t.n == s.n,
        t.value == s.value,
{
    reveal(inv);
    let n = s.n;
    let v = s.value;
    let q = quorum(n);
    let p = s.nodes[0];
    assert(p.seq == 1 && p.value == v && p.node_id == 0);
    lemma_others_form_quorum(n);
    if s.opened == 0 {
        let ppe = pp_entry(v);
        lemma_post_broadcast(s.queues, 0, ppe.1);
        assert forall|k: int| 0 <= k < n implies #[trigger] t.queues[k] == if k != 0 {
            seq![ppe]
        } else {
            Seq::<(NodeId, PbftMsg)>::empty()
        } by {
            assert(s.queues[k].len() == 0);
            if k != 0 {
                assert(t.queues[k] =~= seq![ppe]);
            }
        }
        assert(inv_shape(t));
        assert(inv_sets(t));
        assert(inv_msgs(t));
        assert(inv_tallies(t));
        assert(inv_prepare_delivery(t));
        assert forall|d: int| 1 <= d < t.n implies {
            &&& forall|e1: int, e2: int|
                0 <= e1 < t.queues[d].len() && 0 <= e2 < t.queues[d].len() && #[trigger] t.queues[d][e1]
                    == pp_entry(t.value) && #[trigger] t.queues[d][e2] == pp_entry(t.value) ==> e1 == e2
            &&& t.prepare_sent.contains(d as NodeId) ==> !(#[trigger] t.queues[d]).contains(pp_entry(t.value))
            &&& !t.prepare_sent.contains(d as NodeId) && t.opened >= 1 ==> exists|e0: int|
                0 <= e0 < t.queues[d].len() && t.queues[d][e0] == pp_entry(t.value) && forall|e: int|
                    0 <= e < t.queues[d].len() && #[trigger] t.queues[d][e] == prep_entry(0, t.value) ==> e
                        > e0
        } by {
            assert(t.queues[d][0] == ppe);
        }
        assert(inv_pp(t));
        assert(inv_commit_delivery(t));
        assert(inv_order(t));
        assert(inv_committed(t));
        assert(inv_votes(t));
        assert(inv_decisions(t));
        assert(inv_open(t));
    } else {
        let pe = prep_entry(0, v);
        let p2 = PbftView { prepares: p.prepares.insert(0, v), ..p };
        lemma_post_broadcast(s.queues, 0, pe.1);
        assert forall|k: int| 0 <= k < n && k != 0 implies #[trigger] t.queues[k] == s.queues[k].push(pe) by {}
        assert(t.queues[0] == s.queues[0]);
        assert(t.nodes[0] == p2);
        assert(t.prepare_sent == s.prepare_sent.insert(0));
        assert(!s.prepare_sent.contains(0));
        assert(committed(t) == committed(s));
        // no prepare of the primary was on its way, nor held by anyone
        assert forall|k: int, e: int| 0 <= k < n && 0 <= e < s.queues[k].len() implies #[trigger] s.queues[k][e] != pe by {
            let (f, m) = s.queues[k][e];
        }
        assert forall|k: int| 0 <= k < n implies !(#[trigger] s.nodes[k]).prepares.dom().contains(0) by {}
        assert(inv_shape(t));
        assert(inv_sets(t));
        assert forall|k: int, e: int| 0 <= k < t.n && 0 <= e < t.queues[k].len() implies {
            let (f, m) = #[trigger] t.queues[k][e];
            &&& f < t.n
            &&& f != k
            &&& {
                ||| (f, m) == pp_entry(t.value)
                ||| (f, m) == prep_entry(f, t.value) && t.prepare_sent.contains(f)
                ||| (f, m) == commit_entry(f, t.value) && committed(t).contains(f)
            }
        } by {
            if k == 0 || e < s.queues[k].len() {
                assert(t.queues[k][e] == s.queues[k][e]);
            }
        }
        assert(inv_msgs(t));
        assert forall|k: int| 0 <= k < n implies {
            let nd = #[trigger] t.nodes[k];
            &&& forall|y: NodeId| #[trigger] nd.prepares.dom().contains(y) ==> nd.prepares[y] == t.value
                && t.prepare_sent.contains(y)
            &&& t.prepare_sent.contains(k as NodeId) == nd.prepares.dom().contains(k as NodeId)
            &&& k != 0 && !t.prepare_sent.contains(k as NodeId) ==> !nd.prepares.dom().contains(0)
            &&& forall|y: NodeId| #[trigger] nd.commits.dom().contains(y) ==> nd.commits[y] == t.value
                && committed(t).contains(y)
            &&& committed(t).contains(k as NodeId) == nd.prepared
            &&& nd.prepared == nd.commits.dom().contains(k as NodeId)
        } by {
            assert(s.nodes[k] == s.nodes[k]);
        }
        assert(inv_tallies(t));
        assert forall|w: NodeId, k: int|
            #![trigger t.prepare_sent.contains(w), t.queues[k]]
            0 <= k < t.n && k != w && t.prepare_sent.contains(w) implies {
                &&& t.nodes[k].prepares.dom().contains(w) == !t.queues[k].contains(prep_entry(w, t.value))
                &&& forall|e1: int, e2: int|
                    0 <= e1 < t.queues[k].len() && 0 <= e2 < t.queues[k].len() && #[trigger] t.queues[k][e1]
                        == prep_entry(w, t.value) && #[trigger] t.queues[k][e2] == prep_entry(w, t.value) ==> e1
                        == e2
            } by {
            let pw = prep_entry(w, v);
            assert(s.nodes[k] == s.nodes[k]);
            if k == 0 {
                assert(t.queues[k] == s.queues[k]);
            } else if w == 0 {
                assert(t.queues[k][s.queues[k].len() as int] == pe);
                assert forall|e1: int, e2: int|
                    0 <= e1 < t.queues[k].len() && 0 <= e2 < t.queues[k].len() && #[trigger] t.queues[k][e1]
                        == pw && #[trigger] t.queues[k][e2] == pw implies e1 == e2 by {
                    if e1 < s.queues[k].len() {
                        assert(s.queues[k][e1] == pw);
                    }
                    if e2 < s.queues[k].len() {
                        assert(s.queues[k][e2] == pw);
                    }
                }
            } else {
                assert(t.queues[k].contains(pw) == s.queues[k].contains(pw)) by {
                    if t.queues[k].contains(pw) {
                        let e = choose|e: int| 0 <= e < t.queues[k].len() && t.queues[k][e] == pw;
                        assert(e < s.queues[k].len());
                        assert(s.queues[k][e] == pw);
                    }
                    if s.queues[k].contains(pw) {
                        let e = choose|e: int| 0 <= e < s.queues[k].len() && s.queues[k][e] == pw;
                        assert(t.queues[k][e] == pw);
                    }
                }
                assert forall|e1: int, e2: int|
                    0 <= e1 < t.queues[k].len() && 0 <= e2 < t.queues[k].len() && #[trigger] t.queues[k][e1]
                        == pw && #[trigger] t.queues[k][e2] == pw implies e1 == e2 by {
                    assert(e1 < s.queues[k].len() && e2 < s.queues[k].len());
                    assert(s.queues[k][e1] == pw && s.queues[k][e2] == pw);
                }
            }
        }
        assert(inv_prepare_delivery(t));
        let ppe = pp_entry(v);
        assert forall|k: int| 1 <= k < t.n implies {
            &&& forall|e1: int, e2: int|
                0 <= e1 < t.queues[k].len() && 0 <= e2 < t.queues[k].len() && #[trigger] t.queues[k][e1]
                    == pp_entry(t.value) && #[trigger] t.queues[k][e2] == pp_entry(t.value) ==> e1 == e2
            &&& t.prepare_sent.contains(k as NodeId) ==> !(#[trigger] t.queues[k]).contains(pp_entry(t.value))
            &&& !t.prepare_sent.contains(k as NodeId) && t.opened >= 1 ==> exists|e0: int|
                0 <= e0 < t.queues[k].len() && t.queues[k][e0] == pp_entry(t.value) && forall|e: int|
                    0 <= e < t.queues[k].len() && #[trigger] t.queues[k][e] == prep_entry(0, t.value) ==> e
                        > e0
        } by {
            assert(s.queues[k] == s.queues[k]);
            assert forall|e1: int, e2: int|
                0 <= e1 < t.queues[k].len() && 0 <= e2 < t.queues[k].len() && #[trigger] t.queues[k][e1]
                    == ppe && #[trigger] t.queues[k][e2] == ppe implies e1 == e2 by {
                assert(e1 < s.queues[k].len() && e2 < s.queues[k].len());
                assert(s.queues[k][e1] == ppe && s.queues[k][e2] == ppe);
            }
            if s.prepare_sent.contains(k as NodeId) {
                if t.queues[k].contains(ppe) {
                    let e = choose|e: int| 0 <= e < t.queues[k].len() && t.queues[k][e] == ppe;
                    assert(e < s.queues[k].len());
                    assert(s.queues[k][e] == ppe);
                }
            } else {
                let e0 = choose|e0: int|
                    0 <= e0 < s.queues[k].len() && s.queues[k][e0] == ppe && forall|e: int|
                        0 <= e < s.queues[k].len() && #[trigger] s.queues[k][e] == prep_entry(0, v) ==> e > e0;
                assert(t.queues[k][e0] == ppe);
                assert forall|e: int| 0 <= e < t.queues[k].len() && #[trigger] t.queues[k][e] == prep_entry(0, v) implies e > e0 by {
                    if e < s.queues[k].len() {
                        assert(s.queues[k][e] == prep_entry(0, v));
                    }
                }
            }
        }
        assert(inv_pp(t));
        assert forall|x: NodeId, k: int|
            #![trigger committed(t).contains(x), t.queues[k]]
            0 <= k < t.n && k != x && committed(t).contains(x) implies t.nodes[k].commits.dom().contains(x)
                || t.queues[k].contains(commit_entry(x, t.value)) by {
            let ce = commit_entry(x, v);
            assert(s.nodes[k] == s.nodes[k]);
            assert(s.queues[k] == s.queues[k]);
            if !s.nodes[k].commits.dom().contains(x) {
                assert(s.queues[k].contains(ce));
                let e = choose|e: int| 0 <= e < s.queues[k].len() && s.queues[k][e] == ce;
                assert(t.queues[k][e] == ce);
            }
        }
        assert(inv_commit_delivery(t));
        assert forall|k: int, e: int, w: NodeId|
            #![trigger t.queues[k][e], t.prepared_with[t.queues[k][e].0].contains(w)]
            0 <= k < t.n && 0 <= e < t.queues[k].len() && t.queues[k][e].1 is Commit
                && t.prepared_with[t.queues[k][e].0].contains(w) && w != k implies t.nodes[k].prepares.dom().contains(w)
                || exists|e2: int| 0 <= e2 < e && t.queues[k][e2] == prep_entry(w, t.value) by {
            let pw = prep_entry(w, v);
            assert(e < s.queues[k].len());
            assert(t.queues[k][e] == s.queues[k][e]);
            if !s.nodes[k].prepares.dom().contains(w) {
                let e2 = choose|e2: int| 0 <= e2 < e && s.queues[k][e2] == pw;
                assert(t.queues[k][e2] == pw);
            }
        }
        assert forall|k: int, x: NodeId, w: NodeId|
            #![trigger t.nodes[k].commits.dom().contains(x), t.prepared_with[x].contains(w)]
            0 <= k < t.n && t.nodes[k].commits.dom().contains(x) && x != k
                && t.prepared_with[x].contains(w) && w != k implies t.nodes[k].prepares.dom().contains(w) by {
            assert(s.nodes[k].commits.dom().contains(x));
        }
        assert(inv_order(t));
        assert(inv_committed(t)) by {
            assert forall|x: NodeId| #[trigger] committed(t).contains(x) implies s.prepared_with[x].subset_of(t.prepare_sent)
                && !s.prepared_with[x].contains(0) by {
                assert(committed(s).contains(x));
            }
        }
        assert forall|k: int| 0 <= k < t.n implies {
            let nd = #[trigger] t.nodes[k];
            &&& !nd.prepared ==> nd.prepares.dom().remove(k as NodeId).len() < quorum(t.n)
            &&& !nd.decided ==> nd.commits.dom().len() < quorum(t.n) || (nd.prepared && nd.commits.dom().remove(
                k as NodeId,
            ) == t.commits_before[k as NodeId])
            &&& nd.decided ==> nd.commits.dom().len() >= quorum(t.n)
        } by {
            assert(s.nodes[k] == s.nodes[k]);
            if k == 0 {
                assert(p2.prepares.dom().remove(0) =~= Set::empty());
            }
        }
        assert(inv_votes(t));
        assert forall|id: NodeId| #[trigger] t.decisions.contains_key(id) <==> id < t.n && t.nodes[id as int].decided by {
            if id < t.n {
                assert(s.nodes[id as int] == s.nodes[id as int]);
            }
        }
        assert(inv_decisions(t));
        assert(inv_open(t));
    }
}

pub(crate) proof fn lemma_decisions(s: PbftRun)
    requires
        inv(s),
    ensures
        forall|id: NodeId| #[trigger] s.decisions.contains_key(id) ==> s.decisions[id] == s.value,
{
    reveal(inv);
}

proof fn lemma_trace_inv(n: nat, value: Value, trace: Seq<PbftRun>, i: int)
    requires
        2 <= n <= u64::MAX,
        pbft_run_trace(n, value, trace),
        0 <= i < trace.len(),
    ensures
        inv(trace[i]),
        inv_counts(trace[i]),
        inv_reads(trace[i]),
        trace[i].reads + trace[i].opened == i,
        trace[i].value == value,
        trace[i].n == n,
    decreases i,
{
    if i == 0 {
        lemma_init(n, value);
        lemma_counts_init(n, value);
        lemma_reads_init(n, value);
    } else {
        lemma_trace_inv(n, value, trace, i - 1);
        lemma_reads_step(trace[i - 1], trace[i]);
        lemma_counts_step(trace[i - 1], trace[i]);
        lemma_step(trace[i - 1], trace[i]);
    }
}

/// Consensus in a PBFT run of `n >= 2` nodes, whatever order the channels
/// are read in: every node that decides decides the primary's value, and the
/// run stops (no node that has not decided has a message left to read) only
/// once every node has decided.
pub proof fn lemma_pbft_run_consensus(n: nat, value: Value, trace: Seq<PbftRun>)
    requires
        2 <= n <= u64::MAX,
        pbft_run_trace(n, value, trace),
    ensures
        forall|id: NodeId| #[trigger] trace.last().decisions.contains_key(id) ==> trace.last().decisions[id] == value,
        pbft_run_quiescent(trace.last()) ==> forall|id: NodeId|
            id < n ==> #[trigger] trace.last().decisions.contains_key(id) && trace.last().decisions[id] == value,
{
    lemma_trace_inv(n, value, trace, trace.len() - 1);
    let s = trace.last();
    lemma_decisions(s);
    if pbft_run_quiescent(s) {
        lemma_quiescent(s);
    }
}

/// Whether the primary has sent its proposal.
spec fn proposed(s: PbftRun) -> nat {
    if s.opened >= 1 {
        1
    } else {
        0
    }
}

/// The messages of a run: every one handed over has been read or is queued,
/// and there are `n - 1` per broadcast made: the proposal, the prepares and
/// the commits.
#[verifier::opaque]
pub(crate) closed spec fn inv_counts(s: PbftRun) -> bool {
    &&& s.reads + queued(s.queues) == s.sent
    &&& s.sent == (s.n - 1) * (proposed(s) + s.prepare_sent.len() + committed(s).len())
}

proof fn lemma_queued_empty(qs: Seq<Seq<(NodeId, PbftMsg)>>, i: int)
    requires
        i <= qs.len(),
        forall|k: int| 0 <= k < qs.len() ==> (#[trigger] qs[k]).len() == 0,
    ensures
        crate::step::queued_upto(qs, i) == 0,
    decreases i,
{
    if i > 0 {
        lemma_queued_empty(qs, i - 1);
    }
}

pub(crate) proof fn lemma_counts_init(n: nat, v: Value)
    requires
        2 <= n <= u64::MAX,
    ensures
        inv_counts(pbft_run_init(n, v)),
{
    reveal(inv_counts);
    let s = pbft_run_init(n, v);
    lemma_queued_empty(s.queues, n as int);
    assert(queued(s.queues) == 0);
    assert(committed(s) =~= Set::<NodeId>::empty());
    assert(committed(s).len() == 0);
    assert(s.prepare_sent.len() == 0);
    assert(proposed(s) == 0);
    let x = proposed(s) + s.prepare_sent.len() + committed(s).len();
    assert((n - 1) * x == 0) by (nonlinear_arith)
        requires
            x == 0,
    ;
}

/// One step keeps the message counts, and adds one read or one opening
/// message.
pub(crate) proof fn lemma_counts_step(s: PbftRun, t: PbftRun)
    requires
        inv(s),
        inv_counts(s),
        pbft_run_step(s, t),
    ensures
        inv_counts(t),
        t.reads + t.opened == s.reads + s.opened + 1,
{
    reveal(inv);
    reveal(inv_counts);
    let n = s.n;
    lemma_within(s.prepare_sent, n);
    lemma_within(committed(s), n);
    let x = proposed(s) + s.prepare_sent.len() + committed(s).len();
    assert((n - 1) * (x + 1) == (n - 1) * x + (n - 1)) by (nonlinear_arith);
    if pbft_run_open(s, t) {
        let p = s.nodes[0];
        reveal_with_fuel(post_count, 2);
        if s.opened == 0 {
            let out = seq![Outgoing::Broadcast(PbftMsg::PrePrepare { seq: p.seq, value: p.value })];
            lemma_queued_post(s.queues, 0, out);
            assert(out.drop_first().len() == 0);
            assert(committed(t) == committed(s));
        } else {
            let out = seq![Outgoing::Broadcast(PbftMsg::Prepare { seq: p.seq, sender: p.node_id, value: p.value })];
            lemma_queued_post(s.queues, 0, out);
            assert(out.drop_first().len() == 0);
            assert(!s.prepare_sent.contains(0));
            assert(committed(t) == committed(s));
        }
    } else {
        reveal(pbft_run_deliver);
        let j = choose|j: int| pbft_run_deliver(s, j, t);
        let (node, out, d) = choose|node: PbftView, out: Seq<Outgoing<PbftMsg>>, d: Option<Value>|
            #[trigger] pbft_transition(s.nodes[j], s.queues[j][0].0, s.queues[j][0].1, node, out, d)
                && t == pbft_run_after(s, j, node, out, d);
        let old = s.nodes[j];
        let (f, m) = s.queues[j][0];
        lemma_head(s, j);
        crate::pbft::lemma_pbft_react(old, f, m, node, out, d);
        let rest = s.queues.update(j, s.queues[j].drop_first());
        lemma_queued_update(s.queues, j, s.queues[j].drop_first(), n as int);
        lemma_queued_post(rest, j as NodeId, out);
        reveal_with_fuel(post_count, 2);
        if out.len() > 0 {
            assert(out.len() == 1 && out[0] is Broadcast);
            assert(out.drop_first().len() == 0);
        }
        assert(post_count(n, out) == if out.len() > 0 { n - 1 } else { 0 });
        let newly = !old.prepared && node.prepared;
        if m is PrePrepare && out.len() > 0 {
            assert(!newly);
            assert(!s.prepare_sent.contains(j as NodeId));
            assert(committed(t) == committed(s));
        } else if newly {
            assert(!committed(s).contains(j as NodeId));
            assert(committed(t) == committed(s).insert(j as NodeId));
            assert(out.len() > 0);
        } else {
            assert(committed(t) == committed(s));
            assert(out.len() == 0);
        }
    }
}

/// The runs are bounded: a run holds at most `(n - 1) * (2n + 1) + 2` steps
/// after its first state, as each step reads a message or sends an opening
/// message, and a run sends at most `n - 1` messages per broadcast of its
/// `2n + 1`: the proposal, a prepare and a commit per node.
pub(crate) proof fn lemma_counts_bound(s: PbftRun)
    requires
        inv(s),
        inv_counts(s),
    ensures
        s.reads + s.opened <= (s.n - 1) * (2 * s.n + 1) + 2,
        s.sent <= (s.n - 1) * (2 * s.n + 1),
{
    reveal(inv);
    reveal(inv_counts);
    let n = s.n;
    lemma_within(s.prepare_sent, n);
    lemma_within(committed(s), n);
    lemma_queued_nonnegative(s.queues);
    let x = proposed(s) + s.prepare_sent.len() + committed(s).len();
    assert(x <= 2 * n + 1);
    assert((n - 1) * x <= (n - 1) * (2 * n + 1)) by (nonlinear_arith)
        requires
            x <= 2 * n + 1,
            n >= 2,
    ;
}

/// Facts that a complete run needs: a backup that has not prepared has read
/// nothing and has the proposal at the head of its channel; a node that has
/// committed holds its own prepare among those it committed with; a node
/// that has not committed holds fewer prepares than a quorum, or only its
/// own; and a node that has decided has committed.
#[verifier::opaque]
pub(crate) closed spec fn inv_reads(s: PbftRun) -> bool {
    let q = quorum(s.n);
    &&& forall|d: int|
        1 <= d < s.n && !s.prepare_sent.contains(d as NodeId) ==> {
            let nd = #[trigger] s.nodes[d];
            &&& nd.prepares == Map::<NodeId, Value>::empty()
            &&& nd.commits == Map::<NodeId, Value>::empty()
            &&& !nd.prepared
            &&& !nd.decided
            &&& s.opened >= 1 ==> s.queues[d].len() > 0 && s.queues[d][0] == pp_entry(s.value)
        }
    &&& forall|x: NodeId| #[trigger] committed(s).contains(x) ==> s.prepared_with[x].contains(x)
    &&& forall|d: int|
        0 <= d < s.n && !(#[trigger] s.nodes[d]).prepared ==> s.nodes[d].prepares.dom().len() < q
            || s.nodes[d].prepares.dom() == Set::<NodeId>::empty().insert(d as NodeId)
    &&& forall|d: int| 0 <= d < s.n && (#[trigger] s.nodes[d]).decided ==> s.nodes[d].prepared
}

pub(crate) proof fn lemma_reads_init(n: nat, v: Value)
    requires
        2 <= n <= u64::MAX,
    ensures
        inv_reads(pbft_run_init(n, v)),
{
    reveal(inv_reads);
    let s = pbft_run_init(n, v);
    assert(committed(s) =~= Set::<NodeId>::empty());
    assert forall|d: int| 0 <= d < s.n && !(#[trigger] s.nodes[d]).prepared implies s.nodes[d].prepares.dom().len()
        < quorum(n) || s.nodes[d].prepares.dom() == Set::<NodeId>::empty().insert(d as NodeId) by {
        assert(s.nodes[d].prepares.dom() =~= Set::<NodeId>::empty());
    }
}

/// A node that reads a commit from `x` and with it reaches a quorum of
/// commits has already committed itself.
proof fn lemma_decides_after_commit(s: PbftRun, j: int, x: NodeId)
    requires
        inv(s),
        inv_reads(s),
        0 <= j < s.n,
        j == 0 ==> s.opened == 2,
        s.queues[j].len() > 0,
        s.queues[j][0] == commit_entry(x, s.value),
    ensures
        s.nodes[j].prepared,
{
    reveal(inv);
    reveal(inv_reads);
    let n = s.n;
    let q = quorum(n);
    let jj = j as NodeId;
    let old = s.nodes[j];
    assert(s.queues[j][0] == s.queues[j][0]);
    assert(x < n && x != j && committed(s).contains(x));
    assert(s.prepare_sent.contains(jj)) by {
        if j >= 1 && !s.prepare_sent.contains(jj) {
            assert(s.queues[j][0] == pp_entry(s.value));
        }
    }
    assert(old.prepares.dom().contains(jj));
    let pt = s.prepared_with[x];
    assert(pt.contains(x));
    assert(pt.subset_of(old.prepares.dom())) by {
        assert forall|w: NodeId| pt.contains(w) implies old.prepares.dom().contains(w) by {
            if w != jj {
                assert(s.queues[j][0].1 is Commit);
                assert(s.prepared_with[s.queues[j][0].0].contains(w));
            }
        }
    }
    lemma_within(s.prepare_sent, n);
    assert(old.prepares.dom().subset_of(s.prepare_sent));
    lemma_len_mono(pt, old.prepares.dom(), n);
    if !old.prepared {
        assert(old.prepares.dom() == Set::<NodeId>::empty().insert(jj));
        assert(old.prepares.dom().contains(x));
    }
}

/// One step keeps `inv_reads`.
pub(crate) proof fn lemma_reads_step(s: PbftRun, t: PbftRun)
    requires
        inv(s),
        inv_reads(s),
        pbft_run_step(s, t),
    ensures
        inv_reads(t),
{
    lemma_step(s, t);
    reveal(inv);
    reveal(inv_reads);
    let n = s.n;
    let v = s.value;
    let q = quorum(n);
    lemma_others_form_quorum(n);
    if pbft_run_open(s, t) {
        let p = s.nodes[0];
        reveal_with_fuel(post, 2);
        assert(committed(t) == committed(s));
        assert(t.prepared_with == s.prepared_with);
        if s.opened == 0 {
            let m = PbftMsg::PrePrepare { seq: p.seq, value: p.value };
            let out = seq![Outgoing::Broadcast(m)];
            assert(out.drop_first().len() == 0);
            assert forall|d: int| 1 <= d < n implies #[trigger] t.queues[d] == s.queues[d].push((0 as NodeId, m)) by {}
            assert forall|d: int|
                1 <= d < t.n && !t.prepare_sent.contains(d as NodeId) && t.opened >= 1 implies t.queues[d].len() > 0
                    && t.queues[d][0] == pp_entry(t.value) by {
                assert(s.queues[d].len() == 0);
            }
        } else {
            let m = PbftMsg::Prepare { seq: p.seq, sender: p.node_id, value: p.value };
            let out = seq![Outgoing::Broadcast(m)];
            assert(out.drop_first().len() == 0);
            assert forall|d: int| 1 <= d < n implies #[trigger] t.queues[d] == s.queues[d].push((0 as NodeId, m)) by {}
            assert(t.nodes[0].prepares.dom() =~= Set::<NodeId>::empty().insert(0));
            assert forall|d: int| 0 <= d < t.n && !(#[trigger] t.nodes[d]).prepared implies t.nodes[d].prepares.dom().len()
                < q || t.nodes[d].prepares.dom() == Set::<NodeId>::empty().insert(d as NodeId) by {
                assert(s.nodes[d] == s.nodes[d]);
            }
            assert forall|d: int| 0 <= d < t.n && (#[trigger] t.nodes[d]).decided implies t.nodes[d].prepared by {
                assert(s.nodes[d] == s.nodes[d]);
            }
            assert forall|d: int|
                1 <= d < t.n && !t.prepare_sent.contains(d as NodeId) implies {
                    let nd = #[trigger] t.nodes[d];
                    &&& nd.prepares == Map::<NodeId, Value>::empty()
                    &&& nd.commits == Map::<NodeId, Value>::empty()
                    &&& !nd.prepared
                    &&& !nd.decided
                    &&& t.opened >= 1 ==> t.queues[d].len() > 0 && t.queues[d][0] == pp_entry(t.value)
                } by {
                assert(s.nodes[d] == s.nodes[d]);
            }
        }
    } else {
        reveal(pbft_run_deliver);
        let j = choose|j: int| pbft_run_deliver(s, j, t);
        let (node, out, d) = choose|node: PbftView, out: Seq<Outgoing<PbftMsg>>, d: Option<Value>|
            #[trigger] pbft_transition(s.nodes[j], s.queues[j][0].0, s.queues[j][0].1, node, out, d)
                && t == pbft_run_after(s, j, node, out, d);
        let old = s.nodes[j];
        let jj = j as NodeId;
        let (f, m) = s.queues[j][0];
        assert(s.opened >= 1) by {
            if s.opened == 0 {
                assert(s.queues[j].len() == 0);
            }
        }
        crate::pbft::lemma_pbft_react(old, f, m, node, out, d);
        assert(s.queues[j][0] == s.queues[j][0]);
        let fresh = j >= 1 && !s.prepare_sent.contains(jj);
        if fresh {
            assert(s.queues[j][0] == pp_entry(v));
            assert(node.prepares.dom() =~= Set::<NodeId>::empty().insert(jj));
        }
        if !fresh {
            assert(s.prepare_sent.contains(jj) || j == 0);
            assert(s.prepare_sent.contains(jj));
            assert(old.prepares.dom().contains(jj));
        }
        // the channels of the others only grow at their tail
        lemma_queues_after(s, j, node, out, d);
        // a commit read that decides comes after the node's own commit
        if node.decided && !old.decided {
            assert(m is Commit);
            lemma_decides_after_commit(s, j, f);
        }
        if node.prepared && !old.prepared {
            assert(m is Prepare);
            assert(node.prepares.dom().contains(jj));
            assert(committed(t) == committed(s).insert(jj));
        } else {
            assert(committed(t) == committed(s));
        }
        if !node.prepared {
            lemma_within(s.prepare_sent, n);
            if m is Prepare && !fresh {
                assert(node.prepares.dom().subset_of(s.prepare_sent));
                lemma_uniform_reach(node.prepares, q, v);
            }
        }
        assert forall|k: int|
            1 <= k < t.n && !t.prepare_sent.contains(k as NodeId) implies {
                let nd = #[trigger] t.nodes[k];
                &&& nd.prepares == Map::<NodeId, Value>::empty()
                &&& nd.commits == Map::<NodeId, Value>::empty()
                &&& !nd.prepared
                &&& !nd.decided
                &&& t.opened >= 1 ==> t.queues[k].len() > 0 && t.queues[k][0] == pp_entry(t.value)
            } by {
            assert(s.nodes[k] == s.nodes[k]);
            assert(k != j);
            assert(s.queues[k].len() > 0);
            assert(t.queues[k][0] == s.queues[k][0]);
        }
        assert forall|k: int| 0 <= k < t.n && !(#[trigger] t.nodes[k]).prepared implies t.nodes[k].prepares.dom().len()
            < q || t.nodes[k].prepares.dom() == Set::<NodeId>::empty().insert(k as NodeId) by {
            assert(s.nodes[k] == s.nodes[k]);
        }
        assert forall|k: int| 0 <= k < t.n && (#[trigger] t.nodes[k]).decided implies t.nodes[k].prepared by {
            assert(s.nodes[k] == s.nodes[k]);
        }
    }
}

/// Every PBFT run of `n >= 2` nodes comes to rest, whatever order the
/// channels are read in: it holds at most `(n - 1) * (2n + 1) + 3` states,
/// and a run that is not at rest can always take another step.
pub proof fn lemma_pbft_run_terminates(n: nat, value: Value, trace: Seq<PbftRun>)
    requires
        2 <= n <= u64::MAX,
        pbft_run_trace(n, value, trace),
    ensures
        trace.len() <= (n - 1) * (2 * n + 1) + 3,
        !pbft_run_quiescent(trace.last()) ==> exists|t: PbftRun| pbft_run_step(trace.last(), t),
{
    lemma_trace_inv(n, value, trace, trace.len() - 1);
    let s = trace.last();
    lemma_counts_bound(s);
    lemma_shape(s);
    if !pbft_run_quiescent(s) {
        let t = lemma_next(s);
        assert(pbft_run_step(s, t));
    }
}

/// A run the invariant holds of that is not at rest can take a step.
proof fn lemma_next(s: PbftRun) -> (t: PbftRun)
    requires
        inv(s),
        !pbft_run_quiescent(s),
    ensures
        pbft_run_step(s, t),
{
    lemma_shape(s);
    let p = s.nodes[0];
    if s.opened == 0 {
        let t = PbftRun {
            queues: post(s.queues, 0, seq![Outgoing::Broadcast(PbftMsg::PrePrepare { seq: p.seq, value: p.value })]),
            opened: 1,
            sent: (s.sent + s.n - 1) as nat,
            ..s
        };
        assert(pbft_run_open(s, t));
        t
    } else if s.opened == 1 {
        let t = PbftRun {
            nodes: s.nodes.update(0, PbftView { prepares: p.prepares.insert(p.node_id, p.value), ..p }),
            queues: post(
                s.queues,
                0,
                seq![Outgoing::Broadcast(PbftMsg::Prepare { seq: p.seq, sender: p.node_id, value: p.value })],
            ),
            opened: 2,
            prepare_sent: s.prepare_sent.insert(0),
            sent: (s.sent + s.n - 1) as nat,
            ..s
        };
        assert(pbft_run_open(s, t));
        t
    } else {
        assert(s.opened == 2) by {
            reveal(inv);
        }
        let j = choose|j: int| 0 <= j < s.nodes.len() && !(#[trigger] s.nodes[j]).decided && s.queues[j].len() != 0;
        let (f, m) = s.queues[j][0];
        let r = crate::pbft::pbft_react(s.nodes[j], f, m);
        crate::pbft::lemma_pbft_react(s.nodes[j], f, m, r.0, r.1, r.2);
        let t = pbft_run_after(s, j, r.0, r.1, r.2);
        assert(pbft_run_deliver(s, j, t)) by {
            reveal(pbft_run_deliver);
            assert(pbft_transition(s.nodes[j], s.queues[j][0].0, s.queues[j][0].1, r.0, r.1, r.2));
        }
        t
    }
}

/// A run at rest that the invariants hold of has handed exactly
/// `(n - 1) * (2n + 1)` messages to the channels.
pub(crate) proof fn lemma_rest_count(s: PbftRun)
    requires
        inv(s),
        inv_counts(s),
        inv_reads(s),
        pbft_run_quiescent(s),
    ensures
        s.sent == (s.n - 1) * (2 * s.n + 1),
{
    let n = s.n;
    lemma_quiescent(s);
    reveal(inv);
    reveal(inv_reads);
    reveal(inv_counts);
    lemma_ids(n);
    assert(committed(s) =~= ids(n)) by {
        assert forall|k: NodeId| ids(n).contains(k) implies committed(s).contains(k) by {
            assert(s.nodes[k as int].decided);
            assert(s.nodes[k as int].prepared);
        }
    }
    assert(s.prepare_sent =~= ids(n)) by {
        assert forall|k: NodeId| ids(n).contains(k) implies s.prepare_sent.contains(k) by {
            assert(s.nodes[k as int].decided);
        }
    }
    let x = proposed(s) + s.prepare_sent.len() + committed(s).len();
    assert(x == 2 * n + 1);
}

/// A PBFT run of `n >= 2` nodes that has come to rest has handed exactly
/// `(n - 1) * (2n + 1)` messages to the channels, whatever order they were
/// read in: the proposal, a prepare from every node and a commit from every
/// node, each to the `n - 1` others.
pub proof fn lemma_pbft_run_message_count(n: nat, value: Value, trace: Seq<PbftRun>)
    requires
        2 <= n <= u64::MAX,
        pbft_run_trace(n, value, trace),
    ensures
        pbft_run_quiescent(trace.last()) ==> trace.last().sent == (n - 1) * (2 * n + 1),
{
    lemma_trace_inv(n, value, trace, trace.len() - 1);
    if pbft_run_quiescent(trace.last()) {
        lemma_rest_count(trace.last());
    }
}

} // verus!
