use vstd::prelude::*;

use crate::hotstuff::{carries_value, hs_leader_transition, hs_replica_transition, HsLeaderView, HsMsg, HsPhase, HsReplicaView};
use crate::quorum::{lemma_others_form_quorum, quorum};
use crate::step::{lemma_queued_nonnegative, lemma_queued_post, lemma_queued_update, post, post_count, queued, queued_upto, Outgoing};
use crate::tally::reaches_quorum;
use crate::types::{NodeId, Value};

verus! {

/// A run of a HotStuff cluster of `n` nodes as the network carries it: one
/// FIFO channel per node, a broadcast reaching every channel at once (the
/// network's lock keeps other sends out meanwhile), and a node that has
/// decided reading no more. Node 0 leads and node `i + 1` is replica `i`.
/// The last six fields record the run's history.
///
/// A step is one node reading one message and reacting to it at once. In
/// the network a node reads, updates its own state, and only then hands its
/// messages over, under the network's lock, while the other nodes go on.
/// Every such execution is one of these runs: no node reads another's
/// state, the message a node has read stays at the head of its channel
/// whatever others append behind it, and a step sends at most one message,
/// so each step can be taken at the moment its message enters the
/// channels, or at its read if it sends nothing. The leader's opening sends
/// one message before any other node can act, so the run starts after it.
/// Module `hs_split` models the read and the hand-over as separate events
/// and proves the same laws there.
pub struct HsRun {
    pub n: nat,
    pub value: Value,
    pub leader: HsLeaderView,
    /// `replicas[i]` is node `i + 1`.
    pub replicas: Seq<HsReplicaView>,
    /// `queues[j]`: the messages sent to node `j` and not read yet, oldest first.
    pub queues: Seq<Seq<(NodeId, HsMsg)>>,
    /// What each node that has decided decided.
    pub decisions: Map<NodeId, Value>,
    /// Every message the leader has broadcast, in order.
    pub broadcasts: Seq<HsMsg>,
    /// `read[i]`: how many of the leader's messages replica `i` has read.
    pub read: Seq<nat>,
    /// The votes replicas have sent, by sender and phase.
    pub votes_sent: Set<(NodeId, HsPhase)>,
    /// The votes the leader has read, by sender and phase.
    pub votes_read: Set<(NodeId, HsPhase)>,
    /// How many messages the run has handed to the channels.
    pub sent: nat,
    /// How many messages the nodes have read.
    pub reads: nat,
}

/// The messages of `out`, without their addresses.
pub open spec fn payloads(out: Seq<Outgoing<HsMsg>>) -> Seq<HsMsg> {
    out.map_values(|o: Outgoing<HsMsg>| match o {
        Outgoing::Broadcast(m) => m,
        Outgoing::SendTo(_, m) => m,
    })
}

/// The run just after the leader of a fresh cluster of `n` nodes holding
/// `value` has proposed.
pub open spec fn hs_run_init(n: nat, value: Value) -> HsRun {
    HsRun {
        n,
        value,
        leader: HsLeaderView {
            node_id: 0,
            value,
            quorum: quorum(n),
            prepare_votes: Map::empty(),
            precommit_votes: Map::empty(),
            commit_votes: Map::empty(),
            precommit_sent: false,
            commit_sent: false,
            decided: false,
        },
        replicas: Seq::new(
            (n - 1) as nat,
            |i: int| HsReplicaView { node_id: (i + 1) as NodeId, leader_id: 0, decided: false },
        ),
        queues: Seq::new(
            n,
            |j: int| if j == 0 { Seq::empty() } else { seq![(0 as NodeId, HsMsg::Prepare { value })] },
        ),
        decisions: Map::empty(),
        broadcasts: seq![HsMsg::Prepare { value }],
        read: Seq::new((n - 1) as nat, |i: int| 0nat),
        votes_sent: Set::empty(),
        votes_read: Set::empty(),
        sent: (n - 1) as nat,
        reads: 0,
    }
}

/// Node `j` of `s`, which has not decided, reads the oldest message of its
/// channel and reacts to it as its `handle` does, giving `t`.
#[verifier::opaque]
pub open spec fn hs_run_deliver(s: HsRun, j: int, t: HsRun) -> bool {
    &&& 0 <= j < s.n
    &&& s.queues.len() == s.n
    &&& s.queues[j].len() > 0
    &&& {
        let (from, msg) = s.queues[j][0];
        let rest = s.queues.update(j, s.queues[j].drop_first());
        if j == 0 {
            &&& !s.leader.decided
            &&& exists|out: Seq<Outgoing<HsMsg>>, d: Option<Value>|
                {
                    &&& #[trigger] hs_leader_transition(s.leader, msg, t.leader, out, d)
                    &&& t == HsRun {
                        leader: t.leader,
                        queues: post(rest, 0, out),
                        decisions: if d is Some { s.decisions.insert(0, d->0) } else { s.decisions },
                        broadcasts: s.broadcasts + payloads(out),
                        votes_read: if msg is Vote { s.votes_read.insert((msg->sender, msg->phase)) } else { s.votes_read },
                        sent: (s.sent + post_count(s.n, out)) as nat,
                        reads: s.reads + 1,
                        ..s
                    }
                }
        } else {
            let i = j - 1;
            &&& 0 <= i < s.replicas.len()
            &&& !s.replicas[i].decided
            &&& if from != s.replicas[i].leader_id {
                t == HsRun { queues: rest, reads: s.reads + 1, ..s }
            } else {
                exists|r2: HsReplicaView, out: Seq<Outgoing<HsMsg>>, d: Option<Value>|
                    {
                        &&& #[trigger] hs_replica_transition(s.replicas[i], msg, r2, out, d)
                        &&& t == HsRun {
                            replicas: s.replicas.update(i, r2),
                            queues: post(rest, j as NodeId, out),
                            decisions: if d is Some { s.decisions.insert(j as NodeId, d->0) } else { s.decisions },
                            read: s.read.update(i, s.read[i] + 1),
                            votes_sent: if out.len() > 0 {
                                s.votes_sent.insert((j as NodeId, vote_phase(msg)))
                            } else {
                                s.votes_sent
                            },
                            sent: (s.sent + post_count(s.n, out)) as nat,
                            reads: s.reads + 1,
                            ..s
                        }
                    }
            }
        }
    }
}

/// The phase a replica votes in when it reads the leader's `m`.
pub open spec fn vote_phase(m: HsMsg) -> HsPhase {
    match m {
        HsMsg::PreCommit { .. } => HsPhase::PreCommit,
        HsMsg::Commit { .. } => HsPhase::Commit,
        _ => HsPhase::Prepare,
    }
}

/// `t` follows `s` by one node reading one message.
pub open spec fn hs_run_step(s: HsRun, t: HsRun) -> bool {
    exists|j: int| hs_run_deliver(s, j, t)
}

/// `trace` is a run of a cluster of `n` nodes whose leader holds `value`,
/// from the leader's proposal on, one message read at a time.
pub open spec fn hs_run_trace(n: nat, value: Value, trace: Seq<HsRun>) -> bool {
    &&& trace.len() >= 1
    &&& trace[0] == hs_run_init(n, value)
    &&& forall|i: int| 0 <= i < trace.len() - 1 ==> hs_run_step(#[trigger] trace[i], trace[i + 1])
}

/// No node that has not decided has a message left to read.
pub open spec fn hs_run_quiescent(s: HsRun) -> bool {
    &&& !s.leader.decided ==> s.queues[0].len() == 0
    &&& forall|i: int| 0 <= i < s.replicas.len() && !(#[trigger] s.replicas[i]).decided ==> s.queues[i + 1].len() == 0
}

/// The leader's message that opens phase `k`: the proposal, the two
/// certificates and the decision.
spec fn cert(k: int, v: Value) -> HsMsg {
    if k == 0 {
        HsMsg::Prepare { value: v }
    } else if k == 1 {
        HsMsg::PreCommit { value: v }
    } else if k == 2 {
        HsMsg::Commit { value: v }
    } else {
        HsMsg::Decide { value: v }
    }
}

spec fn phase_of(k: int) -> HsPhase {
    if k == 0 {
        HsPhase::Prepare
    } else if k == 1 {
        HsPhase::PreCommit
    } else {
        HsPhase::Commit
    }
}

spec fn phase_index(p: HsPhase) -> int {
    match p {
        HsPhase::Prepare => 0,
        HsPhase::PreCommit => 1,
        HsPhase::Commit => 2,
    }
}

/// The last phase the leader has opened.
spec fn stage(b: Seq<HsMsg>, v: Value) -> int {
    if b.contains(cert(3, v)) {
        3
    } else if b.contains(cert(2, v)) {
        2
    } else if b.contains(cert(1, v)) {
        1
    } else {
        0
    }
}

spec fn tally(l: HsLeaderView, k: int) -> Map<NodeId, Value> {
    if k == 0 {
        l.prepare_votes
    } else if k == 1 {
        l.precommit_votes
    } else {
        l.commit_votes
    }
}

/// The replicas whose vote in phase `k` the leader has read.
spec fn voters(s: HsRun, k: int) -> Set<NodeId> {
    Set::new(|r: NodeId| s.votes_read.contains((r, phase_of(k))))
}

spec fn replica_channel(b: Seq<HsMsg>, from: nat) -> Seq<(NodeId, HsMsg)> {
    b.subrange(from as int, b.len() as int).map_values(|m: HsMsg| (0 as NodeId, m))
}

spec fn inv_shape(s: HsRun) -> bool {
    &&& 2 <= s.n <= u64::MAX
    &&& s.replicas.len() == s.n - 1
    &&& s.read.len() == s.n - 1
    &&& s.queues.len() == s.n
    &&& s.leader.node_id == 0
    &&& s.leader.value == s.value
    &&& s.leader.quorum == quorum(s.n)
    &&& forall|i: int|
        0 <= i < s.replicas.len() ==> (#[trigger] s.replicas[i]).node_id == i + 1 && s.replicas[i].leader_id
            == 0
}

spec fn inv_broadcasts(s: HsRun) -> bool {
    let b = s.broadcasts;
    let v = s.value;
    &&& b.len() >= 1
    &&& b[0] == cert(0, v)
    &&& forall|k: int| 0 <= k < b.len() ==> carries_value(#[trigger] b[k], v)
    &&& s.leader.decided == b.contains(cert(3, v))
    &&& s.leader.decided ==> b.last() == cert(3, v)
    &&& forall|k: int| 0 <= k < b.len() - 1 ==> #[trigger] b[k] != cert(3, v)
    &&& forall|k: int| 0 <= k <= 3 ==> (b.contains(#[trigger] cert(k, v)) <==> k <= stage(b, v))
    &&& s.leader.precommit_sent == b.contains(cert(1, v))
    &&& s.leader.commit_sent == b.contains(cert(2, v))
}

spec fn inv_replicas(s: HsRun) -> bool {
    forall|i: int|
        0 <= i < s.replicas.len() ==> {
            &&& #[trigger] s.read[i] <= s.broadcasts.len()
            &&& s.queues[i + 1] == replica_channel(s.broadcasts, s.read[i])
            &&& s.replicas[i].decided == (s.leader.decided && s.read[i] == s.broadcasts.len())
        }
}

spec fn inv_votes(s: HsRun) -> bool {
    let v = s.value;
    &&& forall|r: NodeId, p: HsPhase|
        #[trigger] s.votes_sent.contains((r, p)) <==> {
            &&& 1 <= r < s.n
            &&& exists|k: int| 0 <= k < s.read[r - 1] && s.broadcasts[k] == cert(phase_index(p), v)
        }
    &&& forall|e: int|
        0 <= e < s.queues[0].len() ==> {
            let (r, m) = #[trigger] s.queues[0][e];
            &&& m is Vote
            &&& m == (HsMsg::Vote { phase: m->phase, sender: r, value: v })
            &&& s.votes_sent.contains((r, m->phase))
        }
    &&& forall|r: NodeId, p: HsPhase|
        #[trigger] s.votes_sent.contains((r, p)) ==> s.votes_read.contains((r, p))
            || s.queues[0].contains((r, HsMsg::Vote { phase: p, sender: r, value: v }))
    &&& forall|r: NodeId, p: HsPhase| #[trigger] s.votes_read.contains((r, p)) ==> s.votes_sent.contains((r, p))
}

spec fn inv_tallies(s: HsRun) -> bool {
    let k = stage(s.broadcasts, s.value);
    &&& !s.leader.decided ==> {
        &&& tally(s.leader, k) == Map::new(|r: NodeId| voters(s, k).contains(r), |r: NodeId| s.value)
        &&& voters(s, k).len() < s.leader.quorum
    }
    &&& forall|k2: int| k < k2 <= 2 ==> #[trigger] tally(s.leader, k2) == Map::<NodeId, Value>::empty()
}

spec fn inv_decisions(s: HsRun) -> bool {
    &&& forall|id: NodeId|
        #[trigger] s.decisions.contains_key(id) <==> (id == 0 && s.leader.decided) || (1 <= id < s.n
            && s.replicas[id - 1].decided)
    &&& forall|id: NodeId| #[trigger] s.decisions.contains_key(id) ==> s.decisions[id] == s.value
}

#[verifier::opaque]
spec fn inv(s: HsRun) -> bool {
    &&& inv_shape(s)
    &&& inv_broadcasts(s)
    &&& inv_replicas(s)
    &&& inv_votes(s)
    &&& inv_tallies(s)
    &&& inv_decisions(s)
}

proof fn lemma_init(n: nat, v: Value)
    requires
        2 <= n <= u64::MAX,
    ensures
        inv(hs_run_init(n, v)),
{
    reveal(inv);
    let s = hs_run_init(n, v);
    assert(inv_shape(s));
    assert(s.broadcasts.contains(cert(0, v))) by {
        assert(s.broadcasts[0] == cert(0, v));
    }
    assert(stage(s.broadcasts, v) == 0) by {
        if s.broadcasts.contains(cert(3, v)) {
            let k = choose|k: int| 0 <= k < s.broadcasts.len() && s.broadcasts[k] == cert(3, v);
            assert(k == 0);
        }
        if s.broadcasts.contains(cert(2, v)) {
            let k = choose|k: int| 0 <= k < s.broadcasts.len() && s.broadcasts[k] == cert(2, v);
            assert(k == 0);
        }
        if s.broadcasts.contains(cert(1, v)) {
            let k = choose|k: int| 0 <= k < s.broadcasts.len() && s.broadcasts[k] == cert(1, v);
            assert(k == 0);
        }
    }
    assert(inv_broadcasts(s));
    assert forall|i: int| 0 <= i < s.replicas.len() implies s.queues[i + 1] == replica_channel(
        s.broadcasts,
        s.read[i],
    ) by {
        assert(s.queues[i + 1] =~= replica_channel(s.broadcasts, s.read[i]));
    }
    assert(inv_replicas(s));
    assert(inv_votes(s));
    assert(voters(s, 0) =~= Set::empty());
    assert(tally(s.leader, 0) =~= Map::new(|r: NodeId| voters(s, 0).contains(r), |r: NodeId| s.value));
    assert(inv_tallies(s));
    assert(inv_decisions(s));
}

proof fn lemma_channel_push(b: Seq<HsMsg>, from: nat, m: HsMsg)
    requires
        from <= b.len(),
    ensures
        replica_channel(b.push(m), from) == replica_channel(b, from).push((0 as NodeId, m)),
{
    assert(replica_channel(b.push(m), from) =~= replica_channel(b, from).push((0 as NodeId, m)));
}

proof fn lemma_channel_pop(b: Seq<HsMsg>, from: nat)
    requires
        from < b.len(),
    ensures
        replica_channel(b, from).len() > 0,
        replica_channel(b, from)[0] == (0 as NodeId, b[from as int]),
        replica_channel(b, from).drop_first() == replica_channel(b, from + 1),
{
    assert(replica_channel(b, from).drop_first() =~= replica_channel(b, from + 1));
}

/// A tally in which exactly the senders of `voters` voted, all for `v`.
spec fn uniform(voters: Set<NodeId>, v: Value) -> Map<NodeId, Value> {
    Map::new(|r: NodeId| voters.contains(r), |r: NodeId| v)
}

proof fn lemma_uniform(voters: Set<NodeId>, v: Value, q: nat)
    requires
        voters.finite(),
    ensures
        reaches_quorum(uniform(voters, v), q, v) <==> voters.len() >= q,
{
    let m = uniform(voters, v);
    assert(m.dom() =~= voters);
    assert(m.dom().filter(crate::tally::voted_for(m, v)) =~= voters);
}

proof fn lemma_replica_step(s: HsRun, j: int, t: HsRun)
    requires
        inv(s),
        hs_run_deliver(s, j, t),
        j >= 1,
    ensures
        inv(t),
{
    reveal(inv);
    reveal(hs_run_deliver);
    let b = s.broadcasts;
    let v = s.value;
    let i = j - 1;
    assert(s.read[i] <= b.len());
    let ri = s.read[i];
    assert(ri < b.len()) by {
        assert(replica_channel(b, ri).len() == b.len() - ri);
    }
    lemma_channel_pop(b, ri);
    let (from, msg) = s.queues[j][0];
    assert(from == 0 && msg == b[ri as int]);
    let rest = s.queues.update(j, s.queues[j].drop_first());
    assert(s.replicas[i].leader_id == 0);
    let (r2, out, d) = choose|r2: HsReplicaView, out: Seq<Outgoing<HsMsg>>, d: Option<Value>|
        {
            &&& #[trigger] hs_replica_transition(s.replicas[i], msg, r2, out, d)
            &&& t == HsRun {
                replicas: s.replicas.update(i, r2),
                queues: post(rest, j as NodeId, out),
                decisions: if d is Some { s.decisions.insert(j as NodeId, d->0) } else { s.decisions },
                read: s.read.update(i, s.read[i] + 1),
                votes_sent: if out.len() > 0 {
                    s.votes_sent.insert((j as NodeId, vote_phase(msg)))
                } else {
                    s.votes_sent
                },
                sent: (s.sent + post_count(s.n, out)) as nat,
                reads: s.reads + 1,
                ..s
            }
        };
    assert(carries_value(msg, v));
    reveal_with_fuel(post, 2);
    // the replica's channel loses its oldest message
    assert(t.queues[j] == replica_channel(b, ri + 1));
    assert(inv_shape(t));
    assert(inv_broadcasts(t));
    if msg is Decide {
        assert(msg == cert(3, v));
        assert(ri == b.len() - 1);
        assert(b.contains(cert(3, v)));
        assert(t.queues =~= rest);
        assert forall|i2: int| 0 <= i2 < t.replicas.len() implies {
            &&& #[trigger] t.read[i2] <= t.broadcasts.len()
            &&& t.queues[i2 + 1] == replica_channel(t.broadcasts, t.read[i2])
            &&& t.replicas[i2].decided == (t.leader.decided && t.read[i2] == t.broadcasts.len())
        } by {
            assert(s.read[i2] <= b.len());
        }
        assert(inv_replicas(t));
        assert forall|r: NodeId, p: HsPhase|
            #[trigger] t.votes_sent.contains((r, p)) <==> {
                &&& 1 <= r < t.n
                &&& exists|k: int| 0 <= k < t.read[r - 1] && t.broadcasts[k] == cert(phase_index(p), v)
            } by {
            if 1 <= r < t.n && r - 1 == i {
                if exists|k: int| 0 <= k < t.read[r - 1] && t.broadcasts[k] == cert(phase_index(p), v) {
                    let k = choose|k: int| 0 <= k < t.read[r - 1] && t.broadcasts[k] == cert(phase_index(p), v);
                    assert(k != ri);
                    assert(0 <= k < s.read[r - 1]);
                }
            }
        }
        assert(inv_votes(t));
        assert(voters(t, stage(b, v)) == voters(s, stage(b, v)));
        assert(inv_tallies(t));
        assert forall|id: NodeId|
            #[trigger] t.decisions.contains_key(id) <==> (id == 0 && t.leader.decided) || (1 <= id < t.n
                && t.replicas[id - 1].decided) by {
            if 1 <= id < t.n && id - 1 != i {
                assert(t.replicas[id - 1] == s.replicas[id - 1]);
            }
        }
        assert(inv_decisions(t));
    } else {
        let k = phase_index(vote_phase(msg));
        assert(msg == cert(k, v));
        let vote = HsMsg::Vote { phase: vote_phase(msg), sender: j as NodeId, value: v };
        assert(out == seq![Outgoing::SendTo(0, vote)]);
        assert(t.queues == rest.update(0, rest[0].push((j as NodeId, vote))));
        assert(ri + 1 < b.len() || !s.leader.decided) by {
            if s.leader.decided && ri + 1 == b.len() {
                assert(b.last() == cert(3, v));
            }
        }
        assert forall|i2: int| 0 <= i2 < t.replicas.len() implies {
            &&& #[trigger] t.read[i2] <= t.broadcasts.len()
            &&& t.queues[i2 + 1] == replica_channel(t.broadcasts, t.read[i2])
            &&& t.replicas[i2].decided == (t.leader.decided && t.read[i2] == t.broadcasts.len())
        } by {
            assert(s.read[i2] <= b.len());
        }
        assert(inv_replicas(t));
        assert forall|r: NodeId, p: HsPhase|
            #[trigger] t.votes_sent.contains((r, p)) <==> {
                &&& 1 <= r < t.n
                &&& exists|k2: int| 0 <= k2 < t.read[r - 1] && t.broadcasts[k2] == cert(phase_index(p), v)
            } by {
            if 1 <= r < t.n && r - 1 == i {
                if p == vote_phase(msg) {
                    assert(0 <= ri < t.read[r - 1] && t.broadcasts[ri as int] == cert(phase_index(p), v));
                } else if exists|k2: int| 0 <= k2 < t.read[r - 1] && t.broadcasts[k2] == cert(phase_index(p), v) {
                    let k2 = choose|k2: int| 0 <= k2 < t.read[r - 1] && t.broadcasts[k2] == cert(phase_index(p), v);
                    assert(k2 != ri);
                    assert(0 <= k2 < s.read[r - 1]);
                }
            }
        }
        assert forall|e: int| 0 <= e < t.queues[0].len() implies {
            let (r, m) = #[trigger] t.queues[0][e];
            &&& m is Vote
            &&& m == (HsMsg::Vote { phase: m->phase, sender: r, value: v })
            &&& t.votes_sent.contains((r, m->phase))
        } by {
            if e < s.queues[0].len() {
                assert(t.queues[0][e] == s.queues[0][e]);
            }
        }
        assert forall|r: NodeId, p: HsPhase|
            #[trigger] t.votes_sent.contains((r, p)) implies t.votes_read.contains((r, p))
                || t.queues[0].contains((r, HsMsg::Vote { phase: p, sender: r, value: v })) by {
            let w = (r, HsMsg::Vote { phase: p, sender: r, value: v });
            if (r, p) == (j as NodeId, vote_phase(msg)) {
                assert(t.queues[0][t.queues[0].len() - 1] == w);
            } else if !s.votes_read.contains((r, p)) {
                assert(s.queues[0].contains(w));
                let e = choose|e: int| 0 <= e < s.queues[0].len() && s.queues[0][e] == w;
                assert(t.queues[0][e] == w);
            }
        }
        assert(inv_votes(t));
        assert(voters(t, stage(b, v)) == voters(s, stage(b, v)));
        assert(inv_tallies(t));
        assert forall|id: NodeId|
            #[trigger] t.decisions.contains_key(id) <==> (id == 0 && t.leader.decided) || (1 <= id < t.n
                && t.replicas[id - 1].decided) by {
            if 1 <= id < t.n && id - 1 != i {
                assert(t.replicas[id - 1] == s.replicas[id - 1]);
            }
        }
        assert(inv_decisions(t));
    }
}

proof fn lemma_voters_finite(s: HsRun, k: int)
    requires
        inv(s),
    ensures
        voters(s, k).finite(),
        voters(s, k).subset_of(Set::<NodeId>::range(1, s.n as NodeId)),
{
    reveal(inv);
    assert forall|r: NodeId| voters(s, k).contains(r) implies Set::<NodeId>::range(1, s.n as NodeId).contains(r) by {
        assert(s.votes_sent.contains((r, phase_of(k))));
    }
    vstd::set_lib::range_set_properties::<NodeId>(1, s.n as NodeId);
    vstd::set_lib::lemma_len_subset(voters(s, k), Set::<NodeId>::range(1, s.n as NodeId));
}

proof fn lemma_leader_step(s: HsRun, t: HsRun)
    requires
        inv(s),
        hs_run_deliver(s, 0, t),
    ensures
        inv(t),
{
    reveal(inv);
    reveal(hs_run_deliver);
    let b = s.broadcasts;
    let v = s.value;
    let kk = stage(b, v);
    let (r, msg) = s.queues[0][0];
    assert(msg is Vote && msg == (HsMsg::Vote { phase: msg->phase, sender: r, value: v }));
    let p = msg->phase;
    let k = phase_index(p);
    assert(s.votes_sent.contains((r, p)));
    assert(1 <= r < s.n);
    let idx = choose|idx: int| 0 <= idx < s.read[r - 1] && b[idx] == cert(k, v);
    assert(s.read[r - 1] <= b.len());
    assert(b.contains(cert(k, v)));
    assert(k <= kk);
    let rest = s.queues.update(0, s.queues[0].drop_first());
    let (out, d) = choose|out: Seq<Outgoing<HsMsg>>, d: Option<Value>|
        {
            &&& #[trigger] hs_leader_transition(s.leader, msg, t.leader, out, d)
            &&& t == HsRun {
                leader: t.leader,
                queues: post(rest, 0, out),
                decisions: if d is Some { s.decisions.insert(0, d->0) } else { s.decisions },
                broadcasts: s.broadcasts + payloads(out),
                votes_read: s.votes_read.insert((r, p)),
                sent: (s.sent + post_count(s.n, out)) as nat,
                reads: s.reads + 1,
                ..s
            }
        };
    reveal_with_fuel(post, 2);
    lemma_voters_finite(s, kk);
    assert(voters(t, kk) =~= if k == kk { voters(s, kk).insert(r) } else { voters(s, kk) });
    assert(!s.leader.decided);
    assert(!b.contains(cert(3, v)));
    assert(inv_shape(t));
    // every message still queued at the leader, after the one it reads
    assert forall|e: int| 0 <= e < t.queues[0].len() implies t.queues[0][e] == s.queues[0][e + 1] by {}
    // votes: the vote read moves from the leader's channel to the votes read
    assert forall|e: int| 0 <= e < t.queues[0].len() implies {
        let (r1, m1) = #[trigger] t.queues[0][e];
        &&& m1 is Vote
        &&& m1 == (HsMsg::Vote { phase: m1->phase, sender: r1, value: v })
        &&& t.votes_sent.contains((r1, m1->phase))
    } by {
        assert(t.queues[0][e] == s.queues[0][e + 1]);
    }
    assert forall|r1: NodeId, p1: HsPhase|
        #[trigger] t.votes_sent.contains((r1, p1)) implies t.votes_read.contains((r1, p1))
            || t.queues[0].contains((r1, HsMsg::Vote { phase: p1, sender: r1, value: v })) by {
        let w = (r1, HsMsg::Vote { phase: p1, sender: r1, value: v });
        if (r1, p1) != (r, p) && !s.votes_read.contains((r1, p1)) {
            assert(s.queues[0].contains(w));
            let e = choose|e: int| 0 <= e < s.queues[0].len() && s.queues[0][e] == w;
            assert(e != 0);
            assert(t.queues[0][e - 1] == w);
        }
    }
    let new_tally = tally(s.leader, k).insert(r, v);
    if out.len() == 0 {
        assert(t.broadcasts =~= b);
        assert(t.queues =~= rest);
        assert(d is None);
        if k == kk && k < 2 {
            assert(!b.contains(cert(k + 1, v)));
        }
        assert(k == kk ==> !reaches_quorum(new_tally, s.leader.quorum, v));
        assert(inv_broadcasts(t));
        assert forall|i2: int| 0 <= i2 < t.replicas.len() implies {
            &&& #[trigger] t.read[i2] <= t.broadcasts.len()
            &&& t.queues[i2 + 1] == replica_channel(t.broadcasts, t.read[i2])
            &&& t.replicas[i2].decided == (t.leader.decided && t.read[i2] == t.broadcasts.len())
        } by {
            assert(s.read[i2] <= b.len());
        }
        assert(inv_replicas(t));
        assert(inv_votes(t));
        if k == kk {
            assert(new_tally =~= uniform(voters(t, kk), v));
            lemma_uniform(voters(t, kk), v, s.leader.quorum);
            assert(tally(t.leader, kk) == uniform(voters(t, kk), v));
        } else {
            assert(tally(t.leader, kk) == tally(s.leader, kk));
            assert(voters(t, kk) == voters(s, kk));
        }
        assert forall|k2: int| kk < k2 <= 2 implies #[trigger] tally(t.leader, k2) == Map::<NodeId, Value>::empty() by {
            assert(tally(t.leader, k2) == tally(s.leader, k2));
        }
        assert(inv_tallies(t));
        assert(inv_decisions(t));
    } else {
        assert(reaches_quorum(new_tally, s.leader.quorum, v));
        let m = cert(k + 1, v);
        assert(out == seq![Outgoing::Broadcast(m)]);
        assert(payloads(out) =~= seq![m]);
        assert(t.broadcasts =~= b.push(m));
        let b2 = t.broadcasts;
        assert(t.queues[0] == rest[0]);
        assert(forall|j: int| 1 <= j < t.n ==> #[trigger] t.queues[j] == rest[j].push((0 as NodeId, m)));
        // the leader certifies only the phase it is in, and opens the next
        assert(k == kk);
        assert(b2.contains(m)) by {
            assert(b2[b.len() as int] == m);
        }
        assert forall|x: int| 0 <= x <= 3 implies (b2.contains(#[trigger] cert(x, v)) <==> b.contains(cert(x, v)) || x == k + 1) by {
            if b2.contains(cert(x, v)) && x != k + 1 {
                let e = choose|e: int| 0 <= e < b2.len() && b2[e] == cert(x, v);
                assert(e < b.len());
            }
            if b.contains(cert(x, v)) {
                let e = choose|e: int| 0 <= e < b.len() && b[e] == cert(x, v);
                assert(b2[e] == cert(x, v));
            }
        }
        let kk2 = kk + 1;
        assert(stage(b2, v) == kk2);
        assert(inv_broadcasts(t)) by {
            assert forall|x: int| 0 <= x < b2.len() - 1 implies #[trigger] b2[x] != cert(3, v) by {
                assert(b2[x] == b[x]);
                if b[x] == cert(3, v) {
                    assert(b.contains(cert(3, v)));
                }
            }
            assert forall|x: int| 0 <= x < b2.len() implies carries_value(#[trigger] b2[x], v) by {
                if x < b.len() {
                    assert(b2[x] == b[x]);
                }
            }
        }
        assert forall|i2: int| 0 <= i2 < t.replicas.len() implies {
            &&& #[trigger] t.read[i2] <= t.broadcasts.len()
            &&& t.queues[i2 + 1] == replica_channel(t.broadcasts, t.read[i2])
            &&& t.replicas[i2].decided == (t.leader.decided && t.read[i2] == t.broadcasts.len())
        } by {
            assert(s.read[i2] <= b.len());
            lemma_channel_push(b, s.read[i2], m);
            assert(t.queues[i2 + 1] == rest[i2 + 1].push((0 as NodeId, m)));
        }
        assert(inv_replicas(t));
        assert forall|r1: NodeId, p1: HsPhase|
            #[trigger] t.votes_sent.contains((r1, p1)) <==> {
                &&& 1 <= r1 < t.n
                &&& exists|k2: int| 0 <= k2 < t.read[r1 - 1] && t.broadcasts[k2] == cert(phase_index(p1), v)
            } by {
            if 1 <= r1 < t.n {
                assert(s.read[r1 - 1] <= b.len());
                if exists|k2: int| 0 <= k2 < t.read[r1 - 1] && t.broadcasts[k2] == cert(phase_index(p1), v) {
                    let k2 = choose|k2: int| 0 <= k2 < t.read[r1 - 1] && t.broadcasts[k2] == cert(phase_index(p1), v);
                    assert(b[k2] == b2[k2]);
                }
                if exists|k2: int| 0 <= k2 < s.read[r1 - 1] && b[k2] == cert(phase_index(p1), v) {
                    let k2 = choose|k2: int| 0 <= k2 < s.read[r1 - 1] && b[k2] == cert(phase_index(p1), v);
                    assert(b[k2] == b2[k2]);
                }
            }
        }
        assert(inv_votes(t));
        if kk == 2 {
            assert(t.leader.decided);
            assert(d == Some(v));
        } else {
            assert(!t.leader.decided);
            assert(voters(t, kk + 1) =~= Set::empty()) by {
                assert forall|r1: NodeId| !#[trigger] voters(t, kk + 1).contains(r1) by {
                    if t.votes_read.contains((r1, phase_of(kk + 1))) {
                        assert(s.votes_sent.contains((r1, phase_of(kk + 1))));
                        let e = choose|e: int|
                            0 <= e < s.read[r1 - 1] && b[e] == cert(phase_index(phase_of(kk + 1)), v);
                        assert(s.read[r1 - 1] <= b.len());
                        assert(b.contains(cert(kk + 1, v)));
                    }
                }
            }
            assert(tally(t.leader, kk + 1) == tally(s.leader, kk + 1));
            assert(tally(t.leader, kk + 1) =~= uniform(voters(t, kk + 1), v));
        }
        assert forall|k2: int| kk2 < k2 <= 2 implies #[trigger] tally(t.leader, k2) == Map::<NodeId, Value>::empty() by {
            assert(tally(t.leader, k2) == tally(s.leader, k2));
        }
        assert(inv_tallies(t));
        assert(inv_decisions(t));
    }
}

proof fn lemma_quiescent(s: HsRun)
    requires
        inv(s),
        hs_run_quiescent(s),
    ensures
        s.leader.decided,
        forall|i: int| 0 <= i < s.replicas.len() ==> (#[trigger] s.replicas[i]).decided,
        forall|id: NodeId| id < s.n ==> #[trigger] s.decisions.contains_key(id) && s.decisions[id] == s.value,
{
    reveal(inv);
    let b = s.broadcasts;
    let v = s.value;
    if !s.leader.decided {
        let k = stage(b, v);
        assert(k <= 2);
        assert(b.contains(cert(k, v)));
        let idx = choose|idx: int| 0 <= idx < b.len() && b[idx] == cert(k, v);
        let all = Set::new(|r: NodeId| 1 <= r < s.n);
        assert forall|r: NodeId| all.contains(r) implies voters(s, k).contains(r) by {
            let i = r - 1;
            assert(s.read[i] <= b.len());
            assert(!s.replicas[i].decided);
            assert(s.queues[i + 1].len() == 0);
            assert(replica_channel(b, s.read[i]).len() == b.len() - s.read[i]);
            assert(phase_index(phase_of(k)) == k);
            assert(s.votes_sent.contains((r, phase_of(k)))) by {
                assert(0 <= idx < s.read[r - 1] && b[idx] == cert(phase_index(phase_of(k)), v));
            }
            if !s.votes_read.contains((r, phase_of(k))) {
                let w = (r, HsMsg::Vote { phase: phase_of(k), sender: r, value: v });
                assert(s.queues[0].contains(w));
            }
        }
        assert forall|r: NodeId| voters(s, k).contains(r) implies all.contains(r) by {
            assert(s.votes_sent.contains((r, phase_of(k))));
        }
        assert(voters(s, k) =~= all);
        assert(all =~= Set::<NodeId>::range(1, s.n as NodeId));
        vstd::set_lib::range_set_properties::<NodeId>(1, s.n as NodeId);
        lemma_others_form_quorum(s.n);
        assert(false);
    }
    assert forall|i: int| 0 <= i < s.replicas.len() implies (#[trigger] s.replicas[i]).decided by {
        if !s.replicas[i].decided {
            assert(s.read[i] <= b.len());
            assert(s.queues[i + 1].len() == 0);
            assert(replica_channel(b, s.read[i]).len() == b.len() - s.read[i]);
        }
    }
    assert forall|id: NodeId| id < s.n implies #[trigger] s.decisions.contains_key(id) && s.decisions[id] == s.value by {
        if id != 0 {
            assert(s.replicas[id - 1].decided);
            assert(s.decisions.contains_key(id));
        }
    }
}

proof fn lemma_step(s: HsRun, t: HsRun)
    requires
        inv(s),
        hs_run_step(s, t),
    ensures
        inv(t),
        t.value == s.value,
        t.n == s.n,
{
    reveal(hs_run_deliver);
    let j = choose|j: int| hs_run_deliver(s, j, t);
    if j == 0 {
        lemma_leader_step(s, t);
    } else {
        lemma_replica_step(s, j, t);
    }
}

proof fn lemma_decisions(s: HsRun)
    requires
        inv(s),
    ensures
        forall|id: NodeId| #[trigger] s.decisions.contains_key(id) ==> s.decisions[id] == s.value,
{
    reveal(inv);
}

/// How many votes replicas `0..i` have sent, having read `read[k]` of the
/// leader's messages each: one per proposal or certificate read.
spec fn votes_upto(read: Seq<nat>, i: int) -> int
    decreases i,
{
    if i <= 0 {
        0
    } else {
        votes_upto(read, i - 1) + if read[i - 1] < 3 {
            read[i - 1] as int
        } else {
            3
        }
    }
}

spec fn capped(x: nat) -> int {
    if x < 3 {
        x as int
    } else {
        3
    }
}

proof fn lemma_votes_update(read: Seq<nat>, i0: int, x: nat, i: int)
    requires
        0 <= i0 < read.len(),
        0 <= i <= read.len(),
    ensures
        votes_upto(read.update(i0, x), i) == votes_upto(read, i) + if i0 < i {
            capped(x) - capped(read[i0])
        } else {
            0
        },
    decreases i,
{
    if i > 0 {
        lemma_votes_update(read, i0, x, i - 1);
    }
}

proof fn lemma_votes_bounds(read: Seq<nat>, i: int)
    requires
        0 <= i <= read.len(),
    ensures
        0 <= votes_upto(read, i) <= 3 * i,
        (forall|k: int| 0 <= k < read.len() ==> #[trigger] read[k] >= 3) ==> votes_upto(read, i) == 3 * i,
    decreases i,
{
    if i > 0 {
        lemma_votes_bounds(read, i - 1);
    }
}

proof fn lemma_votes_zero(read: Seq<nat>, i: int)
    requires
        0 <= i <= read.len(),
        forall|k: int| 0 <= k < read.len() ==> #[trigger] read[k] == 0,
    ensures
        votes_upto(read, i) == 0,
    decreases i,
{
    if i > 0 {
        lemma_votes_zero(read, i - 1);
    }
}

/// The leader's messages so far are the proposal and the certificates up to
/// its stage, each once.
spec fn proposals_once(b: Seq<HsMsg>, v: Value) -> bool {
    &&& b.len() == stage(b, v) + 1
    &&& forall|k: int| 0 <= k < b.len() ==> #[trigger] b[k] == cert(k, v)
}

proof fn lemma_stage_prefix(b: Seq<HsMsg>, v: Value, m: int)
    requires
        0 <= m <= 3,
        b.len() == m + 1,
        forall|k: int| 0 <= k < b.len() ==> #[trigger] b[k] == cert(k, v),
    ensures
        proposals_once(b, v),
{
    assert(b.contains(cert(m, v))) by {
        assert(b[m] == cert(m, v));
    }
    assert forall|x: int| m < x <= 3 implies !b.contains(#[trigger] cert(x, v)) by {
        if b.contains(cert(x, v)) {
            let e = choose|e: int| 0 <= e < b.len() && b[e] == cert(x, v);
            assert(b[e] == cert(e, v));
        }
    }
    if m < 3 {
        assert(!b.contains(cert(3, v)));
    }
    if m < 2 {
        assert(!b.contains(cert(2, v)));
    }
    if m < 1 {
        assert(!b.contains(cert(1, v)));
    }
}

/// The messages of a run: every one handed over has been read or is queued;
/// the leader has sent its proposal and each certificate once, to the
/// `n - 1` replicas, and each replica one vote per proposal or certificate
/// it has read.
#[verifier::opaque]
spec fn inv_counts(s: HsRun) -> bool {
    &&& proposals_once(s.broadcasts, s.value)
    &&& s.reads + queued(s.queues) == s.sent
    &&& s.sent == (s.n - 1) * s.broadcasts.len() + votes_upto(s.read, s.read.len() as int)
}

proof fn lemma_queued_init(qs: Seq<Seq<(NodeId, HsMsg)>>, i: int)
    requires
        1 <= i <= qs.len(),
        qs[0].len() == 0,
        forall|k: int| 1 <= k < qs.len() ==> (#[trigger] qs[k]).len() == 1,
    ensures
        queued_upto(qs, i) == i - 1,
    decreases i,
{
    if i > 1 {
        lemma_queued_init(qs, i - 1);
    } else {
        assert(queued_upto(qs, 0) == 0);
    }
}

proof fn lemma_counts_init(n: nat, v: Value)
    requires
        2 <= n <= u64::MAX,
    ensures
        inv_counts(hs_run_init(n, v)),
{
    reveal(inv_counts);
    let s = hs_run_init(n, v);
    lemma_queued_init(s.queues, n as int);
    lemma_votes_zero(s.read, s.read.len() as int);
    lemma_stage_prefix(s.broadcasts, v, 0);
}

proof fn lemma_counts_step(s: HsRun, t: HsRun)
    requires
        inv(s),
        inv_counts(s),
        hs_run_step(s, t),
    ensures
        inv_counts(t),
        t.reads == s.reads + 1,
{
    reveal(inv);
    reveal(inv_counts);
    reveal(hs_run_deliver);
    let n = s.n;
    let v = s.value;
    let b = s.broadcasts;
    let kk = stage(b, v);
    let j = choose|j: int| hs_run_deliver(s, j, t);
    let (from, msg) = s.queues[j][0];
    let rest = s.queues.update(j, s.queues[j].drop_first());
    lemma_queued_update(s.queues, j, s.queues[j].drop_first(), n as int);
    reveal_with_fuel(post_count, 2);
    if j == 0 {
        let (out, d) = choose|out: Seq<Outgoing<HsMsg>>, d: Option<Value>|
            {
                &&& #[trigger] hs_leader_transition(s.leader, msg, t.leader, out, d)
                &&& t == HsRun {
                    leader: t.leader,
                    queues: post(rest, 0, out),
                    decisions: if d is Some { s.decisions.insert(0, d->0) } else { s.decisions },
                    broadcasts: s.broadcasts + payloads(out),
                    votes_read: if msg is Vote { s.votes_read.insert((msg->sender, msg->phase)) } else { s.votes_read },
                    sent: (s.sent + post_count(s.n, out)) as nat,
                    reads: s.reads + 1,
                    ..s
                }
            };
        crate::hotstuff::lemma_hs_leader_react(s.leader, msg, t.leader, out, d);
        lemma_queued_post(rest, 0, out);
        assert(s.queues[0][0] == s.queues[0][0]);
        assert(msg is Vote && msg == (HsMsg::Vote { phase: msg->phase, sender: from, value: v }));
        let p = msg->phase;
        assert(s.votes_sent.contains((from, p)));
        let idx = choose|idx: int| 0 <= idx < s.read[from - 1] && b[idx] == cert(phase_index(p), v);
        assert(s.read[from - 1] <= b.len());
        if out.len() == 0 {
            assert(payloads(out) =~= Seq::<HsMsg>::empty());
            assert(t.broadcasts =~= b);
        } else {
            assert(out.len() == 1 && out[0] is Broadcast);
            assert(out.drop_first().len() == 0);
            let m = out[0]->Broadcast_0;
            assert(payloads(out) =~= seq![m]);
            assert(b[idx] == cert(idx, v));
            assert(!b.contains(cert(3, v)));
            assert(m == cert(kk + 1, v)) by {
                if p == HsPhase::Prepare {
                    assert(!b.contains(cert(1, v)));
                } else if p == HsPhase::PreCommit {
                    assert(!b.contains(cert(2, v)));
                    assert(idx == 1);
                    assert(b.contains(cert(1, v)));
                } else {
                    assert(idx == 2);
                    assert(b.contains(cert(2, v)));
                }
            }
            let b2 = b.push(m);
            assert(t.broadcasts =~= b2);
            assert(kk + 1 <= 3);
            lemma_stage_prefix(b2, v, kk + 1);
        }
        assert((n - 1) * (b.len() + out.len()) == (n - 1) * b.len() + (n - 1) * out.len()) by (nonlinear_arith);
        assert(t.read == s.read);
        assert(post_count(n, out) == (n - 1) * out.len()) by {
            if out.len() == 1 {
                assert((n - 1) * out.len() == n - 1) by (nonlinear_arith)
                    requires
                        out.len() == 1,
                ;
            }
        }
        assert(proposals_once(t.broadcasts, v));
        assert(t.reads + queued(t.queues) == t.sent);
        assert(t.sent == (n - 1) * t.broadcasts.len() + votes_upto(t.read, t.read.len() as int));
    } else {
        let i = j - 1;
        let ri = s.read[i];
        assert(s.queues[i + 1] == replica_channel(b, ri));
        assert(ri < b.len()) by {
            assert(replica_channel(b, ri).len() == b.len() - ri);
        }
        lemma_channel_pop(b, ri);
        assert(from == 0 && msg == b[ri as int]);
        assert(msg == cert(ri as int, v));
        let (r2, out, d) = choose|r2: HsReplicaView, out: Seq<Outgoing<HsMsg>>, d: Option<Value>|
            {
                &&& #[trigger] hs_replica_transition(s.replicas[i], msg, r2, out, d)
                &&& t == HsRun {
                    replicas: s.replicas.update(i, r2),
                    queues: post(rest, j as NodeId, out),
                    decisions: if d is Some { s.decisions.insert(j as NodeId, d->0) } else { s.decisions },
                    read: s.read.update(i, s.read[i] + 1),
                    votes_sent: if out.len() > 0 {
                        s.votes_sent.insert((j as NodeId, vote_phase(msg)))
                    } else {
                        s.votes_sent
                    },
                    sent: (s.sent + post_count(s.n, out)) as nat,
                    reads: s.reads + 1,
                    ..s
                }
            };
        lemma_queued_post(rest, j as NodeId, out);
        lemma_votes_update(s.read, i, ri + 1, s.read.len() as int);
        if ri < 3 {
            assert(out.len() == 1);
            assert(out.drop_first().len() == 0);
        } else {
            assert(out.len() == 0);
        }
        assert(t.broadcasts == b);
        assert(proposals_once(t.broadcasts, v));
        assert(t.reads + queued(t.queues) == t.sent);
        assert(t.sent == (n - 1) * t.broadcasts.len() + votes_upto(t.read, t.read.len() as int));
    }
}

proof fn lemma_counts_bound(s: HsRun)
    requires
        inv(s),
        inv_counts(s),
    ensures
        s.reads <= 7 * (s.n - 1),
{
    reveal(inv);
    reveal(inv_counts);
    let n = s.n;
    lemma_queued_nonnegative(s.queues);
    lemma_votes_bounds(s.read, s.read.len() as int);
    let bl = s.broadcasts.len();
    assert(bl <= 4);
    assert((n - 1) * bl <= (n - 1) * 4) by (nonlinear_arith)
        requires
            bl <= 4,
            n >= 2,
    ;
}

proof fn lemma_rest_count(s: HsRun)
    requires
        inv(s),
        inv_counts(s),
        hs_run_quiescent(s),
    ensures
        s.sent == 7 * (s.n - 1),
{
    lemma_quiescent(s);
    reveal(inv);
    reveal(inv_counts);
    let b = s.broadcasts;
    assert(b.contains(cert(3, s.value)));
    assert(b.len() == 4);
    assert forall|k: int| 0 <= k < s.read.len() implies #[trigger] s.read[k] >= 3 by {
        assert(s.replicas[k].decided);
    }
    lemma_votes_bounds(s.read, s.read.len() as int);
    let n = s.n;
    let bl = b.len();
    assert((n - 1) * bl == 4 * (n - 1)) by (nonlinear_arith)
        requires
            bl == 4,
    ;
}

/// A reachable run that is not at rest can take a step.
pub(crate) proof fn lemma_next(s: HsRun) -> (t: HsRun)
    requires
        hs_inv(s),
        !hs_run_quiescent(s),
    ensures
        hs_run_step(s, t),
{
    reveal(inv);
    reveal(hs_run_deliver);
    if !s.leader.decided && s.queues[0].len() > 0 {
        let (from, msg) = s.queues[0][0];
        let rest = s.queues.update(0, s.queues[0].drop_first());
        let r = crate::hotstuff::hs_leader_react(s.leader, msg);
        crate::hotstuff::lemma_hs_leader_react(s.leader, msg, r.0, r.1, r.2);
        let t = HsRun {
            leader: r.0,
            queues: post(rest, 0, r.1),
            decisions: if r.2 is Some { s.decisions.insert(0, r.2->0) } else { s.decisions },
            broadcasts: s.broadcasts + payloads(r.1),
            votes_read: if msg is Vote { s.votes_read.insert((msg->sender, msg->phase)) } else { s.votes_read },
            sent: (s.sent + post_count(s.n, r.1)) as nat,
            reads: s.reads + 1,
            ..s
        };
        assert(hs_leader_transition(s.leader, msg, t.leader, r.1, r.2));
        assert(hs_run_deliver(s, 0, t));
        t
    } else {
        let i = choose|i: int| 0 <= i < s.replicas.len() && !(#[trigger] s.replicas[i]).decided && s.queues[i + 1].len() != 0;
        let j = i + 1;
        let (from, msg) = s.queues[j][0];
        let rest = s.queues.update(j, s.queues[j].drop_first());
        if from != s.replicas[i].leader_id {
            let t = HsRun { queues: rest, reads: s.reads + 1, ..s };
            assert(hs_run_deliver(s, j, t));
            t
        } else {
            let r = crate::hotstuff::hs_replica_react(s.replicas[i], from, msg);
            crate::hotstuff::lemma_hs_replica_react(s.replicas[i], msg, r.0, r.1, r.2);
            let t = HsRun {
                replicas: s.replicas.update(i, r.0),
                queues: post(rest, j as NodeId, r.1),
                decisions: if r.2 is Some { s.decisions.insert(j as NodeId, r.2->0) } else { s.decisions },
                read: s.read.update(i, s.read[i] + 1),
                votes_sent: if r.1.len() > 0 {
                    s.votes_sent.insert((j as NodeId, vote_phase(msg)))
                } else {
                    s.votes_sent
                },
                sent: (s.sent + post_count(s.n, r.1)) as nat,
                reads: s.reads + 1,
                ..s
            };
            assert(hs_replica_transition(s.replicas[i], msg, r.0, r.1, r.2));
            assert(hs_run_deliver(s, j, t));
            t
        }
    }
}

/// What holds of every HotStuff run reached.
pub(crate) closed spec fn hs_inv(s: HsRun) -> bool {
    &&& inv(s)
    &&& inv_counts(s)
}

pub(crate) proof fn lemma_hs_inv_init(n: nat, value: Value)
    requires
        2 <= n <= u64::MAX,
    ensures
        hs_inv(hs_run_init(n, value)),
{
    lemma_init(n, value);
    lemma_counts_init(n, value);
}

/// Every step keeps the invariant and reads one message.
pub(crate) proof fn lemma_hs_inv_step(s: HsRun, t: HsRun)
    requires
        hs_inv(s),
        hs_run_step(s, t),
    ensures
        hs_inv(t),
        t.reads == s.reads + 1,
        t.n == s.n,
        t.value == s.value,
{
    lemma_counts_step(s, t);
    lemma_step(s, t);
}

/// The shape of a reached run.
pub(crate) proof fn lemma_hs_shape(s: HsRun)
    requires
        hs_inv(s),
    ensures
        2 <= s.n <= u64::MAX,
        s.replicas.len() == s.n - 1,
        s.queues.len() == s.n,
{
    reveal(inv);
}

/// In a reached run every decision is the leader's value, and at rest every
/// node has decided.
pub(crate) proof fn lemma_hs_decided(s: HsRun)
    requires
        hs_inv(s),
    ensures
        forall|id: NodeId| #[trigger] s.decisions.contains_key(id) ==> s.decisions[id] == s.value,
        hs_run_quiescent(s) ==> forall|id: NodeId|
            id < s.n ==> #[trigger] s.decisions.contains_key(id) && s.decisions[id] == s.value,
{
    lemma_decisions(s);
    if hs_run_quiescent(s) {
        lemma_quiescent(s);
    }
}

/// A reached run has read at most `7 * (n - 1)` messages.
pub(crate) proof fn lemma_hs_bound(s: HsRun)
    requires
        hs_inv(s),
    ensures
        s.reads <= 7 * (s.n - 1),
{
    lemma_counts_bound(s);
}

/// A reached run at rest has sent `7 * (n - 1)` messages.
pub(crate) proof fn lemma_hs_rest_count(s: HsRun)
    requires
        hs_inv(s),
        hs_run_quiescent(s),
    ensures
        s.sent == 7 * (s.n - 1),
{
    lemma_rest_count(s);
}

proof fn lemma_trace_inv(n: nat, value: Value, trace: Seq<HsRun>, i: int)
    requires
        2 <= n <= u64::MAX,
        hs_run_trace(n, value, trace),
        0 <= i < trace.len(),
    ensures
        hs_inv(trace[i]),
        trace[i].reads == i,
        trace[i].value == value,
        trace[i].n == n,
    decreases i,
{
    if i == 0 {
        lemma_hs_inv_init(n, value);
    } else {
        lemma_trace_inv(n, value, trace, i - 1);
        lemma_hs_inv_step(trace[i - 1], trace[i]);
    }
}

/// Consensus in a HotStuff run of `n >= 2` nodes, whatever order the
/// channels are read in: every node that decides decides the leader's
/// value, and the run stops (no node that has not decided has a message
/// left to read) only once every node has decided.
pub proof fn lemma_hs_run_consensus(n: nat, value: Value, trace: Seq<HsRun>)
    requires
        2 <= n <= u64::MAX,
        hs_run_trace(n, value, trace),
    ensures
        forall|id: NodeId| #[trigger] trace.last().decisions.contains_key(id) ==> trace.last().decisions[id] == value,
        hs_run_quiescent(trace.last()) ==> forall|id: NodeId|
            id < n ==> #[trigger] trace.last().decisions.contains_key(id) && trace.last().decisions[id] == value,
{
    lemma_trace_inv(n, value, trace, trace.len() - 1);
    lemma_hs_decided(trace.last());
}

/// Every HotStuff run of `n >= 2` nodes comes to rest, whatever order the
/// channels are read in: it holds at most `7 * (n - 1) + 1` states, and a run
/// that is not at rest can always take another step.
pub proof fn lemma_hs_run_terminates(n: nat, value: Value, trace: Seq<HsRun>)
    requires
        2 <= n <= u64::MAX,
        hs_run_trace(n, value, trace),
    ensures
        trace.len() <= 7 * (n - 1) + 1,
        !hs_run_quiescent(trace.last()) ==> exists|t: HsRun| hs_run_step(trace.last(), t),
{
    lemma_trace_inv(n, value, trace, trace.len() - 1);
    let s = trace.last();
    lemma_hs_bound(s);
    if !hs_run_quiescent(s) {
        let t = lemma_next(s);
        assert(hs_run_step(s, t));
    }
}

/// A HotStuff run of `n >= 2` nodes that has come to rest has handed exactly
/// `7 * (n - 1)` messages to the channels, whatever order they were read
/// in: the proposal, the two certificates and the decision, each once to
/// the `n - 1` replicas, and a vote from every replica in each of the three
/// phases.
pub proof fn lemma_hs_run_message_count(n: nat, value: Value, trace: Seq<HsRun>)
    requires
        2 <= n <= u64::MAX,
        hs_run_trace(n, value, trace),
    ensures
        hs_run_quiescent(trace.last()) ==> trace.last().sent == 7 * (n - 1),
{
    lemma_trace_inv(n, value, trace, trace.len() - 1);
    if hs_run_quiescent(trace.last()) {
        lemma_hs_rest_count(trace.last());
    }
}

} // verus!
