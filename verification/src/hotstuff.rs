use vstd::prelude::*;

use crate::quorum::{node_ids, quorum, quorum_size};
use crate::step::{lemma_run_inbox_filter, run_inbox, Outgoing, Step};
use crate::tally::{lemma_reaches_quorum_by_matching_votes, reaches_quorum, votes_for, VoteTally};
use crate::types::{NodeId, Value};

verus! {

/// The phase a HotStuff vote is cast in.
#[derive(Clone, Copy, Debug, PartialEq, Eq, Structural)]
pub enum HsPhase {
    Prepare,
    PreCommit,
    Commit,
}

/// The messages of basic HotStuff with a fixed leader.
#[derive(Clone, Copy, Debug, PartialEq, Eq)]
pub enum HsMsg {
    Prepare { value: Value },
    PreCommit { value: Value },
    Commit { value: Value },
    Decide { value: Value },
    Vote { phase: HsPhase, sender: NodeId, value: Value },
}

/// The HotStuff leader: it proposes its value, turns a quorum of votes in
/// each phase into the next phase's certificate, and decides after the
/// commit phase.
pub struct HsLeader {
    node_id: NodeId,
    value: Value,
    quorum: usize,
    prepare_votes: VoteTally,
    precommit_votes: VoteTally,
    commit_votes: VoteTally,
    precommit_sent: bool,
    commit_sent: bool,
    decided: bool,
}

/// The state of the HotStuff leader.
pub struct HsLeaderView {
    pub node_id: NodeId,
    pub value: Value,
    pub quorum: nat,
    /// The prepare votes since the last prepare certificate.
    pub prepare_votes: Map<NodeId, Value>,
    /// The pre-commit votes since the last pre-commit certificate.
    pub precommit_votes: Map<NodeId, Value>,
    /// The commit votes.
    pub commit_votes: Map<NodeId, Value>,
    /// The leader has broadcast its pre-commit certificate.
    pub precommit_sent: bool,
    /// The leader has broadcast its commit certificate.
    pub commit_sent: bool,
    /// The leader has decided, and handles no more messages.
    pub decided: bool,
}

impl HsLeaderView {
    /// The configuration of `self` is that of `other`.
    pub open spec fn same_config(self, other: HsLeaderView) -> bool {
        &&& self.node_id == other.node_id
        &&& self.value == other.value
        &&& self.quorum == other.quorum
    }

    /// A leader that has decided holds a quorum of commit votes for its value.
    pub open spec fn decision_justified(self) -> bool {
        self.decided ==> reaches_quorum(self.commit_votes, self.quorum, self.value)
    }

    /// The leader has received no vote, certified nothing and not decided.
    pub open spec fn fresh(self) -> bool {
        &&& self.prepare_votes == Map::<NodeId, Value>::empty()
        &&& self.precommit_votes == Map::<NodeId, Value>::empty()
        &&& self.commit_votes == Map::<NodeId, Value>::empty()
        &&& !self.precommit_sent
        &&& !self.commit_sent
        &&& !self.decided
    }
}

impl View for HsLeader {
    type V = HsLeaderView;

    closed spec fn view(&self) -> HsLeaderView {
        HsLeaderView {
            node_id: self.node_id,
            value: self.value,
            quorum: self.quorum as nat,
            prepare_votes: self.prepare_votes@,
            precommit_votes: self.precommit_votes@,
            commit_votes: self.commit_votes@,
            precommit_sent: self.precommit_sent,
            commit_sent: self.commit_sent,
            decided: self.decided,
        }
    }
}

impl HsLeader {
    /// A leader that has received nothing yet.
    pub fn new(node_id: NodeId, value: Value, quorum: usize) -> (leader: Self)
        ensures
            leader@.node_id == node_id,
            leader@.value == value,
            leader@.quorum == quorum,
            leader@.fresh(),
            leader@.decision_justified(),
    {
        HsLeader {
            node_id,
            value,
            quorum,
            prepare_votes: VoteTally::new(),
            precommit_votes: VoteTally::new(),
            commit_votes: VoteTally::new(),
            precommit_sent: false,
            commit_sent: false,
            decided: false,
        }
    }

    /// The leader's tallies hold finitely many votes.
    pub proof fn lemma_tallies_finite(&self)
        ensures
            self@.prepare_votes.dom().finite(),
            self@.precommit_votes.dom().finite(),
            self@.commit_votes.dom().finite(),
    {
        self.prepare_votes.lemma_finite();
        self.precommit_votes.lemma_finite();
        self.commit_votes.lemma_finite();
    }

    /// Whether the leader has decided.
    pub fn is_decided(&self) -> (d: bool)
        ensures
            d == self@.decided,
    {
        self.decided
    }

    /// What the leader does before it receives anything: it proposes its value.
    pub fn start(&self) -> (step: Step<HsMsg>)
        ensures
            step.messages@ == seq![Outgoing::Broadcast(HsMsg::Prepare { value: self@.value })],
            step.decision is None,
    {
        Step::broadcast(HsMsg::Prepare { value: self.value })
    }

    /// What the leader does when `msg` arrives from node `_from`; it reads
    /// votes only, and broadcasts each certificate once, on the first quorum
    /// of its phase: a late vote certifies nothing again.
    pub fn handle(&mut self, _from: NodeId, msg: HsMsg) -> (step: Step<HsMsg>)
        requires
            old(self)@.decision_justified(),
        ensures
            final(self)@.same_config(old(self)@),
            final(self)@.decision_justified(),
            step.decision is Some ==> step.decision == Some(old(self)@.value),
            old(self)@.decided ==> final(self)@ == old(self)@ && step.messages@.len() == 0
                && step.decision is None,
            !old(self)@.decided ==> hs_leader_transition(old(self)@, msg, final(self)@, step.messages@, step.decision),
    {
        if self.decided {
            return Step::idle();
        }
        match msg {
            HsMsg::Vote { phase, sender, value } => {
                match phase {
                    HsPhase::Prepare => {
                        self.prepare_votes.insert(sender, value);
                        if !self.precommit_sent && self.prepare_votes.reaches_quorum(self.quorum, self.value) {
                            self.prepare_votes.clear();
                            self.precommit_sent = true;
                            Step::broadcast(HsMsg::PreCommit { value: self.value })
                        } else {
                            Step::idle()
                        }
                    },
                    HsPhase::PreCommit => {
                        self.precommit_votes.insert(sender, value);
                        if !self.commit_sent && self.precommit_votes.reaches_quorum(self.quorum, self.value) {
                            self.precommit_votes.clear();
                            self.commit_sent = true;
                            Step::broadcast(HsMsg::Commit { value: self.value })
                        } else {
                            Step::idle()
                        }
                    },
                    HsPhase::Commit => {
                        self.commit_votes.insert(sender, value);
                        if self.commit_votes.reaches_quorum(self.quorum, self.value) {
                            self.decided = true;
                            let mut step = Step::broadcast(HsMsg::Decide { value: self.value });
                            step.decision = Some(self.value);
                            step
                        } else {
                            Step::idle()
                        }
                    },
                }
            },
            _ => Step::idle(),
        }
    }
}

/// How the HotStuff leader `s`, which has not decided, reacts to `msg`,
/// becoming `t`, sending `out` and deciding `decision`.
pub open spec fn hs_leader_transition(
    s: HsLeaderView,
    msg: HsMsg,
    t: HsLeaderView,
    out: Seq<Outgoing<HsMsg>>,
    decision: Option<Value>,
) -> bool {
    match msg {
        HsMsg::Vote { phase, sender, value } => {
            match phase {
                HsPhase::Prepare => {
                    let votes = s.prepare_votes.insert(sender, value);
                    &&& decision is None
                    &&& if !s.precommit_sent && reaches_quorum(votes, s.quorum, s.value) {
                        &&& t == HsLeaderView { prepare_votes: Map::empty(), precommit_sent: true, ..s }
                        &&& out == seq![Outgoing::Broadcast(HsMsg::PreCommit { value: s.value })]
                    } else {
                        t == HsLeaderView { prepare_votes: votes, ..s } && out.len() == 0
                    }
                },
                HsPhase::PreCommit => {
                    let votes = s.precommit_votes.insert(sender, value);
                    &&& decision is None
                    &&& if !s.commit_sent && reaches_quorum(votes, s.quorum, s.value) {
                        &&& t == HsLeaderView { precommit_votes: Map::empty(), commit_sent: true, ..s }
                        &&& out == seq![Outgoing::Broadcast(HsMsg::Commit { value: s.value })]
                    } else {
                        t == HsLeaderView { precommit_votes: votes, ..s } && out.len() == 0
                    }
                },
                HsPhase::Commit => {
                    let votes = s.commit_votes.insert(sender, value);
                    if reaches_quorum(votes, s.quorum, s.value) {
                        &&& t == HsLeaderView { commit_votes: votes, decided: true, ..s }
                        &&& out == seq![Outgoing::Broadcast(HsMsg::Decide { value: s.value })]
                        &&& decision == Some(s.value)
                    } else {
                        t == HsLeaderView { commit_votes: votes, ..s } && out.len() == 0 && decision is None
                    }
                },
            }
        },
        _ => t == s && out.len() == 0 && decision is None,
    }
}

/// A HotStuff replica: it votes for what the leader proposes and certifies,
/// sending each vote to the leader alone, and decides what the leader decides.
pub struct HsReplica {
    node_id: NodeId,
    leader_id: NodeId,
    decided: bool,
}

/// The state of a HotStuff replica.
pub struct HsReplicaView {
    pub node_id: NodeId,
    pub leader_id: NodeId,
    /// The replica has decided, and handles no more messages.
    pub decided: bool,
}

impl View for HsReplica {
    type V = HsReplicaView;

    closed spec fn view(&self) -> HsReplicaView {
        HsReplicaView { node_id: self.node_id, leader_id: self.leader_id, decided: self.decided }
    }
}

impl HsReplica {
    /// A replica of the leader `leader_id` that has received nothing yet.
    pub fn new(node_id: NodeId, leader_id: NodeId) -> (replica: Self)
        ensures
            replica@ == (HsReplicaView { node_id, leader_id, decided: false }),
    {
        HsReplica { node_id, leader_id, decided: false }
    }

    /// Whether the replica has decided.
    pub fn is_decided(&self) -> (d: bool)
        ensures
            d == self@.decided,
    {
        self.decided
    }

    /// What the replica does when `msg` arrives from node `from`: it ignores
    /// every node but its leader.
    pub fn handle(&mut self, from: NodeId, msg: HsMsg) -> (step: Step<HsMsg>)
        ensures
            final(self)@.node_id == old(self)@.node_id,
            final(self)@.leader_id == old(self)@.leader_id,
            step.decision is Some ==> from == old(self)@.leader_id && !old(self)@.decided
                && msg == (HsMsg::Decide { value: step.decision->0 }),
            old(self)@.decided || from != old(self)@.leader_id ==> final(self)@ == old(self)@
                && step.messages@.len() == 0 && step.decision is None,
            !old(self)@.decided && from == old(self)@.leader_id ==> hs_replica_transition(
                old(self)@,
                msg,
                final(self)@,
                step.messages@,
                step.decision,
            ),
    {
        if self.decided || from != self.leader_id {
            return Step::idle();
        }
        match msg {
            HsMsg::Prepare { value } => self.vote(HsPhase::Prepare, value),
            HsMsg::PreCommit { value } => self.vote(HsPhase::PreCommit, value),
            HsMsg::Commit { value } => self.vote(HsPhase::Commit, value),
            HsMsg::Decide { value } => {
                self.decided = true;
                Step::decide(value)
            },
            HsMsg::Vote { .. } => Step::idle(),
        }
    }

    fn vote(&self, phase: HsPhase, value: Value) -> (step: Step<HsMsg>)
        ensures
            step.messages@ == seq![
                Outgoing::SendTo(
                    self@.leader_id,
                    HsMsg::Vote { phase, sender: self@.node_id, value },
                ),
            ],
            step.decision is None,
    {
        let mut messages = Vec::new();
        messages.push(
            Outgoing::SendTo(self.leader_id, HsMsg::Vote { phase, sender: self.node_id, value }),
        );
        Step { messages, decision: None }
    }
}

/// How a HotStuff replica `s` that has not decided reacts to `msg` from its
/// leader, becoming `t`, sending `out` and deciding `decision`.
pub open spec fn hs_replica_transition(
    s: HsReplicaView,
    msg: HsMsg,
    t: HsReplicaView,
    out: Seq<Outgoing<HsMsg>>,
    decision: Option<Value>,
) -> bool {
    let vote = |phase: HsPhase, value: Value|
        seq![Outgoing::SendTo(s.leader_id, HsMsg::Vote { phase, sender: s.node_id, value })];
    match msg {
        HsMsg::Prepare { value } => t == s && out == vote(HsPhase::Prepare, value) && decision is None,
        HsMsg::PreCommit { value } => t == s && out == vote(HsPhase::PreCommit, value) && decision is None,
        HsMsg::Commit { value } => t == s && out == vote(HsPhase::Commit, value) && decision is None,
        HsMsg::Decide { value } => t == HsReplicaView { decided: true, ..s } && out.len() == 0
            && decision == Some(value),
        HsMsg::Vote { .. } => t == s && out.len() == 0 && decision is None,
    }
}

/// The nodes of a HotStuff cluster of `n` nodes whose leader, node 0, holds
/// `value`: the leader waits for a quorum of `2f + 1` votes per phase, and
/// replica `i` is node `i + 1`.
pub fn hotstuff_cluster(n: usize, value: Value) -> (cluster: (HsLeader, Vec<HsReplica>))
    requires
        n >= 1,
    ensures
        cluster.0@.node_id == 0,
        cluster.0@.value == value,
        cluster.0@.quorum == quorum(n as nat),
        cluster.0@.fresh(),
        cluster.0@.decision_justified(),
        cluster.1.len() == n - 1,
        forall|i: int|
            0 <= i < n - 1 ==> (#[trigger] cluster.1@[i])@ == (HsReplicaView {
                node_id: (i + 1) as NodeId,
                leader_id: 0,
                decided: false,
            }),
{
    let ids = node_ids(n);
    let q = quorum_size(n);
    let leader = HsLeader::new(ids[0], value, q);
    let mut replicas: Vec<HsReplica> = Vec::new();
    let mut i: usize = 1;
    while i < n
        invariant
            1 <= i <= n,
            ids@.len() == n,
            forall|j: int| 0 <= j < n ==> #[trigger] ids@[j] == j,
            replicas.len() == i - 1,
            forall|j: int|
                0 <= j < i - 1 ==> (#[trigger] replicas@[j])@ == (HsReplicaView {
                    node_id: (j + 1) as NodeId,
                    leader_id: 0,
                    decided: false,
                }),
        decreases n - i,
    {
        replicas.push(HsReplica::new(ids[i], 0));
        i = i + 1;
    }
    (leader, replicas)
}

/// The HotStuff leader decides only its own value, only when its commit
/// votes reach a quorum for that value, and announces the decision to every
/// replica in the same step; it certifies a phase only when that phase's
/// votes reach a quorum for its value.
pub proof fn lemma_hs_leader_step_safety(
    s: HsLeaderView,
    msg: HsMsg,
    t: HsLeaderView,
    out: Seq<Outgoing<HsMsg>>,
    decision: Option<Value>,
)
    requires
        !s.decided,
        hs_leader_transition(s, msg, t, out, decision),
    ensures
        decision matches Some(v) ==> v == s.value && t.decided && reaches_quorum(t.commit_votes, t.quorum, v)
            && out == seq![Outgoing::Broadcast(HsMsg::Decide { value: v })],
        decision is None ==> !t.decided,
        out.len() <= 1,
        out.len() == 1 ==> msg is Vote,
        (out.len() == 1 && out[0] == Outgoing::Broadcast(HsMsg::PreCommit { value: s.value })) ==> {
            &&& !s.precommit_sent
            &&& msg matches HsMsg::Vote { phase: HsPhase::Prepare, sender, value }
            &&& reaches_quorum(s.prepare_votes.insert(msg->sender, msg->Vote_value), s.quorum, s.value)
        },
        (out.len() == 1 && out[0] == Outgoing::Broadcast(HsMsg::Commit { value: s.value })) ==> {
            &&& !s.commit_sent
            &&& msg matches HsMsg::Vote { phase: HsPhase::PreCommit, sender, value }
            &&& reaches_quorum(s.precommit_votes.insert(msg->sender, msg->Vote_value), s.quorum, s.value)
        },
        forall|i: int|
            0 <= i < out.len() ==> ((#[trigger] out[i]) matches Outgoing::Broadcast(m) && carries_value(m, s.value)),
        t.same_config(s),
{
}

/// The HotStuff leader broadcasts each certificate at most once: it sends
/// its pre-commit (commit) certificate only in a step that starts with that
/// certificate unsent and ends with it marked as sent, and a certificate once
/// sent stays sent.
pub proof fn lemma_hs_leader_certifies_once(
    s: HsLeaderView,
    msg: HsMsg,
    t: HsLeaderView,
    out: Seq<Outgoing<HsMsg>>,
    decision: Option<Value>,
)
    requires
        !s.decided,
        hs_leader_transition(s, msg, t, out, decision),
    ensures
        s.precommit_sent ==> t.precommit_sent,
        s.commit_sent ==> t.commit_sent,
        out.contains(Outgoing::Broadcast(HsMsg::PreCommit { value: s.value })) ==> !s.precommit_sent
            && t.precommit_sent,
        out.contains(Outgoing::Broadcast(HsMsg::Commit { value: s.value })) ==> !s.commit_sent && t.commit_sent,
{
}

/// What the HotStuff leader that has not decided does with a message, in
/// terms of the message and the votes it holds: it reads votes only; a vote
/// is added to its phase's tally as it was sent, replacing the sender's
/// earlier vote in that phase; it certifies a phase when, for the first
/// time, that tally holds a quorum for its value (and then clears it), and
/// decides, announcing it, exactly when the commit tally does.
pub proof fn lemma_hs_leader_votes_as_received(
    s: HsLeaderView,
    msg: HsMsg,
    t: HsLeaderView,
    out: Seq<Outgoing<HsMsg>>,
    decision: Option<Value>,
)
    requires
        !s.decided,
        s.prepare_votes.dom().finite(),
        s.precommit_votes.dom().finite(),
        s.commit_votes.dom().finite(),
        hs_leader_transition(s, msg, t, out, decision),
    ensures
        !(msg is Vote) ==> t == s && out.len() == 0 && decision is None,
        msg matches HsMsg::Vote { phase: HsPhase::Commit, sender, value } ==> t.commit_votes
            == s.commit_votes.insert(sender, value),
        msg matches HsMsg::Vote { phase: HsPhase::Prepare, sender, value } ==> {
            let votes = s.prepare_votes.insert(sender, value);
            &&& out.len() > 0 <==> !s.precommit_sent && votes_for(votes, s.value) >= s.quorum
            &&& out.len() > 0 ==> out == seq![Outgoing::Broadcast(HsMsg::PreCommit { value: s.value })]
                && t.prepare_votes == Map::<NodeId, Value>::empty()
            &&& out.len() == 0 ==> t.prepare_votes == votes
        },
        msg matches HsMsg::Vote { phase: HsPhase::PreCommit, sender, value } ==> {
            let votes = s.precommit_votes.insert(sender, value);
            &&& out.len() > 0 <==> !s.commit_sent && votes_for(votes, s.value) >= s.quorum
            &&& out.len() > 0 ==> out == seq![Outgoing::Broadcast(HsMsg::Commit { value: s.value })]
                && t.precommit_votes == Map::<NodeId, Value>::empty()
            &&& out.len() == 0 ==> t.precommit_votes == votes
        },
        decision is Some <==> (msg matches HsMsg::Vote { phase: HsPhase::Commit, .. } && votes_for(
            t.commit_votes,
            s.value,
        ) >= s.quorum),
        decision is Some ==> decision == Some(s.value) && out == seq![
            Outgoing::Broadcast(HsMsg::Decide { value: s.value }),
        ],
        decision is Some <==> t.decided,
        !(msg matches HsMsg::Vote { phase: HsPhase::Prepare, .. }) ==> t.prepare_votes == s.prepare_votes
            && t.precommit_sent == s.precommit_sent,
        !(msg matches HsMsg::Vote { phase: HsPhase::PreCommit, .. }) ==> t.precommit_votes == s.precommit_votes
            && t.commit_sent == s.commit_sent,
        !(msg matches HsMsg::Vote { phase: HsPhase::Commit, .. }) ==> t.commit_votes == s.commit_votes,
        msg matches HsMsg::Vote { phase: HsPhase::Prepare, .. } ==> (t.precommit_sent <==> s.precommit_sent
            || out.len() > 0),
        msg matches HsMsg::Vote { phase: HsPhase::PreCommit, .. } ==> (t.commit_sent <==> s.commit_sent
            || out.len() > 0),
{
    match msg {
        HsMsg::Vote { phase, sender, value } => {
            lemma_reaches_quorum_by_matching_votes(s.prepare_votes.insert(sender, value), s.quorum, s.value);
            lemma_reaches_quorum_by_matching_votes(s.precommit_votes.insert(sender, value), s.quorum, s.value);
            lemma_reaches_quorum_by_matching_votes(s.commit_votes.insert(sender, value), s.quorum, s.value);
        },
        _ => {},
    }
}

/// `m` is a proposal, a certificate or a decision for `v`: what the leader
/// sends.
pub open spec fn carries_value(m: HsMsg, v: Value) -> bool {
    match m {
        HsMsg::Prepare { value } => value == v,
        HsMsg::PreCommit { value } => value == v,
        HsMsg::Commit { value } => value == v,
        HsMsg::Decide { value } => value == v,
        HsMsg::Vote { .. } => false,
    }
}

/// Agreement: a replica that decides on a message the leader broadcast in
/// one of its steps decides the leader's value.
pub proof fn lemma_hs_replica_decides_leader_value(
    l: HsLeaderView,
    lmsg: HsMsg,
    l2: HsLeaderView,
    lout: Seq<Outgoing<HsMsg>>,
    ldecision: Option<Value>,
    r: HsReplicaView,
    msg: HsMsg,
    r2: HsReplicaView,
    rout: Seq<Outgoing<HsMsg>>,
    rdecision: Option<Value>,
)
    requires
        !l.decided,
        hs_leader_transition(l, lmsg, l2, lout, ldecision),
        lout.contains(Outgoing::Broadcast(msg)),
        !r.decided,
        hs_replica_transition(r, msg, r2, rout, rdecision),
        rdecision is Some,
    ensures
        rdecision == Some(l.value),
{
    lemma_hs_leader_step_safety(l, lmsg, l2, lout, ldecision);
    let i = choose|i: int| 0 <= i < lout.len() && lout[i] == Outgoing::Broadcast(msg);
    assert(carries_value(msg, l.value));
}

/// A HotStuff replica only ever sends to its leader, and decides only the
/// value of a `Decide` that came from its leader.
pub proof fn lemma_hs_replica_step_safety(
    s: HsReplicaView,
    msg: HsMsg,
    t: HsReplicaView,
    out: Seq<Outgoing<HsMsg>>,
    decision: Option<Value>,
)
    requires
        !s.decided,
        hs_replica_transition(s, msg, t, out, decision),
    ensures
        forall|i: int| 0 <= i < out.len() ==> ((#[trigger] out[i]) matches Outgoing::SendTo(to, _) && to == s.leader_id),
        decision matches Some(v) ==> msg == (HsMsg::Decide { value: v }) && t.decided,
        decision is None ==> !t.decided,
{
}

/// What a HotStuff replica that has not decided does with a message from its
/// leader: on the proposal or a certificate it sends the leader one vote,
/// for that phase and value, under its own id; on a decision it decides that
/// value and sends nothing; a vote it ignores.
pub proof fn lemma_hs_replica_votes_as_read(
    s: HsReplicaView,
    msg: HsMsg,
    t: HsReplicaView,
    out: Seq<Outgoing<HsMsg>>,
    decision: Option<Value>,
)
    requires
        !s.decided,
        hs_replica_transition(s, msg, t, out, decision),
    ensures
        msg matches HsMsg::Prepare { value } ==> out == seq![
            Outgoing::SendTo(s.leader_id, HsMsg::Vote { phase: HsPhase::Prepare, sender: s.node_id, value }),
        ] && decision is None && t == s,
        msg matches HsMsg::PreCommit { value } ==> out == seq![
            Outgoing::SendTo(s.leader_id, HsMsg::Vote { phase: HsPhase::PreCommit, sender: s.node_id, value }),
        ] && decision is None && t == s,
        msg matches HsMsg::Commit { value } ==> out == seq![
            Outgoing::SendTo(s.leader_id, HsMsg::Vote { phase: HsPhase::Commit, sender: s.node_id, value }),
        ] && decision is None && t == s,
        msg matches HsMsg::Decide { value } ==> out.len() == 0 && decision == Some(value) && t.decided
            && t.node_id == s.node_id && t.leader_id == s.leader_id,
        msg is Vote ==> out.len() == 0 && decision is None && t == s,
{
}

/// Every clone of a HotStuff message is the message itself.
pub proof fn lemma_hs_msg_clones_exact(m: HsMsg)
    ensures
        crate::network::clones_exact(m),
{
}

/// What the HotStuff leader `s`, which has not decided, does with `msg`: its
/// next state, what it sends and what it decides, as `hs_leader_transition`
/// describes it.
pub open spec fn hs_leader_react(s: HsLeaderView, msg: HsMsg) -> (HsLeaderView, Seq<Outgoing<HsMsg>>, Option<Value>) {
    match msg {
        HsMsg::Vote { phase, sender, value } => {
            match phase {
                HsPhase::Prepare => {
                    let votes = s.prepare_votes.insert(sender, value);
                    if !s.precommit_sent && reaches_quorum(votes, s.quorum, s.value) {
                        (
                            HsLeaderView { prepare_votes: Map::empty(), precommit_sent: true, ..s },
                            seq![Outgoing::Broadcast(HsMsg::PreCommit { value: s.value })],
                            None,
                        )
                    } else {
                        (HsLeaderView { prepare_votes: votes, ..s }, Seq::empty(), None)
                    }
                },
                HsPhase::PreCommit => {
                    let votes = s.precommit_votes.insert(sender, value);
                    if !s.commit_sent && reaches_quorum(votes, s.quorum, s.value) {
                        (
                            HsLeaderView { precommit_votes: Map::empty(), commit_sent: true, ..s },
                            seq![Outgoing::Broadcast(HsMsg::Commit { value: s.value })],
                            None,
                        )
                    } else {
                        (HsLeaderView { precommit_votes: votes, ..s }, Seq::empty(), None)
                    }
                },
                HsPhase::Commit => {
                    let votes = s.commit_votes.insert(sender, value);
                    if reaches_quorum(votes, s.quorum, s.value) {
                        (
                            HsLeaderView { commit_votes: votes, decided: true, ..s },
                            seq![Outgoing::Broadcast(HsMsg::Decide { value: s.value })],
                            Some(s.value),
                        )
                    } else {
                        (HsLeaderView { commit_votes: votes, ..s }, Seq::empty(), None)
                    }
                },
            }
        },
        _ => (s, Seq::empty(), None),
    }
}

/// `hs_leader_transition` is a function: the leader's next state, what it
/// sends and what it decides are those `hs_leader_react` gives, and no others.
pub proof fn lemma_hs_leader_react(
    s: HsLeaderView,
    msg: HsMsg,
    t: HsLeaderView,
    out: Seq<Outgoing<HsMsg>>,
    d: Option<Value>,
)
    ensures
        hs_leader_transition(s, msg, t, out, d) <==> (t, out, d) == hs_leader_react(s, msg),
{
    if out.len() == 0 {
        assert(out =~= Seq::<Outgoing<HsMsg>>::empty());
    }
}

/// What a HotStuff replica `s` that has not decided does with `msg` from
/// `from`: nothing unless `from` is its leader, and otherwise what
/// `hs_replica_transition` describes.
pub open spec fn hs_replica_react(s: HsReplicaView, from: NodeId, msg: HsMsg) -> (
    HsReplicaView,
    Seq<Outgoing<HsMsg>>,
    Option<Value>,
) {
    let vote = |phase: HsPhase, value: Value|
        seq![Outgoing::SendTo(s.leader_id, HsMsg::Vote { phase, sender: s.node_id, value })];
    if from != s.leader_id {
        (s, Seq::empty(), None)
    } else {
        match msg {
            HsMsg::Prepare { value } => (s, vote(HsPhase::Prepare, value), None),
            HsMsg::PreCommit { value } => (s, vote(HsPhase::PreCommit, value), None),
            HsMsg::Commit { value } => (s, vote(HsPhase::Commit, value), None),
            HsMsg::Decide { value } => (HsReplicaView { decided: true, ..s }, Seq::empty(), Some(value)),
            HsMsg::Vote { .. } => (s, Seq::empty(), None),
        }
    }
}

/// `hs_replica_transition` is a function: on a message from its leader, a
/// replica's next state, what it sends and what it decides are those
/// `hs_replica_react` gives, and no others.
pub proof fn lemma_hs_replica_react(
    s: HsReplicaView,
    msg: HsMsg,
    t: HsReplicaView,
    out: Seq<Outgoing<HsMsg>>,
    d: Option<Value>,
)
    ensures
        hs_replica_transition(s, msg, t, out, d) <==> (t, out, d) == hs_replica_react(s, s.leader_id, msg),
{
    if out.len() == 0 {
        assert(out =~= Seq::<Outgoing<HsMsg>>::empty());
    }
}

/// What a HotStuff replica does with the messages of `inbox`, read in order
/// from the state `s`: its state after them, everything it sent, and its
/// decision, if any; once it has decided it reads no more.
pub open spec fn hs_replica_run_inbox(s: HsReplicaView, inbox: Seq<(NodeId, HsMsg)>) -> (
    HsReplicaView,
    Seq<Outgoing<HsMsg>>,
    Option<Value>,
) {
    run_inbox(|t: HsReplicaView, f: NodeId, m: HsMsg| hs_replica_react(t, f, m), |t: HsReplicaView| t.decided, s, inbox)
}

/// Whether a message comes from node `leader`.
pub open spec fn sent_by(leader: NodeId) -> spec_fn((NodeId, HsMsg)) -> bool {
    |e: (NodeId, HsMsg)| e.0 == leader
}

/// A HotStuff replica ignores entirely the messages not from its leader:
/// reading `inbox` it does, sends and decides what it does reading `inbox`
/// without them.
pub proof fn lemma_hs_replica_ignores_others(s: HsReplicaView, inbox: Seq<(NodeId, HsMsg)>)
    ensures
        hs_replica_run_inbox(s, inbox) == hs_replica_run_inbox(s, inbox.filter(sent_by(s.leader_id))),
{
    let react = |t: HsReplicaView, f: NodeId, m: HsMsg| hs_replica_react(t, f, m);
    let stopped = |t: HsReplicaView| t.decided;
    let good = |t: HsReplicaView| t.leader_id == s.leader_id;
    lemma_run_inbox_filter(react, stopped, good, sent_by(s.leader_id), s, inbox);
}

} // verus!
