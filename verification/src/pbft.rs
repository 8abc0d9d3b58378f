use vstd::prelude::*;

use crate::quorum::{node_ids, quorum, quorum_size};
use crate::step::{lemma_run_inbox_filter, run_inbox, Outgoing, Step};
use crate::tally::{lemma_reaches_quorum_by_matching_votes, reaches_quorum, votes_for, VoteTally};
use crate::types::{NodeId, Value};

verus! {

/// The messages of single-decree PBFT.
#[derive(Clone, Copy, Debug, PartialEq, Eq)]
pub enum PbftMsg {
    PrePrepare { seq: u64, value: Value },
    Prepare { seq: u64, sender: NodeId, value: Value },
    Commit { seq: u64, sender: NodeId, value: Value },
}

/// One PBFT replica: node 0 is the primary, which proposes; every node
/// prepares, commits and decides once a quorum agrees on its own value.
pub struct PbftNode {
    node_id: NodeId,
    is_primary: bool,
    value: Value,
    seq: u64,
    quorum: usize,
    prepare_msgs: VoteTally,
    commit_msgs: VoteTally,
    prepared: bool,
    decided: bool,
}

/// The state of a PBFT replica.
pub struct PbftView {
    pub node_id: NodeId,
    pub is_primary: bool,
    pub value: Value,
    pub seq: u64,
    pub quorum: nat,
    /// The latest prepare vote of each sender.
    pub prepares: Map<NodeId, Value>,
    /// The latest commit vote of each sender.
    pub commits: Map<NodeId, Value>,
    /// The replica has broadcast its commit.
    pub prepared: bool,
    /// The replica has decided, and handles no more messages.
    pub decided: bool,
}

impl PbftView {
    /// The configuration of `self` is that of `other`.
    pub open spec fn same_config(self, other: PbftView) -> bool {
        &&& self.node_id == other.node_id
        &&& self.is_primary == other.is_primary
        &&& self.value == other.value
        &&& self.seq == other.seq
        &&& self.quorum == other.quorum
    }

    /// A replica that has decided holds a quorum of commits for its value.
    pub open spec fn decision_justified(self) -> bool {
        self.decided ==> reaches_quorum(self.commits, self.quorum, self.value)
    }

    /// The replica has received no vote, sent no commit and not decided.
    pub open spec fn fresh(self) -> bool {
        &&& self.prepares == Map::<NodeId, Value>::empty()
        &&& self.commits == Map::<NodeId, Value>::empty()
        &&& !self.prepared
        &&& !self.decided
    }
}

impl View for PbftNode {
    type V = PbftView;

    closed spec fn view(&self) -> PbftView {
        PbftView {
            node_id: self.node_id,
            is_primary: self.is_primary,
            value: self.value,
            seq: self.seq,
            quorum: self.quorum as nat,
            prepares: self.prepare_msgs@,
            commits: self.commit_msgs@,
            prepared: self.prepared,
            decided: self.decided,
        }
    }
}

impl PbftNode {
    /// A replica that has received nothing yet.
    pub fn new(node_id: NodeId, is_primary: bool, value: Value, seq: u64, quorum: usize) -> (node: Self)
        ensures
            node@.node_id == node_id,
            node@.is_primary == is_primary,
            node@.value == value,
            node@.seq == seq,
            node@.quorum == quorum,
            node@.fresh(),
            node@.decision_justified(),
    {
        PbftNode {
            node_id,
            is_primary,
            value,
            seq,
            quorum,
            prepare_msgs: VoteTally::new(),
            commit_msgs: VoteTally::new(),
            prepared: false,
            decided: false,
        }
    }

    /// The replica's tallies hold finitely many votes.
    pub proof fn lemma_tallies_finite(&self)
        ensures
            self@.prepares.dom().finite(),
            self@.commits.dom().finite(),
    {
        self.prepare_msgs.lemma_finite();
        self.commit_msgs.lemma_finite();
    }

    /// Whether the replica has decided.
    pub fn is_decided(&self) -> (d: bool)
        ensures
            d == self@.decided,
    {
        self.decided
    }

    /// What the replica does before it receives anything: the primary
    /// proposes its value and prepares it; a backup waits.
    pub fn start(&mut self) -> (step: Step<PbftMsg>)
        requires
            old(self)@.decision_justified(),
        ensures
            final(self)@.same_config(old(self)@),
            final(self)@.decision_justified(),
            step.decision is None,
            final(self)@.commits == old(self)@.commits,
            final(self)@.prepared == old(self)@.prepared,
            final(self)@.decided == old(self)@.decided,
            if old(self)@.is_primary {
                let s = old(self)@;
                &&& step.messages@ == seq![
                    Outgoing::Broadcast(PbftMsg::PrePrepare { seq: s.seq, value: s.value }),
                    Outgoing::Broadcast(PbftMsg::Prepare { seq: s.seq, sender: s.node_id, value: s.value }),
                ]
                &&& final(self)@.prepares == s.prepares.insert(s.node_id, s.value)
            } else {
                &&& step.messages@ == Seq::<Outgoing<PbftMsg>>::empty()
                &&& final(self)@.prepares == old(self)@.prepares
            },
    {
        let mut messages: Vec<Outgoing<PbftMsg>> = Vec::new();
        if self.is_primary {
            messages.push(Outgoing::Broadcast(PbftMsg::PrePrepare { seq: self.seq, value: self.value }));
            messages.push(
                Outgoing::Broadcast(
                    PbftMsg::Prepare { seq: self.seq, sender: self.node_id, value: self.value },
                ),
            );
            self.prepare_msgs.insert(self.node_id, self.value);
        }
        Step { messages, decision: None }
    }

    /// What the replica does when `msg` arrives from node `from`.
    pub fn handle(&mut self, from: NodeId, msg: PbftMsg) -> (step: Step<PbftMsg>)
        requires
            old(self)@.decision_justified(),
        ensures
            final(self)@.same_config(old(self)@),
            final(self)@.decision_justified(),
            step.decision is Some ==> step.decision == Some(old(self)@.value),
            old(self)@.decided ==> final(self)@ == old(self)@ && step.messages@.len() == 0
                && step.decision is None,
            !old(self)@.decided ==> pbft_transition(old(self)@, from, msg, final(self)@, step.messages@, step.decision),
    {
        if self.decided {
            return Step::idle();
        }
        match msg {
            PbftMsg::PrePrepare { seq: msg_seq, value: msg_value } => {
                if msg_seq == self.seq && from == 0 && !self.is_primary {
                    self.prepare_msgs.insert(self.node_id, msg_value);
                    Step::broadcast(PbftMsg::Prepare { seq: self.seq, sender: self.node_id, value: msg_value })
                } else {
                    Step::idle()
                }
            },
            PbftMsg::Prepare { seq: msg_seq, sender, value: msg_value } => {
                if msg_seq == self.seq {
                    self.prepare_msgs.insert(sender, msg_value);
                    if !self.prepared && self.prepare_msgs.reaches_quorum(self.quorum, self.value) {
                        self.prepared = true;
                        self.commit_msgs.insert(self.node_id, self.value);
                        Step::broadcast(PbftMsg::Commit { seq: self.seq, sender: self.node_id, value: self.value })
                    } else {
                        Step::idle()
                    }
                } else {
                    Step::idle()
                }
            },
            PbftMsg::Commit { seq: msg_seq, sender, value: msg_value } => {
                if msg_seq == self.seq {
                    self.commit_msgs.insert(sender, msg_value);
                    if self.commit_msgs.reaches_quorum(self.quorum, self.value) {
                        self.decided = true;
                        Step::decide(self.value)
                    } else {
                        Step::idle()
                    }
                } else {
                    Step::idle()
                }
            },
        }
    }
}

/// The replicas of a PBFT cluster of `n` nodes that all hold `value`, for
/// sequence number 1: replica `i` is node `i`, node 0 is the primary, and
/// every replica waits for a quorum of `2f + 1` votes.
pub fn pbft_cluster(n: usize, value: Value) -> (nodes: Vec<PbftNode>)
    requires
        n >= 1,
    ensures
        nodes.len() == n,
        forall|i: int|
            0 <= i < n ==> {
                let v = (#[trigger] nodes@[i])@;
                &&& v.node_id == i
                &&& v.is_primary == (i == 0)
                &&& v.value == value
                &&& v.seq == 1
                &&& v.quorum == quorum(n as nat)
                &&& v.fresh()
                &&& v.decision_justified()
            },
{
    let ids = node_ids(n);
    let q = quorum_size(n);
    let mut nodes: Vec<PbftNode> = Vec::new();
    let mut i: usize = 0;
    while i < n
        invariant
            i <= n,
            ids@.len() == n,
            forall|j: int| 0 <= j < n ==> #[trigger] ids@[j] == j,
            q == quorum(n as nat),
            nodes.len() == i,
            forall|j: int|
                0 <= j < i ==> {
                    let v = (#[trigger] nodes@[j])@;
                    &&& v.node_id == j
                    &&& v.is_primary == (j == 0)
                    &&& v.value == value
                    &&& v.seq == 1
                    &&& v.quorum == quorum(n as nat)
                    &&& v.fresh()
                    &&& v.decision_justified()
                },
        decreases n - i,
    {
        let id = ids[i];
        nodes.push(PbftNode::new(id, id == 0, value, 1, q));
        i = i + 1;
    }
    nodes
}

/// How a PBFT replica `s` that has not decided reacts to `msg` from `from`,
/// becoming `t`, sending `out` and deciding `decision`.
pub open spec fn pbft_transition(
    s: PbftView,
    from: NodeId,
    msg: PbftMsg,
    t: PbftView,
    out: Seq<Outgoing<PbftMsg>>,
    decision: Option<Value>,
) -> bool {
    match msg {
        PbftMsg::PrePrepare { seq, value } => {
            if seq == s.seq && from == 0 && !s.is_primary {
                &&& t == PbftView { prepares: s.prepares.insert(s.node_id, value), ..s }
                &&& out == seq![Outgoing::Broadcast(PbftMsg::Prepare { seq: s.seq, sender: s.node_id, value })]
                &&& decision is None
            } else {
                t == s && out.len() == 0 && decision is None
            }
        },
        PbftMsg::Prepare { seq, sender, value } => {
            if seq == s.seq {
                let prepares = s.prepares.insert(sender, value);
                if !s.prepared && reaches_quorum(prepares, s.quorum, s.value) {
                    &&& t == PbftView {
                        prepares,
                        commits: s.commits.insert(s.node_id, s.value),
                        prepared: true,
                        ..s
                    }
                    &&& out == seq![Outgoing::Broadcast(PbftMsg::Commit { seq: s.seq, sender: s.node_id, value: s.value })]
                    &&& decision is None
                } else {
                    t == PbftView { prepares, ..s } && out.len() == 0 && decision is None
                }
            } else {
                t == s && out.len() == 0 && decision is None
            }
        },
        PbftMsg::Commit { seq, sender, value } => {
            if seq == s.seq {
                let commits = s.commits.insert(sender, value);
                &&& out.len() == 0
                &&& if reaches_quorum(commits, s.quorum, s.value) {
                    t == PbftView { commits, decided: true, ..s } && decision == Some(s.value)
                } else {
                    t == PbftView { commits, ..s } && decision is None
                }
            } else {
                t == s && out.len() == 0 && decision is None
            }
        },
    }
}

/// A PBFT replica decides only its own value, only when its commits reach a
/// quorum for that value, and then stops; it never forgets a vote, and once
/// prepared it stays prepared.
pub proof fn lemma_pbft_step_safety(
    s: PbftView,
    from: NodeId,
    msg: PbftMsg,
    t: PbftView,
    out: Seq<Outgoing<PbftMsg>>,
    decision: Option<Value>,
)
    requires
        !s.decided,
        pbft_transition(s, from, msg, t, out, decision),
    ensures
        decision matches Some(v) ==> v == s.value && t.decided && reaches_quorum(t.commits, t.quorum, v),
        decision is None ==> !t.decided,
        s.prepared ==> t.prepared,
        s.prepares.dom().subset_of(t.prepares.dom()),
        s.commits.dom().subset_of(t.commits.dom()),
        t.same_config(s),
{
}

/// A PBFT replica broadcasts its commit once: only when it was not yet
/// prepared and its prepares reach a quorum for its value.
pub proof fn lemma_pbft_commits_once(
    s: PbftView,
    from: NodeId,
    msg: PbftMsg,
    t: PbftView,
    out: Seq<Outgoing<PbftMsg>>,
    decision: Option<Value>,
)
    requires
        !s.decided,
        pbft_transition(s, from, msg, t, out, decision),
        out.len() > 0,
        out[0] matches Outgoing::Broadcast(PbftMsg::Commit { .. }),
    ensures
        !s.prepared,
        t.prepared,
        reaches_quorum(t.prepares, s.quorum, s.value),
        out == seq![Outgoing::Broadcast(PbftMsg::Commit { seq: s.seq, sender: s.node_id, value: s.value })],
{
}

/// What a PBFT replica that has not decided does with a message, in terms
/// of the message and the votes it holds: each tally keeps the latest vote
/// of each sender, as that vote was sent; the replica's own entry in a
/// tally is the vote it broadcast; it commits when, for the first time,
/// the prepares it holds include a quorum for its own value, and decides
/// exactly when the commits it holds do; messages of another sequence
/// number change nothing.
pub proof fn lemma_pbft_votes_as_received(
    s: PbftView,
    from: NodeId,
    msg: PbftMsg,
    t: PbftView,
    out: Seq<Outgoing<PbftMsg>>,
    decision: Option<Value>,
)
    requires
        !s.decided,
        s.prepares.dom().finite(),
        s.commits.dom().finite(),
        pbft_transition(s, from, msg, t, out, decision),
    ensures
        msg matches PbftMsg::Prepare { seq, sender, value } ==> (seq == s.seq ==> t.prepares == s.prepares.insert(
            sender,
            value,
        )),
        msg matches PbftMsg::Commit { seq, sender, value } ==> (seq == s.seq ==> t.commits == s.commits.insert(
            sender,
            value,
        )),
        msg matches PbftMsg::PrePrepare { seq, value } ==> if seq == s.seq && from == 0 && !s.is_primary {
            &&& t.prepares == s.prepares.insert(s.node_id, value)
            &&& out == seq![Outgoing::Broadcast(PbftMsg::Prepare { seq: s.seq, sender: s.node_id, value })]
        } else {
            t == s && out.len() == 0
        },
        forall|i: int|
            0 <= i < out.len() ==> ((#[trigger] out[i]) matches Outgoing::Broadcast(PbftMsg::Prepare { seq, sender, value })
                ==> seq == s.seq && sender == s.node_id && t.prepares.contains_key(sender) && t.prepares[sender]
                == value),
        forall|i: int|
            0 <= i < out.len() ==> ((#[trigger] out[i]) matches Outgoing::Broadcast(PbftMsg::Commit { seq, sender, value })
                ==> seq == s.seq && sender == s.node_id && t.commits.contains_key(sender) && t.commits[sender]
                == value && value == s.value),
        (out.len() > 0 && out[0] is Broadcast && out[0]->Broadcast_0 is Commit) <==> (msg is Prepare
            && msg->Prepare_seq == s.seq && !s.prepared && votes_for(t.prepares, s.value) >= s.quorum),
        (out.len() > 0 && out[0] is Broadcast && out[0]->Broadcast_0 is Commit) ==> t.prepared,
        decision is Some <==> t.decided,
        msg is Commit ==> t.prepares == s.prepares && t.prepared == s.prepared,
        !(msg is Commit) ==> t.decided == s.decided,
        msg is PrePrepare ==> t.commits == s.commits && t.prepared == s.prepared,
        msg is Prepare ==> t.commits == s.commits || (t.commits == s.commits.insert(s.node_id, s.value)
            && out.len() > 0),
        decision is Some <==> (msg is Commit && msg->Commit_seq == s.seq && votes_for(t.commits, s.value)
            >= s.quorum),
        decision is Some ==> decision == Some(s.value),
        (msg matches PbftMsg::PrePrepare { seq, .. } && seq != s.seq) || (msg matches PbftMsg::Prepare { seq, .. }
            && seq != s.seq) || (msg matches PbftMsg::Commit { seq, .. } && seq != s.seq) ==> t == s && out.len()
            == 0,
{
    match msg {
        PbftMsg::PrePrepare { seq, value } => {},
        PbftMsg::Prepare { seq, sender, value } => {
            if seq == s.seq {
                lemma_reaches_quorum_by_matching_votes(s.prepares.insert(sender, value), s.quorum, s.value);
            }
        },
        PbftMsg::Commit { seq, sender, value } => {
            if seq == s.seq {
                lemma_reaches_quorum_by_matching_votes(s.commits.insert(sender, value), s.quorum, s.value);
            }
        },
    }
}

/// Every clone of a PBFT message is the message itself.
pub proof fn lemma_pbft_msg_clones_exact(m: PbftMsg)
    ensures
        crate::network::clones_exact(m),
{
}

/// What a PBFT replica `s` that has not decided does with `msg` from `from`:
/// its next state, what it sends and what it decides, as `pbft_transition`
/// describes it.
pub open spec fn pbft_react(s: PbftView, from: NodeId, msg: PbftMsg) -> (PbftView, Seq<Outgoing<PbftMsg>>, Option<Value>) {
    match msg {
        PbftMsg::PrePrepare { seq, value } => {
            if seq == s.seq && from == 0 && !s.is_primary {
                (
                    PbftView { prepares: s.prepares.insert(s.node_id, value), ..s },
                    seq![Outgoing::Broadcast(PbftMsg::Prepare { seq: s.seq, sender: s.node_id, value })],
                    None,
                )
            } else {
                (s, Seq::empty(), None)
            }
        },
        PbftMsg::Prepare { seq, sender, value } => {
            if seq == s.seq {
                let prepares = s.prepares.insert(sender, value);
                if !s.prepared && reaches_quorum(prepares, s.quorum, s.value) {
                    (
                        PbftView { prepares, commits: s.commits.insert(s.node_id, s.value), prepared: true, ..s },
                        seq![Outgoing::Broadcast(PbftMsg::Commit { seq: s.seq, sender: s.node_id, value: s.value })],
                        None,
                    )
                } else {
                    (PbftView { prepares, ..s }, Seq::empty(), None)
                }
            } else {
                (s, Seq::empty(), None)
            }
        },
        PbftMsg::Commit { seq, sender, value } => {
            if seq == s.seq {
                let commits = s.commits.insert(sender, value);
                if reaches_quorum(commits, s.quorum, s.value) {
                    (PbftView { commits, decided: true, ..s }, Seq::empty(), Some(s.value))
                } else {
                    (PbftView { commits, ..s }, Seq::empty(), None)
                }
            } else {
                (s, Seq::empty(), None)
            }
        },
    }
}

/// `pbft_transition` is a function: a replica's next state, what it sends
/// and what it decides are those `pbft_react` gives, and no others.
pub proof fn lemma_pbft_react(
    s: PbftView,
    from: NodeId,
    msg: PbftMsg,
    t: PbftView,
    out: Seq<Outgoing<PbftMsg>>,
    d: Option<Value>,
)
    ensures
        pbft_transition(s, from, msg, t, out, d) <==> (t, out, d) == pbft_react(s, from, msg),
{
    if out.len() == 0 {
        assert(out =~= Seq::<Outgoing<PbftMsg>>::empty());
    }
}

/// What a PBFT replica does with the messages of `inbox`, read in order from
/// the state `s`: its state after them, everything it sent, and its
/// decision, if any; once it has decided it reads no more.
pub open spec fn pbft_run_inbox(s: PbftView, inbox: Seq<(NodeId, PbftMsg)>) -> (PbftView, Seq<Outgoing<PbftMsg>>, Option<Value>) {
    run_inbox(|t: PbftView, f: NodeId, m: PbftMsg| pbft_react(t, f, m), |t: PbftView| t.decided, s, inbox)
}

/// Whether a replica for sequence number `seq` acts on a message: it is for
/// `seq`, and, for a pre-prepare, it comes from node 0.
pub open spec fn pbft_counts(seq: u64) -> spec_fn((NodeId, PbftMsg)) -> bool {
    |e: (NodeId, PbftMsg)|
        match e.1 {
            PbftMsg::PrePrepare { seq: q, .. } => q == seq && e.0 == 0,
            PbftMsg::Prepare { seq: q, .. } => q == seq,
            PbftMsg::Commit { seq: q, .. } => q == seq,
        }
}

/// A PBFT replica ignores entirely the messages of another sequence number
/// and the pre-prepares not from node 0: reading `inbox` it does, sends and
/// decides what it does reading `inbox` without them.
pub proof fn lemma_pbft_ignores_other_messages(s: PbftView, inbox: Seq<(NodeId, PbftMsg)>)
    ensures
        pbft_run_inbox(s, inbox) == pbft_run_inbox(s, inbox.filter(pbft_counts(s.seq))),
{
    let react = |t: PbftView, f: NodeId, m: PbftMsg| pbft_react(t, f, m);
    let stopped = |t: PbftView| t.decided;
    let good = |t: PbftView| t.seq == s.seq;
    lemma_run_inbox_filter(react, stopped, good, pbft_counts(s.seq), s, inbox);
}

} // verus!
