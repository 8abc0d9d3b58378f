use vstd::prelude::*;

use crate::quorum::{node_ids, quorum, quorum_size};
use crate::step::{lemma_run_inbox_filter, lemma_run_inbox_repeat, repeat_at, run_inbox, Outgoing, Step};
use crate::tally::{lemma_reaches_quorum_by_matching_votes, reaches_quorum, votes_for, VoteTally};
use crate::types::{NodeId, Value};

verus! {

/// The messages of one Tendermint height.
#[derive(Clone, Copy, Debug, PartialEq, Eq)]
pub enum TmMsg {
    Proposal { round: u64, value: Value },
    Prevote { round: u64, sender: NodeId, value: Value },
    Precommit { round: u64, sender: NodeId, value: Value },
}

/// One Tendermint validator: node 0 proposes; every validator prevotes once,
/// precommits once a quorum prevotes its value, and decides once a quorum
/// precommits it.
pub struct TmNode {
    node_id: NodeId,
    is_proposer: bool,
    value: Value,
    round: u64,
    quorum: usize,
    prevotes: VoteTally,
    precommits: VoteTally,
    prevoted: bool,
    precommitted: bool,
    decided: bool,
}

/// The state of a Tendermint validator.
pub struct TmView {
    pub node_id: NodeId,
    pub is_proposer: bool,
    pub value: Value,
    pub round: u64,
    pub quorum: nat,
    /// The latest prevote of each sender.
    pub prevotes: Map<NodeId, Value>,
    /// The latest precommit of each sender.
    pub precommits: Map<NodeId, Value>,
    /// The validator has broadcast its prevote.
    pub prevoted: bool,
    /// The validator has broadcast its precommit.
    pub precommitted: bool,
    /// The validator has decided, and handles no more messages.
    pub decided: bool,
}

impl TmView {
    /// The configuration of `self` is that of `other`.
    pub open spec fn same_config(self, other: TmView) -> bool {
        &&& self.node_id == other.node_id
        &&& self.is_proposer == other.is_proposer
        &&& self.value == other.value
        &&& self.round == other.round
        &&& self.quorum == other.quorum
    }

    /// A validator that has decided holds a quorum of precommits for its value.
    pub open spec fn decision_justified(self) -> bool {
        self.decided ==> reaches_quorum(self.precommits, self.quorum, self.value)
    }

    /// The validator has received no vote, sent nothing and not decided.
    pub open spec fn fresh(self) -> bool {
        &&& self.prevotes == Map::<NodeId, Value>::empty()
        &&& self.precommits == Map::<NodeId, Value>::empty()
        &&& !self.prevoted
        &&& !self.precommitted
        &&& !self.decided
    }
}

impl View for TmNode {
    type V = TmView;

    closed spec fn view(&self) -> TmView {
        TmView {
            node_id: self.node_id,
            is_proposer: self.is_proposer,
            value: self.value,
            round: self.round,
            quorum: self.quorum as nat,
            prevotes: self.prevotes@,
            precommits: self.precommits@,
            prevoted: self.prevoted,
            precommitted: self.precommitted,
            decided: self.decided,
        }
    }
}

impl TmNode {
    /// A validator that has received nothing yet.
    pub fn new(node_id: NodeId, is_proposer: bool, value: Value, round: u64, quorum: usize) -> (node: Self)
        ensures
            node@.node_id == node_id,
            node@.is_proposer == is_proposer,
            node@.value == value,
            node@.round == round,
            node@.quorum == quorum,
            node@.fresh(),
            node@.decision_justified(),
    {
        TmNode {
            node_id,
            is_proposer,
            value,
            round,
            quorum,
            prevotes: VoteTally::new(),
            precommits: VoteTally::new(),
            prevoted: false,
            precommitted: false,
            decided: false,
        }
    }

    /// The validator's tallies hold finitely many votes.
    pub proof fn lemma_tallies_finite(&self)
        ensures
            self@.prevotes.dom().finite(),
            self@.precommits.dom().finite(),
    {
        self.prevotes.lemma_finite();
        self.precommits.lemma_finite();
    }

    /// Whether the validator has decided.
    pub fn is_decided(&self) -> (d: bool)
        ensures
            d == self@.decided,
    {
        self.decided
    }

    /// What the validator does before it receives anything: the proposer
    /// proposes its value and prevotes for it; any other validator waits.
    pub fn start(&mut self) -> (step: Step<TmMsg>)
        requires
            old(self)@.decision_justified(),
        ensures
            final(self)@.same_config(old(self)@),
            final(self)@.decision_justified(),
            step.decision is None,
            final(self)@.precommits == old(self)@.precommits,
            final(self)@.precommitted == old(self)@.precommitted,
            final(self)@.decided == old(self)@.decided,
            if old(self)@.is_proposer {
                let s = old(self)@;
                &&& step.messages@ == seq![
                    Outgoing::Broadcast(TmMsg::Proposal { round: s.round, value: s.value }),
                    Outgoing::Broadcast(TmMsg::Prevote { round: s.round, sender: s.node_id, value: s.value }),
                ]
                &&& final(self)@.prevotes == s.prevotes.insert(s.node_id, s.value)
                &&& final(self)@.prevoted
            } else {
                &&& step.messages@ == Seq::<Outgoing<TmMsg>>::empty()
                &&& final(self)@.prevotes == old(self)@.prevotes
                &&& final(self)@.prevoted == old(self)@.prevoted
            },
    {
        let mut messages: Vec<Outgoing<TmMsg>> = Vec::new();
        if self.is_proposer {
            messages.push(Outgoing::Broadcast(TmMsg::Proposal { round: self.round, value: self.value }));
            messages.push(
                Outgoing::Broadcast(
                    TmMsg::Prevote { round: self.round, sender: self.node_id, value: self.value },
                ),
            );
            self.prevotes.insert(self.node_id, self.value);
            self.prevoted = true;
        }
        Step { messages, decision: None }
    }

    /// What the validator does when `msg` arrives from node `from`.
    pub fn handle(&mut self, from: NodeId, msg: TmMsg) -> (step: Step<TmMsg>)
        requires
            old(self)@.decision_justified(),
        ensures
            final(self)@.same_config(old(self)@),
            final(self)@.decision_justified(),
            step.decision is Some ==> step.decision == Some(old(self)@.value),
            old(self)@.decided ==> final(self)@ == old(self)@ && step.messages@.len() == 0
                && step.decision is None,
            !old(self)@.decided ==> tm_transition(old(self)@, from, msg, final(self)@, step.messages@, step.decision),
    {
        if self.decided {
            return Step::idle();
        }
        match msg {
            TmMsg::Proposal { round: msg_round, value: msg_value } => {
                if msg_round == self.round && from == 0 && !self.prevoted {
                    self.prevoted = true;
                    self.prevotes.insert(self.node_id, msg_value);
                    Step::broadcast(TmMsg::Prevote { round: self.round, sender: self.node_id, value: msg_value })
                } else {
                    Step::idle()
                }
            },
            TmMsg::Prevote { round: msg_round, sender, value: msg_value } => {
                if msg_round == self.round {
                    self.prevotes.insert(sender, msg_value);
                    if !self.precommitted && self.prevotes.reaches_quorum(self.quorum, self.value) {
                        self.precommitted = true;
                        self.precommits.insert(self.node_id, self.value);
                        Step::broadcast(TmMsg::Precommit { round: self.round, sender: self.node_id, value: self.value })
                    } else {
                        Step::idle()
                    }
                } else {
                    Step::idle()
                }
            },
            TmMsg::Precommit { round: msg_round, sender, value: msg_value } => {
                if msg_round == self.round {
                    self.precommits.insert(sender, msg_value);
                    if self.precommits.reaches_quorum(self.quorum, self.value) {
                        self.decided = true;
                        Step::decide(self.value)
                    } else {
                        Step::idle()
                    }
                } else {
                    Step::idle()
                }
            },
        }
    }
}

/// The validators of a Tendermint cluster of `n` nodes that all hold
/// `value`, in round 0: validator `i` is node `i`, node 0 proposes, and every
/// validator waits for a quorum of `2f + 1` votes.
pub fn tendermint_cluster(n: usize, value: Value) -> (nodes: Vec<TmNode>)
    requires
        n >= 1,
    ensures
        nodes.len() == n,
        forall|i: int|
            0 <= i < n ==> {
                let v = (#[trigger] nodes@[i])@;
                &&& v.node_id == i
                &&& v.is_proposer == (i == 0)
                &&& v.value == value
                &&& v.round == 0
                &&& v.quorum == quorum(n as nat)
                &&& v.fresh()
                &&& v.decision_justified()
            },
{
    let ids = node_ids(n);
    let q = quorum_size(n);
    let mut nodes: Vec<TmNode> = Vec::new();
    let mut i: usize = 0;
    while i < n
        invariant
            i <= n,
            ids@.len() == n,
            forall|j: int| 0 <= j < n ==> #[trigger] ids@[j] == j,
            q == quorum(n as nat),
            nodes.len() == i,
            forall|j: int|
                0 <= j < i ==> {
                    let v = (#[trigger] nodes@[j])@;
                    &&& v.node_id == j
                    &&& v.is_proposer == (j == 0)
                    &&& v.value == value
                    &&& v.round == 0
                    &&& v.quorum == quorum(n as nat)
                    &&& v.fresh()
                    &&& v.decision_justified()
                },
        decreases n - i,
    {
        let id = ids[i];
        nodes.push(TmNode::new(id, id == 0, value, 0, q));
        i = i + 1;
    }
    nodes
}

/// How a Tendermint validator `s` that has not decided reacts to `msg` from
/// `from`, becoming `t`, sending `out` and deciding `decision`.
pub open spec fn tm_transition(
    s: TmView,
    from: NodeId,
    msg: TmMsg,
    t: TmView,
    out: Seq<Outgoing<TmMsg>>,
    decision: Option<Value>,
) -> bool {
    match msg {
        TmMsg::Proposal { round, value } => {
            if round == s.round && from == 0 && !s.prevoted {
                &&& t == TmView { prevotes: s.prevotes.insert(s.node_id, value), prevoted: true, ..s }
                &&& out == seq![Outgoing::Broadcast(TmMsg::Prevote { round: s.round, sender: s.node_id, value })]
                &&& decision is None
            } else {
                t == s && out.len() == 0 && decision is None
            }
        },
        TmMsg::Prevote { round, sender, value } => {
            if round == s.round {
                let prevotes = s.prevotes.insert(sender, value);
                if !s.precommitted && reaches_quorum(prevotes, s.quorum, s.value) {
                    &&& t == TmView {
                        prevotes,
                        precommits: s.precommits.insert(s.node_id, s.value),
                        precommitted: true,
                        ..s
                    }
                    &&& out == seq![Outgoing::Broadcast(TmMsg::Precommit { round: s.round, sender: s.node_id, value: s.value })]
                    &&& decision is None
                } else {
                    t == TmView { prevotes, ..s } && out.len() == 0 && decision is None
                }
            } else {
                t == s && out.len() == 0 && decision is None
            }
        },
        TmMsg::Precommit { round, sender, value } => {
            if round == s.round {
                let precommits = s.precommits.insert(sender, value);
                &&& out.len() == 0
                &&& if reaches_quorum(precommits, s.quorum, s.value) {
                    t == TmView { precommits, decided: true, ..s } && decision == Some(s.value)
                } else {
                    t == TmView { precommits, ..s } && decision is None
                }
            } else {
                t == s && out.len() == 0 && decision is None
            }
        },
    }
}

/// A Tendermint validator decides only its own value, only when its
/// precommits reach a quorum for that value, and then stops; it never
/// forgets a vote, and once it has prevoted or precommitted it stays so.
pub proof fn lemma_tm_step_safety(
    s: TmView,
    from: NodeId,
    msg: TmMsg,
    t: TmView,
    out: Seq<Outgoing<TmMsg>>,
    decision: Option<Value>,
)
    requires
        !s.decided,
        tm_transition(s, from, msg, t, out, decision),
    ensures
        decision matches Some(v) ==> v == s.value && t.decided && reaches_quorum(t.precommits, t.quorum, v),
        decision is None ==> !t.decided,
        s.prevoted ==> t.prevoted,
        s.precommitted ==> t.precommitted,
        s.prevotes.dom().subset_of(t.prevotes.dom()),
        s.precommits.dom().subset_of(t.precommits.dom()),
        t.same_config(s),
{
}

/// A Tendermint validator sends each of its votes once: it prevotes only if
/// it has not prevoted, and precommits only if it has not precommitted and
/// its prevotes reach a quorum for its value.
pub proof fn lemma_tm_votes_once(
    s: TmView,
    from: NodeId,
    msg: TmMsg,
    t: TmView,
    out: Seq<Outgoing<TmMsg>>,
    decision: Option<Value>,
)
    requires
        !s.decided,
        tm_transition(s, from, msg, t, out, decision),
    ensures
        (out.len() > 0 && (out[0] matches Outgoing::Broadcast(TmMsg::Prevote { .. }))) ==> !s.prevoted
            && t.prevoted && from == 0,
        (out.len() > 0 && (out[0] matches Outgoing::Broadcast(TmMsg::Precommit { .. }))) ==> !s.precommitted
            && t.precommitted && reaches_quorum(t.prevotes, s.quorum, s.value),
        out.len() <= 1,
{
}

/// What a Tendermint validator that has not decided does with a message, in
/// terms of the message and the votes it holds: each tally keeps the latest
/// vote of each sender, as that vote was sent; the validator's own entry in
/// a tally is the vote it broadcast; it prevotes the value of the first
/// proposal from node 0 for its round, precommits when, for the first time,
/// the prevotes it holds include a quorum for its own value, and decides
/// exactly when the precommits it holds do; messages of another round
/// change nothing.
pub proof fn lemma_tm_votes_as_received(
    s: TmView,
    from: NodeId,
    msg: TmMsg,
    t: TmView,
    out: Seq<Outgoing<TmMsg>>,
    decision: Option<Value>,
)
    requires
        !s.decided,
        s.prevotes.dom().finite(),
        s.precommits.dom().finite(),
        tm_transition(s, from, msg, t, out, decision),
    ensures
        msg matches TmMsg::Prevote { round, sender, value } ==> (round == s.round ==> t.prevotes
            == s.prevotes.insert(sender, value)),
        msg matches TmMsg::Precommit { round, sender, value } ==> (round == s.round ==> t.precommits
            == s.precommits.insert(sender, value)),
        msg matches TmMsg::Proposal { round, value } ==> if round == s.round && from == 0 && !s.prevoted {
            &&& t.prevotes == s.prevotes.insert(s.node_id, value)
            &&& t.prevoted
            &&& out == seq![Outgoing::Broadcast(TmMsg::Prevote { round: s.round, sender: s.node_id, value })]
        } else {
            t == s && out.len() == 0
        },
        forall|i: int|
            0 <= i < out.len() ==> ((#[trigger] out[i]) matches Outgoing::Broadcast(TmMsg::Prevote { round, sender, value })
                ==> round == s.round && sender == s.node_id && t.prevotes.contains_key(sender) && t.prevotes[sender]
                == value),
        forall|i: int|
            0 <= i < out.len() ==> ((#[trigger] out[i]) matches Outgoing::Broadcast(TmMsg::Precommit { round, sender, value })
                ==> round == s.round && sender == s.node_id && t.precommits.contains_key(sender)
                && t.precommits[sender] == value && value == s.value),
        (out.len() > 0 && out[0] is Broadcast && out[0]->Broadcast_0 is Precommit) <==> (msg is Prevote
            && msg->Prevote_round == s.round && !s.precommitted && votes_for(t.prevotes, s.value) >= s.quorum),
        (out.len() > 0 && out[0] is Broadcast && out[0]->Broadcast_0 is Precommit) ==> t.precommitted,
        decision is Some <==> t.decided,
        msg is Precommit ==> t.prevotes == s.prevotes && t.prevoted == s.prevoted && t.precommitted
            == s.precommitted,
        !(msg is Precommit) ==> t.decided == s.decided,
        msg is Proposal ==> t.precommits == s.precommits && t.precommitted == s.precommitted,
        msg is Prevote ==> t.prevoted == s.prevoted && (t.precommits == s.precommits || (t.precommits
            == s.precommits.insert(s.node_id, s.value) && out.len() > 0)),
        decision is Some <==> (msg is Precommit && msg->Precommit_round == s.round && votes_for(
            t.precommits,
            s.value,
        ) >= s.quorum),
        decision is Some ==> decision == Some(s.value),
        (msg matches TmMsg::Proposal { round, .. } && round != s.round) || (msg matches TmMsg::Prevote { round, .. }
            && round != s.round) || (msg matches TmMsg::Precommit { round, .. } && round != s.round) ==> t == s
            && out.len() == 0,
{
    match msg {
        TmMsg::Proposal { round, value } => {},
        TmMsg::Prevote { round, sender, value } => {
            if round == s.round {
                lemma_reaches_quorum_by_matching_votes(s.prevotes.insert(sender, value), s.quorum, s.value);
            }
        },
        TmMsg::Precommit { round, sender, value } => {
            if round == s.round {
                lemma_reaches_quorum_by_matching_votes(s.precommits.insert(sender, value), s.quorum, s.value);
            }
        },
    }
}

/// Every clone of a Tendermint message is the message itself.
pub proof fn lemma_tm_msg_clones_exact(m: TmMsg)
    ensures
        crate::network::clones_exact(m),
{
}

/// What a Tendermint validator `s` that has not decided does with `msg` from
/// `from`: its next state, what it sends and what it decides, as
/// `tm_transition` describes it.
pub open spec fn tm_react(s: TmView, from: NodeId, msg: TmMsg) -> (TmView, Seq<Outgoing<TmMsg>>, Option<Value>) {
    match msg {
        TmMsg::Proposal { round, value } => {
            if round == s.round && from == 0 && !s.prevoted {
                (
                    TmView { prevotes: s.prevotes.insert(s.node_id, value), prevoted: true, ..s },
                    seq![Outgoing::Broadcast(TmMsg::Prevote { round: s.round, sender: s.node_id, value })],
                    None,
                )
            } else {
                (s, Seq::empty(), None)
            }
        },
        TmMsg::Prevote { round, sender, value } => {
            if round == s.round {
                let prevotes = s.prevotes.insert(sender, value);
                if !s.precommitted && reaches_quorum(prevotes, s.quorum, s.value) {
                    (
                        TmView {
                            prevotes,
                            precommits: s.precommits.insert(s.node_id, s.value),
                            precommitted: true,
                            ..s
                        },
                        seq![Outgoing::Broadcast(TmMsg::Precommit { round: s.round, sender: s.node_id, value: s.value })],
                        None,
                    )
                } else {
                    (TmView { prevotes, ..s }, Seq::empty(), None)
                }
            } else {
                (s, Seq::empty(), None)
            }
        },
        TmMsg::Precommit { round, sender, value } => {
            if round == s.round {
                let precommits = s.precommits.insert(sender, value);
                if reaches_quorum(precommits, s.quorum, s.value) {
                    (TmView { precommits, decided: true, ..s }, Seq::empty(), Some(s.value))
                } else {
                    (TmView { precommits, ..s }, Seq::empty(), None)
                }
            } else {
                (s, Seq::empty(), None)
            }
        },
    }
}

/// `tm_transition` is a function: a validator's next state, what it sends
/// and what it decides are those `tm_react` gives, and no others.
pub proof fn lemma_tm_react(
    s: TmView,
    from: NodeId,
    msg: TmMsg,
    t: TmView,
    out: Seq<Outgoing<TmMsg>>,
    d: Option<Value>,
)
    ensures
        tm_transition(s, from, msg, t, out, d) <==> (t, out, d) == tm_react(s, from, msg),
{
    if out.len() == 0 {
        assert(out =~= Seq::<Outgoing<TmMsg>>::empty());
    }
}

/// What a Tendermint validator does with the messages of `inbox`, read in
/// order from the state `s`: its state after them, everything it sent, and
/// its decision, if any; once it has decided it reads no more.
pub open spec fn tm_run_inbox(s: TmView, inbox: Seq<(NodeId, TmMsg)>) -> (TmView, Seq<Outgoing<TmMsg>>, Option<Value>) {
    run_inbox(|t: TmView, f: NodeId, m: TmMsg| tm_react(t, f, m), |t: TmView| t.decided, s, inbox)
}

/// Whether a message is of round `round`.
pub open spec fn tm_in_round(round: u64) -> spec_fn((NodeId, TmMsg)) -> bool {
    |e: (NodeId, TmMsg)|
        match e.1 {
            TmMsg::Proposal { round: r, .. } => r == round,
            TmMsg::Prevote { round: r, .. } => r == round,
            TmMsg::Precommit { round: r, .. } => r == round,
        }
}

/// A Tendermint validator ignores entirely the messages of other rounds:
/// reading `inbox` it does, sends and decides what it does reading `inbox`
/// without them.
pub proof fn lemma_tm_ignores_other_rounds(s: TmView, inbox: Seq<(NodeId, TmMsg)>)
    ensures
        tm_run_inbox(s, inbox) == tm_run_inbox(s, inbox.filter(tm_in_round(s.round))),
{
    let react = |t: TmView, f: NodeId, m: TmMsg| tm_react(t, f, m);
    let stopped = |t: TmView| t.decided;
    let good = |t: TmView| t.round == s.round;
    lemma_run_inbox_filter(react, stopped, good, tm_in_round(s.round), s, inbox);
}

/// A validator that has not decided and reads `msg` from `from` twice in a
/// row acts on it once: the second reading changes nothing, sends nothing
/// and decides nothing, unless the first made it decide.
proof fn lemma_tm_react_twice(s: TmView, from: NodeId, msg: TmMsg)
    requires
        !s.decided,
        !tm_react(s, from, msg).0.decided,
    ensures
        tm_react(tm_react(s, from, msg).0, from, msg) == (tm_react(s, from, msg).0, Seq::<Outgoing<TmMsg>>::empty(), None::<Value>),
{
    let t = tm_react(s, from, msg).0;
    match msg {
        TmMsg::Prevote { round, sender, value } => {
            if round == s.round {
                assert(t.prevotes.insert(sender, value) =~= t.prevotes);
            }
        },
        TmMsg::Precommit { round, sender, value } => {
            if round == s.round {
                assert(t.precommits.insert(sender, value) =~= t.precommits);
            }
        },
        _ => {},
    }
}

/// A Tendermint validator acts on a proposal, prevote or precommit read
/// twice in a row once: reading `inbox` with its `k`-th message repeated
/// right after it, it does, sends and decides what it does reading `inbox`.
pub proof fn lemma_tm_ignores_repeats(s: TmView, inbox: Seq<(NodeId, TmMsg)>, k: int)
    requires
        0 <= k < inbox.len(),
    ensures
        tm_run_inbox(s, inbox) == tm_run_inbox(s, repeat_at(inbox, k)),
{
    let react = |t: TmView, f: NodeId, m: TmMsg| tm_react(t, f, m);
    let stopped = |t: TmView| t.decided;
    let good = |t: TmView| true;
    assert forall|t: TmView, f: NodeId, m: TmMsg|
        good(t) && !stopped(t) && !stopped(#[trigger] react(t, f, m).0) implies react(react(t, f, m).0, f, m) == (
            react(t, f, m).0,
            Seq::<Outgoing<TmMsg>>::empty(),
            None::<Value>,
        ) by {
        lemma_tm_react_twice(t, f, m);
    }
    lemma_run_inbox_repeat(react, stopped, good, s, inbox, k);
}

} // verus!
