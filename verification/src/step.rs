use vstd::prelude::*;

use crate::types::{NodeId, Value};

verus! {

/// A message a node hands to the network.
pub enum Outgoing<M> {
    /// To every other node of the cluster.
    Broadcast(M),
    /// To one node.
    SendTo(NodeId, M),
}

/// What a node does in reaction to one event: the messages it sends, in
/// order, and the value it decides, if it decides. A node that has decided
/// stops.
pub struct Step<M> {
    pub messages: Vec<Outgoing<M>>,
    pub decision: Option<Value>,
}

/// Hands the messages `out` of node `from` to the channels `queues`, as the
/// network does: `queues[j]` holds what node `j` has not read yet, oldest
/// first; a broadcast reaches every other node's channel at once, a send
/// the channel of its addressee, if there is one.
pub open spec fn post<M>(queues: Seq<Seq<(NodeId, M)>>, from: NodeId, out: Seq<Outgoing<M>>) -> Seq<Seq<(NodeId, M)>>
    decreases out.len(),
{
    if out.len() == 0 {
        queues
    } else {
        post(post_one(queues, from, out[0]), from, out.drop_first())
    }
}

/// Hands one message `o` of node `from` to the channels `queues`.
pub open spec fn post_one<M>(queues: Seq<Seq<(NodeId, M)>>, from: NodeId, o: Outgoing<M>) -> Seq<Seq<(NodeId, M)>> {
    match o {
        Outgoing::Broadcast(m) => Seq::new(
            queues.len(),
            |j: int| if j != from { queues[j].push((from, m)) } else { queues[j] },
        ),
        Outgoing::SendTo(to, m) => if to < queues.len() {
            queues.update(to as int, queues[to as int].push((from, m)))
        } else {
            queues
        },
    }
}

impl<M> Step<M> {
    /// Sends nothing and decides nothing.
    pub fn idle() -> (s: Self)
        ensures
            s.messages@ == Seq::<Outgoing<M>>::empty(),
            s.decision is None,
    {
        Step { messages: Vec::new(), decision: None }
    }

    /// Sends `m` to every other node, and decides nothing.
    pub fn broadcast(m: M) -> (s: Self)
        ensures
            s.messages@ == seq![Outgoing::Broadcast(m)],
            s.decision is None,
    {
        let mut messages = Vec::new();
        messages.push(Outgoing::Broadcast(m));
        Step { messages, decision: None }
    }

    /// Sends nothing, and decides `v`.
    pub fn decide(v: Value) -> (s: Self)
        ensures
            s.messages@ == Seq::<Outgoing<M>>::empty(),
            s.decision == Some(v),
    {
        Step { messages: Vec::new(), decision: Some(v) }
    }
}

/// Node `j` reading the head of its channel and any node handing over
/// `out` commute: the channels end up the same whichever comes first. This
/// is why a node's read and its later hand-over, with other nodes' steps in
/// between, can be taken as one step.
pub proof fn lemma_read_commutes_with_post<M>(
    qs: Seq<Seq<(NodeId, M)>>,
    j: int,
    from: NodeId,
    out: Seq<Outgoing<M>>,
)
    requires
        0 <= j < qs.len(),
        qs[j].len() > 0,
    ensures
        post(qs.update(j, qs[j].drop_first()), from, out) == post(qs, from, out).update(
            j,
            post(qs, from, out)[j].drop_first(),
        ),
        post(qs, from, out).len() == qs.len(),
        post(qs, from, out)[j].len() > 0,
        post(qs, from, out)[j][0] == qs[j][0],
    decreases out.len(),
{
    if out.len() > 0 {
        let q1 = post_one(qs, from, out[0]);
        let r = qs.update(j, qs[j].drop_first());
        let r1 = post_one(r, from, out[0]);
        assert(q1.len() == qs.len());
        assert(q1[j].len() > 0 && q1[j][0] == qs[j][0]);
        assert(r1 =~= q1.update(j, q1[j].drop_first())) by {
            assert forall|k: int| 0 <= k < qs.len() implies #[trigger] r1[k] == q1.update(j, q1[j].drop_first())[k] by {
                match out[0] {
                    Outgoing::Broadcast(m) => {
                        if k == j && k != from {
                            assert(qs[j].drop_first().push((from, m)) =~= qs[j].push((from, m)).drop_first());
                        }
                    },
                    Outgoing::SendTo(to, m) => {
                        if k == j && to == k {
                            assert(qs[j].drop_first().push((from, m)) =~= qs[j].push((from, m)).drop_first());
                        }
                    },
                }
            }
        }
        lemma_read_commutes_with_post(q1, j, from, out.drop_first());
    }
}

/// The channels `qs` with, for each node `k` that `heads` names, the message
/// `heads[k]` back at the head of its channel: the channels as they were
/// before those nodes read.
pub open spec fn with_heads<M>(qs: Seq<Seq<(NodeId, M)>>, heads: Map<int, (NodeId, M)>) -> Seq<Seq<(NodeId, M)>> {
    Seq::new(qs.len(), |k: int| if heads.contains_key(k) { seq![heads[k]] + qs[k] } else { qs[k] })
}

/// Handing over `out` and putting read messages back at the heads of their
/// channels commute.
pub proof fn lemma_post_with_heads<M>(
    qs: Seq<Seq<(NodeId, M)>>,
    heads: Map<int, (NodeId, M)>,
    from: NodeId,
    out: Seq<Outgoing<M>>,
)
    ensures
        post(with_heads(qs, heads), from, out) == with_heads(post(qs, from, out), heads),
        post(qs, from, out).len() == qs.len(),
    decreases out.len(),
{
    if out.len() > 0 {
        let q1 = post_one(qs, from, out[0]);
        let w1 = post_one(with_heads(qs, heads), from, out[0]);
        assert(w1 =~= with_heads(q1, heads)) by {
            assert forall|k: int| 0 <= k < qs.len() implies #[trigger] w1[k] == with_heads(q1, heads)[k] by {
                if heads.contains_key(k) {
                    match out[0] {
                        Outgoing::Broadcast(m) => {
                            assert((seq![heads[k]] + qs[k]).push((from, m)) =~= seq![heads[k]] + qs[k].push((from, m)));
                        },
                        Outgoing::SendTo(to, m) => {
                            assert((seq![heads[k]] + qs[k]).push((from, m)) =~= seq![heads[k]] + qs[k].push((from, m)));
                        },
                    }
                }
            }
        }
        lemma_post_with_heads(q1, heads, from, out.drop_first());
    }
}

/// How many messages the channels `qs[0..i]` hold.
pub open spec fn queued_upto<M>(qs: Seq<Seq<(NodeId, M)>>, i: int) -> int
    decreases i,
{
    if i <= 0 {
        0
    } else {
        queued_upto(qs, i - 1) + qs[i - 1].len()
    }
}

/// How many messages the channels `qs` hold.
pub open spec fn queued<M>(qs: Seq<Seq<(NodeId, M)>>) -> int {
    queued_upto(qs, qs.len() as int)
}

/// How many messages `post` hands to `n` channels for `out`: one to every
/// channel but the sender's for a broadcast, one for a send to a node that
/// has a channel.
pub open spec fn post_count<M>(n: nat, out: Seq<Outgoing<M>>) -> int
    decreases out.len(),
{
    if out.len() == 0 {
        0
    } else {
        (match out[0] {
            Outgoing::Broadcast(_) => n - 1,
            Outgoing::SendTo(to, _) => if to < n {
                1int
            } else {
                0int
            },
        }) + post_count(n, out.drop_first())
    }
}

/// Replacing channel `j` by `q` changes how many messages the channels hold
/// by the difference of their lengths.
pub proof fn lemma_queued_update<M>(qs: Seq<Seq<(NodeId, M)>>, j: int, q: Seq<(NodeId, M)>, i: int)
    requires
        0 <= j < qs.len(),
        0 <= i <= qs.len(),
    ensures
        queued_upto(qs.update(j, q), i) == queued_upto(qs, i) + if j < i {
            q.len() - qs[j].len()
        } else {
            0
        },
    decreases i,
{
    if i > 0 {
        lemma_queued_update(qs, j, q, i - 1);
    }
}

proof fn lemma_queued_broadcast<M>(qs: Seq<Seq<(NodeId, M)>>, from: NodeId, m: M, i: int)
    requires
        0 <= i <= qs.len(),
    ensures
        queued_upto(post_one(qs, from, Outgoing::Broadcast(m)), i) == queued_upto(qs, i) + i - if from < i {
            1int
        } else {
            0int
        },
    decreases i,
{
    if i > 0 {
        lemma_queued_broadcast(qs, from, m, i - 1);
    }
}

proof fn lemma_queued_nonneg<M>(qs: Seq<Seq<(NodeId, M)>>, i: int)
    ensures
        queued_upto(qs, i) >= 0,
    decreases i,
{
    if i > 0 {
        lemma_queued_nonneg(qs, i - 1);
    }
}

/// Handing `out` of node `from` to the channels adds `post_count` messages.
pub proof fn lemma_queued_post<M>(qs: Seq<Seq<(NodeId, M)>>, from: NodeId, out: Seq<Outgoing<M>>)
    requires
        from < qs.len(),
    ensures
        queued(post(qs, from, out)) == queued(qs) + post_count(qs.len(), out),
        post(qs, from, out).len() == qs.len(),
    decreases out.len(),
{
    if out.len() > 0 {
        let q2 = post_one(qs, from, out[0]);
        match out[0] {
            Outgoing::Broadcast(m) => {
                lemma_queued_broadcast(qs, from, m, qs.len() as int);
            },
            Outgoing::SendTo(to, m) => {
                if to < qs.len() {
                    lemma_queued_update(qs, to as int, qs[to as int].push((from, m)), qs.len() as int);
                }
            },
        }
        lemma_queued_post(q2, from, out.drop_first());
    }
}

/// The channels hold no fewer than no messages.
pub proof fn lemma_queued_nonnegative<M>(qs: Seq<Seq<(NodeId, M)>>)
    ensures
        queued(qs) >= 0,
{
    lemma_queued_nonneg(qs, qs.len() as int);
}

/// What a node whose reaction to one message is `react` does with the
/// messages of `inbox`, read in order from the state `s`: its state after
/// them, everything it sent, in order, and the last value it decided, if
/// any. A node in a state where `stopped` holds reads no more.
pub open spec fn run_inbox<S, M>(
    react: spec_fn(S, NodeId, M) -> (S, Seq<Outgoing<M>>, Option<Value>),
    stopped: spec_fn(S) -> bool,
    s: S,
    inbox: Seq<(NodeId, M)>,
) -> (S, Seq<Outgoing<M>>, Option<Value>)
    decreases inbox.len(),
{
    if inbox.len() == 0 || stopped(s) {
        (s, Seq::empty(), None)
    } else {
        let first = react(s, inbox[0].0, inbox[0].1);
        let rest = run_inbox(react, stopped, first.0, inbox.drop_first());
        (rest.0, first.1 + rest.1, if rest.2 is Some { rest.2 } else { first.2 })
    }
}

/// `inbox` with its `k`-th message read twice in a row.
pub open spec fn repeat_at<M>(inbox: Seq<(NodeId, M)>, k: int) -> Seq<(NodeId, M)> {
    inbox.take(k + 1) + inbox.skip(k)
}

/// A node that ignores every message `keep` rejects, in every state where
/// `good` holds and which its reactions keep, does the same with `inbox` as
/// with the messages of `inbox` that `keep` accepts.
pub proof fn lemma_run_inbox_filter<S, M>(
    react: spec_fn(S, NodeId, M) -> (S, Seq<Outgoing<M>>, Option<Value>),
    stopped: spec_fn(S) -> bool,
    good: spec_fn(S) -> bool,
    keep: spec_fn((NodeId, M)) -> bool,
    s: S,
    inbox: Seq<(NodeId, M)>,
)
    requires
        good(s),
        forall|t: S, f: NodeId, m: M| good(t) && !stopped(t) ==> good(#[trigger] react(t, f, m).0),
        forall|t: S, f: NodeId, m: M|
            good(t) && !stopped(t) && !keep((f, m)) ==> #[trigger] react(t, f, m) == (
                t,
                Seq::<Outgoing<M>>::empty(),
                None::<Value>,
            ),
    ensures
        run_inbox(react, stopped, s, inbox) == run_inbox(react, stopped, s, inbox.filter(keep)),
    decreases inbox.len(),
{
    if inbox.len() == 0 {
        assert(inbox.filter(keep) =~= Seq::<(NodeId, M)>::empty());
    } else if stopped(s) {
        let fl = inbox.filter(keep);
        assert(run_inbox(react, stopped, s, fl) == (s, Seq::<Outgoing<M>>::empty(), None::<Value>));
    } else {
        let x = inbox[0];
        let rest = inbox.drop_first();
        assert(inbox =~= seq![x] + rest);
        Seq::filter_distributes_over_add(seq![x], rest, keep);
        reveal_with_fuel(Seq::filter, 2);
        assert(seq![x].drop_last() =~= Seq::<(NodeId, M)>::empty());
        let first = react(s, x.0, x.1);
        lemma_run_inbox_filter(react, stopped, good, keep, first.0, rest);
        lemma_run_inbox_filter(react, stopped, good, keep, s, rest);
        if keep(x) {
            assert(seq![x].filter(keep) =~= seq![x]);
            let fl = inbox.filter(keep);
            assert(fl =~= seq![x] + rest.filter(keep));
            assert(fl[0] == x);
            assert(fl.drop_first() =~= rest.filter(keep));
        } else {
            assert(seq![x].filter(keep) =~= Seq::<(NodeId, M)>::empty());
            assert(inbox.filter(keep) =~= rest.filter(keep));
            let r = run_inbox(react, stopped, s, rest);
            assert(Seq::<Outgoing<M>>::empty() + r.1 =~= r.1);
        }
    }
}

/// A node for which reading a message a second time right after the first
/// changes nothing, sends nothing and decides nothing, in every state where
/// `good` holds and which its reactions keep, does the same with `inbox` as
/// with `inbox` with its `k`-th message read twice in a row.
pub proof fn lemma_run_inbox_repeat<S, M>(
    react: spec_fn(S, NodeId, M) -> (S, Seq<Outgoing<M>>, Option<Value>),
    stopped: spec_fn(S) -> bool,
    good: spec_fn(S) -> bool,
    s: S,
    inbox: Seq<(NodeId, M)>,
    k: int,
)
    requires
        good(s),
        0 <= k < inbox.len(),
        forall|t: S, f: NodeId, m: M| good(t) && !stopped(t) ==> good(#[trigger] react(t, f, m).0),
        forall|t: S, f: NodeId, m: M|
            good(t) && !stopped(t) && !stopped(#[trigger] react(t, f, m).0) ==> react(react(t, f, m).0, f, m) == (
                react(t, f, m).0,
                Seq::<Outgoing<M>>::empty(),
                None::<Value>,
            ),
    ensures
        run_inbox(react, stopped, s, inbox) == run_inbox(react, stopped, s, repeat_at(inbox, k)),
    decreases k,
{
    let dup = repeat_at(inbox, k);
    assert(dup.len() == inbox.len() + 1);
    if stopped(s) {
        assert(run_inbox(react, stopped, s, dup) == (s, Seq::<Outgoing<M>>::empty(), None::<Value>));
    } else {
        let x = inbox[0];
        let first = react(s, x.0, x.1);
        let t1 = first.0;
        assert(dup[0] == x);
        let r = run_inbox(react, stopped, t1, inbox.drop_first());
        assert(run_inbox(react, stopped, s, inbox) == (r.0, first.1 + r.1, if r.2 is Some { r.2 } else { first.2 }));
        if k == 0 {
            assert(dup.drop_first() =~= inbox);
            let r2 = run_inbox(react, stopped, t1, inbox);
            if !stopped(t1) {
                assert(react(t1, x.0, x.1) == (t1, Seq::<Outgoing<M>>::empty(), None::<Value>));
                assert(Seq::<Outgoing<M>>::empty() + r.1 =~= r.1);
                assert(r2 == (r.0, r.1, r.2));
            } else {
                assert(inbox.drop_first().len() == 0 || stopped(t1));
                assert(r == (t1, Seq::<Outgoing<M>>::empty(), None::<Value>));
                assert(r2 == r);
            }
            assert(run_inbox(react, stopped, s, dup) == (r2.0, first.1 + r2.1, if r2.2 is Some { r2.2 } else { first.2 }));
        } else {
            assert(dup.drop_first() =~= repeat_at(inbox.drop_first(), k - 1));
            lemma_run_inbox_repeat(react, stopped, good, t1, inbox.drop_first(), k - 1);
        }
    }
}

} // verus!
