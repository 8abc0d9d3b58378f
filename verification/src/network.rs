use std::collections::HashMap;
use std::sync::atomic::AtomicU64;
use std::sync::atomic::Ordering;
use std::sync::{Arc, Mutex, MutexGuard};
use tokio::sync::mpsc::{UnboundedReceiver, UnboundedSender};
use vstd::prelude::*;

use crate::channel::{post, unbounded_channel, Halves, Handed};
use crate::step::{post as post_spec, post_one, Outgoing, Step};
use crate::types::{NodeId, Value};

verus! {

broadcast use vstd::std_specs::hash::group_hash_axioms;

/// Declares tokio's `mpsc::UnboundedSender<T>`, the sending half of a
/// channel, as an opaque type.
#[verifier::external_type_specification]
#[verifier::external_body]
#[verifier::reject_recursive_types(T)]
pub struct ExUnboundedSender<T>(UnboundedSender<T>);

/// Declares tokio's `mpsc::UnboundedReceiver<T>`, the receiving half of a
/// channel, as an opaque type.
#[verifier::external_type_specification]
#[verifier::external_body]
#[verifier::reject_recursive_types(T)]
pub struct ExUnboundedReceiver<T>(UnboundedReceiver<T>);

/// Declares std's `Mutex<T>` as an opaque type.
#[verifier::external_type_specification]
#[verifier::external_body]
#[verifier::reject_recursive_types(T)]
pub struct ExMutex<T: ?Sized>(Mutex<T>);

/// Declares std's `MutexGuard<'a, T>`, which holds a `Mutex` locked until it
/// is dropped, as an opaque type.
#[verifier::external_type_specification]
#[verifier::external_body]
#[verifier::reject_recursive_types(T)]
pub struct ExMutexGuard<'a, T: ?Sized + 'a>(MutexGuard<'a, T>);

/// Calls `std::sync::Mutex::new`: a new lock, not held.
#[verifier::external_body]
fn new_lock() -> Mutex<()> {
    Mutex::new(())
}

/// Calls `std::sync::Mutex::lock`, which waits until no other thread holds
/// the lock and then holds it until the guard is dropped. A lock that a
/// panicking holder left poisoned is taken all the same (`into_inner` on
/// the error), so that `send` and `broadcast` never panic: the lock guards
/// no data, only the order of the hand-overs, which a panic elsewhere does
/// not disturb.
#[verifier::external_body]
fn acquire<'a>(m: &'a Mutex<()>) -> MutexGuard<'a, ()> {
    match m.lock() {
        Ok(guard) => guard,
        Err(poisoned) => poisoned.into_inner(),
    }
}

/// Calls `Arc::clone`, which hands out another pointer to the same value.
#[verifier::external_body]
fn share<T>(a: &Arc<T>) -> (b: Arc<T>)
    ensures
        b == *a,
{
    Arc::clone(a)
}

/// Whether a node is not `from`.
pub open spec fn other_than(from: NodeId) -> spec_fn(NodeId) -> bool {
    |id: NodeId| id != from
}

/// An in-process network between the nodes of a cluster: one unbounded
/// channel per node, and a message counter shared by every clone. Every
/// send and every broadcast holds one lock, shared by every clone, so a
/// broadcast reaches all its recipients before any other message is sent.
#[verifier::reject_recursive_types(Msg)]
pub struct Network<Msg: Clone + Send + 'static> {
    senders: Arc<HashMap<NodeId, UnboundedSender<(NodeId, Msg)>>>,
    made: Arc<HashMap<NodeId, Halves<(NodeId, Msg)>>>,
    lock: Arc<Mutex<()>>,
    message_count: Arc<AtomicU64>,
    node_ids: Vec<NodeId>,
}

impl<Msg: Clone + Send + 'static> Network<Msg> {
    /// The nodes of the cluster, in the order they were given.
    pub closed spec fn nodes(&self) -> Seq<NodeId> {
        self.node_ids@
    }

    /// The nodes that have a channel on this network.
    pub closed spec fn channels(&self) -> Set<NodeId> {
        self.senders@.dom()
    }

    /// The sending half of node `id`'s channel.
    pub closed spec fn channel(&self, id: NodeId) -> UnboundedSender<(NodeId, Msg)> {
        self.senders@[id]
    }

    /// `rx` is the receiving half of the channel whose sending half is node
    /// `id`'s: the network holds the receipt of that channel's making.
    pub closed spec fn paired(&self, id: NodeId, rx: UnboundedReceiver<(NodeId, Msg)>) -> bool {
        &&& self.made@.dom().contains(id)
        &&& self.made@[id].halves() == (self.senders@[id], rx)
    }

    /// `self` and `o` are handles on one network: the same channels, the same
    /// lock and the same message counter.
    pub closed spec fn shares(&self, o: &Self) -> bool {
        &&& self.senders == o.senders
        &&& self.made == o.made
        &&& self.lock == o.lock
        &&& self.message_count == o.message_count
    }

    /// Every node of the cluster has a channel, and no other node has one.
    pub open spec fn wf(&self) -> bool {
        self.channels() == self.nodes().to_set()
    }

    /// Whether a node has a channel on this network.
    pub open spec fn has_channel(&self) -> spec_fn(NodeId) -> bool {
        |id: NodeId| self.channels().contains(id)
    }

    /// The nodes a broadcast from `from` is handed to, in order: those of
    /// `self.recipients(from)` that have a channel.
    pub open spec fn broadcast_targets(&self, from: NodeId) -> Seq<NodeId> {
        self.nodes().filter(other_than(from)).filter(self.has_channel())
    }

    /// What a send of `m` from `from` to `to` hands to the channels: the pair
    /// `(from, m)` to `to`, if `to` has a channel, and nothing otherwise.
    pub open spec fn send_posts(&self, from: NodeId, to: NodeId, m: Msg) -> Seq<(NodeId, (NodeId, Msg))> {
        if self.channels().contains(to) {
            seq![(to, (from, m))]
        } else {
            Seq::empty()
        }
    }

    /// `posted` is what a broadcast of `m` from `from` hands to the
    /// channels: one pair `(from, m')`, `m'` a clone of `m`, to each node of
    /// `self.broadcast_targets(from)`, in that order.
    pub open spec fn broadcast_posts(&self, from: NodeId, m: Msg, posted: Seq<(NodeId, (NodeId, Msg))>) -> bool {
        &&& posted.map_values(|p: (NodeId, (NodeId, Msg))| p.0) == self.broadcast_targets(from)
        &&& forall|i: int| 0 <= i < posted.len() ==> (#[trigger] posted[i]).1.0 == from && cloned(m, posted[i].1.1)
    }

    /// `posted` is what carrying out `o` for node `from` hands to the channels.
    pub open spec fn outgoing_posts(&self, from: NodeId, o: Outgoing<Msg>, posted: Seq<(NodeId, (NodeId, Msg))>) -> bool {
        match o {
            Outgoing::Broadcast(m) => self.broadcast_posts(from, m, posted),
            Outgoing::SendTo(to, m) => posted == self.send_posts(from, to, m),
        }
    }

    /// What the receipts `r` of carrying out `o` for node `from` record, each
    /// item with the node it was meant for: for a broadcast, the `i`-th
    /// target; for a send, its addressee.
    pub open spec fn posted_as(&self, from: NodeId, o: Outgoing<Msg>, r: Seq<Handed<(NodeId, Msg)>>) -> Seq<
        (NodeId, (NodeId, Msg)),
    > {
        match o {
            Outgoing::Broadcast(_) => Seq::new(r.len(), |i: int| (self.broadcast_targets(from)[i], r[i].handed().1)),
            Outgoing::SendTo(to, _) => Seq::new(r.len(), |i: int| (to, r[i].handed().1)),
        }
    }

    /// `r` are the receipts of carrying out `o` for node `from`: one per
    /// item handed over, in order, each for the channel of the node it was
    /// meant for, and together what `outgoing_posts` says.
    pub open spec fn outgoing_handed(&self, from: NodeId, o: Outgoing<Msg>, r: Seq<Handed<(NodeId, Msg)>>) -> bool {
        let posted = self.posted_as(from, o, r);
        &&& self.outgoing_posts(from, o, posted)
        &&& forall|i: int| 0 <= i < r.len() ==> (#[trigger] r[i]).handed() == (self.channel(posted[i].0), posted[i].1)
    }

    /// A network between `node_ids`, and the receiving half of each node's
    /// channel, keyed by node.
    pub fn new(node_ids: Vec<NodeId>) -> (res: (Self, HashMap<NodeId, UnboundedReceiver<(NodeId, Msg)>>))
        ensures
            res.0.nodes() == node_ids@,
            res.0.wf(),
            res.1@.dom() == node_ids@.to_set(),
            forall|id: NodeId| #[trigger] res.1@.dom().contains(id) ==> res.0.paired(id, res.1@[id]),
    {
        let mut senders: HashMap<NodeId, UnboundedSender<(NodeId, Msg)>> = HashMap::new();
        let mut receivers: HashMap<NodeId, UnboundedReceiver<(NodeId, Msg)>> = HashMap::new();
        let mut made: HashMap<NodeId, Halves<(NodeId, Msg)>> = HashMap::new();
        let mut i: usize = 0;
        while i < node_ids.len()
            invariant
                i <= node_ids.len(),
                senders@.dom() == node_ids@.take(i as int).to_set(),
                receivers@.dom() == node_ids@.take(i as int).to_set(),
                made@.dom() == node_ids@.take(i as int).to_set(),
                forall|id: NodeId| #[trigger] made@.dom().contains(id) ==> made@[id].halves() == (senders@[id], receivers@[id]),
            decreases node_ids.len() - i,
        {
            let id = node_ids[i];
            let (tx, rx, h) = unbounded_channel();
            senders.insert(id, tx);
            receivers.insert(id, rx);
            made.insert(id, h);
            proof {
                assert(node_ids@.take(i + 1) =~= node_ids@.take(i as int).push(id));
                node_ids@.take(i as int).lemma_push_to_set_commute(id);
            }
            i = i + 1;
        }
        proof {
            assert(node_ids@.take(node_ids.len() as int) =~= node_ids@);
        }
        let net = Network {
            senders: Arc::new(senders),
            made: Arc::new(made),
            lock: Arc::new(new_lock()),
            message_count: Arc::new(AtomicU64::new(0)),
            node_ids: node_ids.clone(),
        };
        (net, receivers)
    }

    /// The nodes a broadcast from `from` goes to: every node of the cluster
    /// but `from`, in order.
    pub fn recipients(&self, from: NodeId) -> (r: Vec<NodeId>)
        ensures
            r@ == self.nodes().filter(other_than(from)),
    {
        let ghost keep = other_than(from);
        let mut r: Vec<NodeId> = Vec::new();
        let mut i: usize = 0;
        while i < self.node_ids.len()
            invariant
                i <= self.node_ids.len(),
                keep == other_than(from),
                r@ == self.node_ids@.take(i as int).filter(keep),
            decreases self.node_ids.len() - i,
        {
            let id = self.node_ids[i];
            proof {
                assert(self.node_ids@.take(i + 1) =~= self.node_ids@.take(i as int).push(id));
                self.node_ids@.take(i as int).lemma_filter_push(id, keep);
            }
            if id != from {
                r.push(id);
            }
            i = i + 1;
        }
        proof {
            assert(self.node_ids@.take(self.node_ids.len() as int) =~= self.node_ids@);
        }
        r
    }

    /// Hands `msg` from `from` to node `to`, and counts it, if `to` has a
    /// channel; otherwise does nothing. Returns the receipt of each
    /// hand-over, which only the channel's `send` wrapper makes: the sending
    /// half and the item. What the channels and the count hold afterwards
    /// depends on other tasks, and is not stated.
    pub fn send(&self, from: NodeId, to: NodeId, msg: Msg) -> (r: Vec<Handed<(NodeId, Msg)>>)
        ensures
            self.outgoing_handed(from, Outgoing::SendTo(to, msg), r@),
    {
        let _held = acquire(&self.lock);
        let mut r: Vec<Handed<(NodeId, Msg)>> = Vec::new();
        match self.senders.get(&to) {
            Some(tx) => {
                r.push(post(tx, (from, msg)));
                self.count_message();
            },
            None => {},
        }
        proof {
            assert(self.posted_as(from, Outgoing::SendTo(to, msg), r@) =~= self.send_posts(from, to, msg));
        }
        r
    }

    /// Hands a clone of `msg`, from `from`, to each node of
    /// `self.recipients(from)` that has a channel, in order, and counts each
    /// message; the lock keeps every other send out meanwhile. Returns the
    /// receipt of each hand-over, which only the channel's `send` wrapper
    /// makes: the sending half and the item.
    pub fn broadcast(&self, from: NodeId, msg: Msg) -> (r: Vec<Handed<(NodeId, Msg)>>)
        ensures
            self.outgoing_handed(from, Outgoing::Broadcast(msg), r@),
    {
        let _held = acquire(&self.lock);
        let targets = self.recipients(from);
        let ghost has = self.has_channel();
        let ghost mut ids: Seq<NodeId> = Seq::empty();
        let mut r: Vec<Handed<(NodeId, Msg)>> = Vec::new();
        let mut i: usize = 0;
        while i < targets.len()
            invariant
                i <= targets.len(),
                targets@ == self.nodes().filter(other_than(from)),
                has == self.has_channel(),
                ids == targets@.take(i as int).filter(has),
                r@.len() == ids.len(),
                forall|k: int|
                    0 <= k < r@.len() ==> {
                        let h = (#[trigger] r@[k]).handed();
                        &&& h.0 == self.channel(ids[k])
                        &&& h.1.0 == from
                        &&& cloned(msg, h.1.1)
                    },
            decreases targets.len() - i,
        {
            let id = targets[i];
            proof {
                assert(targets@.take(i + 1) =~= targets@.take(i as int).push(id));
                targets@.take(i as int).lemma_filter_push(id, has);
            }
            match self.senders.get(&id) {
                Some(tx) => {
                    let c = msg.clone();
                    r.push(post(tx, (from, c)));
                    self.count_message();
                    proof {
                        ids = ids.push(id);
                    }
                },
                None => {},
            }
            i = i + 1;
        }
        proof {
            assert(targets@.take(targets.len() as int) =~= targets@);
            assert(self.broadcast_targets(from) == targets@.filter(has));
            let posted = self.posted_as(from, Outgoing::Broadcast(msg), r@);
            assert(posted.map_values(|p: (NodeId, (NodeId, Msg))| p.0) =~= self.broadcast_targets(from));
        }
        r
    }

    /// Carries out what a node `from` decided to do in `step`: hands each of
    /// its messages to the network in order, as `send` and `broadcast` do,
    /// and returns its decision, with the receipts of each message's
    /// hand-overs.
    pub fn perform(&self, from: NodeId, step: Step<Msg>) -> (res: (Option<Value>, Vec<Vec<Handed<(NodeId, Msg)>>>))
        ensures
            res.0 == step.decision,
            res.1@.len() == step.messages@.len(),
            forall|i: int|
                0 <= i < step.messages@.len() ==> self.outgoing_handed(from, step.messages@[i], (#[trigger] res.1@[i])@),
    {
        let Step { messages, decision } = step;
        let ghost msgs = messages@;
        let mut rest = messages;
        let mut logs: Vec<Vec<Handed<(NodeId, Msg)>>> = Vec::new();
        while rest.len() > 0
            invariant
                logs@.len() <= msgs.len(),
                rest@ == msgs.skip(logs@.len() as int),
                forall|i: int| 0 <= i < logs@.len() ==> self.outgoing_handed(from, msgs[i], (#[trigger] logs@[i])@),
            decreases rest.len(),
        {
            let ghost k = logs@.len() as int;
            let o = rest.remove(0);
            assert(o == msgs[k]);
            let r = match o {
                Outgoing::Broadcast(m) => self.broadcast(from, m),
                Outgoing::SendTo(to, m) => self.send(from, to, m),
            };
            logs.push(r);
            proof {
                assert(rest@ =~= msgs.skip(logs@.len() as int));
            }
        }
        (decision, logs)
    }

    /// Adds one to the message counter shared by every clone.
    fn count_message(&self) {
        self.message_count.fetch_add(1, Ordering::Relaxed);
    }

    /// The number of messages counted so far by this network and all its
    /// clones. Other tasks may send concurrently, so no value is promised.
    pub fn message_count(&self) -> u64 {
        self.message_count.load(Ordering::Relaxed)
    }
}

impl<Msg: Clone + Send + 'static> Clone for Network<Msg> {
    /// Another handle on the same channels and the same message counter.
    fn clone(&self) -> (c: Self)
        ensures
            c.nodes() == self.nodes(),
            c.shares(self),
            c.wf() == self.wf(),
            c.channels() == self.channels(),
    {
        Network {
            senders: share(&self.senders),
            made: share(&self.made),
            lock: share(&self.lock),
            message_count: share(&self.message_count),
            node_ids: self.node_ids.clone(),
        }
    }
}

/// The channels `queues` after each pair of `posted` has been appended to the
/// channel of the node it went to, in order: what the channels hold once
/// the pairs a network handed over have arrived.
pub open spec fn hand_over<M>(queues: Seq<Seq<(NodeId, M)>>, posted: Seq<(NodeId, (NodeId, M))>) -> Seq<
    Seq<(NodeId, M)>,
>
    decreases posted.len(),
{
    if posted.len() == 0 {
        queues
    } else {
        let q = hand_over(queues, posted.drop_last());
        let to = posted.last().0;
        if to < q.len() {
            q.update(to as int, q[to as int].push(posted.last().1))
        } else {
            q
        }
    }
}

/// Every clone of `m` is `m` itself, as for a `Copy` type.
pub open spec fn clones_exact<M: Clone>(m: M) -> bool {
    forall|x: M| #[trigger] cloned(m, x) ==> x == m
}

/// The message that `o` carries.
pub open spec fn carried<M>(o: Outgoing<M>) -> M {
    match o {
        Outgoing::Broadcast(m) => m,
        Outgoing::SendTo(_, m) => m,
    }
}

proof fn lemma_hand_over_len<M>(queues: Seq<Seq<(NodeId, M)>>, posted: Seq<(NodeId, (NodeId, M))>)
    ensures
        hand_over(queues, posted).len() == queues.len(),
    decreases posted.len(),
{
    if posted.len() > 0 {
        lemma_hand_over_len(queues, posted.drop_last());
    }
}

proof fn lemma_hand_over_append<M>(
    queues: Seq<Seq<(NodeId, M)>>,
    a: Seq<(NodeId, (NodeId, M))>,
    b: Seq<(NodeId, (NodeId, M))>,
)
    ensures
        hand_over(queues, a + b) == hand_over(hand_over(queues, a), b),
    decreases b.len(),
{
    if b.len() == 0 {
        assert(a + b =~= a);
    } else {
        assert((a + b).drop_last() =~= a + b.drop_last());
        lemma_hand_over_append(queues, a, b.drop_last());
    }
}

/// Handing over a broadcast of `m` from `from` to the nodes `0..i` but
/// `from` appends `(from, m)` to each of their channels.
proof fn lemma_hand_over_broadcast<M>(
    queues: Seq<Seq<(NodeId, M)>>,
    from: NodeId,
    m: M,
    has: spec_fn(NodeId) -> bool,
    i: nat,
    posted: Seq<(NodeId, (NodeId, M))>,
)
    requires
        i <= queues.len() <= u64::MAX,
        forall|k: NodeId| k < queues.len() ==> #[trigger] has(k),
        posted.map_values(|p: (NodeId, (NodeId, M))| p.0) == Seq::new(i, |k: int| k as NodeId).filter(
            other_than(from),
        ).filter(has),
        forall|j: int| 0 <= j < posted.len() ==> (#[trigger] posted[j]).1 == (from, m),
    ensures
        hand_over(queues, posted) == Seq::new(
            queues.len(),
            |k: int| if k < i && k != from { queues[k].push((from, m)) } else { queues[k] },
        ),
    decreases i,
{
    let ids = |n: nat| Seq::new(n, |k: int| k as NodeId);
    lemma_hand_over_len(queues, posted);
    if i == 0 {
        assert(ids(0).filter(other_than(from)) =~= Seq::<NodeId>::empty());
        assert(ids(0).filter(other_than(from)).filter(has) =~= Seq::<NodeId>::empty());
        assert(posted.len() == 0);
        assert(hand_over(queues, posted) =~= Seq::new(
            queues.len(),
            |k: int| if k < i && k != from { queues[k].push((from, m)) } else { queues[k] },
        ));
    } else {
        let j = (i - 1) as nat;
        let last = j as NodeId;
        assert(ids(i) =~= ids(j).push(last));
        ids(j).lemma_filter_push(last, other_than(from));
        let f1 = ids(j).filter(other_than(from));
        if last != from {
            f1.lemma_filter_push(last, has);
            assert(has(last));
            let pm = posted.map_values(|p: (NodeId, (NodeId, M))| p.0);
            assert(pm =~= f1.filter(has).push(last));
            assert(posted.len() > 0);
            assert(posted.drop_last().map_values(|p: (NodeId, (NodeId, M))| p.0) =~= pm.drop_last());
            assert(pm.drop_last() =~= f1.filter(has));
            assert(pm.last() == last);
            lemma_hand_over_broadcast(queues, from, m, has, j, posted.drop_last());
            lemma_hand_over_len(queues, posted.drop_last());
            assert(posted.last() == posted[posted.len() - 1]);
            assert(hand_over(queues, posted) =~= Seq::new(
                queues.len(),
                |k: int| if k < i && k != from { queues[k].push((from, m)) } else { queues[k] },
            ));
        } else {
            lemma_hand_over_broadcast(queues, from, m, has, j, posted);
            assert(hand_over(queues, posted) =~= Seq::new(
                queues.len(),
                |k: int| if k < i && k != from { queues[k].push((from, m)) } else { queues[k] },
            ));
        }
    }
}

/// The network delivers as the run models assume: on a network between the
/// nodes `0..n`, every one with a channel, what `perform` hands over for the
/// messages `out` of node `from`, as its receipts show, leaves the channels
/// `queues`, once it has arrived, as `step::post` says, provided every clone
/// of each message is the message itself. That an item handed to a channel
/// arrives behind what was handed to it before is tokio's part, as is that
/// each receipt's hand-over was made: what `post` and `unbounded_channel`
/// claim.
pub proof fn lemma_perform_receipts_deliver_as_post<Msg: Clone + Send + 'static>(
    net: &Network<Msg>,
    from: NodeId,
    out: Seq<Outgoing<Msg>>,
    receipts: Seq<Seq<Handed<(NodeId, Msg)>>>,
    queues: Seq<Seq<(NodeId, Msg)>>,
)
    requires
        net.wf(),
        net.nodes() == Seq::new(queues.len(), |k: int| k as NodeId),
        queues.len() <= u64::MAX,
        receipts.len() == out.len(),
        forall|i: int| 0 <= i < out.len() ==> net.outgoing_handed(from, out[i], #[trigger] receipts[i]),
        forall|i: int| 0 <= i < out.len() ==> clones_exact(carried(#[trigger] out[i])),
    ensures
        hand_over(
            queues,
            Seq::new(out.len(), |i: int| net.posted_as(from, out[i], receipts[i])).flatten(),
        ) == post_spec(queues, from, out),
{
    let logs = Seq::new(out.len(), |i: int| net.posted_as(from, out[i], receipts[i]));
    assert forall|i: int| 0 <= i < out.len() implies net.outgoing_posts(from, out[i], #[trigger] logs[i]) by {
        assert(net.outgoing_handed(from, out[i], receipts[i]));
    }
    lemma_perform_delivers_as_post(net, from, out, logs, queues);
}

/// The pairs `logs` that carrying out `out` hands to the channels, once they
/// have arrived, leave the channels `queues` as `step::post` says.
proof fn lemma_perform_delivers_as_post<Msg: Clone + Send + 'static>(
    net: &Network<Msg>,
    from: NodeId,
    out: Seq<Outgoing<Msg>>,
    logs: Seq<Seq<(NodeId, (NodeId, Msg))>>,
    queues: Seq<Seq<(NodeId, Msg)>>,
)
    requires
        net.wf(),
        net.nodes() == Seq::new(queues.len(), |k: int| k as NodeId),
        queues.len() <= u64::MAX,
        logs.len() == out.len(),
        forall|i: int| 0 <= i < out.len() ==> net.outgoing_posts(from, out[i], #[trigger] logs[i]),
        forall|i: int| 0 <= i < out.len() ==> clones_exact(carried(#[trigger] out[i])),
    ensures
        hand_over(queues, logs.flatten()) == post_spec(queues, from, out),
    decreases out.len(), 1nat,
{
    if out.len() == 0 {
        assert(logs.flatten() =~= Seq::<(NodeId, (NodeId, Msg))>::empty());
    } else {
        let n = queues.len();
        let o = out[0];
        let l0 = logs[0];
        assert(net.outgoing_posts(from, o, l0));
        assert(clones_exact(carried(o)));
        assert forall|k: NodeId| k < n implies #[trigger] net.has_channel()(k) by {
            assert(net.nodes()[k as int] == k);
            assert(net.nodes().to_set().contains(k));
        }
        match o {
            Outgoing::Broadcast(_) => {
                let m = out[0]->Broadcast_0;
                let q2 = Seq::new(
                    queues.len(),
                    |j: int| if j != from { queues[j].push((from, m)) } else { queues[j] },
                );
                assert(out[0] == Outgoing::Broadcast(m));
                assert(post_one(queues, from, out[0]) =~= q2);
                assert(post_spec(queues, from, out) == post_spec(q2, from, out.drop_first()));
                assert forall|j: int| 0 <= j < l0.len() implies (#[trigger] l0[j]).1 == (from, m) by {
                    assert(cloned(m, l0[j].1.1));
                }
                assert(Seq::new(n, |k: int| k as NodeId) == net.nodes());
                lemma_hand_over_broadcast(queues, from, m, net.has_channel(), n, l0);
                assert(hand_over(queues, l0) =~= q2);
                lemma_rest_delivers(net, from, out, logs, queues, q2);
            },
            Outgoing::SendTo(to, m) => {
                let q2 = if to < queues.len() {
                    queues.update(to as int, queues[to as int].push((from, m)))
                } else {
                    queues
                };
                assert(post_spec(queues, from, out) == post_spec(q2, from, out.drop_first()));
                if to < n {
                    assert(net.nodes()[to as int] == to);
                    assert(net.nodes().to_set().contains(to));
                } else {
                    assert(!net.nodes().to_set().contains(to)) by {
                        if net.nodes().to_set().contains(to) {
                            let k = choose|k: int| 0 <= k < net.nodes().len() && net.nodes()[k] == to;
                        }
                    }
                }
                reveal_with_fuel(hand_over, 2);
                assert(hand_over(queues, l0) =~= q2);
                lemma_rest_delivers(net, from, out, logs, queues, q2);
            },
        }
    }
}

/// The messages after the first are delivered as `post` says, from the
/// channels `q2` that the first left.
proof fn lemma_rest_delivers<Msg: Clone + Send + 'static>(
    net: &Network<Msg>,
    from: NodeId,
    out: Seq<Outgoing<Msg>>,
    logs: Seq<Seq<(NodeId, (NodeId, Msg))>>,
    queues: Seq<Seq<(NodeId, Msg)>>,
    q2: Seq<Seq<(NodeId, Msg)>>,
)
    requires
        out.len() > 0,
        net.wf(),
        net.nodes() == Seq::new(queues.len(), |k: int| k as NodeId),
        queues.len() <= u64::MAX,
        logs.len() == out.len(),
        forall|i: int| 0 <= i < out.len() ==> net.outgoing_posts(from, out[i], #[trigger] logs[i]),
        forall|i: int| 0 <= i < out.len() ==> clones_exact(carried(#[trigger] out[i])),
        hand_over(queues, logs[0]) == q2,
        post_spec(queues, from, out) == post_spec(q2, from, out.drop_first()),
    ensures
        hand_over(queues, logs.flatten()) == post_spec(queues, from, out),
    decreases out.len(), 0nat,
{
    lemma_hand_over_len(queues, logs[0]);
    assert forall|i: int| 0 <= i < out.len() - 1 implies net.outgoing_posts(
        from,
        out.drop_first()[i],
        #[trigger] logs.drop_first()[i],
    ) by {
        assert(net.outgoing_posts(from, out[i + 1], logs[i + 1]));
    }
    assert forall|i: int| 0 <= i < out.len() - 1 implies clones_exact(carried(#[trigger] out.drop_first()[i])) by {
        assert(clones_exact(carried(out[i + 1])));
    }
    lemma_perform_delivers_as_post(net, from, out.drop_first(), logs.drop_first(), q2);
    lemma_hand_over_append(queues, logs[0], logs.drop_first().flatten());
    assert(logs.flatten() == logs[0] + logs.drop_first().flatten());
}

} // verus!
