use std::collections::HashMap;
use vstd::prelude::*;
use vstd::std_specs::hash::spec_keys_iter;
use vstd::std_specs::iter::IteratorSpec;

use crate::types::{NodeId, Value};

verus! {

broadcast use vstd::std_specs::hash::group_hash_axioms;

/// Whether sender `k` of the tally `m` voted for `v`.
pub open spec fn voted_for(m: Map<NodeId, Value>, v: Value) -> spec_fn(NodeId) -> bool {
    |k: NodeId| m[k] == v
}

/// How many senders of the tally `m` voted for `v`.
pub open spec fn votes_for(m: Map<NodeId, Value>, v: Value) -> nat {
    m.dom().filter(voted_for(m, v)).len()
}

/// The check every phase of every protocol makes: at least `q` senders have
/// voted, and at least `q` of them voted for `v`.
pub open spec fn reaches_quorum(m: Map<NodeId, Value>, q: nat, v: Value) -> bool {
    m.len() >= q && votes_for(m, v) >= q
}

/// The latest vote of each sender in one phase: a later vote of the same
/// sender replaces its earlier one.
pub struct VoteTally {
    votes: HashMap<NodeId, Value>,
}

impl View for VoteTally {
    type V = Map<NodeId, Value>;

    closed spec fn view(&self) -> Map<NodeId, Value> {
        self.votes@
    }
}

proof fn lemma_unique_filter_len(s: Seq<NodeId>, p: spec_fn(NodeId) -> bool)
    requires
        s.no_duplicates(),
    ensures
        s.filter(p).len() == s.to_set().filter(p).len(),
        s.to_set().finite(),
    decreases s.len(),
{
    broadcast use vstd::seq_lib::group_seq_properties;
    broadcast use vstd::set::group_set_axioms;

    if s.len() == 0 {
        assert(s.to_set().filter(p) =~= Set::empty());
    } else {
        let t = s.drop_last();
        let x = s.last();
        assert(s =~= t.push(x));
        lemma_unique_filter_len(t, p);
        t.lemma_push_to_set_commute(x);
        t.lemma_filter_push(x, p);
        assert(!t.contains(x));
        if p(x) {
            assert(s.to_set().filter(p) =~= t.to_set().filter(p).insert(x));
        } else {
            assert(s.to_set().filter(p) =~= t.to_set().filter(p));
        }
    }
}

/// No more senders voted for `v` than voted at all.
pub proof fn lemma_votes_for_bounded(m: Map<NodeId, Value>, v: Value)
    requires
        m.dom().finite(),
    ensures
        votes_for(m, v) <= m.len(),
{
    m.dom().lemma_len_filter(voted_for(m, v));
}

/// `votes_for` counts senders: none in an empty tally, and each sender
/// adds one exactly when its vote is `v`.
pub proof fn lemma_votes_for_counts(m: Map<NodeId, Value>, k: NodeId, w: Value, v: Value)
    requires
        m.dom().finite(),
    ensures
        votes_for(Map::empty(), v) == 0,
        votes_for(m.insert(k, w), v) == votes_for(m.remove(k), v) + (if w == v { 1int } else { 0int }),
        votes_for(m, v) == votes_for(m.remove(k), v) + (if m.contains_key(k) && m[k] == v { 1int } else { 0int }),
{
    let e = Map::<NodeId, Value>::empty();
    assert(e.dom().filter(voted_for(e, v)) =~= Set::<NodeId>::empty());
    let r = m.remove(k);
    let base = r.dom().filter(voted_for(r, v));
    assert(!base.contains(k));
    assert(base.finite());
    let mi = m.insert(k, w);
    let ins = mi.dom().filter(voted_for(mi, v));
    if w == v {
        assert(ins =~= base.insert(k));
    } else {
        assert(ins =~= base);
    }
    let cur = m.dom().filter(voted_for(m, v));
    if m.contains_key(k) && m[k] == v {
        assert(cur =~= base.insert(k));
    } else {
        assert(cur =~= base);
    }
}

/// The count of all votes in the quorum check is implied by the count of
/// matching votes: `reaches_quorum(m, q, v)` holds exactly when `q` senders
/// voted for `v`.
pub proof fn lemma_reaches_quorum_by_matching_votes(m: Map<NodeId, Value>, q: nat, v: Value)
    requires
        m.dom().finite(),
    ensures
        reaches_quorum(m, q, v) <==> votes_for(m, v) >= q,
{
    lemma_votes_for_bounded(m, v);
}

impl VoteTally {
    /// A tally holds finitely many votes.
    pub proof fn lemma_finite(&self)
        ensures
            self@.dom().finite(),
    {
    }

    /// A tally with no votes.
    pub fn new() -> (t: Self)
        ensures
            t@ == Map::<NodeId, Value>::empty(),
    {
        VoteTally { votes: HashMap::new() }
    }

    /// Records that `sender` voted for `value`, replacing its earlier vote.
    pub fn insert(&mut self, sender: NodeId, value: Value)
        ensures
            final(self)@ == old(self)@.insert(sender, value),
    {
        self.votes.insert(sender, value);
    }

    /// Forgets every vote.
    pub fn clear(&mut self)
        ensures
            final(self)@ == Map::<NodeId, Value>::empty(),
    {
        self.votes.clear();
    }

    /// The number of senders that voted.
    pub fn len(&self) -> (n: usize)
        ensures
            n == self@.len(),
    {
        self.votes.len()
    }

    /// The number of senders whose vote is `value`.
    pub fn count_matching(&self, value: Value) -> (c: usize)
        ensures
            c == votes_for(self@, value),
    {
        let ghost m = self.votes@;
        let ghost p = voted_for(m, value);
        let ghost keys = spec_keys_iter(&self.votes).remaining().unref();
        proof {
            assert(self.votes.len() == m.len());
        }
        let mut count: usize = 0;
        for k in it: self.votes.keys()
            invariant
                m == self.votes@,
                p == voted_for(m, value),
                it.seq().unref() == keys,
                keys.len() == m.dom().len(),
                keys.len() <= usize::MAX,
                count == keys.take(it.index()).filter(p).len(),
                count <= it.index(),
        {
            let ghost i = it.index();
            proof {
                assert(keys[i] == *k);
                assert(keys.take(i + 1) =~= keys.take(i).push(keys[i]));
                keys.take(i).lemma_filter_push(keys[i], p);
            }
            let hit = match self.votes.get(k) {
                Some(v) => *v == value,
                None => false,
            };
            proof {
                assert(m.contains_key(*k)) by {
                    assert(spec_keys_iter(&self.votes).remaining().unref().to_set().contains(keys[i]));
                }
                assert(hit == p(keys[i]));
            }
            if hit {
                count = count + 1;
            }
        }
        proof {
            assert(keys.take(keys.len() as int) =~= keys);
            lemma_unique_filter_len(keys, p);
            assert(keys.to_set().filter(p) =~= m.dom().filter(p));
        }
        count
    }

    /// Whether at least `q` senders voted and at least `q` of them voted for
    /// `value`.
    pub fn reaches_quorum(&self, q: usize, value: Value) -> (r: bool)
        ensures
            r == reaches_quorum(self@, q as nat, value),
    {
        if self.len() >= q {
            let matching = self.count_matching(value);
            matching >= q
        } else {
            false
        }
    }
}

} // verus!
