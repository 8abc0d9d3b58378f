use vstd::prelude::*;
use vstd::set_lib::{lemma_int_range, lemma_len_subset, lemma_set_intersect_union_lens, set_int_range};

use crate::types::NodeId;

verus! {

/// The number of Byzantine nodes a cluster of `n` nodes tolerates: `f = (n - 1) / 3`.
pub open spec fn max_faulty(n: nat) -> nat
    recommends
        n >= 1,
{
    ((n - 1) / 3) as nat
}

/// The quorum size of a cluster of `n` nodes: `2f + 1`.
pub open spec fn quorum(n: nat) -> nat
    recommends
        n >= 1,
{
    2 * max_faulty(n) + 1
}

/// `f = (n - 1) / 3` for a cluster of `n >= 1` nodes.
pub fn fault_tolerance(n: usize) -> (f: usize)
    requires
        n >= 1,
    ensures
        f == max_faulty(n as nat),
        3 * f + 1 <= n,
        n < 3 * (f + 1) + 1,
{
    (n - 1) / 3
}

/// The number of matching votes every phase waits for: `2f + 1`.
pub fn quorum_size(n: usize) -> (q: usize)
    requires
        n >= 1,
    ensures
        q == quorum(n as nat),
        q <= n,
        q % 2 == 1,
        3 * ((q - 1) / 2) + 1 <= n,
        n < 3 * ((q - 1) / 2 + 1) + 1,
{
    let f = fault_tolerance(n);
    2 * f + 1
}

/// The identifiers `0, 1, ..., n - 1` of a cluster of `n` nodes.
pub fn node_ids(n: usize) -> (ids: Vec<NodeId>)
    ensures
        ids@.len() == n,
        forall|i: int| 0 <= i < n ==> #[trigger] ids@[i] == i,
{
    let mut ids: Vec<NodeId> = Vec::new();
    let mut i: usize = 0;
    while i < n
        invariant
            i <= n,
            ids@.len() == i,
            forall|j: int| 0 <= j < i ==> #[trigger] ids@[j] == j,
        decreases n - i,
    {
        ids.push(i as NodeId);
        i = i + 1;
    }
    ids
}

/// `f = max_faulty(n)` is the most Byzantine nodes `n >= 1` nodes tolerate:
/// the largest `f` with `3f + 1 <= n`.
pub proof fn lemma_max_faulty_is_largest(n: nat, g: nat)
    requires
        n >= 1,
    ensures
        3 * max_faulty(n) + 1 <= n,
        n < 3 * (max_faulty(n) + 1) + 1,
        3 * g + 1 <= n ==> g <= max_faulty(n),
{
}

/// The quorum of `n >= 1` nodes is `2f + 1` for the largest `f` with
/// `3f + 1 <= n`: more than twice the faulty nodes, and still formed by the
/// nodes other than `f` faulty ones (`q + f <= n`).
pub proof fn lemma_quorum_size_law(n: nat, g: nat)
    requires
        n >= 1,
    ensures
        quorum(n) % 2 == 1,
        3 * ((quorum(n) - 1) / 2) + 1 <= n,
        n < 3 * ((quorum(n) - 1) / 2 + 1) + 1,
        3 * g + 1 <= n ==> 2 * g + 1 <= quorum(n),
        quorum(n) + max_faulty(n) <= n,
{
    lemma_max_faulty_is_largest(n, g);
}

/// The nodes that are not faulty can form a quorum on their own:
/// `quorum(n) + max_faulty(n) <= n`, so a run never waits on a faulty node.
pub proof fn lemma_honest_nodes_form_quorum(n: nat)
    requires
        n >= 1,
    ensures
        quorum(n) + max_faulty(n) <= n,
        quorum(n) <= n,
{
}

/// In a cluster of at least two nodes the nodes other than one node, such as
/// a HotStuff leader, which does not vote, can still form a quorum on their
/// own: `quorum(n) <= n - 1`.
pub proof fn lemma_others_form_quorum(n: nat)
    requires
        n >= 2,
    ensures
        quorum(n) <= n - 1,
{
}

/// Any two quorums of a cluster of `n = 3f + 1` nodes share at least `f + 1`
/// nodes, so they always share a node that is not faulty.
pub proof fn lemma_quorum_intersection(n: nat, a: Set<int>, b: Set<int>)
    requires
        n >= 1,
        n % 3 == 1,
        a.subset_of(set_int_range(0, n as int)),
        b.subset_of(set_int_range(0, n as int)),
        a.len() >= quorum(n),
        b.len() >= quorum(n),
    ensures
        a.intersect(b).len() >= max_faulty(n) + 1,
{
    let all = set_int_range(0, n as int);
    lemma_int_range(0, n as int);
    lemma_len_subset(a, all);
    lemma_len_subset(b, all);
    lemma_set_intersect_union_lens(a, b);
    assert((a + b).subset_of(all));
    lemma_len_subset(a + b, all);
}

} // verus!
