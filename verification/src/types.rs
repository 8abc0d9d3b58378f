use vstd::prelude::*;

verus! {

/// Identifies a node of the simulated cluster; nodes are numbered `0..n`.
pub type NodeId = u64;

/// The value that consensus is reached on.
pub type Value = u64;

/// A HotStuff-style view number.
pub type ViewNumber = u64;

/// A PBFT sequence number.
pub type SeqNumber = u64;

} // verus!
