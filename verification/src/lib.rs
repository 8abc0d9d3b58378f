//! Single-decree Byzantine fault-tolerant consensus (PBFT, Tendermint,
//! HotStuff) as verified node state machines, with the quorum arithmetic,
//! vote tallies and the message network they share.

pub mod types;
pub mod metrics;
pub mod quorum;
pub mod tally;
pub mod step;
pub mod pbft;
pub mod tendermint;
pub mod hotstuff;
pub mod hotstuff_run;
pub mod pbft_run;
pub mod tm_run;
pub mod pbft_split;
pub mod tm_split;
pub mod hs_split;
pub mod channel;
pub mod network;
pub mod simulation;
