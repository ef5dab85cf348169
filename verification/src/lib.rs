//! A Raft consensus engine for a replicated key-value configuration store.
//!
//! The crate separates the protocol's decisions from the machinery around
//! them: every rule of the protocol — leader election, log replication,
//! commit advancement, and the state-machine applier — is an ordinary
//! function on plain data, specified by contracts and verified.  A host
//! wires these functions to its transport, storage and timers.

pub mod log;
pub mod messages;
pub mod node;
pub mod engine;
pub mod election;
pub mod replication;
pub mod config;
pub mod viewer;
pub mod state_machine;

use vstd::prelude::*;

verus! {

/// Votes or acknowledgements needed for a strict majority of a cluster
/// of `total_nodes` members.
pub open spec fn majority(total_nodes: int) -> int {
    total_nodes / 2 + 1
}

} // verus!
