//! A small Raft consensus library: the replicated log, its storage, the
//! key-value state machine it feeds, the RPC messages, the election rules of
//! a node, and the numbering of the nodes of a cluster.

pub mod cluster;
pub mod raft;
pub mod rafts;

pub use raft::{logs, rpc, storage};
pub use rafts::state_machine;
