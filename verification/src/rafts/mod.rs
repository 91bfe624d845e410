pub mod args;
pub mod counting;
pub mod raft;
pub mod state_machine;
