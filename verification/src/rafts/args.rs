use vstd::prelude::*;

use crate::logs::LogEntry;

verus! {

/// What a leader sends to replicate entries; with no entries it is a heartbeat.
pub struct AppendEntriesArgs {
    /// The leader's term.
    pub term: u32,
    /// The leader's id.
    pub leader_id: u32,
    /// The index of the entry just before the new ones.
    pub prev_log_index: u32,
    /// The term of the entry just before the new ones.
    pub prev_log_term: u32,
    /// The entries to store; empty for a heartbeat.
    pub entries: Vec<LogEntry>,
    /// The leader's commit index.
    pub leader_commit: u32,
}

/// The answer to [`AppendEntriesArgs`].
pub struct AppendEntriesReply {
    pub term: u32,
    pub success: bool,
}

/// What a candidate sends to ask for a vote.
pub struct RequestVoteArgs {
    pub term: u32,
    pub candidate_id: u32,
    pub last_log_index: u32,
    pub last_log_term: u32,
}

/// The answer to [`RequestVoteArgs`].
#[derive(Clone, Copy)]
pub struct RequestVoteReply {
    pub term: u32,
    pub vote_granted: bool,
}

} // verus!
