use std::collections::HashMap;

use raft_rs::logs::LogEntry;
use raft_rs::rafts::args::RequestVoteReply;
use raft_rs::rafts::raft::{
    majority_index, quorum_size, ElectionOutcome, FollowerEvent, RaftState, RaftStatus,
};
use raft_rs::rpc::HttpPeer;

fn reply(term: u32, vote_granted: bool) -> RequestVoteReply {
    RequestVoteReply { term, vote_granted }
}

#[test]
fn new_node_is_a_follower_of_term_zero() {
    let state = RaftState::new(3);
    assert_eq!(state.id(), 3);
    assert_eq!(state.current_term(), 0);
    assert_eq!(state.voted_for(), None);
    assert_eq!(state.leader_id(), None);
    assert!(state.status() == RaftStatus::Follower);
}

#[test]
fn heartbeat_timeout_makes_a_candidate() {
    let mut state = RaftState::new(1);
    assert!(!state.on_follower_event(FollowerEvent::HeartbeatTimeout));
    assert!(state.status() == RaftStatus::Candidate);
    let mut other = RaftState::new(1);
    assert!(!other.on_follower_event(FollowerEvent::Shutdown));
    assert!(other.status() == RaftStatus::Follower);
}

#[test]
fn begin_round_forgets_the_leader() {
    let mut state = RaftState::new(1);
    assert!(state.begin_round() == RaftStatus::Follower);
    assert_eq!(state.leader_id(), None);
}

#[test]
fn begin_election_bumps_term_and_votes_for_self() {
    let mut state = RaftState::new(2);
    let last = LogEntry { log_index: 7, log_term: 3, command: String::new() };
    let args = state.begin_election(&last);
    assert_eq!(state.current_term(), 1);
    assert_eq!(state.voted_for(), Some(2));
    assert_eq!((args.term, args.candidate_id, args.last_log_index, args.last_log_term), (1, 2, 7, 3));
}

#[test]
fn quorum_size_is_a_majority_of_the_servers() {
    assert_eq!(quorum_size(0), 1);
    assert_eq!(quorum_size(1), 2);
    assert_eq!(quorum_size(2), 2);
    assert_eq!(quorum_size(3), 3);
    assert_eq!(quorum_size(4), 3);
}

#[test]
fn count_votes_wins_with_a_quorum() {
    let mut state = RaftState::new(1);
    state.begin_election(&LogEntry { log_index: 0, log_term: 0, command: String::new() });
    let outcome = state.count_votes(&[reply(1, false), reply(1, true), reply(1, true)], 4);
    assert!(outcome == ElectionOutcome::Won);
    assert!(state.status() == RaftStatus::Leader);
    assert_eq!(state.current_term(), 1);
}

#[test]
fn count_votes_loses_without_a_quorum() {
    let mut state = RaftState::new(1);
    state.begin_election(&LogEntry { log_index: 0, log_term: 0, command: String::new() });
    state.on_follower_event(FollowerEvent::HeartbeatTimeout);
    let outcome = state.count_votes(&[reply(1, false), reply(1, true)], 4);
    assert!(outcome == ElectionOutcome::Lost);
    assert!(state.status() == RaftStatus::Candidate);
}

#[test]
fn count_votes_steps_down_on_a_newer_term() {
    let mut state = RaftState::new(1);
    state.begin_election(&LogEntry { log_index: 0, log_term: 0, command: String::new() });
    let outcome = state.count_votes(&[reply(1, true), reply(5, false), reply(1, true)], 4);
    assert!(outcome == ElectionOutcome::SteppedDown { term: 5 });
    assert!(state.status() == RaftStatus::Follower);
    assert_eq!(state.current_term(), 5);
}

#[test]
fn single_node_wins_on_its_own_vote() {
    let mut state = RaftState::new(1);
    state.on_follower_event(FollowerEvent::HeartbeatTimeout);
    let outcome = state.count_votes(&[], 0);
    assert!(outcome == ElectionOutcome::Won);
    assert!(state.status() == RaftStatus::Leader);
}

#[test]
fn count_votes_with_no_replies_among_peers_stays_candidate() {
    let mut state = RaftState::new(1);
    state.on_follower_event(FollowerEvent::HeartbeatTimeout);
    let outcome = state.count_votes(&[], 2);
    assert!(outcome == ElectionOutcome::Lost);
    assert!(state.status() == RaftStatus::Candidate);
}

#[test]
fn four_servers_need_three_votes() {
    let mut state = RaftState::new(1);
    state.on_follower_event(FollowerEvent::HeartbeatTimeout);
    let outcome = state.count_votes(&[reply(0, true), reply(0, false), reply(0, false)], 3);
    assert!(outcome == ElectionOutcome::Lost);
    let outcome = state.count_votes(&[reply(0, true), reply(0, true), reply(0, false)], 3);
    assert!(outcome == ElectionOutcome::Won);
}

#[test]
fn majority_index_takes_the_middle_value() {
    let mut m = HashMap::new();
    m.insert(1u64, 5u64);
    m.insert(2, 1);
    m.insert(3, 9);
    assert_eq!(majority_index(&m), 5);
    m.insert(4, 7);
    assert_eq!(majority_index(&m), 7);
    let mut single = HashMap::new();
    single.insert(0u64, 42u64);
    assert_eq!(majority_index(&single), 42);
}

#[test]
fn http_peer_new() {
    let peer = HttpPeer::new("127.0.0.1:8080".to_string());
    assert_eq!(peer.addr(), "127.0.0.1:8080");
}
