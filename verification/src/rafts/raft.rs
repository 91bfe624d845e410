use vstd::prelude::*;
use vstd::std_specs::iter::IteratorSpec;

use std::collections::HashMap;

use crate::logs::LogEntry;
use crate::rafts::counting::{
    ascending, at_most, below, count_where, keys_where, lemma_ascending_rank,
    lemma_count_distinct_keys, lemma_count_permutation,
};
use crate::rafts::args::{RequestVoteArgs, RequestVoteReply};

verus! {

/// The role a node plays.
#[derive(PartialEq, Eq, Structural, Clone, Copy)]
pub enum RaftStatus {
    Follower,
    Candidate,
    Leader,
}

/// What a follower waits for.
#[derive(PartialEq, Eq, Structural, Clone, Copy)]
pub enum FollowerEvent {
    /// No heartbeat came in time.
    HeartbeatTimeout,
    /// The node is shutting down.
    Shutdown,
}

/// How one round of vote counting ended.
#[derive(PartialEq, Eq, Structural, Clone, Copy)]
pub enum ElectionOutcome {
    /// Not enough votes: the node stays a candidate and tries again later.
    Lost,
    /// A quorum granted its vote: the node is the leader.
    Won,
    /// A reply carried a newer term: the node is a follower of that term.
    SteppedDown { term: u32 },
}

/// The votes a candidate needs, its own included: a majority of the servers,
/// which are the peers and the node itself.
pub open spec fn quorum(peer_count: nat) -> nat {
    (peer_count + 1) / 2 + 1
}

/// The votes a candidate needs, its own included, given the number of peers.
pub fn quorum_size(peer_count: usize) -> (size: usize)
    requires
        peer_count < usize::MAX,
    ensures
        size == quorum(peer_count as nat),
{
    (peer_count + 1) / 2 + 1
}

/// The values of `values`, in ascending order.
fn sort_ascending(values: &Vec<u64>) -> (sorted: Vec<u64>)
    ensures
        ascending(sorted@),
        sorted@.to_multiset() == values@.to_multiset(),
{
    broadcast use vstd::seq_lib::group_to_multiset_ensures;

    let mut sorted: Vec<u64> = Vec::new();
    let mut i: usize = 0;
    while i < values.len()
        invariant
            0 <= i <= values.len(),
            ascending(sorted@),
            sorted@.to_multiset() == values@.take(i as int).to_multiset(),
        decreases values.len() - i,
    {
        let x = values[i];
        let mut pos: usize = 0;
        while pos < sorted.len() && sorted[pos] <= x
            invariant
                0 <= pos <= sorted.len(),
                forall|k: int| 0 <= k < pos ==> sorted[k] <= x,
            decreases sorted.len() - pos,
        {
            pos = pos + 1;
        }
        let ghost before = sorted@;
        sorted.insert(pos, x);
        proof {
            assert(sorted@ == before.insert(pos as int, x));
            vstd::seq_lib::to_multiset_insert(before, pos as int, x);
            assert(values@.take(i + 1) =~= values@.take(i as int).push(x));
            vstd::seq_lib::to_multiset_build(values@.take(i as int), x);
            assert forall|a: int, b: int| 0 <= a <= b < sorted@.len() implies sorted@[a] <= sorted@[b] by {
                if pos < before.len() {
                    assert(before[pos as int] > x);
                }
            }
        }
        i = i + 1;
    }
    assert(values@.take(values.len() as int) =~= values@);
    sorted
}

/// The match index that a majority of the nodes have reached: the values of
/// `match_index` in ascending order, taken at the middle position. At most
/// half of the keys map below it, and more than half map to it or below.
pub fn majority_index(match_index: &HashMap<u64, u64>) -> (index: u64)
    requires
        match_index@.len() > 0,
    ensures
        match_index@.values().contains(index),
        keys_where(match_index@, below(index)) <= match_index@.len() / 2,
        keys_where(match_index@, at_most(index)) > match_index@.len() / 2,
{
    broadcast use vstd::std_specs::hash::group_hash_axioms;

    let ghost m = match_index@;
    let ghost pairs = vstd::std_specs::hash::spec_hash_map_iter(match_index).remaining();
    let mut arr: Vec<u64> = Vec::new();
    let mut keys: Ghost<Seq<u64>> = Ghost(Seq::empty());
    for pair in it: match_index.iter()
        invariant
            it.seq() == pairs,
            arr.len() == it.index(),
            keys@.len() == it.index(),
            forall|i: int| 0 <= i < it.index() ==> #[trigger] arr@[i] == *it.seq()[i].1,
            forall|i: int| 0 <= i < it.index() ==> #[trigger] keys@[i] == *it.seq()[i].0,
    {
        let ghost before = arr@;
        arr.push(*pair.1);
        proof {
            keys@ = keys@.push(*pair.0);
            assert(forall|i: int| 0 <= i < before.len() ==> arr@[i] == before[i]);
        }
    }
    let sorted = sort_ascending(&arr);
    proof {
        let ks = keys@;
        let vs = arr@;
        assert(ks.len() == pairs.len() && vs.len() == pairs.len());
        assert(pairs.len() == m.dom().len());
        assert(sorted@.len() == vs.len()) by {
            broadcast use vstd::seq_lib::group_to_multiset_ensures;

            assert(sorted@.to_multiset().len() == vs.to_multiset().len());
        }
        assert forall|i: int| 0 <= i < ks.len() implies #[trigger] vs[i] == m[ks[i]] && m.contains_key(
            ks[i],
        ) by {
            assert(m.contains_key(*pairs[i].0));
        }
        assert(ks.no_duplicates()) by {
            assert forall|i: int, j: int| 0 <= i < ks.len() && 0 <= j < ks.len() && i != j implies ks[i]
                != ks[j] by {
                if ks[i] == ks[j] {
                    assert(m.contains_key(*pairs[i].0) && m.contains_key(*pairs[j].0));
                    assert(pairs[i] == pairs[j]);
                }
            }
        }
        assert(ks.to_set() =~= m.dom()) by {
            assert forall|k: u64| m.dom().contains(k) implies ks.to_set().contains(k) by {
                assert(pairs.contains((&k, &m[k])));
                let i = choose|i: int| 0 <= i < pairs.len() && pairs[i] == (&k, &m[k]);
                assert(ks[i] == k);
            }
        }
        let k = (sorted@.len() / 2) as int;
        let r = sorted@[k];
        lemma_ascending_rank(sorted@, k);
        lemma_count_permutation(vs, sorted@, below(r));
        lemma_count_permutation(vs, sorted@, at_most(r));
        lemma_count_distinct_keys(m, ks, vs, below(r));
        lemma_count_distinct_keys(m, ks, vs, at_most(r));
        assert(vs.to_multiset().count(r) > 0) by {
            broadcast use vstd::seq_lib::group_to_multiset_ensures;

            assert(sorted@.contains(r));
        }
        assert(vs.contains(r)) by {
            broadcast use vstd::seq_lib::group_to_multiset_ensures;
        }
        let j = choose|j: int| 0 <= j < vs.len() && vs[j] == r;
        assert(m.contains_key(ks[j]) && m[ks[j]] == r);
    }
    sorted[sorted.len() / 2]
}

/// Counting `votes` from position `i` on, with `granted` votes so far:
/// having `needed` votes wins; otherwise the first reply with a term above
/// `term` ends the count with a step down, and running out of replies loses.
pub open spec fn tally_from(
    votes: Seq<RequestVoteReply>,
    i: int,
    term: u32,
    needed: int,
    granted: int,
) -> ElectionOutcome
    decreases votes.len() - i,
{
    if granted >= needed {
        ElectionOutcome::Won
    } else if i < 0 || i >= votes.len() {
        ElectionOutcome::Lost
    } else if votes[i].term > term {
        ElectionOutcome::SteppedDown { term: votes[i].term }
    } else {
        let now = if votes[i].vote_granted {
            granted + 1
        } else {
            granted
        };
        tally_from(votes, i + 1, term, needed, now)
    }
}

/// The outcome of counting `votes` for a candidate of `term`, which starts
/// with its own vote.
pub open spec fn tally(votes: Seq<RequestVoteReply>, term: u32, peer_count: nat) -> ElectionOutcome {
    tally_from(votes, 0, term, quorum(peer_count) as int, 1)
}

/// How many of the replies from position `i` on grant the vote.
pub open spec fn granted_from(votes: Seq<RequestVoteReply>, i: int) -> nat
    decreases votes.len() - i,
{
    if i < 0 || i >= votes.len() {
        0
    } else {
        granted_from(votes, i + 1) + if votes[i].vote_granted {
            1nat
        } else {
            0nat
        }
    }
}

proof fn lemma_tally_from(votes: Seq<RequestVoteReply>, i: int, term: u32, needed: int, granted: int)
    requires
        0 <= i <= votes.len(),
    ensures
        tally_from(votes, i, term, needed, granted) == ElectionOutcome::Won ==> granted + granted_from(
            votes,
            i,
        ) >= needed,
        tally_from(votes, i, term, needed, granted) matches ElectionOutcome::SteppedDown { term: t }
            ==> t > term && exists|j: int| i <= j < votes.len() && #[trigger] votes[j].term == t,
    decreases votes.len() - i,
{
    if granted < needed && i < votes.len() && votes[i].term <= term {
        let now = if votes[i].vote_granted {
            granted + 1
        } else {
            granted
        };
        lemma_tally_from(votes, i + 1, term, needed, now);
    }
}

/// A candidate wins only with a quorum: its own vote and the votes granted in
/// the replies make at least `quorum(peer_count)`. It steps down only to a
/// newer term, one that a reply carried. A node without peers wins at once:
/// its own vote is a majority of its one-server cluster.
pub proof fn law_election_outcome(votes: Seq<RequestVoteReply>, term: u32, peer_count: nat)
    ensures
        peer_count == 0 ==> tally(votes, term, peer_count) == ElectionOutcome::Won,
        tally(votes, term, peer_count) == ElectionOutcome::Won ==> 1 + granted_from(votes, 0) >= quorum(
            peer_count,
        ),
        tally(votes, term, peer_count) matches ElectionOutcome::SteppedDown { term: t } ==> t > term
            && exists|j: int| 0 <= j < votes.len() && #[trigger] votes[j].term == t,
{
    lemma_tally_from(votes, 0, term, quorum(peer_count) as int, 1);
}

proof fn lemma_granted_from_step(votes: Seq<RequestVoteReply>, k: int, i: int)
    requires
        0 <= i < k <= votes.len(),
    ensures
        granted_from(votes.take(k), i) == granted_from(votes.take(k), i + 1) + if votes[i].vote_granted {
            1nat
        } else {
            0nat
        },
{
    assert(votes.take(k)[i] == votes[i]);
}

proof fn lemma_tally_wins_on_prefix(
    votes: Seq<RequestVoteReply>,
    k: int,
    i: int,
    term: u32,
    needed: int,
    granted: int,
)
    requires
        0 <= i <= k <= votes.len(),
        forall|j: int| i <= j < k ==> (#[trigger] votes[j]).term <= term,
        granted + granted_from(votes.take(k), i) >= needed,
    ensures
        tally_from(votes, i, term, needed, granted) == ElectionOutcome::Won,
    decreases k - i,
{
    if granted < needed {
        if i == k {
            assert(granted_from(votes.take(k), i) == 0);
        } else {
            lemma_granted_from_step(votes, k, i);
            let now = if votes[i].vote_granted {
                granted + 1
            } else {
                granted
            };
            lemma_tally_wins_on_prefix(votes, k, i + 1, term, needed, now);
        }
    }
}

proof fn lemma_tally_other_outcomes(
    votes: Seq<RequestVoteReply>,
    i: int,
    term: u32,
    needed: int,
    granted: int,
)
    requires
        0 <= i <= votes.len(),
    ensures
        tally_from(votes, i, term, needed, granted) == ElectionOutcome::Lost ==> {
            &&& forall|j: int| i <= j < votes.len() ==> (#[trigger] votes[j]).term <= term
            &&& granted + granted_from(votes, i) < needed
        },
        tally_from(votes, i, term, needed, granted) matches ElectionOutcome::SteppedDown { term: t }
            ==> exists|j: int|
            i <= j < votes.len() && (#[trigger] votes[j]).term == t && t > term && (forall|l: int|
                i <= l < j ==> (#[trigger] votes[l]).term <= term) && granted + granted_from(
                votes.take(j),
                i,
            ) < needed,
    decreases votes.len() - i,
{
    if granted < needed && i < votes.len() {
        if votes[i].term > term {
            assert(granted_from(votes.take(i), i) == 0);
            assert(votes[i].term == votes[i].term);
        } else {
            let now = if votes[i].vote_granted {
                granted + 1
            } else {
                granted
            };
            lemma_tally_other_outcomes(votes, i + 1, term, needed, now);
            if let ElectionOutcome::SteppedDown { term: t } = tally_from(votes, i, term, needed, granted) {
                let j = choose|j: int|
                    i + 1 <= j < votes.len() && (#[trigger] votes[j]).term == t && t > term && (forall|l: int|
                        i + 1 <= l < j ==> (#[trigger] votes[l]).term <= term) && now + granted_from(
                        votes.take(j),
                        i + 1,
                    ) < needed;
                lemma_granted_from_step(votes, j, i);
                assert forall|l: int| i <= l < j implies (#[trigger] votes[l]).term <= term by {
                    if l > i {
                        assert(i + 1 <= l < j);
                    }
                }
            }
        }
    }
}

/// How an election count ends, in terms of the replies: once the node's own
/// vote and the votes granted by a prefix of replies that carry no newer term
/// reach the quorum, the candidate wins, whatever the later replies are. It
/// steps down only to the term of a reply that comes before the quorum is
/// reached, every reply before it carrying no newer term. It stays a
/// candidate only when no reply carries a newer term and all the granted
/// votes, with its own, stay below the quorum.
pub proof fn law_tally_by_replies(votes: Seq<RequestVoteReply>, term: u32, peer_count: nat)
    ensures
        forall|k: int|
            #![trigger votes.take(k)]
            0 <= k <= votes.len() && (forall|j: int| 0 <= j < k ==> (#[trigger] votes[j]).term <= term) && 1
                + granted_from(votes.take(k), 0) >= quorum(peer_count) ==> tally(votes, term, peer_count)
                == ElectionOutcome::Won,
        tally(votes, term, peer_count) == ElectionOutcome::Lost ==> {
            &&& forall|j: int| 0 <= j < votes.len() ==> (#[trigger] votes[j]).term <= term
            &&& 1 + granted_from(votes, 0) < quorum(peer_count)
        },
        tally(votes, term, peer_count) matches ElectionOutcome::SteppedDown { term: t } ==> exists|j: int|
            0 <= j < votes.len() && (#[trigger] votes[j]).term == t && t > term && (forall|l: int|
                0 <= l < j ==> (#[trigger] votes[l]).term <= term) && 1 + granted_from(votes.take(j), 0)
                < quorum(peer_count),
{
    assert forall|k: int|
        #![trigger votes.take(k)]
        0 <= k <= votes.len() && (forall|j: int| 0 <= j < k ==> (#[trigger] votes[j]).term <= term) && 1
            + granted_from(votes.take(k), 0) >= quorum(peer_count) implies tally(votes, term, peer_count)
        == ElectionOutcome::Won by {
        lemma_tally_wins_on_prefix(votes, k, 0, term, quorum(peer_count) as int, 1);
    }
    lemma_tally_other_outcomes(votes, 0, term, quorum(peer_count) as int, 1);
}

/// A quorum is the smallest majority of the `peer_count + 1` servers, so any
/// two quorums share a server and no two candidates win the same term.
pub proof fn law_quorum_is_smallest_majority(peer_count: nat)
    ensures
        2 * quorum(peer_count) > peer_count + 1,
        2 * (quorum(peer_count) - 1) <= peer_count + 1,
        quorum(peer_count) + quorum(peer_count) > peer_count + 1,
{
}

/// The election state of a node: its id, its current term, whom it voted
/// for, the leader it knows of, and its role.
pub struct RaftState {
    leader_id: Option<u32>,
    id: u32,
    current_term: u32,
    voted_for: Option<u32>,
    status: RaftStatus,
}

impl RaftState {
    pub closed spec fn spec_id(&self) -> u32 {
        self.id
    }

    pub closed spec fn term(&self) -> u32 {
        self.current_term
    }

    pub closed spec fn vote(&self) -> Option<u32> {
        self.voted_for
    }

    pub closed spec fn leader(&self) -> Option<u32> {
        self.leader_id
    }

    pub closed spec fn role(&self) -> RaftStatus {
        self.status
    }

    /// A node starts as a follower of term 0 that has not voted and knows no
    /// leader.
    pub fn new(id: u32) -> (state: Self)
        ensures
            state.spec_id() == id,
            state.term() == 0,
            state.vote() is None,
            state.leader() is None,
            state.role() == RaftStatus::Follower,
    {
        RaftState { leader_id: None, id, current_term: 0, voted_for: None, status: RaftStatus::Follower }
    }

    pub fn id(&self) -> (id: u32)
        ensures
            id == self.spec_id(),
    {
        self.id
    }

    pub fn current_term(&self) -> (term: u32)
        ensures
            term == self.term(),
    {
        self.current_term
    }

    pub fn voted_for(&self) -> (vote: Option<u32>)
        ensures
            vote == self.vote(),
    {
        self.voted_for
    }

    pub fn leader_id(&self) -> (leader: Option<u32>)
        ensures
            leader == self.leader(),
    {
        self.leader_id
    }

    pub fn status(&self) -> (status: RaftStatus)
        ensures
            status == self.role(),
    {
        self.status
    }

    /// Starts a round of the main loop: the known leader is forgotten, and the
    /// role decides what the node does next.
    pub fn begin_round(&mut self) -> (role: RaftStatus)
        ensures
            role == old(self).role(),
            final(self).leader() is None,
            final(self).spec_id() == old(self).spec_id(),
            final(self).term() == old(self).term(),
            final(self).vote() == old(self).vote(),
            final(self).role() == old(self).role(),
    {
        self.leader_id = None;
        self.status
    }

    /// A follower handles what it waited for: a heartbeat timeout makes it a
    /// candidate. Returns whether it keeps waiting as a follower.
    pub fn on_follower_event(&mut self, event: FollowerEvent) -> (keep_waiting: bool)
        ensures
            event == FollowerEvent::HeartbeatTimeout ==> final(self).role() == RaftStatus::Candidate,
            event == FollowerEvent::Shutdown ==> final(self).role() == old(self).role(),
            keep_waiting == (event == FollowerEvent::HeartbeatTimeout && final(self).role()
                == RaftStatus::Follower),
            final(self).spec_id() == old(self).spec_id(),
            final(self).term() == old(self).term(),
            final(self).vote() == old(self).vote(),
            final(self).leader() == old(self).leader(),
    {
        match event {
            FollowerEvent::HeartbeatTimeout => {
                self.status = RaftStatus::Candidate;
                self.status == RaftStatus::Follower
            },
            FollowerEvent::Shutdown => false,
        }
    }

    /// Opens an election: the term goes up by one, the node votes for itself,
    /// and the request for votes names its last log entry.
    pub fn begin_election(&mut self, last_log_entry: &LogEntry) -> (args: RequestVoteArgs)
        requires
            old(self).term() < u32::MAX,
        ensures
            final(self).term() == old(self).term() + 1,
            final(self).vote() == Some(old(self).spec_id()),
            final(self).spec_id() == old(self).spec_id(),
            final(self).leader() == old(self).leader(),
            final(self).role() == old(self).role(),
            args.term == final(self).term(),
            args.candidate_id == old(self).spec_id(),
            args.last_log_index == last_log_entry.log_index,
            args.last_log_term == last_log_entry.log_term,
    {
        self.current_term = self.current_term + 1;
        self.voted_for = Some(self.id);
        RequestVoteArgs {
            term: self.current_term,
            candidate_id: self.id,
            last_log_index: last_log_entry.log_index,
            last_log_term: last_log_entry.log_term,
        }
    }

    /// Counts the replies of an election among `peer_count` peers: the node's
    /// own vote and the granted votes, once they reach a majority of the
    /// servers, make it the leader; a reply with a newer term before that
    /// makes it a follower of that term; otherwise nothing changes.
    pub fn count_votes(&mut self, votes: &[RequestVoteReply], peer_count: usize) -> (outcome:
        ElectionOutcome)
        requires
            votes.len() < usize::MAX,
            peer_count < usize::MAX,
        ensures
            outcome == tally(votes@, old(self).term(), peer_count as nat),
            outcome == ElectionOutcome::Lost ==> *final(self) == *old(self),
            outcome == ElectionOutcome::Won ==> final(self).role() == RaftStatus::Leader
                && final(self).term() == old(self).term(),
            outcome matches ElectionOutcome::SteppedDown { term } ==> final(self).role()
                == RaftStatus::Follower && final(self).term() == term,
            final(self).spec_id() == old(self).spec_id(),
            final(self).vote() == old(self).vote(),
            final(self).leader() == old(self).leader(),
    {
        let mut granted_votes: usize = 1;
        let votes_needed = quorum_size(peer_count);
        let ghost term = self.current_term;
        if granted_votes >= votes_needed {
            self.status = RaftStatus::Leader;
            return ElectionOutcome::Won;
        }
        let mut i: usize = 0;
        while i < votes.len()
            invariant
                0 <= i <= votes.len(),
                votes.len() < usize::MAX,
                granted_votes <= i + 1,
                granted_votes < votes_needed,
                votes_needed == quorum(peer_count as nat),
                term == old(self).term(),
                *self == *old(self),
                tally(votes@, term, peer_count as nat) == tally_from(
                    votes@,
                    i as int,
                    term,
                    votes_needed as int,
                    granted_votes as int,
                ),
            decreases votes.len() - i,
        {
            let vote = votes[i];
            if vote.term > self.current_term {
                self.status = RaftStatus::Follower;
                self.current_term = vote.term;
                return ElectionOutcome::SteppedDown { term: vote.term };
            }
            if vote.vote_granted {
                granted_votes = granted_votes + 1;
            }
            if granted_votes >= votes_needed {
                self.status = RaftStatus::Leader;
                return ElectionOutcome::Won;
            }
            i = i + 1;
        }
        ElectionOutcome::Lost
    }
}

} // verus!
