use vstd::prelude::*;

use crate::state_machine::StateMachine;
use crate::storage::{
    apply_writes, increasing, law_truncate_and_append_stores_entries,
    lemma_truncate_and_append_keeps_wf, log_wf, truncate_and_append_log, writes_fit, Storage,
};

verus! {

/// One entry of the replicated log: its position, the term in which a leader
/// created it, and the client command it carries.
pub struct LogEntry {
    pub log_index: u32,
    pub log_term: u32,
    pub command: String,
}

/// The mathematical value of a [`LogEntry`].
pub struct LogEntryView {
    pub log_index: u32,
    pub log_term: u32,
    pub command: Seq<char>,
}

impl View for LogEntry {
    type V = LogEntryView;

    open spec fn view(&self) -> LogEntryView {
        LogEntryView { log_index: self.log_index, log_term: self.log_term, command: self.command@ }
    }
}

impl Clone for LogEntry {
    fn clone(&self) -> (copy: Self)
        ensures
            copy == *self,
    {
        LogEntry { log_index: self.log_index, log_term: self.log_term, command: self.command.clone() }
    }
}

/// The views of a sequence of entries, in the same order.
pub open spec fn entries_view(entries: Seq<LogEntry>) -> Seq<LogEntryView> {
    entries.map_values(|e: LogEntry| e@)
}

/// Whether `e` disagrees with the log: nothing is stored at its index, or the
/// entry there has another term.
pub open spec fn conflicts(log: Seq<LogEntryView>, e: LogEntryView) -> bool {
    e.log_index >= log.len() || log[e.log_index as int].log_term != e.log_term
}

/// The position, from `i` on, of the first entry of `entries` that disagrees
/// with the log; `entries.len()` when none does.
pub open spec fn first_conflict_from(
    log: Seq<LogEntryView>,
    entries: Seq<LogEntryView>,
    i: int,
) -> int
    decreases entries.len() - i,
{
    if i < 0 || i >= entries.len() {
        entries.len() as int
    } else if conflicts(log, entries[i]) {
        i
    } else {
        first_conflict_from(log, entries, i + 1)
    }
}

/// The index of the first entry that disagrees with the log, or the index of
/// the first entry when all of them agree.
pub open spec fn conflict_index(log: Seq<LogEntryView>, entries: Seq<LogEntryView>) -> u32 {
    let p = first_conflict_from(log, entries, 0);
    if p < entries.len() {
        entries[p].log_index
    } else {
        entries[0].log_index
    }
}

/// Where the entries to be written start: the conflict index, counted from the
/// index of the first entry.
pub open spec fn suffix_start(log: Seq<LogEntryView>, entries: Seq<LogEntryView>) -> int {
    conflict_index(log, entries) - entries[0].log_index
}

/// The entries that `append_entries` hands to the storage.
pub open spec fn new_entries(log: Seq<LogEntryView>, entries: Seq<LogEntryView>) -> Seq<
    LogEntryView,
> {
    if entries.len() == 0 {
        entries
    } else {
        entries.subrange(suffix_start(log, entries), entries.len() as int)
    }
}

/// The leader's previous entry agrees with the log: either the log holds no
/// entry at that index, or the entry there has that term.
pub open spec fn prev_matches(log: Seq<LogEntryView>, prev_log_index: u32, prev_log_term: u32) -> bool {
    !(prev_log_index < log.len() && log[prev_log_index as int].log_term != prev_log_term)
}

/// The entries of an `append_entries` call can be split and stored.
pub open spec fn entries_storable(log: Seq<LogEntryView>, entries: Seq<LogEntryView>) -> bool {
    entries.len() > 0 ==> {
        &&& 0 <= suffix_start(log, entries) <= entries.len()
        &&& writes_fit(log, new_entries(log, entries))
    }
}

/// The commit index after an accepted `append_entries`.
pub open spec fn next_commit(
    commit: u32,
    prev_log_index: u32,
    appended: nat,
    leader_commit: u32,
) -> u32 {
    if leader_commit > commit {
        let last_new = (prev_log_index + (appended as u32)) as u32;
        if leader_commit <= last_new {
            leader_commit
        } else {
            last_new
        }
    } else {
        commit
    }
}

/// Whether a log whose last entry has `log_index` and `log_term` is at least as
/// recent as a log ending in `last`: a later term, or the same term and an
/// index at least as large.
pub open spec fn up_to_date(last: LogEntryView, log_index: u32, log_term: u32) -> bool {
    log_term > last.log_term || (last.log_term == log_term && log_index >= last.log_index)
}

/// The indices of `entries` follow each other without gaps.
pub open spec fn contiguous(entries: Seq<LogEntryView>) -> bool {
    forall|i: int| 0 <= i < entries.len() ==> #[trigger] entries[i].log_index == entries[0].log_index + i
}

/// The search for a conflict from position `i` stops at a conflicting entry,
/// or at the end, and every entry it passes agrees with the log.
pub proof fn lemma_first_conflict_from(log: Seq<LogEntryView>, entries: Seq<LogEntryView>, i: int)
    requires
        0 <= i <= entries.len(),
    ensures
        i <= first_conflict_from(log, entries, i) <= entries.len(),
        forall|j: int|
            i <= j < first_conflict_from(log, entries, i) ==> !conflicts(log, #[trigger] entries[j]),
        first_conflict_from(log, entries, i) < entries.len() ==> conflicts(
            log,
            entries[first_conflict_from(log, entries, i)],
        ),
    decreases entries.len() - i,
{
    if i < entries.len() && !conflicts(log, entries[i]) {
        lemma_first_conflict_from(log, entries, i + 1);
    }
}

/// `find_conflict`: every entry before the one it reports agrees with the log
/// (the log holds an entry of the same term at that index), and the reported
/// one, when it is not the first entry by default, disagrees.
pub proof fn law_find_conflict(log: Seq<LogEntryView>, entries: Seq<LogEntryView>)
    requires
        entries.len() > 0,
    ensures
        ({
            let p = first_conflict_from(log, entries, 0);
            &&& 0 <= p <= entries.len()
            &&& forall|j: int| 0 <= j < p ==> !conflicts(log, #[trigger] entries[j])
            &&& p < entries.len() ==> conflicts(log, entries[p]) && conflict_index(log, entries)
                == entries[p].log_index
            &&& p == entries.len() ==> conflict_index(log, entries) == entries[0].log_index
        }),
{
    lemma_first_conflict_from(log, entries, 0);
}

/// An accepted `append_entries` with gap-free entries leaves the log holding,
/// at the index of each entry sent, an entry of the same term; the entries
/// from the first disagreeing one on are stored as sent, and the log ends with
/// the last one.
pub proof fn law_append_entries_stores(log: Seq<LogEntryView>, entries: Seq<LogEntryView>)
    requires
        log_wf(log),
        entries.len() > 0,
        contiguous(entries),
        entries_storable(log, entries),
    ensures
        ({
            let after = truncate_and_append_log(log, new_entries(log, entries));
            &&& log_wf(after)
            &&& after.len() == entries.last().log_index + 1
            &&& forall|i: int|
                0 <= i < entries.len() ==> (#[trigger] entries[i]).log_index < after.len()
                    && after[entries[i].log_index as int].log_term == entries[i].log_term
            &&& forall|i: int|
                suffix_start(log, entries) <= i < entries.len() ==> after[(#[trigger] entries[i]).log_index as int]
                    == entries[i]
        }),
{
    lemma_first_conflict_from(log, entries, 0);
    let p = first_conflict_from(log, entries, 0);
    let fresh = new_entries(log, entries);
    if p < entries.len() {
        assert(entries[p].log_index == entries[0].log_index + p);
        assert(suffix_start(log, entries) == p);
    } else {
        assert(suffix_start(log, entries) == 0);
    }
    let s = suffix_start(log, entries);
    assert(fresh =~= entries.subrange(s, entries.len() as int));
    assert forall|a: int, b: int| 0 <= a < b < fresh.len() implies fresh[a].log_index
        < fresh[b].log_index by {
        assert(fresh[a] == entries[s + a] && fresh[b] == entries[s + b]);
        assert(entries[s + a].log_index == entries[0].log_index + s + a);
        assert(entries[s + b].log_index == entries[0].log_index + s + b);
    }
    assert(increasing(fresh));
    lemma_truncate_and_append_keeps_wf(log, fresh);
    let after = truncate_and_append_log(log, fresh);
    if s < entries.len() {
        law_truncate_and_append_stores_entries(log, fresh);
        assert(fresh.last() == entries.last());
        assert forall|i: int| s <= i < entries.len() implies after[(#[trigger] entries[i]).log_index as int]
            == entries[i] by {
            assert(fresh[i - s] == entries[i]);
        }
        assert forall|i: int| 0 <= i < entries.len() implies (#[trigger] entries[i]).log_index
            < after.len() && after[entries[i].log_index as int].log_term == entries[i].log_term by {
            if i < s {
                assert(!conflicts(log, entries[i]));
                assert(fresh[0] == entries[s]);
                assert(entries[i].log_index < fresh[0].log_index);
            } else {
                assert(fresh[i - s] == entries[i]);
            }
        }
    } else {
        assert(false);
    }
}

/// `index` is what `find_conflict` owes for `entries`: either the index of an
/// entry that the log does not hold (the log is too short there, or holds
/// another term there) after entries that it all holds with the same term, or,
/// when the log holds every entry with its term, the index of the first one.
pub open spec fn reports_first_disagreement(
    log: Seq<LogEntryView>,
    entries: Seq<LogEntryView>,
    index: u32,
) -> bool {
    ||| exists|p: int|
        0 <= p < entries.len() && index == (#[trigger] entries[p]).log_index && (entries[p].log_index
            >= log.len() || log[entries[p].log_index as int].log_term != entries[p].log_term) && forall|
            j: int,
        |
            0 <= j < p ==> (#[trigger] entries[j]).log_index < log.len() && log[entries[j].log_index as int].log_term
                == entries[j].log_term
    ||| (forall|j: int|
        0 <= j < entries.len() ==> (#[trigger] entries[j]).log_index < log.len() && log[entries[j].log_index as int].log_term
            == entries[j].log_term) && index == entries[0].log_index
}

/// The conflict index is one the log does not hold with that term, and every
/// entry before it is held with its term; an entry held with its term is never
/// reported, whatever the log's last term.
pub proof fn law_find_conflict_disagrees(log: Seq<LogEntryView>, entries: Seq<LogEntryView>)
    requires
        entries.len() > 0,
    ensures
        reports_first_disagreement(log, entries, conflict_index(log, entries)),
{
    lemma_first_conflict_from(log, entries, 0);
    let p = first_conflict_from(log, entries, 0);
    if p < entries.len() {
        assert(entries[p].log_index >= log.len() || log[entries[p].log_index as int].log_term
            != entries[p].log_term);
        assert forall|j: int| 0 <= j < p implies (#[trigger] entries[j]).log_index < log.len()
            && log[entries[j].log_index as int].log_term == entries[j].log_term by {
            assert(!conflicts(log, entries[j]));
        }
    } else {
        assert forall|j: int| 0 <= j < entries.len() implies (#[trigger] entries[j]).log_index
            < log.len() && log[entries[j].log_index as int].log_term == entries[j].log_term by {
            assert(!conflicts(log, entries[j]));
        }
    }
}

/// `append_entries` is accepted exactly when the log holds no entry at the
/// previous index or holds one with the leader's previous term; an entry there
/// with any other term, higher or lower, refuses the request.
pub proof fn law_append_entries_accepts_exactly(log: Seq<LogEntryView>, prev_log_index: u32, prev_log_term: u32)
    ensures
        prev_matches(log, prev_log_index, prev_log_term) <==> (prev_log_index >= log.len()
            || log[prev_log_index as int].log_term == prev_log_term),
{
}

/// A candidate's log is at least as recent exactly when its last term is
/// higher, or equal with an index at least as large: a lower last term never
/// is, whatever the index.
pub proof fn law_up_to_date_by_term_then_index(last: LogEntryView, log_index: u32, log_term: u32)
    ensures
        log_term < last.log_term ==> !up_to_date(last, log_index, log_term),
        log_term > last.log_term ==> up_to_date(last, log_index, log_term),
        log_term == last.log_term ==> (up_to_date(last, log_index, log_term) <==> log_index
            >= last.log_index),
{
}

/// An accepted heartbeat (no entries) leaves the log as it was.
pub proof fn law_heartbeat_keeps_log(log: Seq<LogEntryView>)
    ensures
        truncate_and_append_log(log, new_entries(log, Seq::empty())) == log,
        new_entries(log, Seq::<LogEntryView>::empty()).len() == 0,
{
}

/// An accepted `append_entries` never lowers the commit index as long as the
/// last entry it vouches for (the previous index plus the entries stored) is
/// not below the current commit index; it raises it to the leader's commit
/// index when that is no further than that entry.
pub proof fn law_commit_index_rises(commit: u32, prev_log_index: u32, appended: nat, leader_commit: u32)
    requires
        prev_log_index + (appended as u32) <= u32::MAX,
        prev_log_index + (appended as u32) >= commit,
    ensures
        next_commit(commit, prev_log_index, appended, leader_commit) >= commit,
        leader_commit > commit && leader_commit <= prev_log_index + (appended as u32) ==> next_commit(
            commit,
            prev_log_index,
            appended,
            leader_commit,
        ) == leader_commit,
{
}

/// After `append`, the returned index is the new last index, the entry there
/// is the one appended, and every earlier entry is unchanged.
pub proof fn law_append_then_entry(log: Seq<LogEntryView>, command: Seq<char>, term: u32)
    requires
        log_wf(log),
        log.len() < u32::MAX,
    ensures
        ({
            let e = LogEntryView { log_index: log.len() as u32, log_term: term, command };
            let after = log.push(e);
            &&& log_wf(after)
            &&& after.len() - 1 == log.len()
            &&& after[log.len() as int] == e
            &&& forall|i: int| 0 <= i < log.len() ==> #[trigger] after[i] == log[i]
        }),
{
}

/// Comparing logs by their last entries is a total preorder: a log is as
/// recent as itself, and of two logs one is at least as recent as the other.
pub proof fn law_up_to_date_total(a: LogEntryView, b: LogEntryView)
    ensures
        up_to_date(a, a.log_index, a.log_term),
        up_to_date(a, b.log_index, b.log_term) || up_to_date(b, a.log_index, a.log_term),
{
}

/// The replicated log of a node: the stored entries, the state machine that
/// committed commands go to, and the commit and apply positions.
pub struct Logs<S: Storage, M: StateMachine> {
    store: S,
    state_machine: M,
    commit_index: u32,
    last_applied: u32,
}

impl<S: Storage, M: StateMachine> Logs<S, M> {
    /// The entries of the log, position by position.
    pub closed spec fn log(&self) -> Seq<LogEntryView> {
        self.store.log()
    }

    /// The commit index.
    pub closed spec fn commit(&self) -> u32 {
        self.commit_index
    }

    /// The index of the last entry handed to the state machine.
    pub closed spec fn applied(&self) -> u32 {
        self.last_applied
    }

    /// The state machine.
    pub closed spec fn machine(&self) -> M {
        self.state_machine
    }

    /// The log is well-formed. No operation advances the apply position, which
    /// stays at 0.
    pub open spec fn wf(&self) -> bool {
        &&& log_wf(self.log())
        &&& self.applied() == 0
    }

    pub fn new(store: S, state_machine: M) -> (logs: Self)
        requires
            log_wf(store.log()),
        ensures
            logs.wf(),
            logs.log() == store.log(),
            logs.commit() == 0,
            logs.machine() == state_machine,
    {
        Logs { store, state_machine, commit_index: 0, last_applied: 0 }
    }

    pub fn commit_index(&self) -> (index: u32)
        ensures
            index == self.commit(),
    {
        self.commit_index
    }

    /// Sets the commit index. Committed entries past the apply position would
    /// be handed to the state machine while the commit index is below the
    /// apply position, which never happens, since the latter stays at 0.
    pub fn set_commit_index(&mut self, index: u32)
        requires
            old(self).wf(),
        ensures
            final(self).wf(),
            final(self).log() == old(self).log(),
            final(self).commit() == index,
            final(self).machine() == old(self).machine(),
    {
        while self.commit_index < self.last_applied
            invariant
                self.wf(),
                self.log() == old(self).log(),
                self.machine() == old(self).machine(),
            decreases self.last_applied - self.commit_index,
        {
            self.last_applied = self.last_applied + 1;
            let command = self.store.entry(self.last_applied).unwrap().command;
            let buf = frame_command(&command);
            self.state_machine.apply(buf);
        }
        self.commit_index = index;
    }

    pub fn last_index(&self) -> (last: u32)
        requires
            self.wf(),
        ensures
            last == self.log().len() - 1,
    {
        self.store.last_index()
    }

    pub fn last(&self) -> (last: LogEntry)
        requires
            self.wf(),
        ensures
            last@ == self.log().last(),
    {
        self.store.entry(self.store.last_index()).unwrap()
    }

    pub fn entry(&self, log_index: u32) -> (found: Option<LogEntry>)
        requires
            self.wf(),
        ensures
            log_index < self.log().len() ==> found is Some && found->0@ == self.log()[log_index as int],
            log_index >= self.log().len() ==> found is None,
    {
        self.store.entry(log_index)
    }

    /// Appends a new entry after the last one and returns its index.
    pub fn append(&mut self, command: String, term: u32) -> (log_index: u32)
        requires
            old(self).wf(),
            old(self).log().len() < u32::MAX,
        ensures
            final(self).wf(),
            log_index == old(self).log().len(),
            final(self).log() == old(self).log().push(
                LogEntryView { log_index, log_term: term, command: command@ },
            ),
            final(self).commit() == old(self).commit(),
            final(self).machine() == old(self).machine(),
    {
        let log_index = self.last_index() + 1;
        let mut entries: Vec<LogEntry> = Vec::new();
        entries.push(LogEntry { log_term: term, log_index, command });
        let ghost log = self.log();
        let ghost writes = entries_view(entries@);
        proof {
            assert(writes =~= seq![entries[0]@]);
            assert(writes.take(0) =~= Seq::<LogEntryView>::empty());
            assert(apply_writes(log, writes.take(0)) == log);
            assert(writes.drop_last() =~= Seq::<LogEntryView>::empty());
            assert(apply_writes(log, writes) == log.push(entries[0]@));
            lemma_truncate_and_append_keeps_wf(log, writes);
        }
        self.store.truncate_and_append(entries);
        proof {
            assert(log.push(writes[0]).take(log_index + 1) =~= log.push(writes[0]));
        }
        log_index
    }

    /// Handles the entries a leader sends after the entry at `prev_log_index`:
    /// refuses them when the log holds another term there; otherwise stores
    /// them from the first one that disagrees with the log, and raises the
    /// commit index towards the leader's.
    pub fn append_entries(
        &mut self,
        prev_log_index: u32,
        prev_log_term: u32,
        entries: Vec<LogEntry>,
        leader_commit: u32,
    ) -> (accepted: bool)
        requires
            old(self).wf(),
            prev_matches(old(self).log(), prev_log_index, prev_log_term) ==> {
                &&& entries_storable(old(self).log(), entries_view(entries@))
                &&& leader_commit > old(self).commit() ==> prev_log_index + (new_entries(
                    old(self).log(),
                    entries_view(entries@),
                ).len() as u32) <= u32::MAX
            },
        ensures
            final(self).wf(),
            accepted == prev_matches(old(self).log(), prev_log_index, prev_log_term),
            accepted <==> (prev_log_index >= old(self).log().len() || old(self).log()[prev_log_index as int].log_term
                == prev_log_term),
            prev_log_index < old(self).log().len() && old(self).log()[prev_log_index as int].log_term
                != prev_log_term ==> !accepted && final(self).log() == old(self).log() && final(self).commit()
                == old(self).commit(),
            !accepted ==> final(self).log() == old(self).log() && final(self).commit() == old(
                self,
            ).commit(),
            accepted ==> final(self).log() == truncate_and_append_log(
                old(self).log(),
                new_entries(old(self).log(), entries_view(entries@)),
            ),
            accepted ==> final(self).commit() == next_commit(
                old(self).commit(),
                prev_log_index,
                new_entries(old(self).log(), entries_view(entries@)).len(),
                leader_commit,
            ),
            final(self).machine() == old(self).machine(),
    {
        let entry = self.entry(prev_log_index);
        let mismatch = match &entry {
            Some(e) => e.log_term != prev_log_term,
            None => false,
        };
        if mismatch {
            return false;
        }
        let ghost log = self.log();
        let ghost es = entries_view(entries@);
        let mut entries = entries;
        let mut appended: usize = 0;
        if !entries.is_empty() {
            let conflict = self.find_conflict(entries.as_slice());
            proof {
                assert(entries_view(entries@)[0] == entries[0]@);
            }
            let at = (conflict - entries[0].log_index) as usize;
            entries = entries.split_off(at);
            proof {
                assert(entries_view(entries@) =~= new_entries(log, es));
                lemma_truncate_and_append_keeps_wf(log, new_entries(log, es));
            }
            appended = entries.len();
            self.store.truncate_and_append(entries);
        } else {
            assert(new_entries(log, es).len() == 0);
        }
        if leader_commit > self.commit_index() {
            self.commit_index = leader_commit.min(prev_log_index + appended as u32);
        }
        true
    }

    /// The entry just before `start_log_index` (its index and term), and the
    /// `max_len` entries from `start_log_index` on.
    pub fn batch_entries(&self, start_log_index: u32, max_len: usize) -> (batch: (u32, u32, Vec<LogEntry>))
        requires
            self.wf(),
            1 <= start_log_index,
            max_len < u32::MAX,
            start_log_index + max_len <= self.log().len(),
        ensures
            batch.0 == self.log()[start_log_index - 1].log_index,
            batch.1 == self.log()[start_log_index - 1].log_term,
            entries_view(batch.2@) == self.log().subrange(
                start_log_index as int,
                start_log_index + max_len,
            ),
    {
        let mut entries = self.store.batch_entries(start_log_index - 1, (max_len + 1) as u32);
        let ghost fetched = entries@;
        proof {
            assert(entries_view(fetched).len() == max_len + 1);
            assert(entries_view(fetched)[0] == fetched[0]@);
        }
        let prev_log = if entries.is_empty() {
            self.last()
        } else {
            entries.remove(0)
        };
        proof {
            assert(entries@ =~= fetched.subrange(1, fetched.len() as int));
            assert forall|k: int| 0 <= k < max_len implies #[trigger] entries_view(entries@)[k]
                == self.log()[start_log_index + k] by {
                assert(entries_view(fetched)[k + 1] == fetched[k + 1]@);
            }
            assert(entries_view(entries@) =~= self.log().subrange(
                start_log_index as int,
                start_log_index + max_len,
            ));
        }
        (prev_log.log_index, prev_log.log_term, entries)
    }

    /// Whether a log ending at `log_index` in `log_term` is at least as recent
    /// as this one.
    pub fn is_up_to_date(&self, log_index: u32, log_term: u32) -> (recent: bool)
        requires
            self.wf(),
        ensures
            recent == up_to_date(self.log().last(), log_index, log_term),
            log_term < self.log().last().log_term ==> !recent,
            log_term > self.log().last().log_term ==> recent,
            log_term == self.log().last().log_term ==> (recent <==> log_index >= self.log().last().log_index),
    {
        let last = self.last();
        log_term > last.log_term || (last.log_term == log_term && log_index >= last.log_index)
    }

    /// The index of the first of `entries` that disagrees with the log, or the
    /// index of the first entry when all of them agree.
    pub fn find_conflict(&self, entries: &[LogEntry]) -> (index: u32)
        requires
            self.wf(),
            entries.len() > 0,
        ensures
            index == conflict_index(self.log(), entries_view(entries@)),
            reports_first_disagreement(self.log(), entries_view(entries@), index),
    {
        let ghost es = entries_view(entries@);
        let mut i: usize = 0;
        while i < entries.len()
            invariant
                self.wf(),
                es == entries_view(entries@),
                0 <= i <= entries.len(),
                first_conflict_from(self.log(), es, 0) == first_conflict_from(self.log(), es, i as int),
            decreases entries.len() - i,
        {
            let e = &entries[i];
            assert(es[i as int] == e@);
            let entry = self.entry(e.log_index);
            let differs = match &entry {
                Some(found) => found.log_term != e.log_term,
                None => true,
            };
            if differs {
                proof {
                    law_find_conflict_disagrees(self.log(), es);
                }
                return e.log_index;
            }
            i = i + 1;
        }
        assert(es[0] == entries[0]@);
        proof {
            law_find_conflict_disagrees(self.log(), es);
        }
        entries[0].log_index
    }
}

/// The bytes of a command as the state machine receives them: a MessagePack
/// serializer is set up over a fresh buffer, and the UTF-8 bytes of the
/// command are written straight into the writer it wraps.
///
/// Trusted: calls `rmp_serde::Serializer::new` and `into_inner`, then
/// `std::io::Write::write` on the `Vec<u8>` it gets back. The contract claims
/// that `into_inner` returns the buffer it was given and that writing to a
/// `Vec<u8>` appends all the bytes, so the buffer holds exactly the UTF-8
/// encoding of the command.
#[verifier::external_body]
fn frame_command(command: &String) -> (buf: Vec<u8>)
    ensures
        buf@ == vstd::utf8::encode_utf8(command@),
{
    let mut buf: Vec<u8> = Vec::new();
    let serializer = rmp_serde::Serializer::new(&mut buf);
    let _ = std::io::Write::write(serializer.into_inner(), command.as_bytes());
    buf
}

} // verus!
