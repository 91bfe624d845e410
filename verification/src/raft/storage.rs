use vstd::prelude::*;

use crate::logs::{contiguous, entries_view, LogEntry, LogEntryView};

verus! {

/// A well-formed log: it is never empty (position 0 holds a sentinel entry),
/// the entry at each position carries that position as its index, and every
/// index fits in a `u32` with room for one more.
pub open spec fn log_wf(log: Seq<LogEntryView>) -> bool {
    &&& 0 < log.len() <= u32::MAX
    &&& forall|i: int| 0 <= i < log.len() ==> (#[trigger] log[i]).log_index == i
}

/// Writing one entry at its own index: it replaces the entry there, or is
/// appended when its index is the length of the log.
pub open spec fn write_entry(log: Seq<LogEntryView>, e: LogEntryView) -> Seq<LogEntryView> {
    if e.log_index < log.len() {
        log.update(e.log_index as int, e)
    } else {
        log.push(e)
    }
}

/// Writing the entries of `writes` one after the other, in order.
pub open spec fn apply_writes(log: Seq<LogEntryView>, writes: Seq<LogEntryView>) -> Seq<
    LogEntryView,
>
    decreases writes.len(),
{
    if writes.len() == 0 {
        log
    } else {
        write_entry(apply_writes(log, writes.drop_last()), writes.last())
    }
}

/// Each write lands inside the log or right after its end, at an index below
/// `u32::MAX`.
pub open spec fn writes_fit(log: Seq<LogEntryView>, writes: Seq<LogEntryView>) -> bool {
    forall|i: int|
        0 <= i < writes.len() ==> (#[trigger] writes[i]).log_index <= apply_writes(
            log,
            writes.take(i),
        ).len() && writes[i].log_index < u32::MAX
}

/// The log after `truncate_and_append`: the entries are written in order, then
/// everything after the index of the last one is dropped. No entries, no change.
pub open spec fn truncate_and_append_log(
    log: Seq<LogEntryView>,
    writes: Seq<LogEntryView>,
) -> Seq<LogEntryView> {
    if writes.len() == 0 {
        log
    } else {
        let written = apply_writes(log, writes);
        let keep = writes.last().log_index + 1;
        if keep <= written.len() {
            written.take(keep)
        } else {
            written
        }
    }
}

/// Where the log entries live.
pub trait Storage {
    /// The entries held, position by position.
    spec fn log(&self) -> Seq<LogEntryView>;

    /// The index of the last entry.
    fn last_index(&self) -> (last: u32)
        requires
            log_wf(self.log()),
        ensures
            last == self.log().len() - 1,
    ;

    /// The entry at `index`, or `None` past the end of the log.
    fn entry(&self, index: u32) -> (found: Option<LogEntry>)
        requires
            log_wf(self.log()),
        ensures
            index < self.log().len() ==> found is Some && found->0@ == self.log()[index as int],
            index >= self.log().len() ==> found is None,
    ;

    /// The `max_len` entries from position `start_index` on.
    fn batch_entries(&self, start_index: u32, max_len: u32) -> (batch: Vec<LogEntry>)
        requires
            log_wf(self.log()),
            start_index + max_len <= self.log().len(),
        ensures
            entries_view(batch@) == self.log().subrange(
                start_index as int,
                start_index + max_len,
            ),
    ;

    /// Writes each entry at its index, then drops whatever follows the last
    /// one written.
    fn truncate_and_append(&mut self, entries: Vec<LogEntry>)
        requires
            log_wf(old(self).log()),
            writes_fit(old(self).log(), entries_view(entries@)),
        ensures
            final(self).log() == truncate_and_append_log(old(self).log(), entries_view(entries@)),
    ;
}

/// Writing one fitting entry keeps positions equal to indices.
proof fn lemma_write_entry_keeps_positions(log: Seq<LogEntryView>, e: LogEntryView)
    requires
        forall|i: int| 0 <= i < log.len() ==> (#[trigger] log[i]).log_index == i,
        e.log_index <= log.len(),
    ensures
        forall|i: int|
            0 <= i < write_entry(log, e).len() ==> (#[trigger] write_entry(log, e)[i]).log_index
                == i,
        write_entry(log, e).len() == if e.log_index < log.len() {
            log.len()
        } else {
            log.len() + 1
        },
{
}

/// Fitting writes keep positions equal to indices, never shrink the log, and
/// leave it at most one past the largest index written.
proof fn lemma_apply_writes_keeps_positions(log: Seq<LogEntryView>, writes: Seq<LogEntryView>)
    requires
        forall|i: int| 0 <= i < log.len() ==> (#[trigger] log[i]).log_index == i,
        writes_fit(log, writes),
    ensures
        forall|i: int|
            0 <= i < apply_writes(log, writes).len() ==> (#[trigger] apply_writes(log, writes)[i]).log_index
                == i,
        log.len() <= apply_writes(log, writes).len(),
        apply_writes(log, writes).len() <= log.len() || apply_writes(log, writes).len() <= u32::MAX,
    decreases writes.len(),
{
    if writes.len() > 0 {
        let init = writes.drop_last();
        assert forall|i: int| 0 <= i < init.len() implies (#[trigger] init[i]).log_index
            <= apply_writes(log, init.take(i)).len() && init[i].log_index < u32::MAX by {
            assert(init.take(i) =~= writes.take(i));
            assert(init[i] == writes[i]);
        }
        lemma_apply_writes_keeps_positions(log, init);
        assert(writes.take(writes.len() - 1) =~= init);
        assert(writes[writes.len() - 1] == writes.last());
        lemma_write_entry_keeps_positions(apply_writes(log, init), writes.last());
    }
}

/// `truncate_and_append` keeps a well-formed log well-formed.
pub proof fn lemma_truncate_and_append_keeps_wf(log: Seq<LogEntryView>, writes: Seq<LogEntryView>)
    requires
        log_wf(log),
        writes_fit(log, writes),
    ensures
        log_wf(truncate_and_append_log(log, writes)),
{
    lemma_apply_writes_keeps_positions(log, writes);
    if writes.len() > 0 {
        assert(writes[writes.len() - 1] == writes.last());
    }
}

proof fn lemma_entries_view_push(entries: Seq<LogEntry>, e: LogEntry)
    ensures
        entries_view(entries.push(e)) == entries_view(entries).push(e@),
{
    assert(entries_view(entries.push(e)) =~= entries_view(entries).push(e@));
}

proof fn lemma_entries_view_update(entries: Seq<LogEntry>, at: int, e: LogEntry)
    requires
        0 <= at < entries.len(),
    ensures
        entries_view(entries.update(at, e)) == entries_view(entries).update(at, e@),
{
    assert(entries_view(entries.update(at, e)) =~= entries_view(entries).update(at, e@));
}

/// The indices of `writes` strictly increase.
pub open spec fn increasing(writes: Seq<LogEntryView>) -> bool {
    forall|i: int, j: int| 0 <= i < j < writes.len() ==> writes[i].log_index < writes[j].log_index
}

/// Fitting writes with increasing indices leave each entry at its index, keep
/// everything below the first index, and never shrink the log.
proof fn lemma_apply_increasing_writes(log: Seq<LogEntryView>, writes: Seq<LogEntryView>)
    requires
        writes_fit(log, writes),
        increasing(writes),
    ensures
        log.len() <= apply_writes(log, writes).len(),
        forall|i: int|
            0 <= i < writes.len() ==> writes[i].log_index < apply_writes(log, writes).len()
                && apply_writes(log, writes)[#[trigger] writes[i].log_index as int] == writes[i],
        writes.len() > 0 ==> forall|j: int|
            0 <= j < log.len() && j < writes[0].log_index ==> #[trigger] apply_writes(log, writes)[j]
                == log[j],
        writes.len() == 0 ==> apply_writes(log, writes) == log,
    decreases writes.len(),
{
    if writes.len() > 0 {
        let init = writes.drop_last();
        let x = writes.last();
        assert forall|i: int| 0 <= i < init.len() implies (#[trigger] init[i]).log_index
            <= apply_writes(log, init.take(i)).len() && init[i].log_index < u32::MAX by {
            assert(init.take(i) =~= writes.take(i));
            assert(init[i] == writes[i]);
        }
        lemma_apply_increasing_writes(log, init);
        assert(writes.take(writes.len() - 1) =~= init);
        assert(writes[writes.len() - 1] == x);
        let before = apply_writes(log, init);
        assert forall|i: int| 0 <= i < writes.len() implies writes[i].log_index < apply_writes(
            log,
            writes,
        ).len() && apply_writes(log, writes)[#[trigger] writes[i].log_index as int] == writes[i] by {
            if i < init.len() {
                assert(init[i] == writes[i]);
                assert(writes[i].log_index < x.log_index);
            }
        }
        if init.len() > 0 {
            assert(init[0] == writes[0]);
            assert(writes[0].log_index < x.log_index);
        }
    }
}

/// Storing entries with increasing indices, as a leader sends them: afterwards
/// each of them stands at its index, the log ends with the last of them, and
/// every entry below the first index is unchanged.
pub proof fn law_truncate_and_append_stores_entries(log: Seq<LogEntryView>, writes: Seq<LogEntryView>)
    requires
        log_wf(log),
        writes_fit(log, writes),
        increasing(writes),
        writes.len() > 0,
    ensures
        truncate_and_append_log(log, writes).len() == writes.last().log_index + 1,
        forall|i: int|
            0 <= i < writes.len() ==> truncate_and_append_log(log, writes)[#[trigger] writes[i].log_index as int]
                == writes[i],
        forall|j: int|
            0 <= j < log.len() && j < writes[0].log_index ==> #[trigger] truncate_and_append_log(
                log,
                writes,
            )[j] == log[j],
{
    lemma_apply_increasing_writes(log, writes);
    assert(writes[writes.len() - 1] == writes.last());
    let written = apply_writes(log, writes);
    assert forall|i: int| 0 <= i < writes.len() implies writes[i].log_index <= writes.last().log_index by {
        if i < writes.len() - 1 {
            assert(writes[i].log_index < writes[writes.len() - 1].log_index);
        }
    }
}

proof fn lemma_apply_writes_keeps_first(log: Seq<LogEntryView>, writes: Seq<LogEntryView>)
    requires
        log.len() > 0,
        forall|i: int| 0 <= i < writes.len() ==> (#[trigger] writes[i]).log_index >= 1,
    ensures
        apply_writes(log, writes).len() >= log.len(),
        apply_writes(log, writes)[0] == log[0],
    decreases writes.len(),
{
    if writes.len() > 0 {
        let init = writes.drop_last();
        assert forall|i: int| 0 <= i < init.len() implies (#[trigger] init[i]).log_index >= 1 by {
            assert(init[i] == writes[i]);
        }
        lemma_apply_writes_keeps_first(log, init);
        assert(writes[writes.len() - 1] == writes.last());
    }
}

/// Writes that leave index 0 alone keep the sentinel: the entry at position 0
/// after `truncate_and_append` is the one before it, and the log stays
/// well-formed. With no entries, the log is unchanged.
pub proof fn law_truncate_and_append_keeps_sentinel(log: Seq<LogEntryView>, writes: Seq<LogEntryView>)
    requires
        log_wf(log),
        writes_fit(log, writes),
        forall|i: int| 0 <= i < writes.len() ==> (#[trigger] writes[i]).log_index >= 1,
    ensures
        log_wf(truncate_and_append_log(log, writes)),
        truncate_and_append_log(log, writes)[0] == log[0],
        writes.len() == 0 ==> truncate_and_append_log(log, writes) == log,
{
    lemma_truncate_and_append_keeps_wf(log, writes);
    lemma_apply_writes_keeps_first(log, writes);
    if writes.len() > 0 {
        assert(writes[writes.len() - 1] == writes.last());
    }
}

/// Gap-free writes that start inside the log, or right after its end, fit:
/// each lands inside the log written so far or right after its end.
proof fn lemma_contiguous_writes_fit(log: Seq<LogEntryView>, writes: Seq<LogEntryView>)
    requires
        writes.len() > 0,
        contiguous(writes),
        writes[0].log_index <= log.len(),
        writes.last().log_index < u32::MAX,
    ensures
        writes_fit(log, writes),
        apply_writes(log, writes).len() >= writes[0].log_index + writes.len(),
    decreases writes.len(),
{
    let n = writes.len();
    let init = writes.drop_last();
    let x = writes.last();
    assert(writes[n - 1] == x);
    assert(x.log_index == writes[0].log_index + n - 1);
    assert(apply_writes(log, writes) == write_entry(apply_writes(log, init), x));
    if n == 1 {
        assert(init =~= Seq::<LogEntryView>::empty());
        assert(apply_writes(log, init) == log);
        assert forall|i: int| 0 <= i < writes.len() implies (#[trigger] writes[i]).log_index
            <= apply_writes(log, writes.take(i)).len() && writes[i].log_index < u32::MAX by {
            assert(writes.take(i) =~= init);
        }
    } else {
        assert(init[0] == writes[0]);
        assert(init.last() == writes[n - 2]);
        assert(contiguous(init)) by {
            assert forall|i: int| 0 <= i < init.len() implies #[trigger] init[i].log_index
                == init[0].log_index + i by {
                assert(init[i] == writes[i]);
            }
        }
        lemma_contiguous_writes_fit(log, init);
        let before = apply_writes(log, init);
        assert(before.len() >= x.log_index);
        assert forall|i: int| 0 <= i < writes.len() implies (#[trigger] writes[i]).log_index
            <= apply_writes(log, writes.take(i)).len() && writes[i].log_index < u32::MAX by {
            if i < n - 1 {
                assert(init.take(i) =~= writes.take(i));
                assert(init[i] == writes[i]);
                assert(writes[i].log_index == writes[0].log_index + i);
            } else {
                assert(writes.take(i) =~= init);
            }
        }
    }
}

/// Storing gap-free entries that start at an index from 1 to the length of
/// the log keeps the log well-formed and keeps the sentinel at position 0; no
/// entries, no change. The last index must stay below `u32::MAX`.
pub proof fn law_truncate_and_append_contiguous(log: Seq<LogEntryView>, writes: Seq<LogEntryView>)
    requires
        log_wf(log),
        writes.len() > 0 ==> {
            &&& contiguous(writes)
            &&& 1 <= writes[0].log_index <= log.len()
            &&& writes.last().log_index < u32::MAX
        },
    ensures
        writes_fit(log, writes),
        log_wf(truncate_and_append_log(log, writes)),
        truncate_and_append_log(log, writes)[0] == log[0],
        writes.len() == 0 ==> truncate_and_append_log(log, writes) == log,
{
    if writes.len() > 0 {
        lemma_contiguous_writes_fit(log, writes);
        assert forall|i: int| 0 <= i < writes.len() implies (#[trigger] writes[i]).log_index >= 1 by {
            assert(writes[i].log_index == writes[0].log_index + i);
        }
    }
    law_truncate_and_append_keeps_sentinel(log, writes);
}

/// A storage that keeps the whole log in memory, starting with a sentinel
/// entry of index 0 and term 0.
pub struct MemStorage {
    entries: Vec<LogEntry>,
}

impl MemStorage {
    pub fn new() -> (store: Self)
        ensures
            store.log() == seq![LogEntryView { log_index: 0, log_term: 0, command: Seq::empty() }],
            log_wf(store.log()),
    {
        let mut entries: Vec<LogEntry> = Vec::new();
        entries.push(LogEntry { log_index: 0, log_term: 0, command: String::new() });
        let store = MemStorage { entries };
        assert(store.log() =~= seq![LogEntryView { log_index: 0, log_term: 0, command: Seq::empty() }]);
        store
    }
}

impl Storage for MemStorage {
    closed spec fn log(&self) -> Seq<LogEntryView> {
        entries_view(self.entries@)
    }

    fn last_index(&self) -> (last: u32) {
        let last = self.entries.len() - 1;
        assert(self.log()[last as int] == self.entries[last as int]@);
        self.entries[last].log_index
    }

    fn entry(&self, index: u32) -> (found: Option<LogEntry>) {
        let i = index as usize;
        if i < self.entries.len() {
            Some(self.entries[i].clone())
        } else {
            None
        }
    }

    fn batch_entries(&self, start_index: u32, max_len: u32) -> (batch: Vec<LogEntry>) {
        let start = start_index as usize;
        let end = (start_index + max_len) as usize;
        let mut batch: Vec<LogEntry> = Vec::new();
        let mut i = start;
        while i < end
            invariant
                start <= i <= end,
                end <= self.entries.len(),
                entries_view(batch@) == self.log().subrange(start as int, i as int),
            decreases end - i,
        {
            let ghost before = batch@;
            batch.push(self.entries[i].clone());
            proof {
                lemma_entries_view_push(before, self.entries[i as int]);
                assert(self.log()[i as int] == self.entries[i as int]@);
                assert(entries_view(batch@) =~= self.log().subrange(start as int, i + 1));
            }
            i = i + 1;
        }
        batch
    }

    fn truncate_and_append(&mut self, entries: Vec<LogEntry>) {
        if entries.len() == 0 {
            return;
        }
        let ghost start = self.log();
        let ghost writes = entries_view(entries@);
        let mut i: usize = 0;
        while i < entries.len()
            invariant
                0 <= i <= entries.len(),
                writes == entries_view(entries@),
                writes_fit(start, writes),
                self.log() == apply_writes(start, writes.take(i as int)),
            decreases entries.len() - i,
        {
            let e = entries[i].clone();
            let ghost before = self.entries@;
            proof {
                assert(writes.take(i + 1).drop_last() =~= writes.take(i as int));
                assert(writes[i as int] == e@);
                assert(writes.take(i + 1).last() == e@);
            }
            let at = e.log_index as usize;
            if at < self.entries.len() {
                self.entries.set(at, e);
                proof { lemma_entries_view_update(before, at as int, e); }
            } else {
                self.entries.push(e);
                proof { lemma_entries_view_push(before, e); }
            }
            i = i + 1;
        }
        assert(writes.take(entries.len() as int) =~= writes);
        let last_id = entries[entries.len() - 1].log_index;
        assert(writes.last() == entries[entries.len() - 1]@);
        self.entries.truncate((last_id + 1) as usize);
        assert(self.log() =~= truncate_and_append_log(start, writes));
    }
}

} // verus!
