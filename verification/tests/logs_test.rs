use raft_rs::logs::{LogEntry, Logs};
use raft_rs::state_machine::StateMachine;
use raft_rs::storage::{MemStorage, Storage};

struct Recorder {
    applied: Vec<Vec<u8>>,
}

impl StateMachine for Recorder {
    fn apply(&mut self, command: Vec<u8>) {
        self.applied.push(command);
    }
}

fn fresh() -> Logs<MemStorage, Recorder> {
    Logs::new(MemStorage::new(), Recorder { applied: Vec::new() })
}

fn entry(log_index: u32, log_term: u32, command: &str) -> LogEntry {
    LogEntry { log_index, log_term, command: command.to_string() }
}

#[test]
fn new_log_holds_only_the_sentinel() {
    let logs = fresh();
    assert_eq!(logs.last_index(), 0);
    assert_eq!(logs.commit_index(), 0);
    let last = logs.last();
    assert_eq!((last.log_index, last.log_term, last.command.as_str()), (0, 0, ""));
    assert!(logs.entry(0).is_some());
    assert!(logs.entry(1).is_none());
}

#[test]
fn append_then_read_back() {
    let mut logs = fresh();
    assert_eq!(logs.append("a".to_string(), 1), 1);
    assert_eq!(logs.append("b".to_string(), 2), 2);
    assert_eq!(logs.last_index(), 2);
    let e = logs.entry(1).unwrap();
    assert_eq!((e.log_index, e.log_term, e.command.as_str()), (1, 1, "a"));
    let last = logs.last();
    assert_eq!((last.log_index, last.log_term, last.command.as_str()), (2, 2, "b"));
    assert!(logs.entry(3).is_none());
}

#[test]
fn set_commit_index_then_read() {
    let mut logs = fresh();
    logs.set_commit_index(7);
    assert_eq!(logs.commit_index(), 7);
    logs.set_commit_index(3);
    assert_eq!(logs.commit_index(), 3);
}

#[test]
fn append_entries_refuses_on_term_mismatch() {
    let mut logs = fresh();
    logs.append("a".to_string(), 1);
    let accepted = logs.append_entries(1, 2, vec![entry(2, 2, "x")], 5);
    assert!(!accepted);
    assert_eq!(logs.last_index(), 1);
    assert_eq!(logs.commit_index(), 0);
}

#[test]
fn append_entries_replaces_from_the_conflict() {
    let mut logs = fresh();
    logs.append("a".to_string(), 1);
    logs.append("b".to_string(), 1);
    let accepted = logs.append_entries(1, 1, vec![entry(2, 2, "c"), entry(3, 2, "d")], 5);
    assert!(accepted);
    assert_eq!(logs.last_index(), 3);
    let e2 = logs.entry(2).unwrap();
    assert_eq!((e2.log_term, e2.command.as_str()), (2, "c"));
    let e3 = logs.entry(3).unwrap();
    assert_eq!((e3.log_term, e3.command.as_str()), (2, "d"));
    // min(leader commit 5, prev index 1 + 2 stored entries)
    assert_eq!(logs.commit_index(), 3);
}

#[test]
fn append_entries_without_conflict_rewrites_and_truncates() {
    let mut logs = fresh();
    logs.append("a".to_string(), 1);
    logs.append("b".to_string(), 1);
    logs.append("c".to_string(), 1);
    let accepted = logs.append_entries(0, 0, vec![entry(1, 1, "a")], 0);
    assert!(accepted);
    assert_eq!(logs.last_index(), 1);
    assert_eq!(logs.commit_index(), 0);
}

#[test]
fn append_entries_accepts_an_unknown_previous_entry() {
    let mut logs = fresh();
    let accepted = logs.append_entries(4, 9, Vec::new(), 2);
    assert!(accepted);
    assert_eq!(logs.last_index(), 0);
    // min(leader commit 2, prev index 4 + 0)
    assert_eq!(logs.commit_index(), 2);
}

#[test]
fn append_entries_keeps_a_higher_commit_index() {
    let mut logs = fresh();
    logs.set_commit_index(4);
    assert!(logs.append_entries(0, 0, Vec::new(), 3));
    assert_eq!(logs.commit_index(), 4);
}

#[test]
fn batch_entries_returns_previous_and_batch() {
    let mut logs = fresh();
    logs.append("a".to_string(), 1);
    logs.append("b".to_string(), 2);
    logs.append("c".to_string(), 3);
    let (prev_index, prev_term, batch) = logs.batch_entries(2, 2);
    assert_eq!((prev_index, prev_term), (1, 1));
    let got: Vec<(u32, u32, String)> =
        batch.into_iter().map(|e| (e.log_index, e.log_term, e.command)).collect();
    assert_eq!(got, vec![(2, 2, "b".to_string()), (3, 3, "c".to_string())]);
}

#[test]
fn is_up_to_date_compares_terms_then_indices() {
    let mut logs = fresh();
    logs.append("a".to_string(), 2);
    logs.append("b".to_string(), 2);
    assert!(logs.is_up_to_date(2, 2));
    assert!(logs.is_up_to_date(5, 2));
    assert!(!logs.is_up_to_date(1, 2));
    assert!(logs.is_up_to_date(0, 3));
    assert!(!logs.is_up_to_date(9, 1));
}

#[test]
fn find_conflict_reports_first_disagreeing_entry() {
    let mut logs = fresh();
    logs.append("a".to_string(), 1);
    logs.append("b".to_string(), 1);
    let entries = vec![entry(1, 1, "a"), entry(2, 3, "x"), entry(3, 3, "y")];
    assert_eq!(logs.find_conflict(&entries), 2);
    let beyond = vec![entry(1, 1, "a"), entry(2, 1, "b"), entry(3, 1, "c")];
    assert_eq!(logs.find_conflict(&beyond), 3);
    let agreeing = vec![entry(1, 1, "a"), entry(2, 1, "b")];
    assert_eq!(logs.find_conflict(&agreeing), 1);
}

#[test]
fn mem_storage_truncate_and_append() {
    let mut store = MemStorage::new();
    store.truncate_and_append(vec![entry(1, 1, "a"), entry(2, 1, "b"), entry(3, 1, "c")]);
    assert_eq!(store.last_index(), 3);
    store.truncate_and_append(vec![entry(2, 2, "z")]);
    assert_eq!(store.last_index(), 2);
    let e = store.entry(2).unwrap();
    assert_eq!((e.log_term, e.command.as_str()), (2, "z"));
    store.truncate_and_append(Vec::new());
    assert_eq!(store.last_index(), 2);
    let batch = store.batch_entries(0, 3);
    assert_eq!(batch.len(), 3);
    assert_eq!(batch[1].command, "a");
}

#[test]
fn log_entry_clone_keeps_fields() {
    let e = entry(4, 2, "cmd");
    let c = e.clone();
    assert_eq!((c.log_index, c.log_term, c.command.as_str()), (4, 2, "cmd"));
}
