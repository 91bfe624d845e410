use raft_rs::state_machine::{Command, MemStateMachine};

#[test]
fn put_then_get() {
    let mut machine = MemStateMachine::new();
    assert!(machine.get("k").is_none());
    machine.apply_command(Command::Put { key: "k".to_string(), value: "v".to_string() });
    assert_eq!(machine.get("k").map(|v| v.as_str()), Some("v"));
    machine.apply_command(Command::Put { key: "k".to_string(), value: "w".to_string() });
    assert_eq!(machine.get("k").map(|v| v.as_str()), Some("w"));
}

#[test]
fn rm_then_get() {
    let mut machine = MemStateMachine::new();
    machine.apply_command(Command::Put { key: "a".to_string(), value: "1".to_string() });
    machine.apply_command(Command::Put { key: "b".to_string(), value: "2".to_string() });
    machine.apply_command(Command::Rm { key: "a".to_string() });
    assert!(machine.get("a").is_none());
    assert_eq!(machine.get("b").map(|v| v.as_str()), Some("2"));
    machine.apply_command(Command::Rm { key: "missing".to_string() });
    assert_eq!(machine.get("b").map(|v| v.as_str()), Some("2"));
}

#[test]
fn applying_a_command_twice_equals_once() {
    let mut once = MemStateMachine::new();
    let mut twice = MemStateMachine::new();
    once.apply_command(Command::Put { key: "k".to_string(), value: "v".to_string() });
    twice.apply_command(Command::Put { key: "k".to_string(), value: "v".to_string() });
    twice.apply_command(Command::Put { key: "k".to_string(), value: "v".to_string() });
    assert_eq!(once.get("k"), twice.get("k"));
    once.apply_command(Command::Rm { key: "k".to_string() });
    twice.apply_command(Command::Rm { key: "k".to_string() });
    twice.apply_command(Command::Rm { key: "k".to_string() });
    assert_eq!(once.get("k"), twice.get("k"));
    assert!(twice.get("k").is_none());
}
