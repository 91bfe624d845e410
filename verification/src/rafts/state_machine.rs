use vstd::hash_map::StringHashMap;
use vstd::prelude::*;

verus! {

/// What the log feeds its committed commands into.
pub trait StateMachine {
    /// Applies one committed command, given as the bytes it was logged with.
    fn apply(&mut self, command: Vec<u8>);
}

/// A command of the key-value state machine.
pub enum Command {
    /// Removes `key`.
    Rm { key: String },
    /// Maps `key` to `value` (the `Set` command of the wire format).
    Put { key: String, value: String },
}

/// The key-value map after `command`.
pub open spec fn command_effect(state: Map<Seq<char>, String>, command: Command) -> Map<
    Seq<char>,
    String,
> {
    match command {
        Command::Put { key, value } => state.insert(key@, value),
        Command::Rm { key } => state.remove(key@),
    }
}

/// A key-value store kept in memory.
pub struct MemStateMachine {
    pub state: StringHashMap<String>,
}

impl MemStateMachine {
    pub fn new() -> (machine: Self)
        ensures
            machine.state@ == Map::<Seq<char>, String>::empty(),
    {
        MemStateMachine { state: StringHashMap::new() }
    }

    /// The value stored under `key`.
    pub fn get(&self, key: &str) -> (value: Option<&String>)
        ensures
            match value {
                Some(v) => self.state@.contains_key(key@) && *v == self.state@[key@],
                None => !self.state@.contains_key(key@),
            },
    {
        self.state.get(key)
    }

    /// Carries out a decoded command: `Put` stores the value under the key,
    /// `Rm` removes the key.
    pub fn apply_command(&mut self, command: Command)
        ensures
            final(self).state@ == command_effect(old(self).state@, command),
    {
        match command {
            Command::Put { key, value } => {
                self.state.insert(key, value);
            },
            Command::Rm { key } => {
                self.state.remove(key.as_str());
            },
        }
    }
}

/// After `Put`, reading the key gives the value written, and every other key
/// reads as before.
pub proof fn law_set_then_get(state: Map<Seq<char>, String>, key: String, value: String, other: Seq<char>)
    ensures
        command_effect(state, Command::Put { key, value }).contains_key(key@),
        command_effect(state, Command::Put { key, value })[key@] == value,
        other != key@ ==> command_effect(state, Command::Put { key, value }).contains_key(other)
            == state.contains_key(other),
        other != key@ && state.contains_key(other) ==> command_effect(
            state,
            Command::Put { key, value },
        )[other] == state[other],
{
}

/// Applying the same command twice leaves the store as applying it once.
pub proof fn law_command_idempotent(state: Map<Seq<char>, String>, command: Command)
    ensures
        command_effect(command_effect(state, command), command) == command_effect(state, command),
{
    match command {
        Command::Put { key, value } => {
            assert(state.insert(key@, value).insert(key@, value) =~= state.insert(key@, value));
        },
        Command::Rm { key } => {
            assert(state.remove(key@).remove(key@) =~= state.remove(key@));
        },
    }
}

/// After `Rm`, the key is gone, and every other key reads as before.
pub proof fn law_rm_then_get(state: Map<Seq<char>, String>, key: String, other: Seq<char>)
    ensures
        !command_effect(state, Command::Rm { key }).contains_key(key@),
        other != key@ ==> command_effect(state, Command::Rm { key }).contains_key(other)
            == state.contains_key(other),
        other != key@ && state.contains_key(other) ==> command_effect(state, Command::Rm { key })[other]
            == state[other],
{
}

} // verus!
