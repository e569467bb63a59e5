//! Client commands: who issued them, which keys they touch and what they do.

use vstd::prelude::*;
use vstd::std_specs::cmp::PartialEqSpecImpl;

verus! {

/// Identity of a command: the issuing client and the client's sequence number.
#[derive(Clone, Copy, Debug, PartialEq, Eq, Structural, Hash)]
pub struct CommandId {
    pub client_id: u64,
    pub seq_no: u64,
}

/// What a command does to each key of its key-set.
#[derive(Clone, Copy, Debug, PartialEq, Eq, Structural)]
pub enum Operation {
    /// Reads the keys; changes nothing.
    Read,
    /// Stores the given value under every key.
    Write(u64),
    /// Removes every key.
    Delete,
}

impl Operation {
    /// Whether the operation leaves the store as it is.
    pub open spec fn is_read_only(self) -> bool {
        self is Read
    }

    /// Whether the operation leaves the store as it is.
    pub fn read_only(&self) -> (r: bool)
        ensures
            r == self.is_read_only(),
    {
        match self {
            Operation::Read => true,
            _ => false,
        }
    }
}

/// A client-supplied operation. Immutable once created.
#[derive(Debug)]
pub struct Command {
    id: CommandId,
    keys: Vec<u64>,
    op: Operation,
}

/// The mathematical content of a [`Command`].
pub struct CommandView {
    pub id: CommandId,
    pub keys: Seq<u64>,
    pub op: Operation,
}

impl View for Command {
    type V = CommandView;

    closed spec fn view(&self) -> CommandView {
        CommandView { id: self.id, keys: self.keys@, op: self.op }
    }
}

impl Command {
    /// Creates the command `seq_no` of client `client_id`, which performs
    /// `op` on `keys`.
    pub fn new(client_id: u64, seq_no: u64, keys: Vec<u64>, op: Operation) -> (command: Self)
        ensures
            command@ == (CommandView { id: CommandId { client_id, seq_no }, keys: keys@, op }),
    {
        Command { id: CommandId { client_id, seq_no }, keys, op }
    }

    /// The command's identity.
    pub fn id(&self) -> (id: CommandId)
        ensures
            id == self@.id,
    {
        self.id
    }

    /// The keys the command declares to touch.
    pub fn keys(&self) -> (keys: &Vec<u64>)
        ensures
            keys@ == self@.keys,
    {
        &self.keys
    }

    /// The operation the command performs.
    pub fn operation(&self) -> (op: Operation)
        ensures
            op == self@.op,
    {
        self.op
    }

    /// Whether the command leaves the store as it is.
    pub fn is_read_only(&self) -> (r: bool)
        ensures
            r == self@.op.is_read_only(),
    {
        self.op.read_only()
    }
}

impl Clone for Command {
    fn clone(&self) -> (copy: Self)
        ensures
            copy@ == self@,
    {
        let keys = self.keys.clone();
        assert(keys@ =~= self.keys@);
        Command { id: self.id, keys, op: self.op }
    }
}

impl PartialEq for Command {
    fn eq(&self, other: &Self) -> (equal: bool) {
        let same_keys = self.keys == other.keys;
        assert(same_keys == (self.keys@ =~= other.keys@));
        self.id == other.id && self.op == other.op && same_keys
    }
}

impl PartialEqSpecImpl for Command {
    open spec fn obeys_eq_spec() -> bool {
        true
    }

    open spec fn eq_spec(&self, other: &Self) -> bool {
        self@ == other@
    }
}

impl Eq for Command {

}

} // verus!
