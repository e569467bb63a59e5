//! The replicated state machine: a key-value store together with the
//! per-client session records that make retries idempotent.
//!
//! The machine is deterministic. Its state after any sequence of commands is
//! the fold of [`step`] over that sequence, so replicas that apply the same
//! commands in the same order hold the same state and report the same
//! outcomes.

use crate::command::{Command, CommandId, CommandView, Operation};
use crate::conflict::{commutes, keys_intersect};
use std::collections::HashMap;
use vstd::prelude::*;

verus! {

broadcast use vstd::std_specs::hash::group_hash_axioms;

/// The last command a client had applied, and what it returned.
#[derive(Debug, PartialEq, Eq)]
pub struct SessionRecord {
    seq_no: u64,
    result: Vec<Option<u64>>,
}

/// The mathematical content of a [`SessionRecord`].
pub struct SessionView {
    pub seq_no: u64,
    pub result: Seq<Option<u64>>,
}

impl View for SessionRecord {
    type V = SessionView;

    closed spec fn view(&self) -> SessionView {
        SessionView { seq_no: self.seq_no, result: self.result@ }
    }
}

impl SessionRecord {
    /// A record of command `seq_no` having returned `result`.
    pub fn new(seq_no: u64, result: Vec<Option<u64>>) -> (record: Self)
        ensures
            record@ == (SessionView { seq_no, result: result@ }),
    {
        SessionRecord { seq_no, result }
    }

    /// The sequence number of the client's last applied command.
    pub fn seq_no(&self) -> (seq_no: u64)
        ensures
            seq_no == self@.seq_no,
    {
        self.seq_no
    }

    /// What the client's last applied command returned.
    pub fn result(&self) -> (result: &Vec<Option<u64>>)
        ensures
            result@ == self@.result,
    {
        &self.result
    }
}

impl Clone for SessionRecord {
    fn clone(&self) -> (copy: Self)
        ensures
            copy@ == self@,
    {
        let result = self.result.clone();
        assert(result@ =~= self.result@);
        SessionRecord { seq_no: self.seq_no, result }
    }
}

/// The state of the machine: the store and the session records.
pub struct StateView {
    pub kv: Map<u64, u64>,
    pub sessions: Map<u64, SessionView>,
}

/// What applying a command reported.
pub enum OutcomeView {
    /// The command took effect; holds the value each key had before.
    Applied(Seq<Option<u64>>),
    /// The command had been applied before; holds what it returned then.
    Duplicate(Seq<Option<u64>>),
    /// The client has since had a later command applied.
    Stale,
}

/// What applying a command reported.
#[derive(Debug, PartialEq, Eq)]
pub enum Outcome {
    /// The command took effect; holds the value each key had before.
    Applied(Vec<Option<u64>>),
    /// The command had been applied before; holds what it returned then.
    Duplicate(Vec<Option<u64>>),
    /// The client has since had a later command applied.
    Stale,
}

impl View for Outcome {
    type V = OutcomeView;

    open spec fn view(&self) -> OutcomeView {
        match self {
            Outcome::Applied(values) => OutcomeView::Applied(values@),
            Outcome::Duplicate(values) => OutcomeView::Duplicate(values@),
            Outcome::Stale => OutcomeView::Stale,
        }
    }
}

/// The value stored under `key`, if any.
pub open spec fn lookup(kv: Map<u64, u64>, key: u64) -> Option<u64> {
    if kv.contains_key(key) {
        Some(kv[key])
    } else {
        None
    }
}

/// The value stored under each of `keys`, in order.
pub open spec fn read_values(kv: Map<u64, u64>, keys: Seq<u64>) -> Seq<Option<u64>> {
    Seq::new(keys.len(), |i: int| lookup(kv, keys[i]))
}

/// The store with `value` under every one of `keys`.
pub open spec fn put_all(kv: Map<u64, u64>, keys: Seq<u64>, value: u64) -> Map<u64, u64> {
    Map::new(
        |k: u64| kv.contains_key(k) || keys.contains(k),
        |k: u64|
            if keys.contains(k) {
                value
            } else {
                kv[k]
            },
    )
}

/// The store without any of `keys`.
pub open spec fn delete_all(kv: Map<u64, u64>, keys: Seq<u64>) -> Map<u64, u64> {
    Map::new(|k: u64| kv.contains_key(k) && !keys.contains(k), |k: u64| kv[k])
}

/// The store after `command` took effect.
pub open spec fn apply_kv(kv: Map<u64, u64>, command: CommandView) -> Map<u64, u64> {
    match command.op {
        Operation::Read => kv,
        Operation::Write(value) => put_all(kv, command.keys, value),
        Operation::Delete => delete_all(kv, command.keys),
    }
}

/// The state before any command.
pub open spec fn initial_state() -> StateView {
    StateView { kv: Map::empty(), sessions: Map::empty() }
}

/// Whether no command of the same client with this or a later sequence
/// number has been applied.
pub open spec fn is_fresh(sessions: Map<u64, SessionView>, id: CommandId) -> bool {
    !sessions.contains_key(id.client_id) || sessions[id.client_id].seq_no < id.seq_no
}

/// What applying `command` in `state` reports.
pub open spec fn outcome(state: StateView, command: CommandView) -> OutcomeView {
    if is_fresh(state.sessions, command.id) {
        OutcomeView::Applied(read_values(state.kv, command.keys))
    } else if state.sessions[command.id.client_id].seq_no == command.id.seq_no {
        OutcomeView::Duplicate(state.sessions[command.id.client_id].result)
    } else {
        OutcomeView::Stale
    }
}

/// The state after applying `command` in `state`: a fresh command takes
/// effect and is recorded in its client's session; any other changes nothing.
pub open spec fn step(state: StateView, command: CommandView) -> StateView {
    if is_fresh(state.sessions, command.id) {
        StateView {
            kv: apply_kv(state.kv, command),
            sessions: state.sessions.insert(
                command.id.client_id,
                SessionView {
                    seq_no: command.id.seq_no,
                    result: read_values(state.kv, command.keys),
                },
            ),
        }
    } else {
        state
    }
}

/// The state after applying `commands` in order, starting from `state`.
pub open spec fn replay_from(state: StateView, commands: Seq<CommandView>) -> StateView
    decreases commands.len(),
{
    if commands.len() == 0 {
        state
    } else {
        step(replay_from(state, commands.drop_last()), commands.last())
    }
}

/// The state after applying `commands` in order, starting from nothing.
pub open spec fn replay(commands: Seq<CommandView>) -> StateView {
    replay_from(initial_state(), commands)
}

/// What the command at position `index` (counted from 1) of `log` reports
/// when the log is applied in order.
pub open spec fn outcome_at(log: Seq<CommandView>, index: int) -> OutcomeView
    recommends
        1 <= index <= log.len(),
{
    outcome(replay(log.take(index - 1)), log[index - 1])
}

/// Why a command could not be applied.
#[derive(Clone, Copy, Debug, PartialEq, Eq, Structural)]
pub enum ApplyError {
    /// The index is not the one that follows the last applied index.
    OutOfOrder,
}

/// A point-in-time copy of the machine and the log index it reflects.
#[derive(Debug, PartialEq, Eq)]
pub struct Snapshot {
    index: u64,
    kv: HashMap<u64, u64>,
    sessions: HashMap<u64, SessionRecord>,
}

impl Snapshot {
    /// The last log index whose effect the snapshot holds.
    pub closed spec fn index_spec(&self) -> u64 {
        self.index
    }

    /// The machine state the snapshot holds.
    pub closed spec fn state(&self) -> StateView {
        StateView { kv: self.kv@, sessions: self.sessions@.map_values(|r: SessionRecord| r@) }
    }

    /// The last log index whose effect the snapshot holds.
    pub fn index(&self) -> (index: u64)
        ensures
            index == self.index_spec(),
    {
        self.index
    }

    /// Builds a snapshot from its parts, as read back from storage or
    /// received from a peer.
    pub fn from_parts(
        index: u64,
        kv: HashMap<u64, u64>,
        sessions: HashMap<u64, SessionRecord>,
    ) -> (snapshot: Self)
        ensures
            snapshot.index_spec() == index,
            snapshot.state() == (StateView {
                kv: kv@,
                sessions: sessions@.map_values(|r: SessionRecord| r@),
            }),
    {
        Snapshot { index, kv, sessions }
    }

    /// Takes the snapshot apart, to be written to storage or sent to a peer.
    pub fn into_parts(self) -> (parts: (u64, HashMap<u64, u64>, HashMap<u64, SessionRecord>))
        ensures
            parts.0 == self.index_spec(),
            self.state() == (StateView {
                kv: parts.1@,
                sessions: parts.2@.map_values(|r: SessionRecord| r@),
            }),
    {
        (self.index, self.kv, self.sessions)
    }
}

/// The executable state machine of one replica.
#[derive(Debug)]
pub struct Machine {
    kv: HashMap<u64, u64>,
    sessions: HashMap<u64, SessionRecord>,
    applied_index: u64,
}

/// Reads the value stored under each of `keys`.
fn read_all(kv: &HashMap<u64, u64>, keys: &Vec<u64>) -> (values: Vec<Option<u64>>)
    ensures
        values@ == read_values(kv@, keys@),
{
    let mut values: Vec<Option<u64>> = Vec::new();
    let mut i: usize = 0;
    while i < keys.len()
        invariant
            i <= keys.len(),
            values.len() == i,
            forall|j: int| 0 <= j < i ==> values@[j] == lookup(kv@, keys@[j]),
        decreases keys.len() - i,
    {
        let value = match kv.get(&keys[i]) {
            Some(v) => Some(*v),
            None => None,
        };
        values.push(value);
        i += 1;
    }
    assert(values@ =~= read_values(kv@, keys@));
    values
}

/// Stores `value` under each of `keys`.
fn write_all(kv: &mut HashMap<u64, u64>, keys: &Vec<u64>, value: u64)
    ensures
        final(kv)@ == put_all(old(kv)@, keys@, value),
{
    let ghost before = kv@;
    let mut i: usize = 0;
    assert(kv@ =~= put_all(before, keys@.take(0), value));
    while i < keys.len()
        invariant
            i <= keys.len(),
            kv@ == put_all(before, keys@.take(i as int), value),
        decreases keys.len() - i,
    {
        kv.insert(keys[i], value);
        proof {
            let done = keys@.take(i as int);
            let next = keys@.take(i + 1);
            assert(next =~= done.push(keys@[i as int]));
            let current = keys@[i as int];
            assert forall|k: u64| next.contains(k) <==> (done.contains(k) || k == current) by {
                if done.contains(k) {
                    let j = choose|j: int| 0 <= j < done.len() && done[j] == k;
                    assert(next[j] == k);
                }
                if k == current {
                    assert(next[i as int] == k);
                }
            }
            assert(kv@ =~= put_all(before, next, value));
        }
        i += 1;
    }
    assert(keys@.take(keys.len() as int) =~= keys@);
}

/// Removes each of `keys`.
fn remove_all(kv: &mut HashMap<u64, u64>, keys: &Vec<u64>)
    ensures
        final(kv)@ == delete_all(old(kv)@, keys@),
{
    let ghost before = kv@;
    let mut i: usize = 0;
    assert(kv@ =~= delete_all(before, keys@.take(0)));
    while i < keys.len()
        invariant
            i <= keys.len(),
            kv@ == delete_all(before, keys@.take(i as int)),
        decreases keys.len() - i,
    {
        kv.remove(&keys[i]);
        proof {
            let done = keys@.take(i as int);
            let next = keys@.take(i + 1);
            assert(next =~= done.push(keys@[i as int]));
            let current = keys@[i as int];
            assert forall|k: u64| next.contains(k) <==> (done.contains(k) || k == current) by {
                if done.contains(k) {
                    let j = choose|j: int| 0 <= j < done.len() && done[j] == k;
                    assert(next[j] == k);
                }
                if k == current {
                    assert(next[i as int] == k);
                }
            }
            assert(kv@ =~= delete_all(before, next));
        }
        i += 1;
    }
    assert(keys@.take(keys.len() as int) =~= keys@);
}

impl Machine {
    /// The state the machine holds.
    pub closed spec fn state(&self) -> StateView {
        StateView { kv: self.kv@, sessions: self.sessions@.map_values(|r: SessionRecord| r@) }
    }

    /// The index of the last applied log entry; 0 before any.
    pub closed spec fn applied(&self) -> u64 {
        self.applied_index
    }

    /// A machine that has applied nothing.
    pub fn new() -> (machine: Self)
        ensures
            machine.state() == initial_state(),
            machine.applied() == 0,
    {
        let machine = Machine { kv: HashMap::new(), sessions: HashMap::new(), applied_index: 0 };
        assert(machine.sessions@.map_values(|r: SessionRecord| r@) =~= Map::empty());
        machine
    }

    /// The index of the last applied log entry; 0 before any.
    pub fn applied_index(&self) -> (index: u64)
        ensures
            index == self.applied(),
    {
        self.applied_index
    }

    /// The value stored under `key`, if any.
    pub fn get(&self, key: u64) -> (value: Option<u64>)
        ensures
            value == lookup(self.state().kv, key),
    {
        match self.kv.get(&key) {
            Some(v) => Some(*v),
            None => None,
        }
    }

    /// The value stored under each of `keys`, in order.
    pub fn read(&self, keys: &Vec<u64>) -> (values: Vec<Option<u64>>)
        ensures
            values@ == read_values(self.state().kv, keys@),
    {
        read_all(&self.kv, keys)
    }

    /// What applying a command with identity `id` would report without
    /// taking effect: `None` when the command is fresh, otherwise the
    /// duplicate's recorded result or staleness.
    pub fn recall(&self, id: CommandId) -> (known: Option<Outcome>)
        ensures
            known is None <==> is_fresh(self.state().sessions, id),
            known matches Some(o) ==> o@ == outcome(
                self.state(),
                CommandView { id, keys: Seq::empty(), op: Operation::Read },
            ),
            known matches Some(o) ==> !(o is Applied),
    {
        match self.sessions.get(&id.client_id) {
            None => None,
            Some(record) => {
                if record.seq_no < id.seq_no {
                    None
                } else if record.seq_no == id.seq_no {
                    let values = record.result.clone();
                    assert(values@ =~= record.result@);
                    Some(Outcome::Duplicate(values))
                } else {
                    Some(Outcome::Stale)
                }
            },
        }
    }

    /// Applies the log entry at `index`, which holds `command`.
    ///
    /// Entries are applied in strict index order: the call fails, and changes
    /// nothing, unless `index` directly follows the last applied index.
    pub fn apply(&mut self, index: u64, command: &Command) -> (applied: Result<Outcome, ApplyError>)
        ensures
            applied is Ok <==> index == old(self).applied() + 1,
            applied matches Ok(o) ==> {
                &&& o@ == outcome(old(self).state(), command@)
                &&& final(self).state() == step(old(self).state(), command@)
                &&& final(self).applied() == index
            },
            applied is Err ==> *final(self) == *old(self),
    {
        if self.applied_index == u64::MAX || index != self.applied_index + 1 {
            return Err(ApplyError::OutOfOrder);
        }
        let id = command.id();
        let ghost before = self.state();
        match self.recall(id) {
            Some(known) => {
                self.applied_index = index;
                Ok(known)
            },
            None => {
                let values = read_all(&self.kv, command.keys());
                match command.operation() {
                    Operation::Read => {},
                    Operation::Write(value) => write_all(&mut self.kv, command.keys(), value),
                    Operation::Delete => remove_all(&mut self.kv, command.keys()),
                }
                let record = SessionRecord::new(id.seq_no, values.clone());
                assert(record@.result =~= values@);
                let ghost sessions_before = self.sessions@;
                self.sessions.insert(id.client_id, record);
                assert(self.sessions@.map_values(|r: SessionRecord| r@)
                    =~= sessions_before.map_values(|r: SessionRecord| r@).insert(
                    id.client_id,
                    record@,
                ));
                self.applied_index = index;
                Ok(Outcome::Applied(values))
            },
        }
    }

    /// A copy of the machine as it stands, tagged with the last applied index.
    pub fn snapshot(&self) -> (snapshot: Snapshot)
        ensures
            snapshot.index_spec() == self.applied(),
            snapshot.state() == self.state(),
    {
        Snapshot {
            index: self.applied_index,
            kv: self.kv.clone(),
            sessions: self.sessions.clone(),
        }
    }

    /// The machine a snapshot was taken of.
    pub fn restore(snapshot: Snapshot) -> (machine: Self)
        ensures
            machine.applied() == snapshot.index_spec(),
            machine.state() == snapshot.state(),
    {
        Machine { kv: snapshot.kv, sessions: snapshot.sessions, applied_index: snapshot.index }
    }
}

/// Commuting commands may be applied to the store in either order: the
/// resulting store is the same, and neither command's reads are affected by
/// the other.
pub proof fn lemma_commuting_commands_swap(kv: Map<u64, u64>, a: CommandView, b: CommandView)
    requires
        commutes(a, b),
    ensures
        apply_kv(apply_kv(kv, a), b) == apply_kv(apply_kv(kv, b), a),
        read_values(apply_kv(kv, a), b.keys) == read_values(kv, b.keys),
        read_values(apply_kv(kv, b), a.keys) == read_values(kv, a.keys),
{
    if !(a.op.is_read_only() && b.op.is_read_only()) {
        assert(!keys_intersect(a.keys, b.keys));
        assert forall|k: u64| !(a.keys.contains(k) && b.keys.contains(k)) by {}
        assert forall|i: int| 0 <= i < b.keys.len() implies !a.keys.contains(
            #[trigger] b.keys[i],
        ) by {
            assert(b.keys.contains(b.keys[i]));
        }
        assert forall|i: int| 0 <= i < a.keys.len() implies !b.keys.contains(
            #[trigger] a.keys[i],
        ) by {
            assert(a.keys.contains(a.keys[i]));
        }
    }
    assert(apply_kv(apply_kv(kv, a), b) =~= apply_kv(apply_kv(kv, b), a));
    assert(read_values(apply_kv(kv, a), b.keys) =~= read_values(kv, b.keys));
    assert(read_values(apply_kv(kv, b), a.keys) =~= read_values(kv, a.keys));
}

/// Commuting commands of different clients may be applied to the machine in
/// either order: the resulting state is the same, and each command reports
/// what it would have reported had it come first.
pub proof fn lemma_commuting_steps_swap(state: StateView, a: CommandView, b: CommandView)
    requires
        commutes(a, b),
        a.id.client_id != b.id.client_id,
    ensures
        step(step(state, a), b) == step(step(state, b), a),
        outcome(step(state, a), b) == outcome(state, b),
        outcome(step(state, b), a) == outcome(state, a),
{
    lemma_commuting_commands_swap(state.kv, a, b);
    let fresh_a = is_fresh(state.sessions, a.id);
    let fresh_b = is_fresh(state.sessions, b.id);
    assert(is_fresh(step(state, a).sessions, b.id) == fresh_b);
    assert(is_fresh(step(state, b).sessions, a.id) == fresh_a);
    if fresh_a && fresh_b {
        assert(step(step(state, a), b).sessions =~= step(step(state, b), a).sessions);
    }
}

/// Commands of other clients that commute with a command, applied before
/// it, do not change what the command reports: the result of a speculative
/// execution stands as long as nothing that conflicts with the command is
/// ordered before it.
pub proof fn lemma_commuting_commands_keep_result(
    state: StateView,
    between: Seq<CommandView>,
    command: CommandView,
)
    requires
        forall|k: int|
            0 <= k < between.len() ==> commutes(command, #[trigger] between[k])
                && between[k].id.client_id != command.id.client_id,
    ensures
        outcome(replay_from(state, between), command) == outcome(state, command),
    decreases between.len(),
{
    if between.len() > 0 {
        let rest = between.drop_last();
        let last = between.last();
        assert forall|k: int| 0 <= k < rest.len() implies commutes(command, #[trigger] rest[k])
            && rest[k].id.client_id != command.id.client_id by {
            assert(rest[k] == between[k]);
        }
        lemma_commuting_commands_keep_result(state, rest, command);
        assert(last == between[between.len() - 1]);
        lemma_commuting_steps_swap(replay_from(state, rest), command, last);
    }
}

/// Once a command is not fresh it never becomes fresh again, whatever is
/// applied afterwards.
pub proof fn lemma_applied_stays_applied(
    state: StateView,
    commands: Seq<CommandView>,
    id: CommandId,
)
    requires
        !is_fresh(state.sessions, id),
    ensures
        !is_fresh(replay_from(state, commands).sessions, id),
    decreases commands.len(),
{
    if commands.len() > 0 {
        lemma_applied_stays_applied(state, commands.drop_last(), id);
    }
}

/// Applying a command a second time, directly after the first, changes
/// nothing and reports what the first application reported.
pub proof fn lemma_retry_is_idempotent(state: StateView, command: CommandView)
    ensures
        step(step(state, command), command) == step(state, command),
        outcome(state, command) matches OutcomeView::Applied(result) ==> outcome(
            step(state, command),
            command,
        ) == OutcomeView::Duplicate(result),
        !(outcome(state, command) is Applied) ==> outcome(step(state, command), command)
            == outcome(state, command),
{
}

/// However many commands are applied between a command and its retry, the
/// retry never takes effect a second time; and when none of them comes from
/// the same client, the retry reports the first result.
pub proof fn lemma_retry_never_reapplies(
    state: StateView,
    command: CommandView,
    between: Seq<CommandView>,
)
    ensures
        !(outcome(replay_from(step(state, command), between), command) is Applied),
        step(replay_from(step(state, command), between), command) == replay_from(
            step(state, command),
            between,
        ),
        (forall|i: int|
            0 <= i < between.len() ==> (#[trigger] between[i]).id.client_id
                != command.id.client_id) ==> outcome(
            replay_from(step(state, command), between),
            command,
        ) == outcome(step(state, command), command),
    decreases between.len(),
{
    let first = step(state, command);
    assert(!is_fresh(first.sessions, command.id));
    lemma_applied_stays_applied(first, between, command.id);
    if between.len() > 0 {
        lemma_retry_never_reapplies(state, command, between.drop_last());
        if forall|i: int|
            0 <= i < between.len() ==> (#[trigger] between[i]).id.client_id
                != command.id.client_id {
            assert forall|i: int| 0 <= i < between.drop_last().len() implies (
            #[trigger] between.drop_last()[i]).id.client_id != command.id.client_id by {
                assert(between.drop_last()[i] == between[i]);
            }
            assert(between.last() == between[between.len() - 1]);
        }
    }
}

/// Applying one more command extends the replay by one step.
pub proof fn lemma_replay_push(state: StateView, commands: Seq<CommandView>, next: CommandView)
    ensures
        replay_from(state, commands.push(next)) == step(replay_from(state, commands), next),
{
    assert(commands.push(next).drop_last() =~= commands);
}

/// Replaying a log equals restoring the state reached after its first
/// `cut` entries and replaying the rest.
pub proof fn lemma_replay_split(state: StateView, commands: Seq<CommandView>, cut: int)
    requires
        0 <= cut <= commands.len(),
    ensures
        replay_from(state, commands) == replay_from(
            replay_from(state, commands.take(cut)),
            commands.skip(cut),
        ),
    decreases commands.len(),
{
    if cut == commands.len() {
        assert(commands.take(cut) =~= commands);
        assert(commands.skip(cut) =~= Seq::empty());
    } else {
        let shorter = commands.drop_last();
        lemma_replay_split(state, shorter, cut);
        assert(shorter.take(cut) =~= commands.take(cut));
        assert(commands.skip(cut).drop_last() =~= shorter.skip(cut));
        assert(commands.skip(cut).last() == commands.last());
    }
}

/// Replicas whose logs agree up to `index` hold the same state after applying
/// that prefix, and report the same outcome for the entry at `index`.
pub proof fn lemma_agreement(log_a: Seq<CommandView>, log_b: Seq<CommandView>, index: int)
    requires
        1 <= index <= log_a.len(),
        index <= log_b.len(),
        log_a.take(index) == log_b.take(index),
    ensures
        replay(log_a.take(index)) == replay(log_b.take(index)),
        outcome_at(log_a, index) == outcome_at(log_b, index),
{
    assert(log_a.take(index).take(index - 1) =~= log_a.take(index - 1));
    assert(log_b.take(index).take(index - 1) =~= log_b.take(index - 1));
    assert(log_a[index - 1] == log_a.take(index)[index - 1]);
    assert(log_b[index - 1] == log_b.take(index)[index - 1]);
}

} // verus!
