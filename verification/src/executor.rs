//! Speculative execution of commands ahead of their final ordering.
//!
//! A replica executes a command speculatively only when it commutes with
//! every command it has already executed speculatively and not yet seen
//! finalized. Speculative effects never reach the visible store: the store
//! changes only when a committed log entry is applied, in index order. A
//! speculative result therefore needs no undo; it is simply dropped when a
//! conflicting command is finalized first.

use crate::command::{Command, CommandId, CommandView};
use crate::conflict::{commute, commutes, conflicts};
use crate::machine::{
    is_fresh, lemma_commuting_commands_swap, outcome, read_values, step, ApplyError, Machine,
    Outcome, OutcomeView, Snapshot, StateView,
};
use vstd::prelude::*;

verus! {

/// A command that was executed speculatively, with the result reported then.
#[derive(Debug)]
pub struct Pending {
    command: Command,
    result: Vec<Option<u64>>,
}

/// The mathematical content of a [`Pending`].
pub struct PendingView {
    pub command: CommandView,
    pub result: Seq<Option<u64>>,
}

impl View for Pending {
    type V = PendingView;

    closed spec fn view(&self) -> PendingView {
        PendingView { command: self.command@, result: self.result@ }
    }
}

/// Why a command was not executed speculatively.
#[derive(Debug, PartialEq, Eq)]
pub enum SpeculationError {
    /// The command conflicts with a command that is in flight on this replica.
    Conflict,
    /// The command, or a later one of its client, has already been
    /// finalized; holds what the machine reports for it.
    Superseded(Outcome),
}

/// What applying a committed entry did.
#[derive(Debug, PartialEq, Eq)]
pub struct Applied {
    /// What the machine reported.
    pub outcome: Outcome,
    /// Whether the command had been executed speculatively on this replica
    /// and was still in flight.
    pub confirmed: bool,
    /// The in-flight commands whose speculative execution was dropped because
    /// the applied command was ordered before them.
    pub rolled_back: Vec<CommandId>,
}

/// Whether the speculative execution of `pending` stays valid once `applied`
/// has taken effect: the two commute, and `pending` is still fresh for its
/// client.
pub open spec fn survives(pending: CommandView, applied: CommandView) -> bool {
    &&& commutes(pending, applied)
    &&& !(pending.id.client_id == applied.id.client_id && pending.id.seq_no <= applied.id.seq_no)
}

/// The in-flight commands that stay in flight once `applied` has taken effect.
pub open spec fn retained(pending: Seq<PendingView>, applied: CommandView) -> Seq<PendingView>
    decreases pending.len(),
{
    if pending.len() == 0 {
        Seq::empty()
    } else if survives(pending.last().command, applied) {
        retained(pending.drop_last(), applied).push(pending.last())
    } else {
        retained(pending.drop_last(), applied)
    }
}

/// The identities of the in-flight commands that are dropped once `applied`
/// has taken effect, other than `applied` itself.
pub open spec fn rolled_back(pending: Seq<PendingView>, applied: CommandView) -> Seq<CommandId>
    decreases pending.len(),
{
    if pending.len() == 0 {
        Seq::empty()
    } else if survives(pending.last().command, applied) || pending.last().command.id
        == applied.id {
        rolled_back(pending.drop_last(), applied)
    } else {
        rolled_back(pending.drop_last(), applied).push(pending.last().command.id)
    }
}

/// The in-flight commands without the one with identity `id`.
pub open spec fn without(pending: Seq<PendingView>, id: CommandId) -> Seq<PendingView>
    decreases pending.len(),
{
    if pending.len() == 0 {
        Seq::empty()
    } else if pending.last().command.id == id {
        without(pending.drop_last(), id)
    } else {
        without(pending.drop_last(), id).push(pending.last())
    }
}

/// The in-flight commands that are left after `commands` have been applied
/// in order, starting from `state`: every command that takes effect drops
/// the in-flight commands that do not survive it.
pub open spec fn left_in_flight(
    pending: Seq<PendingView>,
    state: StateView,
    commands: Seq<CommandView>,
) -> Seq<PendingView>
    decreases commands.len(),
{
    if commands.len() == 0 {
        pending
    } else {
        let before = left_in_flight(pending, state, commands.drop_last());
        let reached = crate::machine::replay_from(state, commands.drop_last());
        if outcome(reached, commands.last()) is Applied {
            retained(before, commands.last())
        } else {
            before
        }
    }
}

/// Whether a command with identity `id` is in flight.
pub open spec fn is_pending(pending: Seq<PendingView>, id: CommandId) -> bool {
    exists|i: int| 0 <= i < pending.len() && (#[trigger] pending[i]).command.id == id
}

/// The commands of the in-flight records, in order.
pub open spec fn pending_commands(pending: Seq<PendingView>) -> Seq<CommandView> {
    pending.map_values(|p: PendingView| p.command)
}

/// The invariant that ties the in-flight records to a machine state: every
/// record is fresh, pairwise the commands commute and differ in identity, and
/// every recorded result is what the command would report if it were applied
/// now.
pub open spec fn speculation_valid(state: StateView, pending: Seq<PendingView>) -> bool {
    &&& forall|i: int|
        0 <= i < pending.len() ==> is_fresh(state.sessions, (#[trigger] pending[i]).command.id)
    &&& forall|i: int|
        0 <= i < pending.len() ==> (#[trigger] pending[i]).result == read_values(
            state.kv,
            pending[i].command.keys,
        )
    &&& forall|i: int, j: int|
        0 <= i < pending.len() && 0 <= j < pending.len() && i != j ==> commutes(
            (#[trigger] pending[i]).command,
            (#[trigger] pending[j]).command,
        )
    &&& forall|i: int, j: int|
        0 <= i < pending.len() && 0 <= j < pending.len() && i != j ==> (
        #[trigger] pending[i]).command.id != (#[trigger] pending[j]).command.id
}

/// A replica's machine together with its speculative executions.
#[derive(Debug)]
pub struct Executor {
    machine: Machine,
    pending: Vec<Pending>,
}

impl Executor {
    /// The state of the machine: the fold of all applied commands.
    pub closed spec fn state(&self) -> StateView {
        self.machine.state()
    }

    /// The index of the last applied log entry.
    pub closed spec fn applied(&self) -> u64 {
        self.machine.applied()
    }

    /// The speculative executions in flight, oldest first.
    pub closed spec fn pending(&self) -> Seq<PendingView> {
        self.pending@.map_values(|p: Pending| p@)
    }

    /// The executor's invariant.
    pub open spec fn wf(&self) -> bool {
        speculation_valid(self.state(), self.pending())
    }

    /// An executor that has applied nothing and has nothing in flight.
    pub fn new() -> (executor: Self)
        ensures
            executor.wf(),
            executor.state() == crate::machine::initial_state(),
            executor.applied() == 0,
            executor.pending() == Seq::<PendingView>::empty(),
    {
        let executor = Executor { machine: Machine::new(), pending: Vec::new() };
        assert(executor.pending() =~= Seq::<PendingView>::empty());
        executor
    }

    /// An executor that starts from a snapshot, with nothing in flight.
    pub fn restore(snapshot: Snapshot) -> (executor: Self)
        ensures
            executor.wf(),
            executor.state() == snapshot.state(),
            executor.applied() == snapshot.index_spec(),
            executor.pending() == Seq::<PendingView>::empty(),
    {
        let executor = Executor { machine: Machine::restore(snapshot), pending: Vec::new() };
        assert(executor.pending() =~= Seq::<PendingView>::empty());
        executor
    }

    /// A snapshot of the machine as it stands. Speculative executions are not
    /// part of it.
    pub fn snapshot(&self) -> (snapshot: Snapshot)
        ensures
            snapshot.index_spec() == self.applied(),
            snapshot.state() == self.state(),
    {
        self.machine.snapshot()
    }

    /// The index of the last applied log entry.
    pub fn applied_index(&self) -> (index: u64)
        ensures
            index == self.applied(),
    {
        self.machine.applied_index()
    }

    /// The number of speculative executions in flight.
    pub fn in_flight(&self) -> (count: usize)
        ensures
            count == self.pending().len(),
    {
        self.pending.len()
    }

    /// The finalized value stored under `key`, if any.
    pub fn get(&self, key: u64) -> (value: Option<u64>)
        ensures
            value == crate::machine::lookup(self.state().kv, key),
    {
        self.machine.get(key)
    }

    /// What the machine reports for a command with identity `id` that is no
    /// longer fresh; `None` for a fresh command. See [`Machine::recall`].
    pub fn recall(&self, id: CommandId) -> (known: Option<Outcome>)
        ensures
            known is None <==> is_fresh(self.state().sessions, id),
            known matches Some(o) ==> o@ == outcome(
                self.state(),
                CommandView { id, keys: Seq::empty(), op: crate::command::Operation::Read },
            ),
            known matches Some(o) ==> !(o is Applied),
    {
        self.machine.recall(id)
    }

    /// The position of the in-flight record with identity `id`, if any.
    fn find_pending(&self, id: CommandId) -> (found: Option<usize>)
        ensures
            found is Some <==> is_pending(self.pending(), id),
            found matches Some(i) ==> i < self.pending().len() && self.pending()[i as int].command.id
                == id,
    {
        let mut i: usize = 0;
        while i < self.pending.len()
            invariant
                i <= self.pending.len(),
                forall|j: int| 0 <= j < i ==> (#[trigger] self.pending()[j]).command.id != id,
            decreases self.pending.len() - i,
        {
            if self.pending[i].command.id() == id {
                assert(self.pending()[i as int].command.id == id);
                return Some(i);
            }
            i += 1;
        }
        None
    }

    /// Whether `command` commutes with every in-flight command.
    fn commutes_with_pending(&self, command: &Command) -> (all: bool)
        ensures
            all <==> forall|i: int|
                0 <= i < self.pending().len() ==> commutes(
                    command@,
                    (#[trigger] self.pending()[i]).command,
                ),
    {
        let mut i: usize = 0;
        while i < self.pending.len()
            invariant
                i <= self.pending.len(),
                forall|j: int|
                    0 <= j < i ==> commutes(command@, (#[trigger] self.pending()[j]).command),
            decreases self.pending.len() - i,
        {
            if !commute(command, &self.pending[i].command) {
                assert(!commutes(command@, self.pending()[i as int].command));
                return false;
            }
            i += 1;
        }
        true
    }

    /// Executes `command` tentatively, before its final position is known.
    ///
    /// - A command that is no longer fresh is refused as superseded, with what
    ///   the machine reports for it.
    /// - A command that is already in flight reports its recorded result again.
    /// - A command that conflicts with an in-flight command is refused.
    /// - Any other command joins the in-flight commands and reports the value
    ///   each of its keys holds.
    ///
    /// The visible store never changes.
    pub fn execute_speculative(&mut self, command: Command) -> (speculated: Result<
        Vec<Option<u64>>,
        SpeculationError,
    >)
        requires
            old(self).wf(),
        ensures
            final(self).wf(),
            final(self).state() == old(self).state(),
            final(self).applied() == old(self).applied(),
            !is_fresh(old(self).state().sessions, command@.id) ==> {
                &&& speculated matches Err(SpeculationError::Superseded(reported))
                &&& reported@ == outcome(old(self).state(), command@)
                &&& final(self).pending() == old(self).pending()
            },
            is_fresh(old(self).state().sessions, command@.id) && is_pending(
                old(self).pending(),
                command@.id,
            ) ==> {
                &&& speculated matches Ok(values)
                &&& exists|i: int|
                    0 <= i < old(self).pending().len() && (#[trigger] old(self).pending()[i])
                        == (PendingView { command: old(self).pending()[i].command, result: values@ })
                        && old(self).pending()[i].command.id == command@.id
                &&& final(self).pending() == old(self).pending()
            },
            is_fresh(old(self).state().sessions, command@.id) && !is_pending(
                old(self).pending(),
                command@.id,
            ) && (exists|i: int|
                0 <= i < old(self).pending().len() && conflicts(
                    command@,
                    (#[trigger] old(self).pending()[i]).command,
                )) ==> {
                &&& speculated matches Err(SpeculationError::Conflict)
                &&& final(self).pending() == old(self).pending()
            },
            is_fresh(old(self).state().sessions, command@.id) && !is_pending(
                old(self).pending(),
                command@.id,
            ) && (forall|i: int|
                0 <= i < old(self).pending().len() ==> commutes(
                    command@,
                    (#[trigger] old(self).pending()[i]).command,
                )) ==> {
                &&& speculated matches Ok(values)
                &&& values@ == read_values(old(self).state().kv, command@.keys)
                &&& final(self).pending() == old(self).pending().push(
                    PendingView { command: command@, result: values@ },
                )
            },
    {
        let id = command.id();
        if let Some(reported) = self.machine.recall(id) {
            return Err(SpeculationError::Superseded(reported));
        }
        if let Some(i) = self.find_pending(id) {
            let values = self.pending[i].result.clone();
            assert(values@ =~= self.pending[i as int].result@);
            assert(self.pending()[i as int] == (PendingView {
                command: self.pending()[i as int].command,
                result: values@,
            }));
            return Ok(values);
        }
        if !self.commutes_with_pending(&command) {
            return Err(SpeculationError::Conflict);
        }
        let values = self.machine.read(command.keys());
        let ghost before = self.pending();
        let record = Pending { command, result: values.clone() };
        assert(record.result@ =~= values@);
        self.pending.push(record);
        proof {
            let after = self.pending();
            assert(after =~= before.push(PendingView { command: command@, result: values@ }));
            assert forall|i: int, j: int|
                0 <= i < after.len() && 0 <= j < after.len() && i != j implies commutes(
                (#[trigger] after[i]).command,
                (#[trigger] after[j]).command,
            ) by {
                if i == before.len() {
                    assert(commutes(command@, before[j].command));
                } else if j == before.len() {
                    assert(commutes(command@, before[i].command));
                    crate::conflict::lemma_commutes_symmetric(command@, before[i].command);
                }
            }
            assert forall|i: int, j: int|
                0 <= i < after.len() && 0 <= j < after.len() && i != j implies (
            #[trigger] after[i]).command.id != (#[trigger] after[j]).command.id by {
                if i == before.len() {
                    assert(before[j].command.id != id);
                } else if j == before.len() {
                    assert(before[i].command.id != id);
                }
            }
        }
        Ok(values)
    }

    /// Drops the speculative execution of the command with identity `id`,
    /// if it is in flight: the command is treated as never having happened
    /// here. Returns whether it was in flight.
    pub fn discard(&mut self, id: CommandId) -> (dropped: bool)
        requires
            old(self).wf(),
        ensures
            final(self).wf(),
            final(self).state() == old(self).state(),
            final(self).applied() == old(self).applied(),
            dropped == is_pending(old(self).pending(), id),
            final(self).pending() == without(old(self).pending(), id),
            !is_pending(final(self).pending(), id),
    {
        let ghost before = self.pending();
        let mut kept: Vec<Pending> = Vec::new();
        let mut dropped = false;
        let mut old_pending: Vec<Pending> = Vec::new();
        std::mem::swap(&mut self.pending, &mut old_pending);
        let ghost mut origin: Seq<int> = Seq::empty();
        let mut i: usize = 0;
        assert(before.take(0) =~= Seq::<PendingView>::empty());
        while i < old_pending.len()
            invariant
                i <= old_pending.len(),
                before == old_pending@.map_values(|p: Pending| p@),
                kept@.map_values(|p: Pending| p@) == without(before.take(i as int), id),
                dropped == is_pending(before.take(i as int), id),
                origin.len() == kept.len(),
                forall|a: int| 0 <= a < origin.len() ==> 0 <= #[trigger] origin[a] < i,
                forall|a: int, b: int|
                    0 <= a < b < origin.len() ==> #[trigger] origin[a] < #[trigger] origin[b],
                forall|a: int|
                    0 <= a < origin.len() ==> (#[trigger] kept@[a])@ == before[origin[a]]
                        && before[origin[a]].command.id != id,
            decreases old_pending.len() - i,
        {
            let ghost prefix = before.take(i as int);
            let ghost next = before.take(i + 1);
            let ghost kept_before = kept@.map_values(|p: Pending| p@);
            proof {
                assert(next.drop_last() =~= prefix);
                assert(next.last() == before[i as int]);
                assert(before[i as int] == old_pending@[i as int]@);
            }
            let entry = &old_pending[i];
            let same = entry.command.id() == id;
            proof {
                assert(is_pending(next, id) == (is_pending(prefix, id) || same)) by {
                    if is_pending(prefix, id) {
                        let w = choose|w: int|
                            0 <= w < prefix.len() && (#[trigger] prefix[w]).command.id == id;
                        assert(next[w].command.id == id);
                    }
                    if same {
                        assert(next[i as int].command.id == id);
                    }
                    if is_pending(next, id) {
                        let w = choose|w: int|
                            0 <= w < next.len() && (#[trigger] next[w]).command.id == id;
                        if w < i {
                            assert(prefix[w].command.id == id);
                        }
                    }
                }
            }
            if same {
                dropped = true;
            } else {
                let copy = Pending { command: entry.command.clone(), result: entry.result.clone() };
                assert(copy.result@ =~= entry.result@);
                assert(copy@ == before[i as int]);
                kept.push(copy);
                proof {
                    origin = origin.push(i as int);
                    assert(kept@.map_values(|p: Pending| p@) =~= kept_before.push(
                        before[i as int],
                    ));
                }
            }
            i += 1;
        }
        self.pending = kept;
        proof {
            assert(before.take(old_pending.len() as int) =~= before);
            let after = self.pending();
            assert forall|a: int| 0 <= a < after.len() implies is_fresh(
                self.state().sessions,
                (#[trigger] after[a]).command.id,
            ) && after[a].result == read_values(self.state().kv, after[a].command.keys)
                && after[a].command.id != id by {
                assert(after[a] == before[origin[a]]);
            }
            assert forall|a: int, b: int|
                0 <= a < after.len() && 0 <= b < after.len() && a != b implies commutes(
                (#[trigger] after[a]).command,
                (#[trigger] after[b]).command,
            ) && after[a].command.id != after[b].command.id by {
                assert(after[a] == before[origin[a]]);
                assert(after[b] == before[origin[b]]);
                if a < b {
                    assert(origin[a] < origin[b]);
                } else {
                    assert(origin[b] < origin[a]);
                }
            }
        }
        dropped
    }

    /// Applies the committed log entry at `index`, which holds `command`.
    ///
    /// Fails, and changes nothing, unless `index` directly follows the last
    /// applied index. Otherwise the machine takes the step; when the command
    /// took effect, every in-flight command that does not survive it is
    /// dropped, and the rest stay in flight with their results still valid.
    ///
    /// When the command itself was in flight, the outcome carries exactly
    /// the result its speculative execution reported.
    pub fn apply_committed(&mut self, index: u64, command: &Command) -> (applied: Result<
        Applied,
        ApplyError,
    >)
        requires
            old(self).wf(),
        ensures
            final(self).wf(),
            applied is Ok <==> index == old(self).applied() + 1,
            applied is Err ==> {
                &&& final(self).state() == old(self).state()
                &&& final(self).applied() == old(self).applied()
                &&& final(self).pending() == old(self).pending()
            },
            applied matches Ok(done) ==> {
                &&& done.outcome@ == outcome(old(self).state(), command@)
                &&& final(self).state() == step(old(self).state(), command@)
                &&& final(self).applied() == index
                &&& done.confirmed == is_pending(old(self).pending(), command@.id)
                &&& done.outcome is Applied ==> {
                    &&& final(self).pending() == retained(old(self).pending(), command@)
                    &&& done.rolled_back@ == rolled_back(old(self).pending(), command@)
                }
                &&& !(done.outcome is Applied) ==> {
                    &&& final(self).pending() == old(self).pending()
                    &&& done.rolled_back@ == Seq::<CommandId>::empty()
                    &&& !done.confirmed
                }
                &&& forall|i: int|
                    0 <= i < old(self).pending().len() && (#[trigger] old(self).pending()[i]).command.id
                        == command@.id && old(self).pending()[i].command.keys == command@.keys
                        ==> done.outcome@ == OutcomeView::Applied(old(self).pending()[i].result)
            },
    {
        let ghost before_state = self.state();
        let ghost before = self.pending();
        let reported = match self.machine.apply(index, command) {
            Ok(reported) => reported,
            Err(e) => {
                return Err(e);
            },
        };
        let took_effect = match &reported {
            Outcome::Applied(_) => true,
            _ => false,
        };
        if !took_effect {
            proof {
                if is_pending(before, command@.id) {
                    let i = choose|i: int|
                        0 <= i < before.len() && (#[trigger] before[i]).command.id == command@.id;
                    assert(is_fresh(before_state.sessions, before[i].command.id));
                }
            }
            return Ok(Applied { outcome: reported, confirmed: false, rolled_back: Vec::new() });
        }
        let mut kept: Vec<Pending> = Vec::new();
        let mut dropped: Vec<CommandId> = Vec::new();
        let mut confirmed = false;
        let mut old_pending: Vec<Pending> = Vec::new();
        std::mem::swap(&mut self.pending, &mut old_pending);
        let ghost mut origin: Seq<int> = Seq::empty();
        let mut i: usize = 0;
        assert(old_pending@.map_values(|p: Pending| p@) == before);
        assert(before.take(0) =~= Seq::<PendingView>::empty());
        while i < old_pending.len()
            invariant
                i <= old_pending.len(),
                before == old_pending@.map_values(|p: Pending| p@),
                kept@.map_values(|p: Pending| p@) == retained(before.take(i as int), command@),
                dropped@ == rolled_back(before.take(i as int), command@),
                confirmed == is_pending(before.take(i as int), command@.id),
                origin.len() == kept.len(),
                forall|a: int| 0 <= a < origin.len() ==> 0 <= #[trigger] origin[a] < i,
                forall|a: int, b: int|
                    0 <= a < b < origin.len() ==> #[trigger] origin[a] < #[trigger] origin[b],
                forall|a: int|
                    0 <= a < origin.len() ==> (#[trigger] kept@[a])@ == before[origin[a]]
                        && survives(before[origin[a]].command, command@),
            decreases old_pending.len() - i,
        {
            let ghost prefix = before.take(i as int);
            let ghost next = before.take(i + 1);
            let ghost kept_before = kept@.map_values(|p: Pending| p@);
            proof {
                assert(next.drop_last() =~= prefix);
                assert(next.last() == before[i as int]);
                assert(before[i as int] == old_pending@[i as int]@);
            }
            let entry = &old_pending[i];
            let same = entry.command.id() == command.id();
            let stays = commute(&entry.command, command) && !(entry.command.id().client_id
                == command.id().client_id && entry.command.id().seq_no <= command.id().seq_no);
            proof {
                assert(is_pending(next, command@.id) == (is_pending(prefix, command@.id) || same))
                    by {
                    if is_pending(prefix, command@.id) {
                        let w = choose|w: int|
                            0 <= w < prefix.len() && (#[trigger] prefix[w]).command.id
                                == command@.id;
                        assert(next[w].command.id == command@.id);
                    }
                    if same {
                        assert(next[i as int].command.id == command@.id);
                    }
                    if is_pending(next, command@.id) {
                        let w = choose|w: int|
                            0 <= w < next.len() && (#[trigger] next[w]).command.id == command@.id;
                        if w < i {
                            assert(prefix[w].command.id == command@.id);
                        }
                    }
                }
            }
            if same {
                confirmed = true;
            }
            if stays {
                let copy = Pending { command: entry.command.clone(), result: entry.result.clone() };
                assert(copy.result@ =~= entry.result@);
                assert(copy@ == before[i as int]);
                kept.push(copy);
                proof {
                    origin = origin.push(i as int);
                    assert(kept@.map_values(|p: Pending| p@) =~= kept_before.push(
                        before[i as int],
                    ));
                }
            } else if !same {
                dropped.push(entry.command.id());
            }
            i += 1;
        }
        self.pending = kept;
        proof {
            assert(before.take(old_pending.len() as int) =~= before);
            let after = self.pending();
            let state = self.state();
            assert(state == step(before_state, command@));
            assert(is_fresh(before_state.sessions, command@.id));
            assert forall|a: int| 0 <= a < after.len() implies is_fresh(
                state.sessions,
                (#[trigger] after[a]).command.id,
            ) && after[a].result == read_values(state.kv, after[a].command.keys) by {
                let p = before[origin[a]];
                assert(after[a] == p);
                assert(is_fresh(before_state.sessions, p.command.id));
                assert(p.result == read_values(before_state.kv, p.command.keys));
                lemma_commuting_commands_swap(before_state.kv, p.command, command@);
            }
            assert forall|a: int, b: int|
                0 <= a < after.len() && 0 <= b < after.len() && a != b implies commutes(
                (#[trigger] after[a]).command,
                (#[trigger] after[b]).command,
            ) && after[a].command.id != after[b].command.id by {
                assert(after[a] == before[origin[a]]);
                assert(after[b] == before[origin[b]]);
                if a < b {
                    assert(origin[a] < origin[b]);
                } else {
                    assert(origin[b] < origin[a]);
                }
            }
            assert forall|k: int|
                0 <= k < before.len() && (#[trigger] before[k]).command.id == command@.id
                    && before[k].command.keys == command@.keys implies reported@
                == OutcomeView::Applied(before[k].result) by {
                assert(before[k].result == read_values(before_state.kv, before[k].command.keys));
            }
        }
        Ok(Applied { outcome: reported, confirmed, rolled_back: dropped })
    }
}

/// A command that is still in flight when it is applied reports exactly the
/// result of its speculative execution: whatever was applied in between
/// commuted with it.
pub proof fn lemma_speculation_is_confirmed(
    state: StateView,
    pending: Seq<PendingView>,
    i: int,
    command: CommandView,
)
    requires
        speculation_valid(state, pending),
        0 <= i < pending.len(),
        pending[i].command.id == command.id,
        pending[i].command.keys == command.keys,
    ensures
        outcome(state, command) == OutcomeView::Applied(pending[i].result),
{
    assert(is_fresh(state.sessions, pending[i].command.id));
}

/// What stays in flight when a command takes effect commutes with the
/// command, and is still in flight with the result it had.
pub proof fn lemma_retained_commute(pending: Seq<PendingView>, applied: CommandView, k: int)
    requires
        0 <= k < retained(pending, applied).len(),
    ensures
        survives(retained(pending, applied)[k].command, applied),
        exists|i: int| 0 <= i < pending.len() && pending[i] == retained(pending, applied)[k],
    decreases pending.len(),
{
    let rest = pending.drop_last();
    if survives(pending.last().command, applied) {
        if k == retained(rest, applied).len() {
            assert(pending[pending.len() - 1] == retained(pending, applied)[k]);
        } else {
            lemma_retained_commute(rest, applied, k);
            let i = choose|i: int| 0 <= i < rest.len() && rest[i] == retained(rest, applied)[k];
            assert(pending[i] == retained(pending, applied)[k]);
        }
    } else {
        lemma_retained_commute(rest, applied, k);
        let i = choose|i: int| 0 <= i < rest.len() && rest[i] == retained(rest, applied)[k];
        assert(pending[i] == retained(pending, applied)[k]);
    }
}

/// A command that commutes with every in-flight command reports, on top of
/// all their effects, what it reports on the finalized store alone: the
/// speculative effects of the others are invisible to it.
pub proof fn lemma_speculative_view(
    kv: Map<u64, u64>,
    in_flight: Seq<CommandView>,
    command: CommandView,
)
    requires
        forall|i: int| 0 <= i < in_flight.len() ==> commutes(command, #[trigger] in_flight[i]),
    ensures
        read_values(speculative_store(kv, in_flight), command.keys) == read_values(
            kv,
            command.keys,
        ),
    decreases in_flight.len(),
{
    if in_flight.len() > 0 {
        let rest = in_flight.drop_last();
        assert forall|i: int| 0 <= i < rest.len() implies commutes(command, #[trigger] rest[i]) by {
            assert(rest[i] == in_flight[i]);
        }
        lemma_speculative_view(kv, rest, command);
        assert(commutes(command, in_flight[in_flight.len() - 1]));
        crate::conflict::lemma_commutes_symmetric(command, in_flight.last());
        lemma_commuting_commands_swap(speculative_store(kv, rest), in_flight.last(), command);
    }
}

/// The store as it would be if every in-flight command had taken effect, in
/// order: the copy-on-write view that speculative execution runs against.
pub open spec fn speculative_store(kv: Map<u64, u64>, in_flight: Seq<CommandView>) -> Map<
    u64,
    u64,
>
    decreases in_flight.len(),
{
    if in_flight.len() == 0 {
        kv
    } else {
        crate::machine::apply_kv(speculative_store(kv, in_flight.drop_last()), in_flight.last())
    }
}

} // verus!
