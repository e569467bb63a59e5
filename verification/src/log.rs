//! The command log of one node: an ordered record of commands and their
//! agreed positions, with a commit watermark and compaction below a snapshot.
//!
//! Indices start at 1 and are dense. Entries at or below the commit watermark
//! never change and are never removed except by compaction, and compaction
//! never passes the newest snapshot.

use crate::command::{Command, CommandView};
use crate::conflict::{commute, conflicts};
use vstd::prelude::*;

verus! {

/// One position of the log.
#[derive(Debug, PartialEq, Eq)]
pub struct LogEntry {
    index: u64,
    term: u64,
    command: Command,
    committed: bool,
}

/// The mathematical content of a [`LogEntry`].
pub struct LogEntryView {
    pub index: u64,
    pub term: u64,
    pub command: CommandView,
    pub committed: bool,
}

impl View for LogEntry {
    type V = LogEntryView;

    closed spec fn view(&self) -> LogEntryView {
        LogEntryView {
            index: self.index,
            term: self.term,
            command: self.command@,
            committed: self.committed,
        }
    }
}

impl LogEntry {
    /// An entry as a leader sends it: not yet known committed.
    pub fn new(index: u64, term: u64, command: Command) -> (entry: Self)
        ensures
            entry@ == (LogEntryView { index, term, command: command@, committed: false }),
    {
        LogEntry { index, term, command, committed: false }
    }

    /// The entry's position.
    pub fn index(&self) -> (index: u64)
        ensures
            index == self@.index,
    {
        self.index
    }

    /// The term of the leader that created the entry.
    pub fn term(&self) -> (term: u64)
        ensures
            term == self@.term,
    {
        self.term
    }

    /// The command the entry holds.
    pub fn command(&self) -> (command: &Command)
        ensures
            command@ == self@.command,
    {
        &self.command
    }

    /// Whether the entry was at or below the commit watermark when it was read.
    pub fn is_committed(&self) -> (committed: bool)
        ensures
            committed == self@.committed,
    {
        self.committed
    }
}

impl Clone for LogEntry {
    fn clone(&self) -> (copy: Self)
        ensures
            copy@ == self@,
    {
        LogEntry {
            index: self.index,
            term: self.term,
            command: self.command.clone(),
            committed: self.committed,
        }
    }
}

/// Why a log operation was refused.
#[derive(Clone, Copy, Debug, PartialEq, Eq, Structural)]
pub enum LogError {
    /// The term is lower than the term of the last entry.
    TermRegressed,
    /// The log has reached the largest index.
    IndexExhausted,
    /// The index lies beyond the last entry.
    Missing,
    /// The entry would leave a gap after the last entry.
    Gap,
    /// The entry contradicts an entry that is already committed.
    CommittedConflict,
    /// No snapshot covers the entries that would be removed.
    NotInSnapshot,
    /// The index is above the commit watermark.
    NotCommitted,
    /// The index is at or below the commit watermark.
    AlreadyCommitted,
}

/// What accepting a replicated entry did to the log.
#[derive(Clone, Copy, Debug, PartialEq, Eq, Structural)]
pub enum Accepted {
    /// The log already held the entry.
    Present,
    /// The entry was appended after the last entry.
    Appended,
    /// The log held a different, uncommitted entry at the index; it and
    /// everything after it were discarded and the entry was appended.
    Replaced,
}

/// What a slot of the log stores.
#[derive(Debug)]
struct Slot {
    term: u64,
    command: Command,
}

/// The mathematical content of a slot: the term and the command.
pub struct SlotView {
    pub term: u64,
    pub command: CommandView,
}

impl View for Slot {
    type V = SlotView;

    closed spec fn view(&self) -> SlotView {
        SlotView { term: self.term, command: self.command@ }
    }
}

/// The mathematical content of a [`CommandLog`].
pub struct LogView {
    /// The index of the last entry that was compacted away; 0 if none was.
    pub base_index: u64,
    /// The term of the entry at `base_index`; 0 if there is none.
    pub base_term: u64,
    /// The entries after `base_index`, in index order.
    pub slots: Seq<SlotView>,
    /// The commit watermark.
    pub commit_index: u64,
    /// The highest index that a snapshot covers.
    pub snapshot_index: u64,
}

impl LogView {
    /// The index of the last entry; `base_index` when no entry is held.
    pub open spec fn last_index(self) -> int {
        self.base_index + self.slots.len()
    }

    /// Whether the log holds the entry at `index`.
    pub open spec fn holds(self, index: int) -> bool {
        self.base_index < index <= self.last_index()
    }

    /// The slot at `index`.
    pub open spec fn slot_at(self, index: int) -> SlotView
        recommends
            self.holds(index),
    {
        self.slots[index - self.base_index - 1]
    }

    /// The entry at `index`, as a reader sees it.
    pub open spec fn entry_at(self, index: int) -> LogEntryView
        recommends
            self.holds(index),
    {
        LogEntryView {
            index: index as u64,
            term: self.slot_at(index).term,
            command: self.slot_at(index).command,
            committed: index <= self.commit_index,
        }
    }

    /// The term at `index`, known for the held entries and for `base_index`.
    pub open spec fn term_at(self, index: int) -> Option<u64> {
        if index == self.base_index {
            Some(self.base_term)
        } else if self.holds(index) {
            Some(self.slot_at(index).term)
        } else {
            None
        }
    }

    /// The term of the last entry.
    pub open spec fn last_term(self) -> u64 {
        if self.slots.len() == 0 {
            self.base_term
        } else {
            self.slots.last().term
        }
    }

    /// Whether the entry at `index`, which lies after `after`, holds another
    /// command than `command` that conflicts with it.
    pub open spec fn blocks(self, after: int, command: CommandView, index: int) -> bool {
        &&& after < index
        &&& self.holds(index)
        &&& self.slot_at(index).command.id != command.id
        &&& conflicts(command, self.slot_at(index).command)
    }

    /// The log's invariant: indices fit, terms never decrease along the log,
    /// and compaction, snapshot and commit watermark are ordered within the
    /// log.
    pub open spec fn wf(self) -> bool {
        &&& self.last_index() <= u64::MAX
        &&& self.base_index <= self.snapshot_index <= self.commit_index <= self.last_index()
        &&& forall|i: int| 0 <= i < self.slots.len() ==> self.base_term <= (
        #[trigger] self.slots[i]).term
        &&& forall|i: int, j: int|
            0 <= i <= j < self.slots.len() ==> (#[trigger] self.slots[i]).term <= (
            #[trigger] self.slots[j]).term
    }

    /// The log with one more entry at the end.
    pub open spec fn appended(self, term: u64, command: CommandView) -> LogView {
        LogView { slots: self.slots.push(SlotView { term, command }), ..self }
    }

    /// The log without the entries at or after `index`.
    pub open spec fn truncated(self, index: int) -> LogView
        recommends
            self.base_index < index,
    {
        if index > self.last_index() {
            self
        } else {
            LogView { slots: self.slots.take(index - self.base_index - 1), ..self }
        }
    }

    /// The log after a snapshot through `index`, whose last entry has
    /// `term`, was installed: it starts after `index`, committed through
    /// `index`, and keeps the entries after `index` if it held `term` at
    /// `index`.
    pub open spec fn installed(self, index: u64, term: u64) -> LogView {
        LogView {
            base_index: index,
            base_term: term,
            slots: if self.holds(index as int) && self.slot_at(index as int).term == term {
                self.slots.skip(index - self.base_index)
            } else {
                Seq::empty()
            },
            commit_index: index,
            snapshot_index: index,
        }
    }

    /// The log without the entries at or below `index`.
    pub open spec fn compacted(self, index: int) -> LogView
        recommends
            self.base_index <= index <= self.last_index(),
    {
        if index <= self.base_index {
            self
        } else {
            LogView {
                base_index: index as u64,
                base_term: self.slot_at(index).term,
                slots: self.slots.skip(index - self.base_index),
                ..self
            }
        }
    }
}

/// The durable, ordered record of one node.
#[derive(Debug)]
pub struct CommandLog {
    slots: Vec<Slot>,
    base_index: u64,
    base_term: u64,
    commit_index: u64,
    snapshot_index: u64,
}

impl View for CommandLog {
    type V = LogView;

    closed spec fn view(&self) -> LogView {
        LogView {
            base_index: self.base_index,
            base_term: self.base_term,
            slots: self.slots@.map_values(|s: Slot| s@),
            commit_index: self.commit_index,
            snapshot_index: self.snapshot_index,
        }
    }
}

impl CommandLog {
    /// The log's invariant; see [`LogView::wf`].
    pub open spec fn wf(&self) -> bool {
        self@.wf()
    }

    /// An empty log.
    pub fn new() -> (log: Self)
        ensures
            log.wf(),
            log@ == (LogView {
                base_index: 0,
                base_term: 0,
                slots: Seq::empty(),
                commit_index: 0,
                snapshot_index: 0,
            }),
    {
        let log = CommandLog {
            slots: Vec::new(),
            base_index: 0,
            base_term: 0,
            commit_index: 0,
            snapshot_index: 0,
        };
        assert(log@.slots =~= Seq::empty());
        log
    }

    /// The index of the last entry; the compaction point when none is held.
    pub fn last_index(&self) -> (index: u64)
        requires
            self.wf(),
        ensures
            index == self@.last_index(),
    {
        self.base_index + (self.slots.len() as u64)
    }

    /// The term of the last entry.
    pub fn last_term(&self) -> (term: u64)
        requires
            self.wf(),
        ensures
            term == self@.last_term(),
    {
        if self.slots.len() == 0 {
            self.base_term
        } else {
            self.slots[self.slots.len() - 1].term
        }
    }

    /// The index of the last entry that was compacted away.
    pub fn base_index(&self) -> (index: u64)
        ensures
            index == self@.base_index,
    {
        self.base_index
    }

    /// The commit watermark.
    pub fn commit_index(&self) -> (index: u64)
        ensures
            index == self@.commit_index,
    {
        self.commit_index
    }

    /// The highest index that a snapshot covers.
    pub fn snapshot_index(&self) -> (index: u64)
        ensures
            index == self@.snapshot_index,
    {
        self.snapshot_index
    }

    /// The term at `index`, if the log knows it.
    pub fn term_at(&self, index: u64) -> (term: Option<u64>)
        requires
            self.wf(),
        ensures
            term == self@.term_at(index as int),
    {
        if index == self.base_index {
            Some(self.base_term)
        } else if index > self.base_index && index - self.base_index <= self.slots.len() as u64 {
            Some(self.slots[(index - self.base_index - 1) as usize].term)
        } else {
            None
        }
    }

    /// The entry at `index`, if the log holds it.
    pub fn get(&self, index: u64) -> (entry: Option<LogEntry>)
        requires
            self.wf(),
        ensures
            entry is Some <==> self@.holds(index as int),
            entry matches Some(e) ==> e@ == self@.entry_at(index as int),
    {
        if index > self.base_index && index - self.base_index <= self.slots.len() as u64 {
            let slot = &self.slots[(index - self.base_index - 1) as usize];
            Some(
                LogEntry {
                    index,
                    term: slot.term,
                    command: slot.command.clone(),
                    committed: index <= self.commit_index,
                },
            )
        } else {
            None
        }
    }

    /// Appends `command` under `term` and returns its index.
    ///
    /// Refused when `term` is lower than the term of the last entry, or when
    /// the indices are exhausted.
    pub fn append(&mut self, term: u64, command: Command) -> (appended: Result<u64, LogError>)
        requires
            old(self).wf(),
        ensures
            final(self).wf(),
            match appended {
                Ok(index) => {
                    &&& term >= old(self)@.last_term()
                    &&& index == old(self)@.last_index() + 1
                    &&& final(self)@ == old(self)@.appended(term, command@)
                },
                Err(LogError::TermRegressed) => {
                    &&& term < old(self)@.last_term()
                    &&& final(self)@ == old(self)@
                },
                Err(LogError::IndexExhausted) => {
                    &&& term >= old(self)@.last_term()
                    &&& old(self)@.last_index() == u64::MAX
                    &&& final(self)@ == old(self)@
                },
                Err(_) => false,
            },
    {
        if term < self.last_term() {
            return Err(LogError::TermRegressed);
        }
        let last = self.last_index();
        if last == u64::MAX {
            return Err(LogError::IndexExhausted);
        }
        let ghost before = self@;
        self.slots.push(Slot { term, command });
        proof {
            assert(self@.slots =~= before.slots.push(SlotView { term, command: command@ }));
            assert forall|i: int, j: int| 0 <= i <= j < self@.slots.len() implies (
            #[trigger] self@.slots[i]).term <= (#[trigger] self@.slots[j]).term by {
                if j == before.slots.len() && i < j {
                    assert(before.slots[i].term <= before.slots[before.slots.len() - 1].term);
                }
            }
        }
        Ok(last + 1)
    }

    /// Raises the commit watermark to `index`.
    ///
    /// Refused when the log holds no entry at `index`. An index at or below
    /// the watermark changes nothing: the watermark never moves back.
    pub fn mark_committed(&mut self, index: u64) -> (marked: Result<(), LogError>)
        requires
            old(self).wf(),
        ensures
            final(self).wf(),
            match marked {
                Ok(()) => {
                    &&& index <= old(self)@.last_index()
                    &&& final(self)@ == (LogView {
                        commit_index: if index > old(self)@.commit_index {
                            index
                        } else {
                            old(self)@.commit_index
                        },
                        ..old(self)@
                    })
                },
                Err(LogError::Missing) => {
                    &&& index > old(self)@.last_index()
                    &&& final(self)@ == old(self)@
                },
                Err(_) => false,
            },
    {
        if index > self.last_index() {
            return Err(LogError::Missing);
        }
        if index > self.commit_index {
            self.commit_index = index;
        }
        Ok(())
    }

    /// Notes that a snapshot covering the log up to `index` exists.
    ///
    /// Refused when `index` is above the commit watermark: only committed
    /// entries may be reflected in a snapshot.
    pub fn record_snapshot(&mut self, index: u64) -> (recorded: Result<(), LogError>)
        requires
            old(self).wf(),
        ensures
            final(self).wf(),
            match recorded {
                Ok(()) => {
                    &&& index <= old(self)@.commit_index
                    &&& final(self)@ == (LogView {
                        snapshot_index: if index > old(self)@.snapshot_index {
                            index
                        } else {
                            old(self)@.snapshot_index
                        },
                        ..old(self)@
                    })
                },
                Err(LogError::NotCommitted) => {
                    &&& index > old(self)@.commit_index
                    &&& final(self)@ == old(self)@
                },
                Err(_) => false,
            },
    {
        if index > self.commit_index {
            return Err(LogError::NotCommitted);
        }
        if index > self.snapshot_index {
            self.snapshot_index = index;
        }
        Ok(())
    }

    /// Removes the entries at or below `up_to_index` and returns how many
    /// were removed.
    ///
    /// Refused when no snapshot covers `up_to_index`.
    pub fn compact(&mut self, up_to_index: u64) -> (compacted: Result<u64, LogError>)
        requires
            old(self).wf(),
        ensures
            final(self).wf(),
            match compacted {
                Ok(removed) => {
                    &&& up_to_index <= old(self)@.snapshot_index
                    &&& final(self)@ == old(self)@.compacted(up_to_index as int)
                    &&& removed == final(self)@.base_index - old(self)@.base_index
                },
                Err(LogError::NotInSnapshot) => {
                    &&& up_to_index > old(self)@.snapshot_index
                    &&& final(self)@ == old(self)@
                },
                Err(_) => false,
            },
    {
        if up_to_index > self.snapshot_index {
            return Err(LogError::NotInSnapshot);
        }
        if up_to_index <= self.base_index {
            return Ok(0);
        }
        let ghost before = self@;
        let removed = up_to_index - self.base_index;
        assert(before.slots.len() == self.slots.len());
        assert(removed <= self.slots.len());
        let count = removed as usize;
        let term = self.slots[count - 1].term;
        let rest = self.slots.split_off(count);
        self.slots = rest;
        self.base_index = up_to_index;
        self.base_term = term;
        proof {
            assert(self@.slots =~= before.slots.skip(count as int));
            assert forall|i: int| 0 <= i < self@.slots.len() implies self@.base_term <= (
            #[trigger] self@.slots[i]).term by {
                assert(before.slots[count - 1].term <= before.slots[i + count].term);
            }
            assert forall|i: int, j: int| 0 <= i <= j < self@.slots.len() implies (
            #[trigger] self@.slots[i]).term <= (#[trigger] self@.slots[j]).term by {
                assert(before.slots[i + count].term <= before.slots[j + count].term);
            }
        }
        Ok(removed)
    }

    /// Removes the entries at or after `index`.
    ///
    /// Refused when `index` is at or below the commit watermark: a committed
    /// entry is never removed.
    pub fn truncate_from(&mut self, index: u64) -> (truncated: Result<(), LogError>)
        requires
            old(self).wf(),
        ensures
            final(self).wf(),
            match truncated {
                Ok(()) => {
                    &&& index > old(self)@.commit_index
                    &&& final(self)@ == old(self)@.truncated(index as int)
                },
                Err(LogError::AlreadyCommitted) => {
                    &&& index <= old(self)@.commit_index
                    &&& final(self)@ == old(self)@
                },
                Err(_) => false,
            },
    {
        if index <= self.commit_index {
            return Err(LogError::AlreadyCommitted);
        }
        if index > self.last_index() {
            return Ok(());
        }
        let ghost before = self@;
        let keep = (index - self.base_index - 1) as usize;
        self.slots.truncate(keep);
        proof {
            assert(self@.slots =~= before.slots.take(keep as int));
        }
        Ok(())
    }

    /// Takes in an entry that a leader replicates.
    ///
    /// - An entry the log already holds, with the same term, or one at or
    ///   below the compaction point, changes nothing.
    /// - An entry directly after the last entry is appended.
    /// - An entry whose index holds another term replaces that entry and
    ///   everything after it, unless the index is committed.
    /// - An entry that would leave a gap, or whose term is lower than the
    ///   term before it, is refused.
    pub fn accept(&mut self, index: u64, term: u64, command: Command) -> (accepted: Result<
        Accepted,
        LogError,
    >)
        requires
            old(self).wf(),
        ensures
            final(self).wf(),
            accepted == accept_result(old(self)@, index, term),
            final(self)@ == accept_log(old(self)@, index, term, command@),
    {
        if index <= self.base_index {
            return Ok(Accepted::Present);
        }
        let last = self.last_index();
        if index > last {
            if index - last > 1 {
                return Err(LogError::Gap);
            }
            return match self.append(term, command) {
                Ok(_) => Ok(Accepted::Appended),
                Err(e) => Err(e),
            };
        }
        assert(self@.slots.len() == self.slots.len());
        let position = (index - self.base_index - 1) as usize;
        let held = self.slots[position].term;
        assert(self@.slot_at(index as int) == self.slots@[position as int]@);
        if held == term {
            return Ok(Accepted::Present);
        }
        if index <= self.commit_index {
            return Err(LogError::CommittedConflict);
        }
        let before_term = match self.term_at(index - 1) {
            Some(t) => t,
            None => 0,
        };
        if term < before_term {
            return Err(LogError::TermRegressed);
        }
        let ghost before = self@;
        let cut = self.truncate_from(index);
        assert(cut is Ok);
        assert(self@.last_term() == before_term) by {
            if self@.slots.len() > 0 {
                assert(self@.slots.last() == before.slots[index - before.base_index - 2]);
            }
        }
        let pushed = self.append(term, command);
        assert(pushed is Ok);
        Ok(Accepted::Replaced)
    }

    /// Makes the log start after a snapshot that covers the log through
    /// `index`, whose last entry has `term`.
    ///
    /// Refused when `index` is at or below the commit watermark: the node
    /// already holds what the snapshot covers. Otherwise the compaction
    /// point, the snapshot index and the commit watermark all become
    /// `index`; the entries after `index` stay when the log holds `term` at
    /// `index`, and every held entry is discarded when it does not.
    pub fn install_snapshot(&mut self, index: u64, term: u64) -> (installed: Result<(), LogError>)
        requires
            old(self).wf(),
        ensures
            final(self).wf(),
            match installed {
                Ok(()) => {
                    &&& index > old(self)@.commit_index
                    &&& final(self)@ == old(self)@.installed(index, term)
                },
                Err(LogError::AlreadyCommitted) => {
                    &&& index <= old(self)@.commit_index
                    &&& final(self)@ == old(self)@
                },
                Err(_) => false,
            },
    {
        if index <= self.commit_index {
            return Err(LogError::AlreadyCommitted);
        }
        let ghost before = self@;
        assert(before.slots.len() == self.slots.len());
        let held = index - self.base_index <= self.slots.len() as u64 && self.slots[(index
            - self.base_index - 1) as usize].term == term;
        if held {
            let count = (index - self.base_index) as usize;
            assert(before.slot_at(index as int) == self.slots@[count - 1]@);
            let rest = self.slots.split_off(count);
            self.slots = rest;
            proof {
                assert(self.slots@.map_values(|s: Slot| s@) =~= before.slots.skip(count as int));
                assert forall|i: int| 0 <= i < self.slots@.len() implies term <= (
                #[trigger] self.slots@[i])@.term by {
                    assert(before.slots[count - 1].term <= before.slots[i + count].term);
                }
                assert forall|i: int, j: int| 0 <= i <= j < self.slots@.len() implies (
                #[trigger] self.slots@[i])@.term <= (#[trigger] self.slots@[j])@.term by {
                    assert(before.slots[i + count].term <= before.slots[j + count].term);
                }
            }
        } else {
            self.slots = Vec::new();
            assert(self.slots@.map_values(|s: Slot| s@) =~= Seq::empty());
        }
        self.base_index = index;
        self.base_term = term;
        self.commit_index = index;
        self.snapshot_index = index;
        Ok(())
    }

    /// The first index after `after` whose entry holds another command than
    /// `command` that conflicts with it, if there is one.
    pub fn first_conflict_after(&self, after: u64, command: &Command) -> (found: Option<u64>)
        requires
            self.wf(),
        ensures
            match found {
                Some(index) => {
                    &&& self@.blocks(after as int, command@, index as int)
                    &&& forall|j: int| j < index ==> !self@.blocks(after as int, command@, j)
                },
                None => forall|j: int| !self@.blocks(after as int, command@, j),
            },
    {
        let start: usize = if after <= self.base_index {
            0
        } else if after - self.base_index >= self.slots.len() as u64 {
            self.slots.len()
        } else {
            (after - self.base_index) as usize
        };
        let mut i: usize = start;
        while i < self.slots.len()
            invariant
                self.wf(),
                start <= i <= self.slots.len(),
                start == if after <= self.base_index {
                    0
                } else if after - self.base_index >= self.slots.len() {
                    self.slots.len() as int
                } else {
                    after - self.base_index
                },
                forall|j: int| j < self.base_index + 1 + i ==> !self@.blocks(
                    after as int,
                    command@,
                    j,
                ),
            decreases self.slots.len() - i,
        {
            let slot = &self.slots[i];
            assert(self@.slot_at(self.base_index + 1 + i) == slot@);
            if slot.command.id() != command.id() && !commute(command, &slot.command) {
                return Some(self.base_index + 1 + (i as u64));
            }
            i += 1;
        }
        None
    }

    /// Copies of the entries at `from` and after, in index order; `None`
    /// when `from` is at or below the compaction point or leaves a gap
    /// after the last entry.
    pub fn entries_from(&self, from: u64) -> (entries: Option<Vec<LogEntry>>)
        requires
            self.wf(),
        ensures
            entries is Some <==> self@.base_index < from <= self@.last_index() + 1,
            entries matches Some(list) ==> {
                &&& list.len() == self@.last_index() + 1 - from
                &&& forall|k: int|
                    0 <= k < list.len() ==> (#[trigger] list[k])@ == self@.entry_at(from + k)
            },
    {
        if from <= self.base_index {
            return None;
        }
        let start = from - self.base_index - 1;
        if start > self.slots.len() as u64 {
            return None;
        }
        let mut list: Vec<LogEntry> = Vec::new();
        let mut i: usize = start as usize;
        while i < self.slots.len()
            invariant
                self.wf(),
                start <= i <= self.slots.len(),
                start == from - self.base_index - 1,
                list.len() == i - start,
                forall|k: int|
                    0 <= k < list.len() ==> (#[trigger] list[k])@ == self@.entry_at(from + k),
            decreases self.slots.len() - i,
        {
            let slot = &self.slots[i];
            let index = self.base_index + 1 + (i as u64);
            list.push(
                LogEntry {
                    index,
                    term: slot.term,
                    command: slot.command.clone(),
                    committed: index <= self.commit_index,
                },
            );
            i += 1;
        }
        Some(list)
    }
}

/// What [`CommandLog::accept`] answers for an entry at `index` with `term`.
pub open spec fn accept_result(log: LogView, index: u64, term: u64) -> Result<Accepted, LogError> {
    if index <= log.base_index {
        Ok(Accepted::Present)
    } else if index > log.last_index() + 1 {
        Err(LogError::Gap)
    } else if index == log.last_index() + 1 {
        if term < log.last_term() {
            Err(LogError::TermRegressed)
        } else if log.last_index() == u64::MAX {
            Err(LogError::IndexExhausted)
        } else {
            Ok(Accepted::Appended)
        }
    } else if log.slot_at(index as int).term == term {
        Ok(Accepted::Present)
    } else if index <= log.commit_index {
        Err(LogError::CommittedConflict)
    } else if term < log.term_at(index - 1).unwrap() {
        Err(LogError::TermRegressed)
    } else {
        Ok(Accepted::Replaced)
    }
}

/// The log after [`CommandLog::accept`] took in an entry.
pub open spec fn accept_log(log: LogView, index: u64, term: u64, command: CommandView) -> LogView {
    match accept_result(log, index, term) {
        Ok(Accepted::Appended) => log.appended(term, command),
        Ok(Accepted::Replaced) => log.truncated(index as int).appended(term, command),
        _ => log,
    }
}

/// Compaction keeps every entry above the compaction point as it was.
pub proof fn lemma_compaction_keeps_later_entries(log: LogView, up_to: int, index: int)
    requires
        log.wf(),
        log.base_index <= up_to <= log.snapshot_index,
        up_to < index <= log.last_index(),
    ensures
        log.compacted(up_to).holds(index),
        log.compacted(up_to).entry_at(index) == log.entry_at(index),
        log.compacted(up_to).last_index() == log.last_index(),
{
}

/// Truncation, which is only possible above the commit watermark, keeps
/// every committed entry as it was.
pub proof fn lemma_truncation_keeps_committed(log: LogView, from: int, index: int)
    requires
        log.wf(),
        log.commit_index < from,
        log.base_index < index <= log.commit_index,
    ensures
        log.truncated(from).holds(index),
        log.truncated(from).entry_at(index) == log.entry_at(index),
{
}

/// Accepting a replicated entry never changes or removes a committed entry.
pub proof fn lemma_accept_keeps_committed(
    log: LogView,
    index: u64,
    term: u64,
    command: CommandView,
    committed: int,
)
    requires
        log.wf(),
        log.base_index < committed <= log.commit_index,
    ensures
        accept_log(log, index, term, command).holds(committed),
        accept_log(log, index, term, command).entry_at(committed) == log.entry_at(committed),
{
}

/// Appending an entry whose term is not lower than the last term keeps the
/// log well formed.
pub proof fn lemma_append_keeps_wf(log: LogView, term: u64, command: CommandView)
    requires
        log.wf(),
        term >= log.last_term(),
        log.last_index() < u64::MAX,
    ensures
        log.appended(term, command).wf(),
{
    let out = log.appended(term, command);
    assert forall|i: int, j: int| 0 <= i <= j < out.slots.len() implies (
    #[trigger] out.slots[i]).term <= (#[trigger] out.slots[j]).term by {
        if j == log.slots.len() && i < j {
            assert(log.slots[i].term <= log.slots[log.slots.len() - 1].term);
        }
    }
}

/// Accepting a replicated entry keeps the log well formed and leaves the
/// compaction point, the snapshot index and the commit watermark alone.
pub proof fn lemma_accept_keeps_wf(log: LogView, index: u64, term: u64, command: CommandView)
    requires
        log.wf(),
    ensures
        accept_log(log, index, term, command).wf(),
        accept_log(log, index, term, command).base_index == log.base_index,
        accept_log(log, index, term, command).base_term == log.base_term,
        accept_log(log, index, term, command).snapshot_index == log.snapshot_index,
        accept_log(log, index, term, command).commit_index == log.commit_index,
{
    let out = accept_log(log, index, term, command);
    match accept_result(log, index, term) {
        Ok(Accepted::Appended) => {
            assert forall|i: int, j: int| 0 <= i <= j < out.slots.len() implies (
            #[trigger] out.slots[i]).term <= (#[trigger] out.slots[j]).term by {
                if j == log.slots.len() && i < j {
                    assert(log.slots[i].term <= log.slots[log.slots.len() - 1].term);
                }
            }
        },
        Ok(Accepted::Replaced) => {
            let cut = log.truncated(index as int);
            let keep = index - log.base_index - 1;
            assert(cut.slots == log.slots.take(keep));
            assert forall|i: int, j: int| 0 <= i <= j < out.slots.len() implies (
            #[trigger] out.slots[i]).term <= (#[trigger] out.slots[j]).term by {
                if j == keep && i < j {
                    assert(log.slots[i].term <= log.slots[keep - 1].term);
                } else if j < keep {
                    assert(log.slots[i].term <= log.slots[j].term);
                }
            }
            assert forall|i: int| 0 <= i < out.slots.len() implies out.base_term <= (
            #[trigger] out.slots[i]).term by {
                if i < keep {
                    assert(log.base_term <= log.slots[i].term);
                }
            }
        },
        _ => {},
    }
}

} // verus!
