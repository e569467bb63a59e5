//! One replica: its role, its log and its executor, and the handlers that
//! tie them together on both commit paths.

use crate::command::{Command, CommandView};
use crate::executor::{left_in_flight, Applied, Executor, PendingView, SpeculationError};
use crate::log::{CommandLog, LogEntry, LogEntryView, LogError, LogView};
use crate::machine::{lemma_replay_push, outcome, replay_from, Outcome, Snapshot, StateView};
use crate::protocol::{
    follows, next_actions, next_state, Action, Event, LogPosition, Node, NodeView, Role,
};
use crate::quorum::{majority, QuorumConfig};
use vstd::prelude::*;

verus! {

/// Why a replica refused a fast-path proposal.
#[derive(Clone, Copy, Debug, PartialEq, Eq, Structural)]
pub enum Refusal {
    /// The command conflicts with a command in flight on the replica.
    Conflict,
    /// The proposal carries a term older than the replica's.
    StaleTerm,
    /// The replica's storage is faulty.
    Unavailable,
}

/// A replica's answer to a fast-path proposal.
#[derive(Debug, PartialEq, Eq)]
pub enum Ack {
    /// Executed speculatively; holds the result.
    Accepted(Vec<Option<u64>>),
    /// Not executed.
    Rejected(Refusal),
    /// The command, or a later one of its client, was already finalized;
    /// holds what the machine reports for it.
    Superseded(Outcome),
}

/// Why a command was not appended.
#[derive(Clone, Copy, Debug, PartialEq, Eq, Structural)]
pub enum ProposeError {
    /// This node does not lead; holds the leader it knows of.
    NotLeader { leader: Option<u64> },
    /// The log refused the entry.
    Log(LogError),
}

/// What a replica holds durably, as read back after a restart.
#[derive(Debug)]
pub struct Durable {
    /// The term the replica was in.
    pub term: u64,
    /// The vote the replica held in that term.
    pub voted_for: Option<u64>,
    /// The newest snapshot, with the term of the last entry it covers.
    pub snapshot: Option<(Snapshot, u64)>,
    /// The log entries after the snapshot, in index order.
    pub entries: Vec<LogEntry>,
    /// The commit watermark.
    pub commit_index: u64,
}

/// Why a replica could not be rebuilt from what it holds durably.
#[derive(Clone, Copy, Debug, PartialEq, Eq, Structural)]
pub enum RestoreError {
    /// The identifier is no member of the cluster, or the cluster is too
    /// large to track.
    UnknownReplica,
    /// The durable state does not fit together: the replica must not join.
    Inconsistent,
}

/// The index the durable state starts after: the snapshot's, or 0.
pub open spec fn durable_base(durable: Durable) -> u64 {
    match durable.snapshot {
        Some((snapshot, _)) => snapshot.index_spec(),
        None => 0,
    }
}

/// The term of the entry the durable state starts after: the one recorded
/// with the snapshot, or 0.
pub open spec fn durable_base_term(durable: Durable) -> u64 {
    match durable.snapshot {
        Some((_, term)) => term,
        None => 0,
    }
}

/// Whether the durable state fits together: a snapshot covers at least one
/// entry; the entries continue the snapshot without a gap; no term exceeds
/// the replica's, and terms never decrease along the log; and the commit
/// watermark lies between the snapshot and the last entry.
pub open spec fn durable_consistent(durable: Durable) -> bool {
    let base = durable_base(durable);
    let entries = durable.entries@;
    &&& durable.snapshot is Some ==> base >= 1
    &&& durable_base_term(durable) <= durable.term
    &&& forall|k: int|
        0 <= k < entries.len() ==> {
            &&& (#[trigger] entries[k])@.index == base + 1 + k
            &&& entries[k]@.term <= durable.term
            &&& durable_base_term(durable) <= entries[k]@.term
        }
    &&& forall|i: int, j: int|
        0 <= i <= j < entries.len() ==> (#[trigger] entries[i])@.term <= (
        #[trigger] entries[j])@.term
    &&& base <= durable.commit_index <= base + entries.len()
}

/// The log that the durable state describes.
pub open spec fn durable_log(durable: Durable) -> LogView {
    LogView {
        base_index: durable_base(durable),
        base_term: durable_base_term(durable),
        slots: durable.entries@.map_values(
            |e: LogEntry| crate::log::SlotView { term: e@.term, command: e@.command },
        ),
        commit_index: durable.commit_index,
        snapshot_index: durable_base(durable),
    }
}

/// A leader's replication message.
#[derive(Debug, PartialEq, Eq)]
pub struct AppendRequest {
    pub term: u64,
    pub leader: u64,
    pub prev_index: u64,
    pub prev_term: u64,
    pub entries: Vec<LogEntry>,
    pub leader_commit: u64,
}

/// The mathematical content of an [`AppendRequest`].
pub struct AppendRequestView {
    pub term: u64,
    pub leader: u64,
    pub prev_index: u64,
    pub prev_term: u64,
    pub entries: Seq<LogEntryView>,
    pub leader_commit: u64,
}

impl View for AppendRequest {
    type V = AppendRequestView;

    open spec fn view(&self) -> AppendRequestView {
        AppendRequestView {
            term: self.term,
            leader: self.leader,
            prev_index: self.prev_index,
            prev_term: self.prev_term,
            entries: self.entries@.map_values(|e: LogEntry| e@),
            leader_commit: self.leader_commit,
        }
    }
}

/// A leader's offer of a snapshot to a replica that lags behind the
/// leader's compaction point.
#[derive(Debug, PartialEq, Eq)]
pub struct SnapshotRequest {
    pub term: u64,
    pub leader: u64,
    /// The term of the last entry the snapshot covers.
    pub last_term: u64,
    pub snapshot: Snapshot,
}

/// What a snapshot offer says of the log: the sender and its term, and the
/// index and the term of the last entry the snapshot covers.
pub struct SnapshotOffer {
    pub term: u64,
    pub leader: u64,
    pub index: u64,
    pub last_term: u64,
}

impl SnapshotRequest {
    /// What the offer says of the log.
    pub open spec fn offer(self) -> SnapshotOffer {
        SnapshotOffer {
            term: self.term,
            leader: self.leader,
            index: self.snapshot.index_spec(),
            last_term: self.last_term,
        }
    }
}

/// A follower's answer to a replication message.
#[derive(Clone, Copy, Debug, PartialEq, Eq, Structural)]
pub struct AppendReply {
    /// The follower's term.
    pub term: u64,
    /// Whether the follower's log now agrees with the leader's through
    /// `match_index`.
    pub success: bool,
    /// On success the last index known to agree; otherwise the end of the
    /// follower's log.
    pub match_index: u64,
}

/// What the caller must do after a replication message, in the order given.
#[derive(Clone, Copy, Debug, PartialEq, Eq, Structural)]
pub enum Effect {
    /// An action of the role machine.
    Node(Action),
    /// Make the log durable through `last_index`, with the commit watermark,
    /// before doing anything that follows.
    FlushLog { last_index: u64, commit_index: u64 },
    /// Send the answer to the leader.
    Reply(AppendReply),
}

/// The number of replicas whose progress is at least `index`.
pub open spec fn count_at_least(progress: Seq<u64>, index: int) -> nat
    decreases progress.len(),
{
    if progress.len() == 0 {
        0
    } else {
        count_at_least(progress.drop_last(), index) + if progress.last() >= index {
            1nat
        } else {
            0nat
        }
    }
}

/// Whether a leader of `term` may raise the commit watermark to `index`: the
/// entry is above the watermark, was created in the leader's own term, and
/// is durable on a majority.
pub open spec fn committable(
    log: LogView,
    progress: Seq<u64>,
    replicas: int,
    term: u64,
    index: int,
) -> bool {
    &&& log.commit_index < index <= log.last_index()
    &&& log.term_at(index) == Some(term)
    &&& count_at_least(progress, index) >= majority(replicas)
}

/// Whether the log holds, after the last applied entry, another command than
/// `command` that conflicts with it.
pub open spec fn log_blocks(log: LogView, applied: u64, command: CommandView) -> bool {
    exists|i: int| log.blocks(applied as int, command, i)
}

/// Whether `done` is what applying `command` reports on a replica that
/// started with `pending` in flight and `state` in its machine and has
/// applied `earlier` since: the machine's outcome, whether the command was
/// still in flight, and which in-flight commands it displaced.
pub open spec fn applied_as(
    done: Applied,
    pending: Seq<PendingView>,
    state: StateView,
    earlier: Seq<CommandView>,
    command: CommandView,
) -> bool {
    let reached = replay_from(state, earlier);
    let in_flight = left_in_flight(pending, state, earlier);
    &&& done.outcome@ == outcome(reached, command)
    &&& done.confirmed == crate::executor::is_pending(in_flight, command.id)
    &&& done.rolled_back@ == if outcome(reached, command) is Applied {
        crate::executor::rolled_back(in_flight, command)
    } else {
        Seq::empty()
    }
}

/// The commands of the entries above `applied` through `commit`, in order.
pub open spec fn ready_commands(log: LogView, applied: int, commit: int) -> Seq<CommandView> {
    Seq::new((commit - applied) as nat, |k: int| log.slot_at(applied + 1 + k).command)
}

/// The log after taking in the first `count` of `entries`, one by one.
pub open spec fn accept_many(log: LogView, entries: Seq<LogEntryView>, count: int) -> LogView
    decreases count,
{
    if count <= 0 {
        log
    } else {
        let e = entries[count - 1];
        crate::log::accept_log(accept_many(log, entries, count - 1), e.index, e.term, e.command)
    }
}

/// Whether entry `k` of a replication message continues the log from
/// `prev_index` and is taken in by `log`.
pub open spec fn entry_fits(
    log: LogView,
    entries: Seq<LogEntryView>,
    prev_index: u64,
    k: int,
) -> bool {
    &&& entries[k].index == prev_index + 1 + k
    &&& crate::log::accept_result(log, entries[k].index, entries[k].term) is Ok
}

/// The role machine's actions as effects, in the same order.
pub open spec fn node_effects(actions: Seq<Action>) -> Seq<Effect> {
    actions.map_values(|a: Action| Effect::Node(a))
}

/// The commit watermark raised to `target`, never lowered.
pub open spec fn raised(log: LogView, target: int) -> LogView {
    LogView {
        commit_index: if target > log.commit_index {
            target as u64
        } else {
            log.commit_index
        },
        ..log
    }
}

/// The smaller of two indices.
pub open spec fn lower(a: int, b: int) -> int {
    if a <= b {
        a
    } else {
        b
    }
}

/// Whether the step from `pre` to `post` made the node a leader.
pub open spec fn gains_leadership(pre: NodeView, post: NodeView) -> bool {
    pre.role != Role::Leader && post.role == Role::Leader
}

/// Whether a leader counts follower `from`'s answer as progress: the node
/// leads, the answer carries the leader's term and reports success, and the
/// follower is a member.
pub open spec fn counts(node: NodeView, from: u64, reply: AppendReply) -> bool {
    &&& !node.faulted
    &&& node.role == Role::Leader
    &&& reply.term == node.term
    &&& reply.success
    &&& from < node.replicas
}

/// The progress after replica `from` is known to hold the log through
/// `index`: its entry never moves back.
pub open spec fn progressed(progress: Seq<u64>, from: u64, index: u64) -> Seq<u64> {
    if progress[from as int] < index {
        progress.update(from as int, index)
    } else {
        progress
    }
}

/// Whether `commit` is where a node with this log and progress leaves the
/// commit watermark: a node that does not lead leaves it alone; a leader
/// raises it to the highest committable index, if there is one.
pub open spec fn commit_settled(
    log: LogView,
    progress: Seq<u64>,
    node: NodeView,
    commit: u64,
) -> bool {
    &&& commit >= log.commit_index
    &&& node.role != Role::Leader ==> commit == log.commit_index
    &&& commit > log.commit_index ==> committable(
        log,
        progress,
        node.replicas as int,
        node.term,
        commit as int,
    )
    &&& node.role == Role::Leader ==> forall|m: int|
        commit < m ==> !#[trigger] committable(log, progress, node.replicas as int, node.term, m)
}

/// What replication reads and changes of a replica: its role state, its
/// log, and the progress it tracks as a leader.
pub struct Replication {
    pub node: NodeView,
    pub log: LogView,
    pub progress: Seq<u64>,
}

impl Replication {
    /// The end of the log.
    pub open spec fn position(self) -> LogPosition {
        LogPosition { last_index: self.log.last_index() as u64, last_term: self.log.last_term() }
    }

    /// The replica after the role machine took `event`. A node that gains
    /// leadership starts without progress.
    pub open spec fn after_event(self, event: Event) -> Replication {
        let node = next_state(self.node, event, self.position());
        Replication {
            node,
            log: self.log,
            progress: if gains_leadership(self.node, node) {
                Seq::new(self.progress.len(), |r: int| 0u64)
            } else {
                self.progress
            },
        }
    }

    /// What a proposal is answered.
    pub open spec fn propose_answer(self) -> Result<u64, ProposeError> {
        if self.node.role != Role::Leader {
            Err(ProposeError::NotLeader { leader: self.node.leader })
        } else if self.node.term < self.log.last_term() {
            Err(ProposeError::Log(LogError::TermRegressed))
        } else if self.log.last_index() == u64::MAX {
            Err(ProposeError::Log(LogError::IndexExhausted))
        } else {
            Ok((self.log.last_index() + 1) as u64)
        }
    }

    /// The replica after a proposal of `command`: a leader whose log takes
    /// the entry appends it under its term; anything else changes nothing.
    pub open spec fn after_propose(self, command: CommandView) -> Replication {
        if self.propose_answer() is Ok {
            Replication { log: self.log.appended(self.node.term, command), ..self }
        } else {
            self
        }
    }

    /// Whether the replica's log holds the entry that `request` continues.
    pub open spec fn reaches(self, request: AppendRequestView) -> bool {
        self.log.term_at(request.prev_index as int) == Some(request.prev_term)
    }

    /// Whether the replica takes in exactly the first `taken` entries of
    /// `request`: none when it does not follow the sender or its log does
    /// not reach the previous entry; otherwise all up to the first that does
    /// not continue the log or that the log refuses.
    pub open spec fn takes(self, request: AppendRequestView, taken: int) -> bool {
        if !follows(self.node, request.term) || !self.reaches(request) {
            taken == 0
        } else {
            &&& 0 <= taken <= request.entries.len()
            &&& forall|k: int|
                0 <= k < taken ==> #[trigger] entry_fits(
                    accept_many(self.log, request.entries, k),
                    request.entries,
                    request.prev_index,
                    k,
                )
            &&& taken < request.entries.len() ==> !entry_fits(
                accept_many(self.log, request.entries, taken),
                request.entries,
                request.prev_index,
                taken,
            )
        }
    }

    /// The answer to `request` when `taken` entries were taken in.
    pub open spec fn append_reply(self, request: AppendRequestView, taken: int) -> AppendReply {
        if self.reaches(request) {
            AppendReply {
                term: request.term,
                success: taken == request.entries.len(),
                match_index: (request.prev_index + taken) as u64,
            }
        } else {
            AppendReply {
                term: request.term,
                success: false,
                match_index: self.log.last_index() as u64,
            }
        }
    }

    /// The replica after `request`, of which it took in `taken` entries.
    /// The role machine sees the leader's term; a replica that follows and
    /// whose log reaches the previous entry takes the entries in and raises
    /// its commit watermark to the leader's, but not beyond the last entry
    /// taken in.
    pub open spec fn after_append(self, request: AppendRequestView, taken: int) -> Replication {
        let contact = Event::LeaderContact { term: request.term, leader: request.leader };
        let node = next_state(self.node, contact, self.position());
        if follows(self.node, request.term) && self.reaches(request) {
            Replication {
                node,
                log: raised(
                    accept_many(self.log, request.entries, taken),
                    lower(request.leader_commit as int, request.prev_index + taken),
                ),
                progress: self.progress,
            }
        } else {
            Replication { node, ..self }
        }
    }

    /// What the caller must do after `request`, in order: the role
    /// machine's actions; then, for a replica that follows, the answer,
    /// preceded by the flush of the log when the log reached the previous
    /// entry.
    pub open spec fn append_effects(self, request: AppendRequestView, taken: int) -> Seq<Effect> {
        let contact = Event::LeaderContact { term: request.term, leader: request.leader };
        let front = node_effects(next_actions(self.node, contact, self.position()));
        let after = self.after_append(request, taken);
        if !follows(self.node, request.term) {
            front
        } else if !self.reaches(request) {
            front.push(Effect::Reply(self.append_reply(request, taken)))
        } else {
            front.push(
                Effect::FlushLog {
                    last_index: after.log.last_index() as u64,
                    commit_index: after.log.commit_index,
                },
            ).push(Effect::Reply(self.append_reply(request, taken)))
        }
    }

    /// The replica after it noted that a snapshot covers its log through
    /// `index`: the snapshot index rises to `index` if `index` is committed.
    pub open spec fn after_note(self, index: u64) -> Replication {
        if self.log.snapshot_index < index <= self.log.commit_index {
            Replication { log: LogView { snapshot_index: index, ..self.log }, ..self }
        } else {
            self
        }
    }

    /// The replica after it was asked to compact its log through `up_to`:
    /// the entries that a snapshot covers are removed.
    pub open spec fn after_compact(self, up_to: u64) -> Replication {
        if up_to <= self.log.snapshot_index {
            Replication { log: self.log.compacted(up_to as int), ..self }
        } else {
            self
        }
    }

    /// Whether the replica installs the offered snapshot: it follows the
    /// sender, the snapshot's last term is not later than the sender's, and
    /// the snapshot covers more than the replica has committed.
    pub open spec fn installs(self, offer: SnapshotOffer) -> bool {
        &&& follows(self.node, offer.term)
        &&& offer.last_term <= offer.term
        &&& offer.index > self.log.commit_index
    }

    /// The replica after a snapshot offer: the role machine sees the
    /// sender's term, and a replica that installs the snapshot makes its log
    /// start after it.
    pub open spec fn after_offer(self, offer: SnapshotOffer) -> Replication {
        let contact = Event::LeaderContact { term: offer.term, leader: offer.leader };
        Replication {
            node: next_state(self.node, contact, self.position()),
            log: if self.installs(offer) {
                self.log.installed(offer.index, offer.last_term)
            } else {
                self.log
            },
            progress: self.progress,
        }
    }

    /// The answer to a snapshot offer from a replica that follows the
    /// sender: agreement through the snapshot when the replica installed the
    /// snapshot or had committed through it before; failure when the offer
    /// names a last term later than the sender's.
    pub open spec fn offer_reply(self, offer: SnapshotOffer) -> AppendReply {
        if offer.last_term <= offer.term {
            AppendReply { term: offer.term, success: true, match_index: offer.index }
        } else {
            AppendReply {
                term: offer.term,
                success: false,
                match_index: self.log.last_index() as u64,
            }
        }
    }

    /// What the caller must do after a snapshot offer, in order: the role
    /// machine's actions; then, for a replica that follows, the answer,
    /// preceded by the flush of the log when the snapshot was installed.
    pub open spec fn offer_effects(self, offer: SnapshotOffer) -> Seq<Effect> {
        let contact = Event::LeaderContact { term: offer.term, leader: offer.leader };
        let front = node_effects(next_actions(self.node, contact, self.position()));
        let after = self.after_offer(offer);
        if !follows(self.node, offer.term) {
            front
        } else if !self.installs(offer) {
            front.push(Effect::Reply(self.offer_reply(offer)))
        } else {
            front.push(
                Effect::FlushLog {
                    last_index: after.log.last_index() as u64,
                    commit_index: after.log.commit_index,
                },
            ).push(Effect::Reply(self.offer_reply(offer)))
        }
    }

    /// The replica after it noted that replica `from` holds the log durably
    /// through `index` and left the commit watermark at `commit`.
    pub open spec fn after_progress(self, from: u64, index: u64, commit: u64) -> Replication {
        Replication {
            node: self.node,
            log: raised(self.log, commit as int),
            progress: progressed(
                self.progress,
                from,
                lower(index as int, self.log.last_index()) as u64,
            ),
        }
    }

    /// Whether `commit` is where the commit watermark settles after that
    /// note; see [`commit_settled`].
    pub open spec fn settles(self, from: u64, index: u64, commit: u64) -> bool {
        commit_settled(
            self.log,
            progressed(self.progress, from, lower(index as int, self.log.last_index()) as u64),
            self.node,
            commit,
        )
    }

    /// The replica after the leader's own log became durable through
    /// `through`, with the commit watermark left at `commit`: a leader
    /// notes its own progress; any other node changes nothing.
    pub open spec fn after_persisted(self, through: u64, commit: u64) -> Replication {
        if self.node.role == Role::Leader {
            self.after_progress(self.node.id, through, commit)
        } else {
            self
        }
    }

    /// The replica after follower `from` answered `reply`, with the commit
    /// watermark left at `commit`: the role machine sees the follower's
    /// term, and a leader that counts the answer notes the progress.
    pub open spec fn after_reply(self, from: u64, reply: AppendReply, commit: u64) -> Replication {
        let seen = self.after_event(Event::PeerTerm { term: reply.term });
        if counts(self.node, from, reply) {
            seen.after_progress(from, reply.match_index, commit)
        } else {
            seen
        }
    }
}

/// One replica of the cluster.
#[derive(Debug)]
pub struct Replica {
    node: Node,
    log: CommandLog,
    executor: Executor,
    progress: Vec<u64>,
}

impl Replica {
    /// The role state.
    pub closed spec fn node(&self) -> NodeView {
        self.node@
    }

    /// The quorum configuration.
    pub closed spec fn config(&self) -> QuorumConfig {
        self.node.config_spec()
    }

    /// The log.
    pub closed spec fn log(&self) -> LogView {
        self.log@
    }

    /// The state of the machine.
    pub closed spec fn state(&self) -> StateView {
        self.executor.state()
    }

    /// The index of the last applied entry.
    pub closed spec fn applied(&self) -> u64 {
        self.executor.applied()
    }

    /// The speculative executions in flight.
    pub closed spec fn pending(&self) -> Seq<PendingView> {
        self.executor.pending()
    }

    /// As a leader: for each replica, the last index known durable on it.
    pub closed spec fn progress(&self) -> Seq<u64> {
        self.progress@
    }

    /// What replication reads and changes of the replica.
    pub open spec fn replication(&self) -> Replication {
        Replication { node: self.node(), log: self.log(), progress: self.progress() }
    }

    /// The end of the replica's log.
    pub open spec fn position(&self) -> LogPosition {
        LogPosition {
            last_index: self.log().last_index() as u64,
            last_term: self.log().last_term(),
        }
    }

    /// The replica's invariant: the parts are well formed, what is applied
    /// is committed, and what a snapshot covers is applied.
    pub closed spec fn wf(&self) -> bool {
        &&& self.node.wf()
        &&& self.log.wf()
        &&& self.executor.wf()
        &&& self.log@.snapshot_index <= self.executor.applied() <= self.log@.commit_index
        &&& self.progress@.len() == self.node@.replicas
    }

    /// What the invariant says of the public state.
    pub proof fn lemma_wf(&self)
        requires
            self.wf(),
        ensures
            self.node().inv(),
            self.node().replicas == self.config().replicas_spec(),
            self.config().wf(),
            self.log().wf(),
            crate::executor::speculation_valid(self.state(), self.pending()),
            self.log().snapshot_index <= self.applied() <= self.log().commit_index,
            self.progress().len() == self.node().replicas,
    {
        self.node.lemma_wf();
    }

    /// A follower with an empty log and machine; `None` when `id` is no
    /// member of the cluster or the cluster is too large to track.
    pub fn new(id: u64, config: QuorumConfig) -> (replica: Option<Self>)
        requires
            config.wf(),
        ensures
            replica is Some <==> id < config.replicas_spec() && config.replicas_spec()
                <= usize::MAX,
            replica matches Some(r) ==> {
                &&& r.wf()
                &&& r.config() == config
                &&& r.node() == (NodeView {
                    id,
                    replicas: config.replicas_spec(),
                    role: Role::Follower,
                    term: 0,
                    voted_for: None,
                    leader: None,
                    votes: Set::empty(),
                    faulted: false,
                })
                &&& r.log() == (LogView {
                    base_index: 0,
                    base_term: 0,
                    slots: Seq::empty(),
                    commit_index: 0,
                    snapshot_index: 0,
                })
                &&& r.state() == crate::machine::initial_state()
                &&& r.applied() == 0
                &&& r.pending() == Seq::<PendingView>::empty()
            },
    {
        if config.replicas() > usize::MAX as u64 {
            return None;
        }
        let node = match Node::new(id, config) {
            Some(node) => node,
            None => {
                return None;
            },
        };
        let progress = no_progress(config.replicas() as usize);
        Some(Replica { node, log: CommandLog::new(), executor: Executor::new(), progress })
    }

    /// Rebuilds a replica from what it holds durably: a follower in the
    /// term and with the vote it had, with the log it had, and with the
    /// machine of its newest snapshot. Entries above the snapshot are applied
    /// again by [`Replica::apply_ready`].
    ///
    /// Refused when the durable state does not fit together; see
    /// [`durable_consistent`].
    pub fn restore(id: u64, config: QuorumConfig, durable: Durable) -> (restored: Result<
        Self,
        RestoreError,
    >)
        requires
            config.wf(),
        ensures
            match restored {
                Ok(r) => {
                    &&& id < config.replicas_spec() <= usize::MAX
                    &&& durable_consistent(durable)
                    &&& r.wf()
                    &&& r.config() == config
                    &&& r.node() == (NodeView {
                        id,
                        replicas: config.replicas_spec(),
                        role: Role::Follower,
                        term: durable.term,
                        voted_for: durable.voted_for,
                        leader: None,
                        votes: Set::empty(),
                        faulted: false,
                    })
                    &&& r.log() == durable_log(durable)
                    &&& r.applied() == durable_base(durable)
                    &&& r.state() == match durable.snapshot {
                        Some((snapshot, _)) => snapshot.state(),
                        None => crate::machine::initial_state(),
                    }
                    &&& r.pending() == Seq::<PendingView>::empty()
                    &&& r.progress() == Seq::new(config.replicas_spec() as nat, |r: int| 0u64)
                },
                Err(RestoreError::UnknownReplica) => !(id < config.replicas_spec()
                    <= usize::MAX),
                Err(RestoreError::Inconsistent) => id < config.replicas_spec() <= usize::MAX
                    && !durable_consistent(durable),
            },
    {
        if config.replicas() > usize::MAX as u64 {
            return Err(RestoreError::UnknownReplica);
        }
        let node = match Node::recover(id, config, durable.term, durable.voted_for) {
            Some(node) => node,
            None => {
                return Err(RestoreError::UnknownReplica);
            },
        };
        let ghost shape = durable;
        let Durable { term, voted_for: _, snapshot, entries, commit_index } = durable;
        let mut log = CommandLog::new();
        let executor = match snapshot {
            Some((snapshot, base_term)) => {
                if snapshot.index() == 0 || base_term > term {
                    return Err(RestoreError::Inconsistent);
                }
                let installed = log.install_snapshot(snapshot.index(), base_term);
                assert(installed is Ok);
                assert(log@.slots =~= Seq::empty());
                Executor::restore(snapshot)
            },
            None => Executor::new(),
        };
        let ghost base = durable_base(shape);
        let ghost base_term = durable_base_term(shape);
        let ghost slots = durable_log(shape).slots;
        assert(log@.slots =~= slots.take(0));
        let mut i: usize = 0;
        while i < entries.len()
            invariant
                i <= entries.len(),
                id < config.replicas_spec() <= usize::MAX,
                shape == durable,
                entries == shape.entries,
                term == shape.term,
                base == durable_base(shape),
                base_term == durable_base_term(shape),
                slots == durable_log(shape).slots,
                base_term <= term,
                log.wf(),
                log@ == (LogView {
                    base_index: base,
                    base_term,
                    slots: slots.take(i as int),
                    commit_index: base,
                    snapshot_index: base,
                }),
                forall|k: int|
                    0 <= k < i ==> {
                        &&& (#[trigger] entries[k])@.index == base + 1 + k
                        &&& entries[k]@.term <= term
                        &&& base_term <= entries[k]@.term
                    },
                forall|a: int, b: int|
                    0 <= a <= b < i ==> (#[trigger] entries[a])@.term <= (
                    #[trigger] entries[b])@.term,
            decreases entries.len() - i,
        {
            let entry = &entries[i];
            let last = log.last_index();
            if last == u64::MAX || entry.index() != last + 1 || entry.term() > term
                || entry.term() < log.last_term() {
                proof {
                    if durable_consistent(shape) {
                        assert(log@.last_index() == base + i);
                        assert(entries[i as int]@.index == base + 1 + i);
                        assert(base_term <= entries[i as int]@.term <= term);
                        if i > 0 {
                            assert(entries[i as int - 1]@.term <= entries[i as int]@.term);
                            assert(slots.take(i as int).last() == slots[i as int - 1]);
                            assert(slots[i as int - 1].term == entries[i as int - 1]@.term);
                            assert(log@.last_term() == entries[i as int - 1]@.term);
                        } else {
                            assert(log@.last_term() == base_term);
                        }
                    }
                }
                return Err(RestoreError::Inconsistent);
            }
            let ghost before = log@;
            let appended = log.append(entry.term(), entry.command().clone());
            assert(appended is Ok);
            proof {
                assert(slots.take(i + 1) =~= slots.take(i as int).push(slots[i as int]));
                assert forall|a: int, b: int| 0 <= a <= b < i + 1 implies (
                #[trigger] entries[a])@.term <= (#[trigger] entries[b])@.term by {
                    if b == i && a < b {
                        assert(slots.take(i as int).last() == slots[i as int - 1]);
                        assert(entries[a]@.term <= entries[i as int - 1]@.term);
                    }
                }
            }
            i += 1;
        }
        assert(slots.take(entries.len() as int) =~= slots);
        if commit_index > log.last_index() || commit_index < log.base_index() {
            return Err(RestoreError::Inconsistent);
        }
        let marked = log.mark_committed(commit_index);
        assert(marked is Ok);
        let progress = no_progress(config.replicas() as usize);
        Ok(Replica { node, log, executor, progress })
    }

    /// The replica's role.
    pub fn role(&self) -> (role: Role)
        ensures
            role == self.node().role,
    {
        self.node.role()
    }

    /// The replica's term.
    pub fn term(&self) -> (term: u64)
        ensures
            term == self.node().term,
    {
        self.node.term()
    }

    /// The leader the replica knows of.
    pub fn leader(&self) -> (leader: Option<u64>)
        ensures
            leader == self.node().leader,
    {
        self.node.leader()
    }

    /// The candidate the replica voted for in its term.
    pub fn voted_for(&self) -> (voted_for: Option<u64>)
        ensures
            voted_for == self.node().voted_for,
    {
        self.node.voted_for()
    }

    /// The index of the replica's last log entry.
    pub fn last_index(&self) -> (index: u64)
        requires
            self.wf(),
        ensures
            index == self.log().last_index(),
    {
        self.log.last_index()
    }

    /// The replica's commit watermark.
    pub fn commit_index(&self) -> (index: u64)
        ensures
            index == self.log().commit_index,
    {
        self.log.commit_index()
    }

    /// The index of the last entry the replica has applied.
    pub fn applied_index(&self) -> (index: u64)
        ensures
            index == self.applied(),
    {
        self.executor.applied_index()
    }

    /// The finalized value stored under `key`, if any.
    pub fn get(&self, key: u64) -> (value: Option<u64>)
        ensures
            value == crate::machine::lookup(self.state().kv, key),
    {
        self.executor.get(key)
    }

    /// The entry at `index`, if the log holds it.
    pub fn entry(&self, index: u64) -> (entry: Option<LogEntry>)
        requires
            self.wf(),
        ensures
            entry is Some <==> self.log().holds(index as int),
            entry matches Some(e) ==> e@ == self.log().entry_at(index as int),
    {
        self.log.get(index)
    }

    /// The term at `index`, if the log knows it.
    pub fn term_at(&self, index: u64) -> (term: Option<u64>)
        requires
            self.wf(),
        ensures
            term == self.log().term_at(index as int),
    {
        self.log.term_at(index)
    }

    /// How to bring a replica whose log ends at `replica_last` up to date
    /// from this replica's log; see [`crate::sync::plan_sync`].
    pub fn plan_sync(&self, replica_last: u64) -> (plan: crate::sync::SyncPlan)
        requires
            self.wf(),
        ensures
            plan == crate::sync::sync_plan(self.log(), replica_last),
    {
        crate::sync::plan_sync(&self.log, replica_last)
    }

    /// The end of the replica's log.
    pub fn log_position(&self) -> (position: LogPosition)
        requires
            self.wf(),
        ensures
            position == self.position(),
    {
        LogPosition { last_index: self.log.last_index(), last_term: self.log.last_term() }
    }

    /// Passes an event to the role machine and returns its actions.
    ///
    /// Log and machine stay as they are. A node that gains leadership
    /// forgets the progress it tracked in an earlier term: every replica
    /// starts at 0.
    pub fn handle(&mut self, event: Event) -> (actions: Vec<Action>)
        requires
            old(self).wf(),
        ensures
            final(self).wf(),
            final(self).config() == old(self).config(),
            final(self).replication() == old(self).replication().after_event(event),
            actions@ == next_actions(old(self).node(), event, old(self).position()),
            final(self).state() == old(self).state(),
            final(self).applied() == old(self).applied(),
            final(self).pending() == old(self).pending(),
    {
        let own = self.log_position();
        let led = self.node.role() == Role::Leader;
        proof {
            crate::protocol::lemma_term_never_decreases(self.node@, event, own);
        }
        let actions = self.node.step(event, own);
        if !led && self.node.role() == Role::Leader {
            self.progress = no_progress(self.progress.len());
        }
        actions
    }

    /// As the leader, the replication message that continues a follower's
    /// log after `prev_index`; `None` on any other node, and when the log
    /// does not reach back to `prev_index` or ends before it.
    pub fn append_request(&self, prev_index: u64) -> (request: Option<AppendRequest>)
        requires
            self.wf(),
        ensures
            request is Some <==> self.node().role == Role::Leader && self.log().base_index
                <= prev_index <= self.log().last_index(),
            request matches Some(r) ==> {
                &&& r.term == self.node().term
                &&& r.leader == self.node().id
                &&& r.prev_index == prev_index
                &&& Some(r.prev_term) == self.log().term_at(prev_index as int)
                &&& r.leader_commit == self.log().commit_index
                &&& r.entries@.len() == self.log().last_index() - prev_index
                &&& forall|k: int|
                    0 <= k < r.entries@.len() ==> (#[trigger] r.entries@[k])@
                        == self.log().entry_at(prev_index + 1 + k)
            },
    {
        if self.node.role() != Role::Leader {
            return None;
        }
        if prev_index < self.log.base_index() || prev_index > self.log.last_index() {
            return None;
        }
        let prev_term = self.log.term_at(prev_index).unwrap();
        let entries = if prev_index == self.log.last_index() {
            Vec::new()
        } else {
            self.log.entries_from(prev_index + 1).unwrap()
        };
        Some(
            AppendRequest {
                term: self.node.term(),
                leader: self.node.id(),
                prev_index,
                prev_term,
                entries,
                leader_commit: self.log.commit_index(),
            },
        )
    }

    /// As the leader, appends `command` to the log and returns its index.
    ///
    /// Any other node refuses and names the leader it knows of.
    pub fn propose(&mut self, command: Command) -> (proposed: Result<u64, ProposeError>)
        requires
            old(self).wf(),
        ensures
            final(self).wf(),
            final(self).config() == old(self).config(),
            proposed == old(self).replication().propose_answer(),
            final(self).replication() == old(self).replication().after_propose(command@),
            final(self).state() == old(self).state(),
            final(self).applied() == old(self).applied(),
            final(self).pending() == old(self).pending(),
    {
        if self.node.role() != Role::Leader {
            return Err(ProposeError::NotLeader { leader: self.node.leader() });
        }
        match self.log.append(self.node.term(), command) {
            Ok(index) => Ok(index),
            Err(e) => Err(ProposeError::Log(e)),
        }
    }

    /// Answers a fast-path proposal that carries the coordinator's `term`.
    ///
    /// - A replica with faulty storage or a newer term refuses.
    /// - A command that is no longer fresh is answered as superseded, with
    ///   what the machine reports for it.
    /// - A command that conflicts with another command in flight on this
    ///   replica is refused: one that the log holds and has not applied yet,
    ///   or one that was executed speculatively.
    /// - A command that is already in flight speculatively is answered with
    ///   its recorded result again.
    /// - Any other command is executed speculatively and answered with the
    ///   value each of its keys holds.
    pub fn propose_fast(&mut self, term: u64, command: Command) -> (ack: Ack)
        requires
            old(self).wf(),
        ensures
            final(self).wf(),
            final(self).config() == old(self).config(),
            final(self).replication() == old(self).replication(),
            final(self).state() == old(self).state(),
            final(self).applied() == old(self).applied(),
            old(self).node().faulted ==> {
                &&& ack matches Ack::Rejected(refusal)
                &&& refusal == Refusal::Unavailable
                &&& final(self).pending() == old(self).pending()
            },
            !old(self).node().faulted && term < old(self).node().term ==> {
                &&& ack matches Ack::Rejected(refusal)
                &&& refusal == Refusal::StaleTerm
                &&& final(self).pending() == old(self).pending()
            },
            !old(self).node().faulted && term >= old(self).node().term ==> match ack {
                Ack::Superseded(reported) => {
                    &&& !crate::machine::is_fresh(old(self).state().sessions, command@.id)
                    &&& reported@ == outcome(old(self).state(), command@)
                    &&& final(self).pending() == old(self).pending()
                },
                Ack::Rejected(refusal) => {
                    &&& refusal == Refusal::Conflict
                    &&& crate::machine::is_fresh(old(self).state().sessions, command@.id)
                    &&& final(self).pending() == old(self).pending()
                    &&& log_blocks(old(self).log(), old(self).applied(), command@) || {
                        &&& !crate::executor::is_pending(old(self).pending(), command@.id)
                        &&& exists|i: int|
                            0 <= i < old(self).pending().len() && crate::conflict::conflicts(
                                command@,
                                (#[trigger] old(self).pending()[i]).command,
                            )
                    }
                },
                Ack::Accepted(values) => {
                    &&& crate::machine::is_fresh(old(self).state().sessions, command@.id)
                    &&& !log_blocks(old(self).log(), old(self).applied(), command@)
                    &&& if crate::executor::is_pending(old(self).pending(), command@.id) {
                        &&& final(self).pending() == old(self).pending()
                        &&& exists|i: int|
                            0 <= i < old(self).pending().len() && (#[trigger] old(
                                self,
                            ).pending()[i]) == (PendingView {
                                command: old(self).pending()[i].command,
                                result: values@,
                            }) && old(self).pending()[i].command.id == command@.id
                    } else {
                        &&& forall|i: int|
                            0 <= i < old(self).pending().len() ==> crate::conflict::commutes(
                                command@,
                                (#[trigger] old(self).pending()[i]).command,
                            )
                        &&& values@ == crate::machine::read_values(
                            old(self).state().kv,
                            command@.keys,
                        )
                        &&& final(self).pending() == old(self).pending().push(
                            PendingView { command: command@, result: values@ },
                        )
                    }
                },
            },
    {
        if self.node.is_faulted() {
            return Ack::Rejected(Refusal::Unavailable);
        }
        if term < self.node.term() {
            return Ack::Rejected(Refusal::StaleTerm);
        }
        let ghost pre_pending = self.executor.pending();
        let ghost view = command@;
        if let Some(reported) = self.executor.recall(command.id()) {
            assert(reported@ == outcome(self.executor.state(), view));
            return Ack::Superseded(reported);
        }
        match self.log.first_conflict_after(self.executor.applied_index(), &command) {
            Some(index) => {
                assert(self.log@.blocks(self.executor.applied() as int, view, index as int));
                return Ack::Rejected(Refusal::Conflict);
            },
            None => {},
        }
        match self.executor.execute_speculative(command) {
            Ok(values) => {
                proof {
                    if !crate::executor::is_pending(pre_pending, view.id) {
                        if exists|i: int|
                            0 <= i < pre_pending.len() && crate::conflict::conflicts(
                                view,
                                (#[trigger] pre_pending[i]).command,
                            ) {
                        }
                    }
                }
                Ack::Accepted(values)
            },
            Err(SpeculationError::Conflict) => {
                proof {
                    if !crate::executor::is_pending(pre_pending, view.id) {
                        if forall|i: int|
                            0 <= i < pre_pending.len() ==> crate::conflict::commutes(
                                view,
                                (#[trigger] pre_pending[i]).command,
                            ) {
                        }
                    }
                }
                Ack::Rejected(Refusal::Conflict)
            },
            Err(SpeculationError::Superseded(reported)) => Ack::Superseded(reported),
        }
    }

    /// Drops the speculative execution of the command with identity `id`,
    /// as a leader asks when recovery has decided that the command never
    /// happened. Returns whether the command was in flight here.
    pub fn discard_speculation(&mut self, id: crate::command::CommandId) -> (dropped: bool)
        requires
            old(self).wf(),
        ensures
            final(self).wf(),
            final(self).config() == old(self).config(),
            final(self).replication() == old(self).replication(),
            final(self).state() == old(self).state(),
            final(self).applied() == old(self).applied(),
            dropped == crate::executor::is_pending(old(self).pending(), id),
            final(self).pending() == crate::executor::without(old(self).pending(), id),
    {
        self.executor.discard(id)
    }

    /// Applies every committed entry that has not been applied yet, in index
    /// order, and returns what each application did.
    pub fn apply_ready(&mut self) -> (done: Vec<Applied>)
        requires
            old(self).wf(),
        ensures
            final(self).wf(),
            final(self).config() == old(self).config(),
            final(self).replication() == old(self).replication(),
            final(self).applied() == old(self).log().commit_index,
            done.len() == old(self).log().commit_index - old(self).applied(),
            final(self).state() == replay_from(
                old(self).state(),
                ready_commands(
                    old(self).log(),
                    old(self).applied() as int,
                    old(self).log().commit_index as int,
                ),
            ),
            final(self).pending() == left_in_flight(
                old(self).pending(),
                old(self).state(),
                ready_commands(
                    old(self).log(),
                    old(self).applied() as int,
                    old(self).log().commit_index as int,
                ),
            ),
            forall|k: int|
                0 <= k < done.len() ==> applied_as(
                    #[trigger] done[k],
                    old(self).pending(),
                    old(self).state(),
                    ready_commands(
                        old(self).log(),
                        old(self).applied() as int,
                        old(self).applied() + k,
                    ),
                    old(self).log().slot_at(old(self).applied() + 1 + k).command,
                ),
    {
        let ghost start = self.executor.applied() as int;
        let ghost state0 = self.executor.state();
        let ghost pending0 = self.executor.pending();
        let ghost log = self.log@;
        let mut done: Vec<Applied> = Vec::new();
        let commit = self.log.commit_index();
        assert(ready_commands(log, start, start) =~= Seq::<CommandView>::empty());
        while self.executor.applied_index() < commit
            invariant
                self.wf(),
                self.log@ == log,
                self.node@ == old(self).node@,
                self.node.config_spec() == old(self).node.config_spec(),
                self.progress@ == old(self).progress@,
                commit == log.commit_index,
                start <= self.executor.applied() <= commit,
                done.len() == self.executor.applied() - start,
                self.executor.state() == replay_from(
                    state0,
                    ready_commands(log, start, self.executor.applied() as int),
                ),
                self.executor.pending() == left_in_flight(
                    pending0,
                    state0,
                    ready_commands(log, start, self.executor.applied() as int),
                ),
                forall|k: int|
                    0 <= k < done.len() ==> applied_as(
                        #[trigger] done[k],
                        pending0,
                        state0,
                        ready_commands(log, start, start + k),
                        log.slot_at(start + 1 + k).command,
                    ),
            decreases commit - self.executor.applied(),
        {
            let ghost at = self.executor.applied() as int;
            let index = self.executor.applied_index() + 1;
            let entry = self.log.get(index);
            assert(log.holds(index as int));
            let entry = entry.unwrap();
            let applied = self.executor.apply_committed(index, entry.command());
            let applied = applied.unwrap();
            proof {
                let before = ready_commands(log, start, at);
                let after = ready_commands(log, start, at + 1);
                assert(after =~= before.push(log.slot_at(at + 1).command));
                assert(after.drop_last() =~= before);
                lemma_replay_push(state0, before, log.slot_at(at + 1).command);
            }
            done.push(applied);
        }
        done
    }

    /// Takes a snapshot of the machine and notes in the log that the
    /// entries through the last applied index are covered by it.
    pub fn take_snapshot(&mut self) -> (snapshot: Snapshot)
        requires
            old(self).wf(),
        ensures
            final(self).wf(),
            final(self).config() == old(self).config(),
            final(self).replication() == old(self).replication().after_note(old(self).applied()),
            final(self).log() == (LogView {
                snapshot_index: old(self).applied(),
                ..old(self).log()
            }),
            final(self).state() == old(self).state(),
            final(self).applied() == old(self).applied(),
            final(self).pending() == old(self).pending(),
            snapshot.index_spec() == old(self).applied(),
            snapshot.state() == old(self).state(),
    {
        let snapshot = self.executor.snapshot();
        let recorded = self.log.record_snapshot(self.executor.applied_index());
        assert(recorded is Ok);
        snapshot
    }

    /// Removes the log entries at or below `up_to_index`; see
    /// [`CommandLog::compact`].
    pub fn compact(&mut self, up_to_index: u64) -> (compacted: Result<u64, LogError>)
        requires
            old(self).wf(),
        ensures
            final(self).wf(),
            final(self).config() == old(self).config(),
            final(self).replication() == old(self).replication().after_compact(up_to_index),
            final(self).state() == old(self).state(),
            final(self).applied() == old(self).applied(),
            final(self).pending() == old(self).pending(),
            match compacted {
                Ok(removed) => {
                    &&& up_to_index <= old(self).log().snapshot_index
                    &&& removed == final(self).log().base_index - old(self).log().base_index
                },
                Err(LogError::NotInSnapshot) => up_to_index > old(self).log().snapshot_index,
                Err(_) => false,
            },
    {
        self.log.compact(up_to_index)
    }
}

impl Replica {
    /// Wraps the role machine's actions as effects.
    fn wrap(actions: Vec<Action>) -> (effects: Vec<Effect>)
        ensures
            effects@ == node_effects(actions@),
    {
        let mut effects: Vec<Effect> = Vec::new();
        let mut i: usize = 0;
        while i < actions.len()
            invariant
                i <= actions.len(),
                effects@.len() == i,
                forall|j: int| 0 <= j < i ==> effects@[j] == Effect::Node(actions@[j]),
            decreases actions.len() - i,
        {
            effects.push(Effect::Node(actions[i]));
            i += 1;
        }
        assert(effects@ =~= node_effects(actions@));
        effects
    }

    /// Handles a leader's replication message.
    ///
    /// The role machine sees the leader's term first. A message that the
    /// node does not follow changes nothing else and yields the role
    /// machine's actions alone. Otherwise:
    ///
    /// - when the log does not hold `prev_term` at `prev_index`, the log
    ///   stays as it is and the reply reports failure with the end of the
    ///   log;
    /// - else the entries are taken in one by one, up to the first that
    ///   does not continue the log or that the log refuses; the commit
    ///   watermark rises to the leader's, but not beyond the last entry
    ///   taken in; the reply reports how far the log now agrees.
    ///
    /// The effects end with the reply, and the effect before it makes the
    /// log durable.
    pub fn handle_append(&mut self, request: AppendRequest) -> (effects: Vec<Effect>)
        requires
            old(self).wf(),
        ensures
            final(self).wf(),
            final(self).config() == old(self).config(),
            final(self).state() == old(self).state(),
            final(self).applied() == old(self).applied(),
            final(self).pending() == old(self).pending(),
            exists|taken: int|
                {
                    &&& #[trigger] old(self).replication().takes(request@, taken)
                    &&& final(self).replication() == old(self).replication().after_append(request@, taken)
                    &&& effects@ == old(self).replication().append_effects(request@, taken)
                },
    {
        let ghost pre_node = self.node@;
        let ghost pre_log = self.log@;
        let ghost event = Event::LeaderContact { term: request.term, leader: request.leader };
        let ghost own = self.position();
        let ghost entries = request@.entries;
        let ghost pre = self.replication();
        let followed = !self.node.is_faulted() && request.term >= self.node.term() && !(
        request.term == self.node.term() && self.node.role() == Role::Leader);
        let actions = self.handle(event_of(request.term, request.leader));
        let mut effects = Self::wrap(actions);
        let ghost front = effects@;
        if !followed {
            assert(pre.takes(request@, 0));
            return effects;
        }
        assert(self.node@.term == request.term);
        let matched = match self.log.term_at(request.prev_index) {
            Some(t) => t == request.prev_term,
            None => false,
        };
        if !matched {
            let reply = AppendReply {
                term: request.term,
                success: false,
                match_index: self.log.last_index(),
            };
            effects.push(Effect::Reply(reply));
            assert(pre.takes(request@, 0));
            return effects;
        }
        let mut taken: usize = 0;
        let mut success = true;
        while taken < request.entries.len()
            invariant_except_break
                success,
            invariant
                self.node.wf(),
                self.log.wf(),
                self.executor.wf(),
                self.node@ == next_state(pre_node, event, own),
                self.node.config_spec() == old(self).node.config_spec(),
                self.executor.state() == old(self).executor.state(),
                self.executor.applied() == old(self).executor.applied(),
                self.executor.pending() == old(self).executor.pending(),
                self.progress@ == old(self).progress@,
                self.progress@.len() == self.node@.replicas,
                pre_log == old(self).log@,
                entries == request@.entries,
                pre_log.wf(),
                pre_log.base_index <= request.prev_index <= pre_log.last_index(),
                self.log@.snapshot_index <= self.executor.applied() <= self.log@.commit_index,
                taken <= request.entries.len(),
                self.log@ == accept_many(pre_log, entries, taken as int),
                forall|k: int|
                    0 <= k < taken ==> #[trigger] entry_fits(
                        accept_many(pre_log, entries, k),
                        entries,
                        request.prev_index,
                        k,
                    ),
                request.prev_index + taken <= self.log@.last_index(),
            ensures
                self.node.wf(),
                self.log.wf(),
                self.executor.wf(),
                self.node@ == next_state(pre_node, event, own),
                self.node.config_spec() == old(self).node.config_spec(),
                self.executor.state() == old(self).executor.state(),
                self.executor.applied() == old(self).executor.applied(),
                self.executor.pending() == old(self).executor.pending(),
                self.progress@ == old(self).progress@,
                self.progress@.len() == self.node@.replicas,
                self.log@.snapshot_index <= self.executor.applied() <= self.log@.commit_index,
                taken <= request.entries.len(),
                success == (taken == request.entries.len()),
                self.log@ == accept_many(pre_log, entries, taken as int),
                forall|k: int|
                    0 <= k < taken ==> #[trigger] entry_fits(
                        accept_many(pre_log, entries, k),
                        entries,
                        request.prev_index,
                        k,
                    ),
                !success ==> !entry_fits(
                    self.log@,
                    entries,
                    request.prev_index,
                    taken as int,
                ),
                request.prev_index + taken <= self.log@.last_index(),
            decreases request.entries.len() - taken,
        {
            let entry = &request.entries[taken];
            let index = entry.index();
            assert(entries[taken as int] == entry@);
            if index <= request.prev_index || index - request.prev_index - 1 != taken as u64 {
                success = false;
                break ;
            }
            let ghost before = self.log@;
            match self.log.accept(index, entry.term(), entry.command().clone()) {
                Ok(_) => {
                    proof {
                        assert(entry_fits(before, entries, request.prev_index, taken as int));
                        assert(self.log@ == accept_many(
                            pre_log,
                            entries,
                            taken as int + 1,
                        ));
                    }
                    taken += 1;
                },
                Err(_) => {
                    success = false;
                    break ;
                },
            }
        }
        let match_index = request.prev_index + (taken as u64);
        let target = if request.leader_commit <= match_index {
            request.leader_commit
        } else {
            match_index
        };
        let marked = self.log.mark_committed(target);
        assert(marked is Ok);
        let reply = AppendReply { term: request.term, success, match_index };
        effects.push(
            Effect::FlushLog {
                last_index: self.log.last_index(),
                commit_index: self.log.commit_index(),
            },
        );
        effects.push(Effect::Reply(reply));
        proof {
            assert(pre.takes(request@, taken as int));
            assert(effects@ =~= pre.append_effects(request@, taken as int));
        }
        effects
    }

    /// As the leader, takes a snapshot of the machine and offers it to a
    /// replica that lags behind; `None` on any other node, and when nothing
    /// has been applied yet.
    ///
    /// The log notes that the entries through the last applied index are
    /// covered by a snapshot.
    pub fn snapshot_request(&mut self) -> (request: Option<SnapshotRequest>)
        requires
            old(self).wf(),
        ensures
            final(self).wf(),
            final(self).config() == old(self).config(),
            final(self).node() == old(self).node(),
            final(self).progress() == old(self).progress(),
            final(self).state() == old(self).state(),
            final(self).applied() == old(self).applied(),
            final(self).pending() == old(self).pending(),
            request is Some <==> old(self).node().role == Role::Leader && old(self).applied() > 0,
            request is None ==> final(self).replication() == old(self).replication(),
            request is Some ==> final(self).replication() == old(self).replication().after_note(
                old(self).applied(),
            ),
            request matches Some(r) ==> {
                &&& r.term == old(self).node().term
                &&& r.leader == old(self).node().id
                &&& r.snapshot.index_spec() == old(self).applied()
                &&& r.snapshot.state() == old(self).state()
                &&& Some(r.last_term) == old(self).log().term_at(old(self).applied() as int)
                &&& final(self).log() == (LogView {
                    snapshot_index: old(self).applied(),
                    ..old(self).log()
                })
            },
    {
        if self.node.role() != Role::Leader || self.executor.applied_index() == 0 {
            return None;
        }
        let applied = self.executor.applied_index();
        let last_term = self.log.term_at(applied).unwrap();
        let snapshot = self.take_snapshot();
        Some(
            SnapshotRequest { term: self.node.term(), leader: self.node.id(), last_term, snapshot },
        )
    }

    /// Handles a leader's offer of a snapshot.
    ///
    /// The role machine sees the leader's term first. A replica that does
    /// not follow changes nothing else. A replica that follows installs the
    /// snapshot if it covers more than the replica has committed: the log
    /// starts after the snapshot, keeping the entries after it when it held
    /// the snapshot's last entry, and the machine becomes the snapshot's;
    /// speculative executions in flight are dropped. The reply reports
    /// agreement through the snapshot.
    pub fn handle_snapshot(&mut self, request: SnapshotRequest) -> (effects: Vec<Effect>)
        requires
            old(self).wf(),
        ensures
            final(self).wf(),
            final(self).config() == old(self).config(),
            final(self).replication() == old(self).replication().after_offer(request.offer()),
            effects@ == old(self).replication().offer_effects(request.offer()),
            old(self).replication().installs(request.offer()) ==> {
                &&& final(self).state() == request.snapshot.state()
                &&& final(self).applied() == request.snapshot.index_spec()
                &&& final(self).pending() == Seq::<PendingView>::empty()
            },
            !old(self).replication().installs(request.offer()) ==> {
                &&& final(self).state() == old(self).state()
                &&& final(self).applied() == old(self).applied()
                &&& final(self).pending() == old(self).pending()
            },
    {
        let ghost pre = self.replication();
        let ghost offer = request.offer();
        let followed = !self.node.is_faulted() && request.term >= self.node.term() && !(
        request.term == self.node.term() && self.node.role() == Role::Leader);
        let actions = self.handle(event_of(request.term, request.leader));
        let mut effects = Self::wrap(actions);
        if !followed {
            return effects;
        }
        if request.last_term > request.term {
            let reply = AppendReply {
                term: request.term,
                success: false,
                match_index: self.log.last_index(),
            };
            effects.push(Effect::Reply(reply));
            return effects;
        }
        let index = request.snapshot.index();
        let reply = AppendReply { term: request.term, success: true, match_index: index };
        match self.log.install_snapshot(index, request.last_term) {
            Ok(()) => {
                self.executor = Executor::restore(request.snapshot);
                effects.push(
                    Effect::FlushLog {
                        last_index: self.log.last_index(),
                        commit_index: self.log.commit_index(),
                    },
                );
                effects.push(Effect::Reply(reply));
            },
            Err(_) => {
                effects.push(Effect::Reply(reply));
            },
        }
        proof {
            assert(effects@ =~= pre.offer_effects(offer));
        }
        effects
    }

    /// The number of replicas whose progress is at least `index`.
    fn replicated_on(&self, index: u64) -> (count: u64)
        requires
            self.progress@.len() <= u64::MAX,
        ensures
            count == count_at_least(self.progress@, index as int),
    {
        let mut count: u64 = 0;
        let mut i: usize = 0;
        assert(self.progress@.take(0) =~= Seq::<u64>::empty());
        while i < self.progress.len()
            invariant
                i <= self.progress.len(),
                self.progress@.len() <= u64::MAX,
                count <= i,
                count == count_at_least(self.progress@.take(i as int), index as int),
            decreases self.progress.len() - i,
        {
            proof {
                assert(self.progress@.take(i + 1).drop_last() =~= self.progress@.take(i as int));
                assert(self.progress@.take(i + 1).last() == self.progress@[i as int]);
            }
            if self.progress[i] >= index {
                count += 1;
            }
            i += 1;
        }
        assert(self.progress@.take(self.progress.len() as int) =~= self.progress@);
        count
    }

    /// As the leader, raises the commit watermark to the highest index that
    /// is committable, if there is one.
    fn advance_commit(&mut self)
        requires
            old(self).wf(),
        ensures
            final(self).wf(),
            final(self).config() == old(self).config(),
            final(self).node() == old(self).node(),
            final(self).state() == old(self).state(),
            final(self).applied() == old(self).applied(),
            final(self).pending() == old(self).pending(),
            final(self).progress() == old(self).progress(),
            final(self).log() == raised(old(self).log(), final(self).log().commit_index as int),
            old(self).node().role != Role::Leader ==> final(self).log() == old(self).log(),
            commit_settled(
                old(self).log(),
                old(self).progress(),
                old(self).node(),
                final(self).log().commit_index,
            ),
    {
        if self.node.role() != Role::Leader {
            return ;
        }
        let ghost pre_log = self.log@;
        let term = self.node.term();
        let commit = self.log.commit_index();
        let mut n = self.log.last_index();
        proof {
            self.node.lemma_wf();
        }
        while n > commit
            invariant
                self.wf(),
                self.log@ == pre_log,
                pre_log == old(self).log@,
                self.node@ == old(self).node@,
                self.node@.role == Role::Leader,
                self.node@.term == term,
                self.node.config_spec() == old(self).node.config_spec(),
                self.executor.state() == old(self).executor.state(),
                self.executor.applied() == old(self).executor.applied(),
                self.executor.pending() == old(self).executor.pending(),
                self.progress@ == old(self).progress@,
                commit == pre_log.commit_index,
                commit <= n <= pre_log.last_index(),
                forall|m: int|
                    n < m ==> !#[trigger] committable(
                        pre_log,
                        self.progress@,
                        self.node@.replicas as int,
                        term,
                        m,
                    ),
            decreases n,
        {
            proof {
                self.node.lemma_wf();
            }
            let held = match self.log.term_at(n) {
                Some(t) => t == term,
                None => false,
            };
            let count = self.replicated_on(n);
            let enough = self.node.config().is_majority(count);
            assert((held && enough) == committable(
                pre_log,
                self.progress@,
                self.node@.replicas as int,
                term,
                n as int,
            ));
            if held && enough {
                let marked = self.log.mark_committed(n);
                assert(marked is Ok);
                return ;
            }
            n -= 1;
        }
    }

    /// Notes that replica `from` holds the leader's log durably through
    /// `index`, and raises the commit watermark if that completes a majority.
    fn record_progress(&mut self, from: u64, index: u64)
        requires
            old(self).wf(),
            from < old(self).node().replicas,
        ensures
            final(self).wf(),
            final(self).config() == old(self).config(),
            final(self).node() == old(self).node(),
            final(self).state() == old(self).state(),
            final(self).applied() == old(self).applied(),
            final(self).pending() == old(self).pending(),
            final(self).progress() == progressed(
                old(self).progress(),
                from,
                lower(index as int, old(self).log().last_index()) as u64,
            ),
            final(self).log() == raised(old(self).log(), final(self).log().commit_index as int),
            old(self).node().role != Role::Leader ==> final(self).log() == old(self).log(),
            commit_settled(
                old(self).log(),
                final(self).progress(),
                old(self).node(),
                final(self).log().commit_index,
            ),
    {
        let last = self.log.last_index();
        let reached = if index <= last {
            index
        } else {
            last
        };
        assert(self.progress.len() == self.node@.replicas);
        let position = from as usize;
        if self.progress[position] < reached {
            self.progress.set(position, reached);
        }
        assert(self.progress@ =~= progressed(old(self).progress@, from, reached));
        self.advance_commit();
    }

    /// As the leader, takes note that the own log is durable through
    /// `through`. The leader counts itself towards a majority only for what
    /// it has made durable.
    ///
    /// On any other node nothing changes.
    pub fn on_persisted(&mut self, through: u64)
        requires
            old(self).wf(),
        ensures
            final(self).wf(),
            final(self).config() == old(self).config(),
            final(self).state() == old(self).state(),
            final(self).applied() == old(self).applied(),
            final(self).pending() == old(self).pending(),
            final(self).replication() == old(self).replication().after_persisted(
                through,
                final(self).log().commit_index,
            ),
            old(self).node().role == Role::Leader ==> old(self).replication().settles(
                old(self).node().id,
                through,
                final(self).log().commit_index,
            ),
    {
        if self.node.role() != Role::Leader {
            return ;
        }
        proof {
            self.node.lemma_wf();
        }
        self.record_progress(self.node.id(), through);
    }

    /// Handles follower `from`'s answer to a replication message.
    ///
    /// The role machine sees the follower's term first, and the node steps
    /// down if that term is newer. A node that still leads, and whose term
    /// the answer carries, notes a successful answer as progress of that
    /// follower and raises the commit watermark to the highest index that a
    /// majority holds durably and that was created in the leader's term.
    pub fn handle_append_reply(&mut self, from: u64, reply: AppendReply) -> (actions: Vec<Action>)
        requires
            old(self).wf(),
        ensures
            final(self).wf(),
            final(self).config() == old(self).config(),
            final(self).state() == old(self).state(),
            final(self).applied() == old(self).applied(),
            final(self).pending() == old(self).pending(),
            actions@ == next_actions(
                old(self).node(),
                Event::PeerTerm { term: reply.term },
                old(self).position(),
            ),
            final(self).replication() == old(self).replication().after_reply(
                from,
                reply,
                final(self).log().commit_index,
            ),
            counts(old(self).node(), from, reply) ==> old(self).replication().settles(
                from,
                reply.match_index,
                final(self).log().commit_index,
            ),
    {
        let counted = !self.node.is_faulted() && self.node.role() == Role::Leader && reply.term
            == self.node.term() && reply.success && from < self.node.config().replicas();
        proof {
            self.node.lemma_wf();
        }
        let actions = self.handle(peer_term(reply.term));
        if counted {
            self.record_progress(from, reply.match_index);
        }
        actions
    }
}

/// The progress of a leader that has heard from nobody yet.
fn no_progress(replicas: usize) -> (progress: Vec<u64>)
    ensures
        progress@ == Seq::new(replicas as nat, |r: int| 0u64),
{
    let mut progress: Vec<u64> = Vec::new();
    let mut i: usize = 0;
    while i < replicas
        invariant
            i <= replicas,
            progress@.len() == i,
            forall|r: int| 0 <= r < i ==> progress@[r] == 0,
        decreases replicas - i,
    {
        progress.push(0);
        i += 1;
    }
    assert(progress@ =~= Seq::new(replicas as nat, |r: int| 0u64));
    progress
}

/// The event of a leader's contact.
fn event_of(term: u64, leader: u64) -> (event: Event)
    ensures
        event == (Event::LeaderContact { term, leader }),
{
    Event::LeaderContact { term, leader }
}

/// The event of a peer's term.
fn peer_term(term: u64) -> (event: Event)
    ensures
        event == (Event::PeerTerm { term }),
{
    Event::PeerTerm { term }
}

} // verus!
