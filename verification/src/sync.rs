//! Catching up lagging replicas and settling commands that a crashed
//! coordinator left undecided.

use crate::log::{CommandLog, LogView};
use crate::quorum::{majority, recovery_threshold, QuorumConfig};
use vstd::prelude::*;

verus! {

/// How a leader brings a replica up to date.
#[derive(Clone, Copy, Debug, PartialEq, Eq, Structural)]
pub enum SyncPlan {
    /// The replica holds everything the leader holds.
    UpToDate,
    /// Send the entries from `from` on.
    Entries { from: u64 },
    /// The leader has compacted past what the replica holds: send the
    /// snapshot that covers the log through `through` and then, if
    /// `entries_follow`, the entries after `through`.
    Snapshot { through: u64, entries_follow: bool },
}

/// The plan for a replica whose log ends at `replica_last`.
pub open spec fn sync_plan(leader: LogView, replica_last: u64) -> SyncPlan {
    if replica_last >= leader.last_index() {
        SyncPlan::UpToDate
    } else if replica_last >= leader.base_index {
        SyncPlan::Entries { from: (replica_last + 1) as u64 }
    } else {
        SyncPlan::Snapshot {
            through: leader.snapshot_index,
            entries_follow: leader.snapshot_index < leader.last_index(),
        }
    }
}

/// Decides how to bring a replica whose log ends at `replica_last` up to
/// date from the leader's log.
pub fn plan_sync(leader: &CommandLog, replica_last: u64) -> (plan: SyncPlan)
    requires
        leader.wf(),
    ensures
        plan == sync_plan(leader@, replica_last),
{
    if replica_last >= leader.last_index() {
        SyncPlan::UpToDate
    } else if replica_last >= leader.base_index() {
        SyncPlan::Entries { from: replica_last + 1 }
    } else {
        let through = leader.snapshot_index();
        SyncPlan::Snapshot { through, entries_follow: through < leader.last_index() }
    }
}

/// Whatever the plan sends, the leader holds: entries are sent only from
/// above the compaction point, and nothing the replica lacks is skipped.
pub proof fn lemma_sync_plan_is_servable(leader: LogView, replica_last: u64)
    requires
        leader.wf(),
    ensures
        match sync_plan(leader, replica_last) {
            SyncPlan::UpToDate => replica_last >= leader.last_index(),
            SyncPlan::Entries { from } => {
                &&& from == replica_last + 1
                &&& leader.holds(from as int)
            },
            SyncPlan::Snapshot { through, entries_follow } => {
                &&& replica_last < leader.base_index
                &&& leader.base_index <= through <= leader.commit_index
                &&& entries_follow ==> leader.holds(through + 1)
                &&& !entries_follow ==> through == leader.last_index()
                &&& sync_plan(leader, through) == if entries_follow {
                    SyncPlan::Entries { from: (through + 1) as u64 }
                } else {
                    SyncPlan::UpToDate
                }
            },
        },
{
}

/// What becomes of a command that a crashed coordinator left undecided.
#[derive(Clone, Copy, Debug, PartialEq, Eq, Structural)]
pub enum Recovery {
    /// Too few replicas have answered to decide.
    AskMore,
    /// Enough of those asked accepted the command without conflict: it is
    /// committed.
    Commit,
    /// The command is treated as never having happened; the client must
    /// submit it again.
    Discard,
}

/// The decision for a command that `records` of `responders` replicas
/// accepted, in a cluster of `replicas`.
pub open spec fn recovery_decision(replicas: int, responders: int, records: int) -> Recovery {
    if responders < majority(replicas) {
        Recovery::AskMore
    } else if records >= recovery_threshold(responders) {
        Recovery::Commit
    } else {
        Recovery::Discard
    }
}

/// Settles an undecided command from the answers of the replicas asked.
pub fn recover_undecided(config: &QuorumConfig, responders: u64, records: u64) -> (decision:
    Recovery)
    ensures
        decision == recovery_decision(
            config.replicas_spec() as int,
            responders as int,
            records as int,
        ),
{
    if !config.is_majority(responders) {
        Recovery::AskMore
    } else if records >= crate::quorum::recovery_threshold_of(responders) {
        Recovery::Commit
    } else {
        Recovery::Discard
    }
}

/// A command that the fast path committed is never discarded by recovery:
/// whichever majority the new leader asks, enough of it holds the record.
pub proof fn lemma_recovery_commits_fast_committed(
    cluster: Set<u64>,
    fast_quorum: int,
    accepted: Set<u64>,
    responders: Set<u64>,
)
    requires
        cluster.finite(),
        crate::quorum::fast_quorum_valid(cluster.len() as int, fast_quorum),
        accepted.subset_of(cluster),
        responders.subset_of(cluster),
        accepted.len() >= fast_quorum,
        responders.len() >= majority(cluster.len() as int),
    ensures
        recovery_decision(
            cluster.len() as int,
            responders.len() as int,
            accepted.intersect(responders).len() as int,
        ) == Recovery::Commit,
{
    crate::quorum::lemma_fast_commit_is_recoverable(cluster, fast_quorum, accepted, responders);
}

/// Recovery never commits both of two commands that no replica accepted
/// together, as is the case for conflicting commands.
pub proof fn lemma_recovery_commits_one_of_conflicting(
    replicas: int,
    responders: Set<u64>,
    first: Set<u64>,
    second: Set<u64>,
)
    requires
        responders.finite(),
        first.subset_of(responders),
        second.subset_of(responders),
        first.disjoint(second),
    ensures
        !(recovery_decision(replicas, responders.len() as int, first.len() as int)
            == Recovery::Commit && recovery_decision(
            replicas,
            responders.len() as int,
            second.len() as int,
        ) == Recovery::Commit),
{
    crate::quorum::lemma_recovery_picks_at_most_one(responders, first, second);
}

} // verus!
