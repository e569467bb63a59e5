//! The state machines of the cluster: every replica's machine holds the
//! state that applying its log from the first entry through the last
//! applied index prescribes, whether the replica reached it by applying
//! entries, by installing a snapshot, or by starting again from one.

use crate::cluster::completeness::lemma_certified_logs_agree;
use crate::cluster::invariants::{based, certificate_ok, has_prefix, inv, members_ok_at, role_ok};
use crate::cluster::model::{commands, next, Cluster, Held, Step, Taken};
use crate::cluster::preserve::{extends, lemma_based_stays};
use crate::log::{lemma_accept_keeps_wf, LogEntryView, LogView};
use crate::machine::{lemma_replay_split, replay, replay_from};
use crate::replica::{accept_many, ready_commands};
use vstd::prelude::*;

verus! {

/// What holds of the state machine of replica `i`: what is applied lies
/// between what a snapshot covers and what is committed, and the state is
/// that of applying the replica's log through the last applied index.
pub open spec fn machine_ok(c: Cluster, i: int) -> bool {
    let h = c.machines[i];
    let m = c.members[i];
    &&& m.log.snapshot_index <= h.applied <= m.log.commit_index
    &&& h.state == replay(commands(c.logs[i]).take(h.applied as int))
}

/// What holds of a snapshot that was taken: it covers committed entries,
/// and holds the state of applying them.
pub open spec fn taken_ok(c: Cluster, t: Taken) -> bool {
    &&& t.index >= 1
    &&& t.log.len() == t.index
    &&& based(c, t.log, t.index, t.basis)
    &&& t.state == replay(commands(t.log))
}

/// The invariant of the state machines and snapshots.
pub open spec fn machines_inv(c: Cluster) -> bool {
    &&& c.machines.len() == c.size()
    &&& forall|i: int| 0 <= i < c.size() ==> #[trigger] machine_ok(c, i)
    &&& forall|t: Taken| c.snapshots.contains(t) ==> #[trigger] taken_ok(c, t)
}

/// Taking in entries leaves the commit watermark and the snapshot index
/// alone.
pub proof fn lemma_taking_in_keeps_marks(log: LogView, entries: Seq<LogEntryView>, taken: int)
    requires
        log.wf(),
    ensures
        accept_many(log, entries, taken).wf(),
        accept_many(log, entries, taken).commit_index == log.commit_index,
        accept_many(log, entries, taken).snapshot_index == log.snapshot_index,
    decreases taken,
{
    if taken > 0 {
        lemma_taking_in_keeps_marks(log, entries, taken - 1);
        let e = entries[taken - 1];
        lemma_accept_keeps_wf(accept_many(log, entries, taken - 1), e.index, e.term, e.command);
    }
}

/// What a replica had committed, its log still holds after any step.
pub proof fn lemma_committed_prefix_stays(pre: Cluster, post: Cluster, i: int, x: int)
    requires
        inv(pre),
        inv(post),
        extends(pre, post),
        0 <= i < pre.size(),
        0 <= x < pre.members[i].log.commit_index,
        x < post.members[i].log.commit_index,
    ensures
        x < pre.logs[i].len(),
        x < post.logs[i].len(),
        pre.logs[i][x] == post.logs[i][x],
{
    assert(role_ok(pre, i));
    assert(role_ok(post, i));
    assert(members_ok_at(pre, i));
    assert(members_ok_at(post, i));
    let old = pre.commit_basis[i];
    let new = post.commit_basis[i];
    assert(certificate_ok(pre, old.term, old.index));
    assert(pre.term_logs.dom().contains(old.term));
    assert(post.certificates.contains_key((old.term, old.index)));
    assert(post.term_logs.contains_key(old.term));
    assert(has_prefix(
        post.term_logs[old.term],
        pre.term_logs[old.term],
        pre.term_logs[old.term].len() as int,
    ));
    assert(pre.logs[i][x] == pre.term_logs[old.term][x]);
    assert(post.logs[i][x] == post.term_logs[new.term][x]);
    lemma_certified_logs_agree(post, old.term, old.index, new.term, new.index, x);
}

/// A state machine that a step leaves alone still holds what its replica's
/// log prescribes.
pub proof fn lemma_machine_stays(pre: Cluster, post: Cluster, i: int)
    requires
        inv(pre),
        inv(post),
        extends(pre, post),
        0 <= i < pre.size(),
        machine_ok(pre, i),
        post.machines[i] == pre.machines[i],
        post.members[i].log.commit_index >= pre.members[i].log.commit_index,
        post.members[i].log.snapshot_index <= pre.machines[i].applied,
    ensures
        machine_ok(post, i),
{
    let applied = pre.machines[i].applied as int;
    assert forall|x: int| 0 <= x < applied implies x < pre.logs[i].len() && x < post.logs[i].len()
        && pre.logs[i][x] == post.logs[i][x] by {
        lemma_committed_prefix_stays(pre, post, i, x);
    }
    if applied > 0 {
        lemma_committed_prefix_stays(pre, post, i, applied - 1);
    }
    assert(commands(pre.logs[i]).take(applied) =~= commands(post.logs[i]).take(applied));
}

/// A state machine that takes on the state of a snapshot holds what its
/// replica's log prescribes, provided the replica has committed what the
/// snapshot covers.
pub proof fn lemma_machine_of_snapshot(post: Cluster, i: int, t: Taken)
    requires
        inv(post),
        0 <= i < post.size(),
        taken_ok(post, t),
        post.machines[i] == (Held { applied: t.index, state: t.state }),
        post.members[i].log.snapshot_index <= t.index <= post.members[i].log.commit_index,
    ensures
        machine_ok(post, i),
{
    assert(role_ok(post, i));
    assert(members_ok_at(post, i));
    let own = post.commit_basis[i];
    assert forall|x: int| 0 <= x < t.index implies post.logs[i][x] == t.log[x] by {
        lemma_certified_logs_agree(post, own.term, own.index, t.basis.term, t.basis.index, x);
    }
    assert(commands(post.logs[i]).take(t.index as int) =~= commands(t.log));
}

/// A replica that applies its committed entries holds what its log
/// prescribes.
pub proof fn lemma_machine_applies(c: Cluster, i: int, h: Held)
    requires
        inv(c),
        0 <= i < c.size(),
        machine_ok(c, i),
        h == (Held {
            applied: c.members[i].log.commit_index,
            state: replay_from(
                c.machines[i].state,
                ready_commands(
                    c.members[i].log,
                    c.machines[i].applied as int,
                    c.members[i].log.commit_index as int,
                ),
            ),
        }),
    ensures
        h.state == replay(commands(c.logs[i]).take(h.applied as int)),
{
    let log = c.members[i].log;
    let whole = c.logs[i];
    let applied = c.machines[i].applied as int;
    let commit = log.commit_index as int;
    let all = commands(whole);
    assert(members_ok_at(c, i));
    assert forall|x: int| applied <= x < commit implies log.slot_at(x + 1) == whole[x] by {
        assert(whole[x] == log.slots[x - log.base_index]);
    }
    assert(ready_commands(log, applied, commit) =~= all.take(commit).skip(applied));
    assert(all.take(commit).take(applied) =~= all.take(applied));
    lemma_replay_split(crate::machine::initial_state(), all.take(commit), applied);
}

/// Every step preserves the invariant of the state machines.
pub proof fn lemma_machines_step(pre: Cluster, step: Step, post: Cluster)
    requires
        inv(pre),
        inv(post),
        extends(pre, post),
        machines_inv(pre),
        next(pre, step, post),
    ensures
        machines_inv(post),
{
    let id: int = match step {
        Step::Timeout { node } => node as int,
        Step::Vote { voter, .. } => voter as int,
        Step::Count { candidate, .. } => candidate as int,
        Step::Hear { node, .. } => node as int,
        Step::Fault { node } => node as int,
        Step::Recover { node } => node as int,
        Step::Restart { node, .. } => node as int,
        Step::Apply { node } => node as int,
        Step::Propose { node, .. } => node as int,
        Step::Append { follower, .. } => follower as int,
        Step::Snapshot { node } => node as int,
        Step::Compact { node, .. } => node as int,
        Step::Offer { follower, .. } => follower as int,
        Step::Persisted { node, .. } => node as int,
        Step::Acked { leader, .. } => leader as int,
    };
    assert(0 <= id < pre.size());
    assert(machine_ok(pre, id));
    assert(members_ok_at(pre, id));
    assert(role_ok(pre, id));
    assert(post.machines.len() == post.size());
    assert forall|t: Taken| post.snapshots.contains(t) implies #[trigger] taken_ok(post, t) by {
        if pre.snapshots.contains(t) {
            assert(taken_ok(pre, t));
            lemma_based_stays(pre, post, t.log, t.index, t.basis);
        } else {
            let h = pre.machines[id];
            assert(step is Snapshot);
            assert(t.log == pre.logs[id].take(h.applied as int));
            assert(based(pre, pre.logs[id], pre.members[id].log.commit_index, pre.commit_basis[id]));
            assert(has_prefix(t.log, pre.term_logs[t.basis.term], t.index as int));
            assert(based(pre, t.log, t.index, t.basis));
            lemma_based_stays(pre, post, t.log, t.index, t.basis);
            assert(commands(t.log) =~= commands(pre.logs[id]).take(h.applied as int));
        }
    }
    assert forall|i: int| 0 <= i < post.size() implies #[trigger] machine_ok(post, i) by {
        assert(machine_ok(pre, i));
        if i != id {
            assert(post.members[i] == pre.members[i]);
            assert(post.machines[i] == pre.machines[i]);
            lemma_machine_stays(pre, post, i);
        } else {
            let m = pre.members[id];
            match step {
                Step::Apply { node } => {
                    lemma_machine_applies(pre, id, post.machines[id]);
                    assert(post.logs[id] == pre.logs[id]);
                },
                Step::Restart { node, restored: taken, kept, commit } => {
                    match taken {
                        Some(t) => {
                            assert(taken_ok(post, t));
                            lemma_machine_of_snapshot(post, id, t);
                        },
                        None => {
                            assert(commands(post.logs[id]).take(0) =~= Seq::empty());
                        },
                    }
                },
                Step::Offer { follower, offer, snapshot: taken } => {
                    if m.installs(offer) {
                        assert(taken_ok(post, taken));
                        lemma_machine_of_snapshot(post, id, taken);
                    } else {
                        lemma_machine_stays(pre, post, id);
                    }
                },
                Step::Append { follower, request, taken } => {
                    lemma_taking_in_keeps_marks(m.log, request.entries, taken);
                    lemma_machine_stays(pre, post, id);
                },
                _ => {
                    lemma_machine_stays(pre, post, id);
                },
            }
        }
    }
}

} // verus!
