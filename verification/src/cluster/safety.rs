//! What the invariant implies: leaders hold what was committed before them,
//! and committed entries agree on all replicas.

use crate::cluster::appends::lemma_append;
use crate::cluster::completeness::{
    lemma_certified_logs_agree, lemma_committed_entries_agree, lemma_held_entry,
    lemma_leader_completeness,
};
use crate::cluster::elections::{
    lemma_count, lemma_restart, lemma_role_only, lemma_timeout, lemma_vote,
};
use crate::cluster::invariants::{
    certificate_ok, election_ok, has_prefix, inv, members_ok_at, mirrors, role_ok,
};
use crate::cluster::machines::{lemma_machines_step, machine_ok, machines_inv};
use crate::cluster::model::{commands, is_run, moves, next, Cluster, Step};
use crate::cluster::preserve::{extends, lemma_extends_on, lemma_initial_cluster};
use crate::cluster::replication::{lemma_acked, lemma_persisted, lemma_propose};
use crate::cluster::snapshots::{lemma_apply, lemma_compact, lemma_offer, lemma_snapshot};
use crate::command::CommandView;
use crate::log::{LogView, SlotView};
use crate::conflict::commutes;
use crate::machine::{
    is_fresh, lemma_agreement, lemma_commuting_commands_keep_result, lemma_replay_split, outcome,
    outcome_at, read_values, replay, replay_from, OutcomeView,
};
use crate::protocol::{Event, Role};
use crate::replica::{ready_commands, AppendRequestView};
use vstd::prelude::*;

verus! {

/// Every step preserves the invariants, and loses nothing that was
/// recorded.
pub proof fn lemma_step(pre: Cluster, step: Step, post: Cluster)
    requires
        inv(pre),
        machines_inv(pre),
        next(pre, step, post),
    ensures
        inv(post),
        machines_inv(post),
        extends(pre, post),
{
    lemma_step_of_replicas(pre, step, post);
    lemma_machines_step(pre, step, post);
}

/// Every step preserves the invariant of logs and roles, and loses nothing
/// that was recorded.
pub proof fn lemma_step_of_replicas(pre: Cluster, step: Step, post: Cluster)
    requires
        inv(pre),
        next(pre, step, post),
    ensures
        inv(post),
        extends(pre, post),
{
    match step {
        Step::Timeout { node } => lemma_timeout(pre, post, node),
        Step::Vote { voter, term, candidate } => lemma_vote(pre, post, voter, term, candidate),
        Step::Count { candidate, term, voter } => lemma_count(pre, post, candidate, term, voter),
        Step::Hear { node, term } => lemma_role_only(pre, post, node, Event::PeerTerm { term }),
        Step::Fault { node } => lemma_role_only(pre, post, node, Event::StorageFault),
        Step::Recover { node } => lemma_role_only(pre, post, node, Event::StorageRecovered),
        Step::Restart { node, restored, kept, commit } => lemma_restart(
            pre,
            post,
            node,
            restored,
            kept,
            commit,
        ),
        Step::Apply { node } => lemma_apply(pre, post, node),
        Step::Propose { node, command } => lemma_propose(pre, post, node, command),
        Step::Append { follower, request, taken } => lemma_append(
            pre,
            post,
            follower,
            request,
            taken,
        ),
        Step::Snapshot { node } => lemma_snapshot(pre, post, node),
        Step::Compact { node, up_to } => lemma_compact(pre, post, node, up_to),
        Step::Offer { follower, offer, snapshot } => lemma_offer(
            pre,
            post,
            follower,
            offer,
            snapshot,
        ),
        Step::Persisted { node, through, commit } => lemma_persisted(
            pre,
            post,
            node,
            through,
            commit,
        ),
        Step::Acked { leader, from, term, index, commit } => lemma_acked(
            pre,
            post,
            leader,
            from,
            term,
            index,
            commit,
        ),
    }
}

/// Every cluster that a run reaches satisfies the invariant, and holds
/// everything that was recorded in the clusters before it.
pub proof fn lemma_run(trace: Seq<Cluster>, replicas: u64, earlier: int, at: int)
    requires
        is_run(trace, replicas),
        0 <= earlier <= at < trace.len(),
    ensures
        inv(trace[at]),
        inv(trace[earlier]),
        machines_inv(trace[at]),
        extends(trace[earlier], trace[at]),
        trace[at].size() == replicas,
    decreases at,
{
    if at == 0 {
        lemma_initial_cluster(replicas);
        let c = trace[0];
        assert forall|i: int| 0 <= i < c.size() implies #[trigger] machine_ok(c, i) by {
            assert(commands(c.logs[i]).take(0) =~= Seq::empty());
        }
    } else {
        lemma_run(trace, replicas, 0, at - 1);
        let pre = trace[at - 1];
        let post = trace[at];
        assert(moves(pre, post));
        let step = choose|step: Step| next(pre, step, post);
        lemma_step(pre, step, post);
        if earlier < at {
            lemma_run(trace, replicas, earlier, at - 1);
            lemma_extends_on(trace[earlier], trace[at - 1], trace[at]);
        }
    }
}

/// Election safety: in every cluster that a run reaches, a term has at most
/// one leader.
pub proof fn theorem_one_leader_per_term(
    trace: Seq<Cluster>,
    replicas: u64,
    at: int,
    a: int,
    b: int,
)
    requires
        is_run(trace, replicas),
        0 <= at < trace.len(),
        0 <= a < replicas,
        0 <= b < replicas,
        trace[at].members[a].node.role == Role::Leader,
        trace[at].members[b].node.role == Role::Leader,
        trace[at].members[a].node.term == trace[at].members[b].node.term,
    ensures
        a == b,
{
    lemma_run(trace, replicas, 0, at);
    assert(role_ok(trace[at], a));
    assert(role_ok(trace[at], b));
}

/// Agreement: in every cluster that a run reaches, the logs of any two
/// replicas hold the same entry at every index that both have committed;
/// where both still hold the entry, they hold the same; their state
/// machines hold the same state after applying the log through that index;
/// and they report the same outcome for the entry at that index.
pub proof fn theorem_agreement(
    trace: Seq<Cluster>,
    replicas: u64,
    at: int,
    a: int,
    b: int,
    index: int,
)
    requires
        is_run(trace, replicas),
        0 <= at < trace.len(),
        0 <= a < replicas,
        0 <= b < replicas,
        1 <= index <= trace[at].members[a].log.commit_index,
        index <= trace[at].members[b].log.commit_index,
    ensures
        index <= trace[at].logs[a].len(),
        index <= trace[at].logs[b].len(),
        trace[at].logs[a][index - 1] == trace[at].logs[b][index - 1],
        trace[at].members[a].log.holds(index) && trace[at].members[b].log.holds(index)
            ==> trace[at].members[a].log.entry_at(index) == trace[at].members[b].log.entry_at(
            index,
        ),
        replay(commands(trace[at].logs[a]).take(index)) == replay(
            commands(trace[at].logs[b]).take(index),
        ),
        outcome_at(commands(trace[at].logs[a]), index) == outcome_at(
            commands(trace[at].logs[b]),
            index,
        ),
{
    let c = trace[at];
    lemma_run(trace, replicas, 0, at);
    lemma_committed_entries_agree(c, a, b, index);
    if c.members[a].log.holds(index) && c.members[b].log.holds(index) {
        lemma_held_entry(c, a, index);
        lemma_held_entry(c, b, index);
    }
    let log_a = c.logs[a];
    let log_b = c.logs[b];
    assert forall|i: int| 0 <= i < index implies commands(log_a)[i] == commands(log_b)[i] by {
        lemma_committed_entries_agree(c, a, b, i + 1);
    }
    assert(commands(log_a).take(index) =~= commands(log_b).take(index));
    lemma_agreement(commands(log_a), commands(log_b), index);
}

/// The state machines agree: in every cluster that a run reaches, any two
/// replicas that have applied their logs through the same index hold the
/// same state, whether they applied the entries one by one, installed a
/// snapshot, or started again from one.
pub proof fn theorem_state_machines_agree(
    trace: Seq<Cluster>,
    replicas: u64,
    at: int,
    a: int,
    b: int,
)
    requires
        is_run(trace, replicas),
        0 <= at < trace.len(),
        0 <= a < replicas,
        0 <= b < replicas,
        trace[at].machines[a].applied == trace[at].machines[b].applied,
    ensures
        trace[at].machines[a].state == trace[at].machines[b].state,
        trace[at].machines[a].state == replay(
            commands(trace[at].logs[a]).take(trace[at].machines[a].applied as int),
        ),
{
    let c = trace[at];
    lemma_run(trace, replicas, 0, at);
    assert(machine_ok(c, a));
    assert(machine_ok(c, b));
    let applied = c.machines[a].applied as int;
    assert forall|x: int| 0 <= x < applied implies x < c.logs[a].len() && x < c.logs[b].len()
        && commands(c.logs[a])[x] == commands(c.logs[b])[x] by {
        lemma_committed_entries_agree(c, a, b, x + 1);
    }
    if applied > 0 {
        lemma_committed_entries_agree(c, a, b, applied);
    }
    assert(commands(c.logs[a]).take(applied) =~= commands(c.logs[b]).take(applied));
}

/// A speculative result stands: when a replica executed a command
/// speculatively on the state it had applied, and the command is later
/// committed at an index before which, beyond what the replica had applied,
/// stand only commands of other clients that commute with it, then every
/// replica that applies the command at that index reports the result of
/// the speculative execution.
pub proof fn theorem_speculative_result_stands(
    trace: Seq<Cluster>,
    replicas: u64,
    then: int,
    at: int,
    speculator: int,
    b: int,
    index: int,
    command: CommandView,
)
    requires
        is_run(trace, replicas),
        0 <= then <= at < trace.len(),
        0 <= speculator < replicas,
        0 <= b < replicas,
        is_fresh(trace[then].machines[speculator].state.sessions, command.id),
        trace[then].machines[speculator].applied < index <= trace[at].members[b].log.commit_index,
        index <= trace[at].logs[b].len() ==> commands(trace[at].logs[b])[index - 1] == command,
        forall|x: int|
            trace[then].machines[speculator].applied <= x < index - 1 ==> commutes(
                command,
                #[trigger] commands(trace[at].logs[b])[x],
            ) && commands(trace[at].logs[b])[x].id.client_id != command.id.client_id,
    ensures
        outcome_at(commands(trace[at].logs[b]), index) == OutcomeView::Applied(
            read_values(trace[then].machines[speculator].state.kv, command.keys),
        ),
{
    let old = trace[then];
    let new = trace[at];
    let applied = old.machines[speculator].applied as int;
    let state = old.machines[speculator].state;
    let all = commands(new.logs[b]);
    lemma_run(trace, replicas, then, at);
    lemma_run(trace, replicas, 0, then);
    assert(machine_ok(old, speculator));
    assert(members_ok_at(new, b));
    assert(role_ok(new, b));
    assert(index <= new.logs[b].len());
    assert forall|x: int| 0 <= x < applied implies x < old.logs[speculator].len()
        && commands(old.logs[speculator])[x] == all[x] by {
        theorem_committed_entries_are_permanent(trace, replicas, then, at, speculator, b, x + 1);
    }
    if applied > 0 {
        theorem_committed_entries_are_permanent(trace, replicas, then, at, speculator, b, applied);
    }
    assert(commands(old.logs[speculator]).take(applied) =~= all.take(applied));
    let before = all.take(index - 1);
    assert(before.take(applied) =~= all.take(applied));
    lemma_replay_split(crate::machine::initial_state(), before, applied);
    let between = before.skip(applied);
    assert forall|k: int| 0 <= k < between.len() implies commutes(command, #[trigger] between[k])
        && between[k].id.client_id != command.id.client_id by {
        assert(between[k] == all[applied + k]);
    }
    lemma_commuting_commands_keep_result(state, between, command);
}

/// One order: in every cluster that a run reaches, two commands that two
/// replicas have both committed stand at the same indices on both, hence
/// are applied in the same order on both.
pub proof fn theorem_one_order(
    trace: Seq<Cluster>,
    replicas: u64,
    at: int,
    a: int,
    b: int,
    first: int,
    second: int,
)
    requires
        is_run(trace, replicas),
        0 <= at < trace.len(),
        0 <= a < replicas,
        0 <= b < replicas,
        1 <= first < second <= trace[at].members[a].log.commit_index,
        second <= trace[at].members[b].log.commit_index,
    ensures
        second <= trace[at].logs[a].len(),
        second <= trace[at].logs[b].len(),
        trace[at].logs[a][first - 1] == trace[at].logs[b][first - 1],
        trace[at].logs[a][second - 1] == trace[at].logs[b][second - 1],
{
    lemma_run(trace, replicas, 0, at);
    lemma_committed_entries_agree(trace[at], a, b, first);
    lemma_committed_entries_agree(trace[at], a, b, second);
}

/// Durability: an entry that a replica has committed is, in every later
/// cluster of the run, the entry that the log of any replica holds at that
/// index once the replica has committed the index, whatever storage faults,
/// restarts, elections, compactions and message losses lie between.
pub proof fn theorem_committed_entries_are_permanent(
    trace: Seq<Cluster>,
    replicas: u64,
    earlier: int,
    later: int,
    a: int,
    b: int,
    index: int,
)
    requires
        is_run(trace, replicas),
        0 <= earlier <= later < trace.len(),
        0 <= a < replicas,
        0 <= b < replicas,
        1 <= index <= trace[earlier].members[a].log.commit_index,
        index <= trace[later].members[b].log.commit_index,
    ensures
        index <= trace[earlier].logs[a].len(),
        index <= trace[later].logs[b].len(),
        trace[earlier].logs[a][index - 1] == trace[later].logs[b][index - 1],
{
    let old = trace[earlier];
    let new = trace[later];
    lemma_run(trace, replicas, earlier, later);
    assert(role_ok(old, a));
    assert(role_ok(new, b));
    assert(members_ok_at(old, a));
    assert(members_ok_at(new, b));
    let basis_a = old.commit_basis[a];
    let basis_b = new.commit_basis[b];
    assert(certificate_ok(old, basis_a.term, basis_a.index));
    assert(old.term_logs.dom().contains(basis_a.term));
    assert(new.certificates.contains_key((basis_a.term, basis_a.index)));
    assert(new.term_logs.contains_key(basis_a.term));
    let held = old.logs[a][index - 1];
    assert(held == old.term_logs[basis_a.term][index - 1]);
    assert(has_prefix(
        new.term_logs[basis_a.term],
        old.term_logs[basis_a.term],
        old.term_logs[basis_a.term].len() as int,
    ));
    assert(held == new.term_logs[basis_a.term][index - 1]);
    assert(new.logs[b][index - 1] == new.term_logs[basis_b.term][index - 1]);
    lemma_certified_logs_agree(
        new,
        basis_a.term,
        basis_a.index,
        basis_b.term,
        basis_b.index,
        index - 1,
    );
}

/// Leader completeness: the log of a leader holds every entry that a
/// replica whose term is not later than the leader's has committed.
pub proof fn theorem_leaders_hold_what_is_committed(
    trace: Seq<Cluster>,
    replicas: u64,
    at: int,
    a: int,
    leader: int,
    index: int,
)
    requires
        is_run(trace, replicas),
        0 <= at < trace.len(),
        0 <= a < replicas,
        0 <= leader < replicas,
        trace[at].members[leader].node.role == Role::Leader,
        trace[at].members[a].node.term <= trace[at].members[leader].node.term,
        1 <= index <= trace[at].members[a].log.commit_index,
    ensures
        index <= trace[at].logs[leader].len(),
        index <= trace[at].logs[a].len(),
        trace[at].logs[leader][index - 1] == trace[at].logs[a][index - 1],
{
    let c = trace[at];
    lemma_run(trace, replicas, 0, at);
    assert(role_ok(c, a));
    assert(role_ok(c, leader));
    assert(members_ok_at(c, a));
    assert(members_ok_at(c, leader));
    let basis = c.commit_basis[a];
    let term = c.members[leader].node.term;
    assert(certificate_ok(c, basis.term, basis.index));
    assert(election_ok(c, term));
    if basis.term < term {
        lemma_leader_completeness(c, basis.term, basis.index, term);
        assert(c.start_log(term)[index - 1] == c.term_logs[basis.term][index - 1]);
    }
}

/// A message that a leader builds from its log is one that the model lets
/// replicas receive.
pub proof fn lemma_leader_sends_what_it_holds(c: Cluster, leader: int, request: AppendRequestView)
    requires
        inv(c),
        0 <= leader < c.size(),
        c.members[leader].node.role == Role::Leader,
        request.term == c.members[leader].node.term,
        request.leader == leader,
        c.members[leader].log.base_index <= request.prev_index <= c.members[leader].log.last_index(),
        Some(request.prev_term) == c.members[leader].log.term_at(request.prev_index as int),
        request.leader_commit == c.members[leader].log.commit_index,
        request.entries.len() == c.members[leader].log.last_index() - request.prev_index,
        forall|k: int|
            0 <= k < request.entries.len() ==> #[trigger] request.entries[k]
                == c.members[leader].log.entry_at(request.prev_index + 1 + k),
    ensures
        c.sent(request),
{
    let m = c.members[leader];
    let whole = c.logs[leader];
    assert(role_ok(c, leader));
    assert(members_ok_at(c, leader));
    if request.prev_index > m.log.base_index {
        assert(whole[request.prev_index - 1] == m.log.slots[request.prev_index - 1
            - m.log.base_index]);
    }
    assert forall|k: int| 0 <= k < request.entries.len() implies {
        &&& (#[trigger] request.entries[k]).index == request.prev_index + 1 + k
        &&& request.entries[k].term == whole[request.prev_index + k].term
        &&& request.entries[k].command == whole[request.prev_index + k].command
    } by {
        assert(request.entries[k] == m.log.entry_at(request.prev_index + 1 + k));
        assert(whole[request.prev_index + k] == m.log.slots[request.prev_index + k
            - m.log.base_index]);
    }
}

/// A snapshot that a leader offers of what it has applied is one that the
/// model lets replicas receive.
pub proof fn lemma_leader_offers_what_it_committed(
    c: Cluster,
    leader: int,
    offer: crate::replica::SnapshotOffer,
)
    requires
        inv(c),
        0 <= leader < c.size(),
        c.members[leader].node.role == Role::Leader,
        offer.term == c.members[leader].node.term,
        offer.leader == leader,
        1 <= offer.index <= c.members[leader].log.commit_index,
        Some(offer.last_term) == c.members[leader].log.term_at(offer.index as int),
    ensures
        c.offered(offer),
{
    let m = c.members[leader];
    let whole = c.logs[leader];
    assert(role_ok(c, leader));
    assert(members_ok_at(c, leader));
    if offer.index > m.log.base_index {
        assert(whole[offer.index - 1] == m.log.slots[offer.index - 1 - m.log.base_index]);
    }
}

/// A replica that has applied its log through `applied` and applies the
/// committed entries after it in order reaches the state, and reports the
/// outcomes, that its whole log prescribes: those of applying the log from
/// its first entry.
pub proof fn lemma_applying_follows_the_log(
    log: LogView,
    whole: Seq<SlotView>,
    applied: int,
    commit: int,
    k: int,
)
    requires
        mirrors(log, whole),
        log.base_index <= applied <= commit <= whole.len(),
        0 <= k < commit - applied,
    ensures
        replay_from(replay(commands(whole).take(applied)), ready_commands(log, applied, commit))
            == replay(commands(whole).take(commit)),
        outcome(
            replay_from(
                replay(commands(whole).take(applied)),
                ready_commands(log, applied, applied + k),
            ),
            log.slot_at(applied + 1 + k).command,
        ) == outcome_at(commands(whole), applied + 1 + k),
{
    let all = commands(whole);
    assert forall|x: int| applied <= x < commit implies log.slot_at(x + 1) == whole[x] by {
        assert(whole[x] == log.slots[x - log.base_index]);
    }
    assert(ready_commands(log, applied, commit) =~= all.take(commit).skip(applied));
    assert(all.take(commit).take(applied) =~= all.take(applied));
    lemma_replay_split(crate::machine::initial_state(), all.take(commit), applied);
    assert(ready_commands(log, applied, applied + k) =~= all.take(applied + k).skip(applied));
    assert(all.take(applied + k).take(applied) =~= all.take(applied));
    lemma_replay_split(crate::machine::initial_state(), all.take(applied + k), applied);
}

/// The clusters of a run in which a cluster of one replica elects itself,
/// appends `command` and commits it.
#[verifier::opaque]
pub open spec fn committing_run(command: CommandView) -> Seq<Cluster> {
    let s0 = crate::cluster::model::initial(1);
    let m0 = s0.members[0];
    let m1 = m0.after_event(Event::ElectionTimeout);
    let stood = Cluster { candidacies: s0.candidacies.insert((1, 0), s0.logs[0]), ..s0 };
    let s1 = stood.with_election(0, m0, m1).with_member(0, m1);
    let m2 = m1.after_propose(command);
    let log = s1.logs[0].push(SlotView { term: 1, command });
    let s2 = Cluster { term_logs: s1.term_logs.insert(1, log), ..s1 }.with_log(0, log).with_member(
        0,
        m2,
    );
    let m3 = m2.after_persisted(1, 1);
    let s3 = s2.with_report(0, 1, m3.progress[0]).with_commit(0, m2, m3).with_member(0, m3);
    seq![s0, s1, s2, s3]
}

/// The single replica elects itself.
proof fn lemma_committing_run_elects(command: CommandView)
    ensures
        committing_run(command).len() == 4,
        committing_run(command)[0] == crate::cluster::model::initial(1),
        next(committing_run(command)[0], Step::Timeout { node: 0 }, committing_run(command)[1]),
        committing_run(command)[1].members[0].node.role == Role::Leader,
        committing_run(command)[1].members[0].node.term == 1,
        committing_run(command)[1].members[0].log == committing_run(command)[0].members[0].log,
        committing_run(command)[1].logs[0] == Seq::<SlotView>::empty(),
        committing_run(command)[1].members[0].progress.len() == 1,
{
    reveal(committing_run);
    let s0 = crate::cluster::model::initial(1);
    let m1 = s0.members[0].after_event(Event::ElectionTimeout);
    assert(m1.node.role == Role::Leader && m1.node.term == 1);
}

/// The leader appends the command.
proof fn lemma_committing_run_appends(command: CommandView)
    ensures
        next(
            committing_run(command)[1],
            Step::Propose { node: 0, command },
            committing_run(command)[2],
        ),
        committing_run(command)[2].members[0].node == committing_run(command)[1].members[0].node,
        committing_run(command)[2].members[0].progress.len() == 1,
        committing_run(command)[2].members[0].log == (LogView {
            base_index: 0,
            base_term: 0,
            slots: seq![SlotView { term: 1, command }],
            commit_index: 0,
            snapshot_index: 0,
        }),
        committing_run(command)[2].logs[0] == seq![SlotView { term: 1, command }],
{
    reveal(committing_run);
    lemma_committing_run_elects(command);
    let s1 = committing_run(command)[1];
    let m1 = s1.members[0];
    assert(m1.propose_answer() is Ok);
    let m2 = m1.after_propose(command);
    assert(m2.log.slots =~= seq![SlotView { term: 1, command }]);
    assert(s1.logs[0].push(SlotView { term: 1, command }) =~= seq![SlotView { term: 1, command }]);
}

/// The leader learns that its log is durable, and commits.
proof fn lemma_committing_run_commits(command: CommandView)
    ensures
        next(
            committing_run(command)[2],
            Step::Persisted { node: 0, through: 1, commit: 1 },
            committing_run(command)[3],
        ),
        committing_run(command)[3].members[0].node.role == Role::Leader,
        committing_run(command)[3].members[0].log.commit_index == 1,
        committing_run(command)[3].members[0].log.slots == seq![SlotView { term: 1, command }],
        committing_run(command)[3].members[0].log.base_index == 0,
        committing_run(command)[3].logs[0] == seq![SlotView { term: 1, command }],
{
    reveal(committing_run);
    lemma_committing_run_elects(command);
    lemma_committing_run_appends(command);
    let s2 = committing_run(command)[2];
    let m2 = s2.members[0];
    let m3 = m2.after_persisted(1, 1);
    assert(m2.log.slots.len() == 1);
    assert(m2.progress.len() == 1);
    assert(m3.progress.len() == 1);
    assert(m3.progress[0] == 1);
    assert(m3.log.commit_index == 1);
    assert(m3.progress.drop_last() =~= Seq::<u64>::empty());
    assert(crate::replica::count_at_least(m3.progress, 1) == 1) by {
        assert(crate::replica::count_at_least(Seq::<u64>::empty(), 1) == 0);
    }
    assert(crate::replica::committable(m2.log, m3.progress, 1, 1, 1));
    assert(m2.settles(0, 1, 1));
}

/// The model is not idle: a cluster of one replica elects itself, appends a
/// command and commits it, in a run of three steps.
pub proof fn lemma_a_run_that_commits(command: CommandView)
    ensures
        is_run(committing_run(command), 1),
        committing_run(command).len() == 4,
        committing_run(command)[3].members[0].node.role == Role::Leader,
        committing_run(command)[3].members[0].log.commit_index == 1,
        committing_run(command)[3].members[0].log.holds(1),
        committing_run(command)[3].members[0].log.slot_at(1) == (SlotView { term: 1, command }),
        committing_run(command)[3].logs[0] == seq![SlotView { term: 1, command }],
{
    lemma_committing_run_elects(command);
    lemma_committing_run_appends(command);
    lemma_committing_run_commits(command);
    let trace = committing_run(command);
    assert(moves(trace[0], trace[1]));
    assert(moves(trace[1], trace[2]));
    assert(moves(trace[2], trace[3]));
    assert forall|k: int| 0 < k < trace.len() implies moves(trace[k - 1], #[trigger] trace[k]) by {
        if k == 1 {
        } else if k == 2 {
        } else {
            assert(k == 3);
        }
    }
}

} // verus!
