use replicated_kv::command::{Command, CommandId, Operation};
use replicated_kv::log::{LogEntry, LogError};
use replicated_kv::machine::Outcome;
use replicated_kv::protocol::{Action, Event, LogPosition, Role};
use replicated_kv::quorum::QuorumConfig;
use replicated_kv::replica::{
    Ack, AppendReply, AppendRequest, Durable, Effect, ProposeError, Refusal, Replica, RestoreError,
};
use replicated_kv::sync::{plan_sync, SyncPlan};

fn write(client: u64, seq: u64, key: u64, value: u64) -> Command {
    Command::new(client, seq, vec![key], Operation::Write(value))
}

fn trio() -> Vec<Replica> {
    let config = QuorumConfig::standard(3).unwrap();
    (0..3).map(|id| Replica::new(id, config).unwrap()).collect()
}

fn lead(cluster: &mut Vec<Replica>, candidate: usize, voter: usize) -> u64 {
    let actions = cluster[candidate].handle(Event::ElectionTimeout);
    let (term, last_log_index, last_log_term) = match actions[1] {
        Action::RequestVotes { term, last_log_index, last_log_term } => {
            (term, last_log_index, last_log_term)
        }
        other => panic!("unexpected action {:?}", other),
    };
    let answer = cluster[voter].handle(Event::VoteRequest {
        term,
        candidate: candidate as u64,
        last_log_index,
        last_log_term,
    });
    assert_eq!(
        answer.last(),
        Some(&Action::ReplyVote { to: candidate as u64, term, granted: true })
    );
    let announced =
        cluster[candidate].handle(Event::VoteReply { term, voter: voter as u64, granted: true });
    assert_eq!(announced, vec![Action::AnnounceLeadership { term }]);
    term
}

fn reply_of(effects: &[Effect]) -> AppendReply {
    match effects.last() {
        Some(Effect::Reply(reply)) => *reply,
        other => panic!("no reply: {:?}", other),
    }
}

#[test]
fn new_replica_is_an_empty_follower() {
    let config = QuorumConfig::standard(3).unwrap();
    let replica = Replica::new(1, config).unwrap();
    assert_eq!(replica.role(), Role::Follower);
    assert_eq!(replica.term(), 0);
    assert_eq!(replica.leader(), None);
    assert_eq!(replica.voted_for(), None);
    assert_eq!(replica.last_index(), 0);
    assert_eq!(replica.commit_index(), 0);
    assert_eq!(replica.applied_index(), 0);
    assert_eq!(replica.get(1), None);
    assert_eq!(replica.entry(1), None);
    assert_eq!(replica.term_at(0), Some(0));
    assert_eq!(replica.log_position(), LogPosition { last_index: 0, last_term: 0 });
    assert_eq!(replica.plan_sync(0), SyncPlan::UpToDate);
    assert!(Replica::new(3, config).is_none());
}

#[test]
fn only_the_leader_appends() {
    let mut cluster = trio();
    assert_eq!(
        cluster[1].propose(write(1, 1, 1, 1)),
        Err(ProposeError::NotLeader { leader: None })
    );
    lead(&mut cluster, 0, 1);
    assert_eq!(cluster[0].propose(write(1, 1, 1, 1)), Ok(1));
    assert_eq!(cluster[0].propose(write(1, 2, 2, 2)), Ok(2));
    assert_eq!(cluster[0].last_index(), 2);
    assert_eq!(cluster[0].entry(2).unwrap().term(), 1);
    assert_eq!(cluster[0].commit_index(), 0);
    let request = cluster[0].append_request(0).unwrap();
    cluster[2].handle_append(request);
    assert_eq!(
        cluster[2].propose(write(1, 3, 3, 3)),
        Err(ProposeError::NotLeader { leader: Some(0) })
    );
    assert_eq!(cluster[2].last_index(), 2);
}

#[test]
fn append_request_carries_the_tail_of_the_log() {
    let mut cluster = trio();
    assert_eq!(cluster[0].append_request(0), None);
    lead(&mut cluster, 0, 1);
    cluster[0].propose(write(1, 1, 1, 1)).unwrap();
    cluster[0].propose(write(1, 2, 2, 2)).unwrap();
    assert_eq!(
        cluster[0].append_request(1),
        Some(AppendRequest {
            term: 1,
            leader: 0,
            prev_index: 1,
            prev_term: 1,
            entries: vec![LogEntry::new(2, 1, write(1, 2, 2, 2))],
            leader_commit: 0,
        })
    );
    let heartbeat = cluster[0].append_request(2).unwrap();
    assert_eq!(heartbeat.entries, vec![]);
    assert_eq!(heartbeat.prev_term, 1);
    assert_eq!(cluster[0].append_request(3), None);
}

#[test]
fn follower_takes_in_entries_and_answers_after_flushing() {
    let mut cluster = trio();
    lead(&mut cluster, 0, 1);
    cluster[0].propose(write(1, 1, 1, 1)).unwrap();
    cluster[0].propose(write(1, 2, 2, 2)).unwrap();
    let request = cluster[0].append_request(0).unwrap();
    let effects = cluster[2].handle_append(request);
    assert_eq!(
        effects,
        vec![
            Effect::Node(Action::Persist { term: 1, voted_for: None }),
            Effect::FlushLog { last_index: 2, commit_index: 0 },
            Effect::Reply(AppendReply { term: 1, success: true, match_index: 2 }),
        ]
    );
    assert_eq!(cluster[2].term(), 1);
    assert_eq!(cluster[2].leader(), Some(0));
    assert_eq!(cluster[2].entry(2), cluster[0].entry(2));
    // the same message again changes nothing
    let request = cluster[0].append_request(0).unwrap();
    let effects = cluster[2].handle_append(request);
    assert_eq!(
        effects,
        vec![
            Effect::FlushLog { last_index: 2, commit_index: 0 },
            Effect::Reply(AppendReply { term: 1, success: true, match_index: 2 }),
        ]
    );
    assert_eq!(cluster[2].last_index(), 2);
}

#[test]
fn follower_reports_a_log_that_does_not_reach_the_previous_entry() {
    let mut cluster = trio();
    lead(&mut cluster, 0, 1);
    cluster[0].propose(write(1, 1, 1, 1)).unwrap();
    cluster[0].propose(write(1, 2, 2, 2)).unwrap();
    let request = cluster[0].append_request(1).unwrap();
    let effects = cluster[2].handle_append(request);
    assert_eq!(
        effects,
        vec![
            Effect::Node(Action::Persist { term: 1, voted_for: None }),
            Effect::Reply(AppendReply { term: 1, success: false, match_index: 0 }),
        ]
    );
    assert_eq!(cluster[2].last_index(), 0);
    // the leader does not count a failure
    cluster[0].on_persisted(2);
    let reply = reply_of(&effects);
    assert_eq!(cluster[0].handle_append_reply(2, reply), vec![]);
    assert_eq!(cluster[0].commit_index(), 0);
}

#[test]
fn follower_stops_at_an_entry_that_leaves_a_gap() {
    let mut cluster = trio();
    let request = AppendRequest {
        term: 1,
        leader: 0,
        prev_index: 0,
        prev_term: 0,
        entries: vec![
            LogEntry::new(1, 1, write(1, 1, 1, 1)),
            LogEntry::new(3, 1, write(1, 2, 2, 2)),
        ],
        leader_commit: 3,
    };
    let effects = cluster[1].handle_append(request);
    assert_eq!(
        effects,
        vec![
            Effect::Node(Action::Persist { term: 1, voted_for: None }),
            Effect::FlushLog { last_index: 1, commit_index: 1 },
            Effect::Reply(AppendReply { term: 1, success: false, match_index: 1 }),
        ]
    );
    assert_eq!(cluster[1].last_index(), 1);
    assert_eq!(cluster[1].commit_index(), 1);
}

#[test]
fn stale_leader_is_rejected() {
    let mut cluster = trio();
    cluster[1].handle(Event::PeerTerm { term: 5 });
    let request = AppendRequest {
        term: 4,
        leader: 0,
        prev_index: 0,
        prev_term: 0,
        entries: vec![LogEntry::new(1, 4, write(1, 1, 1, 1))],
        leader_commit: 0,
    };
    let effects = cluster[1].handle_append(request);
    assert_eq!(effects, vec![Effect::Node(Action::RejectLeader { to: 0, term: 5 })]);
    assert_eq!(cluster[1].last_index(), 0);
    assert_eq!(cluster[1].leader(), None);
}

#[test]
fn faulted_replica_neither_appends_nor_speculates() {
    let mut cluster = trio();
    cluster[1].handle(Event::StorageFault);
    let request = AppendRequest {
        term: 1,
        leader: 0,
        prev_index: 0,
        prev_term: 0,
        entries: vec![LogEntry::new(1, 1, write(1, 1, 1, 1))],
        leader_commit: 0,
    };
    assert_eq!(cluster[1].handle_append(request), vec![]);
    assert_eq!(cluster[1].last_index(), 0);
    assert_eq!(cluster[1].term(), 0);
    assert_eq!(cluster[1].propose_fast(0, write(1, 1, 1, 1)), Ack::Rejected(Refusal::Unavailable));
}

#[test]
fn leader_commits_what_a_majority_holds_durably() {
    let mut cluster = trio();
    lead(&mut cluster, 0, 1);
    cluster[0].propose(write(1, 1, 1, 1)).unwrap();
    // the leader's own copy counts only once it is durable
    let request = cluster[0].append_request(0).unwrap();
    let reply = reply_of(&cluster[1].handle_append(request));
    assert_eq!(cluster[0].handle_append_reply(1, reply), vec![]);
    assert_eq!(cluster[0].commit_index(), 0);
    cluster[0].on_persisted(1);
    assert_eq!(cluster[0].commit_index(), 1);
    // the follower learns the watermark with the next message
    let request = cluster[0].append_request(1).unwrap();
    assert_eq!(request.leader_commit, 1);
    let effects = cluster[1].handle_append(request);
    assert_eq!(
        effects,
        vec![
            Effect::FlushLog { last_index: 1, commit_index: 1 },
            Effect::Reply(AppendReply { term: 1, success: true, match_index: 1 }),
        ]
    );
    assert_eq!(cluster[1].commit_index(), 1);
}

#[test]
fn progress_of_non_members_and_other_terms_does_not_count() {
    let mut cluster = trio();
    lead(&mut cluster, 0, 1);
    cluster[0].propose(write(1, 1, 1, 1)).unwrap();
    cluster[0].on_persisted(1);
    let good = AppendReply { term: 1, success: true, match_index: 1 };
    assert_eq!(cluster[0].handle_append_reply(7, good), vec![]);
    assert_eq!(cluster[0].commit_index(), 0);
    let old = AppendReply { term: 0, success: true, match_index: 1 };
    assert_eq!(cluster[0].handle_append_reply(1, old), vec![]);
    assert_eq!(cluster[0].commit_index(), 0);
    let failed = AppendReply { term: 1, success: false, match_index: 1 };
    assert_eq!(cluster[0].handle_append_reply(1, failed), vec![]);
    assert_eq!(cluster[0].commit_index(), 0);
    assert_eq!(cluster[0].handle_append_reply(1, good), vec![]);
    assert_eq!(cluster[0].commit_index(), 1);
}

#[test]
fn newer_term_in_a_reply_deposes_the_leader() {
    let mut cluster = trio();
    lead(&mut cluster, 0, 1);
    cluster[0].propose(write(1, 1, 1, 1)).unwrap();
    cluster[0].on_persisted(1);
    let reply = AppendReply { term: 3, success: true, match_index: 1 };
    assert_eq!(
        cluster[0].handle_append_reply(1, reply),
        vec![Action::Persist { term: 3, voted_for: None }]
    );
    assert_eq!(cluster[0].role(), Role::Follower);
    assert_eq!(cluster[0].term(), 3);
    assert_eq!(cluster[0].commit_index(), 0);
    cluster[0].on_persisted(1);
    assert_eq!(cluster[0].commit_index(), 0);
}

#[test]
fn leader_commits_entries_of_earlier_terms_only_with_one_of_its_own() {
    let mut cluster = trio();
    lead(&mut cluster, 0, 1);
    cluster[0].propose(write(1, 1, 1, 1)).unwrap();
    // deposed before anything was replicated, then elected again
    cluster[0].handle(Event::PeerTerm { term: 2 });
    cluster[1].handle(Event::PeerTerm { term: 2 });
    let term = lead(&mut cluster, 0, 1);
    assert_eq!(term, 3);
    cluster[0].on_persisted(1);
    let request = cluster[0].append_request(0).unwrap();
    let reply = reply_of(&cluster[1].handle_append(request));
    assert_eq!(reply, AppendReply { term: 3, success: true, match_index: 1 });
    cluster[0].handle_append_reply(1, reply);
    assert_eq!(cluster[0].commit_index(), 0);
    assert_eq!(cluster[0].propose(write(1, 2, 2, 2)), Ok(2));
    cluster[0].on_persisted(2);
    let request = cluster[0].append_request(1).unwrap();
    let reply = reply_of(&cluster[1].handle_append(request));
    cluster[0].handle_append_reply(1, reply);
    assert_eq!(cluster[0].commit_index(), 2);
}

#[test]
fn regained_leadership_starts_without_progress() {
    let mut cluster = trio();
    lead(&mut cluster, 0, 1);
    cluster[0].propose(write(1, 1, 1, 1)).unwrap();
    let request = cluster[0].append_request(0).unwrap();
    let reply = reply_of(&cluster[1].handle_append(request));
    cluster[0].handle_append_reply(1, reply);
    cluster[0].handle(Event::PeerTerm { term: 2 });
    cluster[1].handle(Event::PeerTerm { term: 2 });
    lead(&mut cluster, 0, 1);
    assert_eq!(cluster[0].propose(write(1, 2, 2, 2)), Ok(2));
    // what follower 1 reported in term 1 is forgotten
    cluster[0].on_persisted(2);
    assert_eq!(cluster[0].commit_index(), 0);
}

#[test]
fn apply_ready_applies_committed_entries_in_order() {
    let mut cluster = trio();
    lead(&mut cluster, 0, 1);
    cluster[0].propose(write(1, 1, 1, 10)).unwrap();
    cluster[0].propose(write(2, 1, 1, 20)).unwrap();
    cluster[0].propose(write(3, 1, 1, 30)).unwrap();
    cluster[0].on_persisted(3);
    assert_eq!(cluster[0].apply_ready(), vec![]);
    let reply = AppendReply { term: 1, success: true, match_index: 2 };
    cluster[0].handle_append_reply(1, reply);
    assert_eq!(cluster[0].commit_index(), 2);
    let done = cluster[0].apply_ready();
    assert_eq!(done.len(), 2);
    assert_eq!(done[0].outcome, Outcome::Applied(vec![None]));
    assert_eq!(done[1].outcome, Outcome::Applied(vec![Some(10)]));
    assert_eq!(cluster[0].applied_index(), 2);
    assert_eq!(cluster[0].get(1), Some(20));
    assert_eq!(cluster[0].apply_ready(), vec![]);
}

#[test]
fn fast_proposal_answers() {
    let mut cluster = trio();
    assert_eq!(cluster[0].propose_fast(0, write(1, 1, 1, 10)), Ack::Accepted(vec![None]));
    assert_eq!(cluster[0].propose_fast(0, write(1, 1, 1, 10)), Ack::Accepted(vec![None]));
    assert_eq!(cluster[0].propose_fast(0, write(2, 1, 1, 20)), Ack::Rejected(Refusal::Conflict));
    assert_eq!(cluster[0].propose_fast(3, write(2, 1, 2, 20)), Ack::Accepted(vec![None]));
    assert_eq!(cluster[0].get(1), None);
    cluster[0].handle(Event::PeerTerm { term: 2 });
    assert_eq!(cluster[0].propose_fast(1, write(3, 1, 3, 30)), Ack::Rejected(Refusal::StaleTerm));
    assert_eq!(cluster[0].propose_fast(2, write(3, 1, 3, 30)), Ack::Accepted(vec![None]));
}

#[test]
fn fast_proposal_of_a_finalized_command_is_superseded() {
    let mut cluster = trio();
    lead(&mut cluster, 0, 1);
    cluster[0].propose(write(1, 2, 1, 10)).unwrap();
    cluster[0].on_persisted(1);
    cluster[0].handle_append_reply(1, AppendReply { term: 1, success: true, match_index: 1 });
    cluster[0].apply_ready();
    assert_eq!(
        cluster[0].propose_fast(1, write(1, 2, 1, 10)),
        Ack::Superseded(Outcome::Duplicate(vec![None]))
    );
    assert_eq!(cluster[0].propose_fast(1, write(1, 1, 1, 10)), Ack::Superseded(Outcome::Stale));
}

#[test]
fn snapshot_and_compaction_follow_what_is_applied() {
    let mut cluster = trio();
    lead(&mut cluster, 0, 1);
    cluster[0].propose(write(1, 1, 1, 10)).unwrap();
    cluster[0].propose(write(1, 2, 2, 20)).unwrap();
    cluster[0].on_persisted(2);
    cluster[0].handle_append_reply(1, AppendReply { term: 1, success: true, match_index: 1 });
    cluster[0].apply_ready();
    assert_eq!(cluster[0].compact(1), Err(LogError::NotInSnapshot));
    let snapshot = cluster[0].take_snapshot();
    assert_eq!(snapshot.index(), 1);
    assert_eq!(cluster[0].compact(2), Err(LogError::NotInSnapshot));
    assert_eq!(cluster[0].compact(1), Ok(1));
    assert_eq!(cluster[0].entry(1), None);
    assert_eq!(cluster[0].entry(2).unwrap().index(), 2);
    assert_eq!(cluster[0].term_at(1), Some(1));
    assert_eq!(cluster[0].plan_sync(0), SyncPlan::Snapshot { through: 1, entries_follow: true });
    assert_eq!(cluster[0].plan_sync(1), SyncPlan::Entries { from: 2 });
    assert_eq!(cluster[0].plan_sync(2), SyncPlan::UpToDate);
    assert_eq!(cluster[0].plan_sync(9), SyncPlan::UpToDate);
    assert_eq!(cluster[0].append_request(0), None);
}

#[test]
fn only_a_leader_that_has_applied_offers_a_snapshot() {
    let mut cluster = trio();
    assert_eq!(cluster[1].snapshot_request(), None);
    lead(&mut cluster, 0, 1);
    assert_eq!(cluster[0].snapshot_request(), None);
    cluster[0].propose(write(1, 1, 1, 10)).unwrap();
    cluster[0].on_persisted(1);
    cluster[0].handle_append_reply(1, AppendReply { term: 1, success: true, match_index: 1 });
    cluster[0].apply_ready();
    let offer = cluster[0].snapshot_request().unwrap();
    assert_eq!(offer.term, 1);
    assert_eq!(offer.leader, 0);
    assert_eq!(offer.last_term, 1);
    assert_eq!(offer.snapshot.index(), 1);
    assert_eq!(cluster[0].compact(1), Ok(1));
}

#[test]
fn offered_snapshot_replaces_log_and_machine() {
    let mut cluster = trio();
    lead(&mut cluster, 0, 1);
    cluster[0].propose(write(1, 1, 1, 10)).unwrap();
    cluster[0].on_persisted(1);
    cluster[0].handle_append_reply(1, AppendReply { term: 1, success: true, match_index: 1 });
    cluster[0].apply_ready();
    let offer = cluster[0].snapshot_request().unwrap();
    cluster[2].propose_fast(0, write(5, 1, 5, 5));
    let effects = cluster[2].handle_snapshot(offer);
    assert_eq!(
        effects,
        vec![
            Effect::Node(Action::Persist { term: 1, voted_for: None }),
            Effect::FlushLog { last_index: 1, commit_index: 1 },
            Effect::Reply(AppendReply { term: 1, success: true, match_index: 1 }),
        ]
    );
    assert_eq!(cluster[2].last_index(), 1);
    assert_eq!(cluster[2].commit_index(), 1);
    assert_eq!(cluster[2].applied_index(), 1);
    assert_eq!(cluster[2].term_at(1), Some(1));
    assert_eq!(cluster[2].get(1), Some(10));
    assert_eq!(cluster[2].leader(), Some(0));
    // what the replica already holds committed is not installed again
    cluster[2].propose_fast(1, write(6, 1, 6, 6));
    let again = cluster[0].snapshot_request().unwrap();
    let effects = cluster[2].handle_snapshot(again);
    assert_eq!(
        effects,
        vec![Effect::Reply(AppendReply { term: 1, success: true, match_index: 1 })]
    );
    assert_eq!(cluster[2].applied_index(), 1);
    // the speculation in flight is still there
    assert_eq!(cluster[2].propose_fast(1, write(7, 1, 6, 7)), Ack::Rejected(Refusal::Conflict));
}

#[test]
fn offered_snapshot_keeps_the_log_after_it() {
    let mut cluster = trio();
    lead(&mut cluster, 0, 1);
    cluster[0].propose(write(1, 1, 1, 10)).unwrap();
    cluster[0].propose(write(1, 2, 2, 20)).unwrap();
    cluster[0].on_persisted(2);
    // replica 2 holds both entries, committed none
    let request = cluster[0].append_request(0).unwrap();
    let reply = reply_of(&cluster[2].handle_append(request));
    cluster[0].handle_append_reply(2, reply);
    assert_eq!(cluster[0].commit_index(), 2);
    assert_eq!(cluster[2].commit_index(), 0);
    cluster[0].apply_ready();
    // a snapshot through the first entry alone
    let mut other = trio();
    lead(&mut other, 0, 1);
    other[0].propose(write(1, 1, 1, 10)).unwrap();
    other[0].on_persisted(1);
    other[0].handle_append_reply(1, AppendReply { term: 1, success: true, match_index: 1 });
    other[0].apply_ready();
    let offer = other[0].snapshot_request().unwrap();
    assert_eq!(offer.snapshot.index(), 1);
    cluster[2].handle_snapshot(offer);
    assert_eq!(cluster[2].commit_index(), 1);
    assert_eq!(cluster[2].applied_index(), 1);
    assert_eq!(cluster[2].last_index(), 2);
    assert_eq!(cluster[2].entry(2), Some(LogEntry::new(2, 1, write(1, 2, 2, 20))));
}

#[test]
fn stale_or_malformed_snapshot_offers_are_not_installed() {
    let mut cluster = trio();
    lead(&mut cluster, 0, 1);
    cluster[0].propose(write(1, 1, 1, 10)).unwrap();
    cluster[0].on_persisted(1);
    cluster[0].handle_append_reply(1, AppendReply { term: 1, success: true, match_index: 1 });
    cluster[0].apply_ready();
    cluster[2].handle(Event::PeerTerm { term: 4 });
    let offer = cluster[0].snapshot_request().unwrap();
    assert_eq!(
        cluster[2].handle_snapshot(offer),
        vec![Effect::Node(Action::RejectLeader { to: 0, term: 4 })]
    );
    assert_eq!(cluster[2].applied_index(), 0);
    let mut offer = cluster[0].snapshot_request().unwrap();
    offer.term = 5;
    offer.last_term = 6;
    assert_eq!(
        cluster[2].handle_snapshot(offer),
        vec![
            Effect::Node(Action::Persist { term: 5, voted_for: None }),
            Effect::Reply(AppendReply { term: 5, success: false, match_index: 0 }),
        ]
    );
    assert_eq!(cluster[2].applied_index(), 0);
    assert_eq!(cluster[2].last_index(), 0);
}

#[test]
fn plan_sync_on_a_plain_log() {
    let mut log = replicated_kv::log::CommandLog::new();
    assert_eq!(plan_sync(&log, 0), SyncPlan::UpToDate);
    log.append(1, write(1, 1, 1, 1)).unwrap();
    log.append(1, write(1, 2, 1, 1)).unwrap();
    assert_eq!(plan_sync(&log, 0), SyncPlan::Entries { from: 1 });
    assert_eq!(plan_sync(&log, 1), SyncPlan::Entries { from: 2 });
    assert_eq!(plan_sync(&log, 2), SyncPlan::UpToDate);
    log.mark_committed(2).unwrap();
    log.record_snapshot(2).unwrap();
    log.compact(2).unwrap();
    assert_eq!(plan_sync(&log, 1), SyncPlan::Snapshot { through: 2, entries_follow: false });
    assert_eq!(plan_sync(&log, 2), SyncPlan::UpToDate);
}

#[test]
fn fast_proposal_conflicts_with_logged_commands_not_yet_applied() {
    let mut cluster = trio();
    lead(&mut cluster, 0, 1);
    cluster[0].propose(write(1, 1, 1, 10)).unwrap();
    // the leader holds the write of key 1 in its log, not yet applied
    assert_eq!(cluster[0].propose_fast(1, write(2, 1, 1, 20)), Ack::Rejected(Refusal::Conflict));
    assert_eq!(cluster[0].propose_fast(1, write(2, 1, 2, 20)), Ack::Accepted(vec![None]));
    // the logged command itself may be executed ahead of its turn
    assert_eq!(cluster[0].propose_fast(1, write(1, 1, 1, 10)), Ack::Accepted(vec![None]));
    cluster[0].on_persisted(1);
    cluster[0].handle_append_reply(1, AppendReply { term: 1, success: true, match_index: 1 });
    let done = cluster[0].apply_ready();
    assert!(done[0].confirmed);
    assert_eq!(done[0].outcome, Outcome::Applied(vec![None]));
    // once applied, the entry is no longer in flight
    assert_eq!(cluster[0].propose_fast(1, write(3, 1, 1, 30)), Ack::Accepted(vec![Some(10)]));
}

#[test]
fn discarded_speculation_is_gone() {
    let mut cluster = trio();
    cluster[0].propose_fast(0, write(1, 1, 1, 10));
    cluster[0].propose_fast(0, write(2, 1, 2, 20));
    assert!(cluster[0].discard_speculation(CommandId { client_id: 1, seq_no: 1 }));
    assert!(!cluster[0].discard_speculation(CommandId { client_id: 1, seq_no: 1 }));
    // what conflicted with the discarded command is accepted now
    assert_eq!(cluster[0].propose_fast(0, write(3, 1, 1, 30)), Ack::Accepted(vec![None]));
    assert_eq!(cluster[0].propose_fast(0, write(4, 1, 2, 40)), Ack::Rejected(Refusal::Conflict));
}

fn durable_of(leader: &mut Replica) -> Durable {
    Durable {
        term: leader.term(),
        voted_for: leader.voted_for(),
        snapshot: None,
        entries: (1..=leader.last_index()).map(|i| leader.entry(i).unwrap()).collect(),
        commit_index: leader.commit_index(),
    }
}

#[test]
fn restart_rebuilds_the_replica_from_durable_state() {
    let mut cluster = trio();
    lead(&mut cluster, 0, 1);
    cluster[0].propose(write(1, 1, 1, 10)).unwrap();
    cluster[0].propose(write(1, 2, 2, 20)).unwrap();
    cluster[0].on_persisted(2);
    cluster[0].handle_append_reply(1, AppendReply { term: 1, success: true, match_index: 1 });
    let durable = durable_of(&mut cluster[0]);
    let config = QuorumConfig::standard(3).unwrap();
    let mut back = Replica::restore(0, config, durable).unwrap();
    assert_eq!(back.role(), Role::Follower);
    assert_eq!(back.term(), 1);
    assert_eq!(back.voted_for(), Some(0));
    assert_eq!(back.leader(), None);
    assert_eq!(back.last_index(), 2);
    assert_eq!(back.commit_index(), 1);
    assert_eq!(back.applied_index(), 0);
    assert_eq!(back.entry(2).unwrap().command(), &write(1, 2, 2, 20));
    assert_eq!(back.get(1), None);
    let done = back.apply_ready();
    assert_eq!(done.len(), 1);
    assert_eq!(back.get(1), Some(10));
    assert_eq!(back.get(2), None);
}

#[test]
fn restart_from_a_snapshot_resumes_after_it() {
    let mut cluster = trio();
    lead(&mut cluster, 0, 1);
    cluster[0].propose(write(1, 1, 1, 10)).unwrap();
    cluster[0].propose(write(1, 2, 2, 20)).unwrap();
    cluster[0].on_persisted(2);
    cluster[0].handle_append_reply(1, AppendReply { term: 1, success: true, match_index: 2 });
    cluster[0].apply_ready();
    cluster[0].propose(write(1, 3, 3, 30)).unwrap();
    let snapshot = cluster[0].take_snapshot();
    let durable = Durable {
        term: 1,
        voted_for: Some(0),
        snapshot: Some((snapshot, 1)),
        entries: vec![cluster[0].entry(3).unwrap()],
        commit_index: 2,
    };
    let config = QuorumConfig::standard(3).unwrap();
    let back = Replica::restore(0, config, durable).unwrap();
    assert_eq!(back.applied_index(), 2);
    assert_eq!(back.commit_index(), 2);
    assert_eq!(back.last_index(), 3);
    assert_eq!(back.entry(2), None);
    assert_eq!(back.term_at(2), Some(1));
    assert_eq!(back.get(1), Some(10));
    assert_eq!(back.get(2), Some(20));
    assert_eq!(back.get(3), None);
}

#[test]
fn replica_refuses_durable_state_that_does_not_fit_together() {
    let config = QuorumConfig::standard(3).unwrap();
    let entry = |index: u64, term: u64| LogEntry::new(index, term, write(1, index, 1, 1));
    let durable = |entries: Vec<LogEntry>, term: u64, commit_index: u64| {
        Durable {
            term,
            voted_for: None,
            snapshot: None,
            entries,
            commit_index,
        }
    };
    assert!(Replica::restore(0, config, durable(vec![entry(1, 1), entry(2, 2)], 2, 1)).is_ok());
    assert!(Replica::restore(0, config, durable(vec![], 0, 0)).is_ok());
    // not a member
    assert_eq!(
        Replica::restore(3, config, durable(vec![], 0, 0)).unwrap_err(),
        RestoreError::UnknownReplica
    );
    // a gap
    assert_eq!(
        Replica::restore(0, config, durable(vec![entry(1, 1), entry(3, 1)], 1, 0)).unwrap_err(),
        RestoreError::Inconsistent
    );
    // does not start at the first index
    assert_eq!(
        Replica::restore(0, config, durable(vec![entry(2, 1)], 1, 0)).unwrap_err(),
        RestoreError::Inconsistent
    );
    // a term from the future
    assert_eq!(
        Replica::restore(0, config, durable(vec![entry(1, 3)], 2, 0)).unwrap_err(),
        RestoreError::Inconsistent
    );
    // terms that decrease
    assert_eq!(
        Replica::restore(0, config, durable(vec![entry(1, 2), entry(2, 1)], 2, 0)).unwrap_err(),
        RestoreError::Inconsistent
    );
    // a watermark beyond the log
    assert_eq!(
        Replica::restore(0, config, durable(vec![entry(1, 1)], 1, 2)).unwrap_err(),
        RestoreError::Inconsistent
    );
    // a snapshot that covers nothing
    let empty = Replica::new(0, config).unwrap().take_snapshot();
    let with_empty = Durable {
        term: 0,
        voted_for: None,
        snapshot: Some((empty, 0)),
        entries: vec![],
        commit_index: 0,
    };
    assert_eq!(Replica::restore(0, config, with_empty).unwrap_err(), RestoreError::Inconsistent);
}

#[test]
fn leader_at_the_last_index_cannot_append() {
    let config = QuorumConfig::standard(1).unwrap();
    let snapshot = replicated_kv::machine::Snapshot::from_parts(
        u64::MAX,
        std::collections::HashMap::new(),
        std::collections::HashMap::new(),
    );
    let durable = Durable {
        term: 1,
        voted_for: None,
        snapshot: Some((snapshot, 1)),
        entries: vec![],
        commit_index: u64::MAX,
    };
    let mut replica = Replica::restore(0, config, durable).unwrap();
    replica.handle(Event::ElectionTimeout);
    assert_eq!(replica.role(), Role::Leader);
    assert_eq!(replica.last_index(), u64::MAX);
    assert_eq!(
        replica.propose(write(1, 1, 1, 1)),
        Err(ProposeError::Log(LogError::IndexExhausted))
    );
    assert_eq!(replica.last_index(), u64::MAX);
    assert_eq!(replica.append_request(u64::MAX).unwrap().entries, vec![]);
    assert_eq!(replica.apply_ready(), vec![]);
}
