use replicated_kv::command::{Command, CommandId, Operation};
use replicated_kv::fastpath::{FastDecision, FastRound};
use replicated_kv::machine::Outcome;
use replicated_kv::protocol::{Action, Event, Role};
use replicated_kv::quorum::QuorumConfig;
use replicated_kv::replica::{Ack, AppendReply, Effect, Refusal, Replica};
use replicated_kv::sync::SyncPlan;

fn write(client: u64, seq: u64, key: u64, value: u64) -> Command {
    Command::new(client, seq, vec![key], Operation::Write(value))
}

fn cluster_of(replicas: u64) -> Vec<Replica> {
    let config = QuorumConfig::standard(replicas).unwrap();
    (0..replicas).map(|id| Replica::new(id, config).unwrap()).collect()
}

/// Runs an election of `candidate` among `voters` and returns who granted.
fn elect(cluster: &mut Vec<Replica>, candidate: usize, voters: &[usize]) -> Vec<usize> {
    let actions = cluster[candidate].handle(Event::ElectionTimeout);
    let (term, last_log_index, last_log_term) = match actions[1] {
        Action::RequestVotes { term, last_log_index, last_log_term } => {
            (term, last_log_index, last_log_term)
        }
        other => panic!("unexpected action {:?}", other),
    };
    let mut granted_by = Vec::new();
    for &voter in voters {
        let answer = cluster[voter].handle(Event::VoteRequest {
            term,
            candidate: candidate as u64,
            last_log_index,
            last_log_term,
        });
        let granted = match answer.last() {
            Some(Action::ReplyVote { granted, .. }) => *granted,
            other => panic!("no answer: {:?}", other),
        };
        if granted {
            granted_by.push(voter);
        }
        cluster[candidate].handle(Event::VoteReply { term, voter: voter as u64, granted });
    }
    granted_by
}

/// Sends the leader's log after the follower's commit watermark to the
/// follower and hands the answer back to the leader.
fn replicate(cluster: &mut Vec<Replica>, leader: usize, follower: usize) -> AppendReply {
    let prev = cluster[follower].commit_index();
    let request = cluster[leader].append_request(prev).unwrap();
    let effects = cluster[follower].handle_append(request);
    let reply = match effects.last() {
        Some(Effect::Reply(reply)) => *reply,
        other => panic!("no reply: {:?}", other),
    };
    let flushed = effects.len() >= 2
        && matches!(effects[effects.len() - 2], Effect::FlushLog { .. });
    assert!(flushed || !reply.success);
    cluster[leader].handle_append_reply(follower as u64, reply);
    reply
}

#[test]
fn disjoint_writes_commit_on_the_fast_path_without_an_election() {
    let mut cluster = cluster_of(5);
    let config = QuorumConfig::standard(5).unwrap();
    let a = write(1, 1, 1, 10);
    let b = write(2, 1, 2, 20);
    let mut round_a = FastRound::new(config);
    let mut round_b = FastRound::new(config);
    let mut decisions_a = Vec::new();
    let mut decisions_b = Vec::new();
    for id in 0..5usize {
        // the two proposals reach the replicas in different orders
        let (first, second) = if id < 3 { (&a, &b) } else { (&b, &a) };
        let ack_first = cluster[id].propose_fast(0, first.clone());
        let ack_second = cluster[id].propose_fast(0, second.clone());
        assert_eq!(ack_first, Ack::Accepted(vec![None]));
        assert_eq!(ack_second, Ack::Accepted(vec![None]));
        let (ack_a, ack_b) = if id < 3 { (ack_first, ack_second) } else { (ack_second, ack_first) };
        decisions_a.push(round_a.record(id as u64, &ack_a));
        decisions_b.push(round_b.record(id as u64, &ack_b));
    }
    let expected = vec![
        FastDecision::Pending,
        FastDecision::Pending,
        FastDecision::Pending,
        FastDecision::Commit,
        FastDecision::Commit,
    ];
    assert_eq!(decisions_a, expected);
    assert_eq!(decisions_b, expected);
    assert_eq!(round_a.committed_result(), Some(vec![None]));
    assert_eq!(round_b.committed_result(), Some(vec![None]));
    for replica in &cluster {
        assert_eq!(replica.role(), Role::Follower);
        assert_eq!(replica.term(), 0);
        assert_eq!(replica.voted_for(), None);
        assert_eq!(replica.last_index(), 0);
    }
}

#[test]
fn same_key_writes_are_finalized_in_one_order() {
    let mut cluster = cluster_of(5);
    let config = QuorumConfig::standard(5).unwrap();
    let a = write(1, 1, 1, 10);
    let b = write(2, 1, 1, 20);
    let mut round_a = FastRound::new(config);
    let mut round_b = FastRound::new(config);
    for id in 0..5usize {
        let (first, second) = if id < 3 { (&a, &b) } else { (&b, &a) };
        let ack_first = cluster[id].propose_fast(0, first.clone());
        let ack_second = cluster[id].propose_fast(0, second.clone());
        assert_eq!(ack_first, Ack::Accepted(vec![None]));
        assert_eq!(ack_second, Ack::Rejected(Refusal::Conflict));
        let (ack_a, ack_b) = if id < 3 { (ack_first, ack_second) } else { (ack_second, ack_first) };
        round_a.record(id as u64, &ack_a);
        round_b.record(id as u64, &ack_b);
    }
    // both were accepted somewhere, neither by a super-quorum
    assert_eq!(round_a.decision(), FastDecision::Fallback);
    assert_eq!(round_b.decision(), FastDecision::Fallback);
    assert_eq!(round_a.committed_result(), None);
    assert_eq!(round_b.committed_result(), None);

    // the slow path orders them
    assert_eq!(elect(&mut cluster, 0, &[1, 2]), vec![1, 2]);
    assert_eq!(cluster[0].role(), Role::Leader);
    assert_eq!(cluster[0].propose(a.clone()), Ok(1));
    assert_eq!(cluster[0].propose(b.clone()), Ok(2));
    cluster[0].on_persisted(2);
    for follower in 1..5 {
        let reply = replicate(&mut cluster, 0, follower);
        assert_eq!(reply, AppendReply { term: 1, success: true, match_index: 2 });
    }
    assert_eq!(cluster[0].commit_index(), 2);
    for follower in 1..5 {
        replicate(&mut cluster, 0, follower);
        assert_eq!(cluster[follower].commit_index(), 2);
    }
    for id in 0..5usize {
        let done = cluster[id].apply_ready();
        assert_eq!(done.len(), 2);
        // every replica, whichever command it had executed speculatively,
        // reports the results of the one final order: a, then b
        assert_eq!(done[0].outcome, Outcome::Applied(vec![None]));
        assert_eq!(done[1].outcome, Outcome::Applied(vec![Some(10)]));
        if id < 3 {
            assert!(done[0].confirmed);
            assert_eq!(done[0].rolled_back, vec![]);
        } else {
            assert!(!done[0].confirmed);
            assert_eq!(done[0].rolled_back, vec![CommandId { client_id: 2, seq_no: 1 }]);
        }
        assert!(!done[1].confirmed);
        assert_eq!(cluster[id].get(1), Some(20));
        assert_eq!(cluster[id].applied_index(), 2);
        assert_eq!(cluster[id].entry(1), cluster[0].entry(1));
        assert_eq!(cluster[id].entry(2), cluster[0].entry(2));
    }
}

#[test]
fn entry_on_a_minority_is_discarded_after_the_leader_crashes() {
    let mut cluster = cluster_of(5);
    let lost = write(7, 1, 1, 10);
    assert_eq!(elect(&mut cluster, 0, &[1, 2]), vec![1, 2]);
    assert_eq!(cluster[0].propose(lost.clone()), Ok(1));
    cluster[0].on_persisted(1);
    let reply = replicate(&mut cluster, 0, 1);
    assert!(reply.success);
    // persisted on 2 of 5: not committed
    assert_eq!(cluster[0].commit_index(), 0);
    assert_eq!(cluster[1].entry(1).unwrap().term(), 1);

    // the leader crashes; node 2 stands; node 1 holds a longer log and refuses
    assert_eq!(elect(&mut cluster, 2, &[1, 3, 4]), vec![3, 4]);
    assert_eq!(cluster[2].role(), Role::Leader);
    assert_eq!(cluster[2].term(), 2);
    assert_eq!(cluster[2].last_index(), 0);

    // the client submits again, with the same identity
    let again = Command::new(7, 1, vec![1], Operation::Write(10));
    assert_eq!(cluster[2].propose(again), Ok(1));
    cluster[2].on_persisted(1);
    for follower in [1usize, 3, 4] {
        let reply = replicate(&mut cluster, 2, follower);
        assert_eq!(reply, AppendReply { term: 2, success: true, match_index: 1 });
    }
    // node 1 gave up the old entry for the new leader's
    assert_eq!(cluster[1].entry(1).unwrap().term(), 2);
    assert_eq!(cluster[2].commit_index(), 1);
    let done = cluster[2].apply_ready();
    assert_eq!(done.len(), 1);
    assert_eq!(done[0].outcome, Outcome::Applied(vec![None]));
    assert_eq!(cluster[2].get(1), Some(10));

    // the old leader comes back and follows
    let reply = replicate(&mut cluster, 2, 0);
    assert_eq!(reply, AppendReply { term: 2, success: true, match_index: 1 });
    assert_eq!(cluster[0].role(), Role::Follower);
    assert_eq!(cluster[0].term(), 2);
    assert_eq!(cluster[0].entry(1), cluster[2].entry(1));
    assert_eq!(cluster[0].entry(1).unwrap().term(), 2);
    let done = cluster[0].apply_ready();
    assert_eq!(done[0].outcome, Outcome::Applied(vec![None]));
}

#[test]
fn lagging_replica_catches_up_from_a_snapshot() {
    let mut cluster = cluster_of(5);
    assert_eq!(elect(&mut cluster, 0, &[1, 2, 3]), vec![1, 2, 3]);
    for seq in 1..=3u64 {
        assert_eq!(cluster[0].propose(write(1, seq, seq, seq * 10)), Ok(seq));
    }
    cluster[0].on_persisted(3);
    for round in 0..2 {
        for follower in 1..4 {
            replicate(&mut cluster, 0, follower);
        }
        assert_eq!(cluster[0].commit_index(), 3, "round {}", round);
    }
    for id in 0..4 {
        assert_eq!(cluster[id].apply_ready().len(), 3);
    }
    // the leader compacts everything its snapshot covers
    let offer = cluster[0].snapshot_request().unwrap();
    assert_eq!(offer.snapshot.index(), 3);
    assert_eq!(cluster[0].compact(3), Ok(3));
    assert_eq!(cluster[0].propose(write(1, 4, 1, 40)), Ok(4));
    cluster[0].on_persisted(4);
    for _ in 0..2 {
        for follower in 1..4 {
            replicate(&mut cluster, 0, follower);
        }
    }
    for id in 0..4 {
        assert_eq!(cluster[id].apply_ready().len(), 1);
    }

    // replica 4 was away all along
    assert_eq!(cluster[4].last_index(), 0);
    assert_eq!(
        cluster[0].plan_sync(cluster[4].last_index()),
        SyncPlan::Snapshot { through: 3, entries_follow: true }
    );
    assert_eq!(cluster[0].append_request(0), None);
    assert_eq!(Some(offer.last_term), cluster[0].term_at(3));
    let effects = cluster[4].handle_snapshot(offer);
    let installed = AppendReply { term: 1, success: true, match_index: 3 };
    assert_eq!(
        effects[1..],
        [
            Effect::FlushLog { last_index: 3, commit_index: 3 },
            Effect::Reply(installed),
        ]
    );
    cluster[0].handle_append_reply(4, installed);
    assert_eq!(cluster[4].applied_index(), 3);
    assert_eq!(cluster[0].plan_sync(cluster[4].last_index()), SyncPlan::Entries { from: 4 });
    let reply = replicate(&mut cluster, 0, 4);
    assert_eq!(reply, AppendReply { term: 1, success: true, match_index: 4 });
    let done = cluster[4].apply_ready();
    assert_eq!(done.len(), 1);
    assert_eq!(done[0].outcome, Outcome::Applied(vec![Some(10)]));
    assert_eq!(cluster[0].plan_sync(cluster[4].last_index()), SyncPlan::UpToDate);

    // it ends where the replicas that were always there ended
    for key in 0..5 {
        assert_eq!(cluster[4].get(key), cluster[1].get(key));
        assert_eq!(cluster[4].get(key), cluster[0].get(key));
    }
    assert_eq!(cluster[4].get(1), Some(40));
    assert_eq!(cluster[4].get(2), Some(20));
    assert_eq!(cluster[4].get(3), Some(30));
    assert_eq!(cluster[4].applied_index(), cluster[1].applied_index());
    assert_eq!(cluster[4].take_snapshot(), cluster[1].take_snapshot());
}

#[test]
fn committed_command_survives_the_crash_of_any_minority() {
    // 5 replicas; the entry is durable on 0, 1, 2. Whichever two crash, a
    // survivor holds the entry, and only a holder can win the next election.
    for crashed_a in 0..5usize {
        for crashed_b in (crashed_a + 1)..5 {
            let mut cluster = cluster_of(5);
            elect(&mut cluster, 0, &[1, 2]);
            cluster[0].propose(write(1, 1, 1, 10)).unwrap();
            cluster[0].on_persisted(1);
            replicate(&mut cluster, 0, 1);
            replicate(&mut cluster, 0, 2);
            assert_eq!(cluster[0].commit_index(), 1);
            let alive: Vec<usize> =
                (0..5).filter(|id| *id != crashed_a && *id != crashed_b).collect();
            let holders: Vec<usize> =
                alive.iter().copied().filter(|id| cluster[*id].last_index() == 1).collect();
            assert!(!holders.is_empty());
            for &candidate in &alive {
                let voters: Vec<usize> =
                    alive.iter().copied().filter(|id| *id != candidate).collect();
                let mut trial = cluster_of(5);
                elect(&mut trial, 0, &[1, 2]);
                trial[0].propose(write(1, 1, 1, 10)).unwrap();
                trial[0].on_persisted(1);
                replicate(&mut trial, 0, 1);
                replicate(&mut trial, 0, 2);
                if candidate == 0 {
                    // the leader itself still leads and holds the entry
                    assert_eq!(trial[0].entry(1).unwrap().term(), 1);
                    continue;
                }
                elect(&mut trial, candidate, &voters);
                if trial[candidate].role() == Role::Leader {
                    assert_eq!(trial[candidate].entry(1).unwrap().command(), &write(1, 1, 1, 10));
                }
            }
        }
    }
}

#[test]
fn follower_that_crashes_before_flushing_loses_only_what_it_never_reported() {
    let mut cluster = cluster_of(3);
    elect(&mut cluster, 0, &[1]);
    cluster[0].propose(write(1, 1, 1, 10)).unwrap();
    cluster[0].on_persisted(1);
    let reply = replicate(&mut cluster, 0, 1);
    assert!(reply.success);
    assert_eq!(cluster[0].commit_index(), 1);
    // the follower takes in a second entry and crashes before the flush:
    // it has reported the first entry only, and that is what it holds durably
    cluster[0].propose(write(1, 2, 2, 20)).unwrap();
    let request = cluster[0].append_request(1).unwrap();
    let durable = replicated_kv::replica::Durable {
        term: cluster[1].term(),
        voted_for: cluster[1].voted_for(),
        snapshot: None,
        entries: vec![cluster[1].entry(1).unwrap()],
        commit_index: cluster[1].commit_index(),
    };
    let effects = cluster[1].handle_append(request);
    assert!(matches!(effects[effects.len() - 2], Effect::FlushLog { last_index: 2, .. }));
    let config = QuorumConfig::standard(3).unwrap();
    cluster[1] = Replica::restore(1, config, durable).unwrap();
    assert_eq!(cluster[1].last_index(), 1);
    // the leader sends the entry again, and the cluster goes on
    cluster[0].on_persisted(2);
    let reply = replicate(&mut cluster, 0, 1);
    assert_eq!(reply, AppendReply { term: 1, success: true, match_index: 2 });
    assert_eq!(cluster[0].commit_index(), 2);
    replicate(&mut cluster, 0, 1);
    cluster[1].apply_ready();
    cluster[0].apply_ready();
    assert_eq!(cluster[1].get(2), Some(20));
    assert_eq!(cluster[1].get(1), cluster[0].get(1));
}
