use replicated_kv::fastpath::{same_values, FastDecision, FastRound};
use replicated_kv::machine::Outcome;
use replicated_kv::quorum::{
    majority_of, recovery_threshold_of, super_quorum_of, QuorumConfig, Tally,
};
use replicated_kv::replica::{Ack, Refusal};
use replicated_kv::sync::{recover_undecided, Recovery};

fn yes() -> Ack {
    Ack::Accepted(vec![None])
}

fn no() -> Ack {
    Ack::Rejected(Refusal::Conflict)
}

#[test]
fn majority_is_more_than_half() {
    assert_eq!(majority_of(0), 1);
    assert_eq!(majority_of(1), 1);
    assert_eq!(majority_of(2), 2);
    assert_eq!(majority_of(3), 2);
    assert_eq!(majority_of(4), 3);
    assert_eq!(majority_of(5), 3);
    assert_eq!(majority_of(7), 4);
    assert_eq!(majority_of(u64::MAX), u64::MAX / 2 + 1);
}

#[test]
fn super_quorum_follows_the_formula() {
    // 2f + 1 replicas: ceil(3f / 2) + 1
    assert_eq!(super_quorum_of(1), 1);
    assert_eq!(super_quorum_of(3), 3);
    assert_eq!(super_quorum_of(5), 4);
    assert_eq!(super_quorum_of(7), 6);
    assert_eq!(super_quorum_of(9), 7);
    assert_eq!(super_quorum_of(11), 9);
    // even sizes
    assert_eq!(super_quorum_of(2), 2);
    assert_eq!(super_quorum_of(4), 4);
    assert_eq!(super_quorum_of(6), 5);
}

#[test]
fn recovery_threshold_is_more_than_half_of_those_asked() {
    assert_eq!(recovery_threshold_of(3), 2);
    assert_eq!(recovery_threshold_of(4), 3);
    assert_eq!(recovery_threshold_of(5), 3);
    assert_eq!(recovery_threshold_of(1), 1);
}

#[test]
fn standard_config_of_five() {
    let config = QuorumConfig::standard(5).unwrap();
    assert_eq!(config.replicas(), 5);
    assert_eq!(config.majority(), 3);
    assert_eq!(config.fast_quorum(), 4);
    assert!(config.is_majority(3));
    assert!(!config.is_majority(2));
    assert!(config.is_fast_quorum(4));
    assert!(!config.is_fast_quorum(3));
    assert!(!config.fast_quorum_lost(1));
    assert!(config.fast_quorum_lost(2));
    assert_eq!(QuorumConfig::standard(0), None);
}

#[test]
fn chosen_fast_quorum_must_be_safe() {
    assert_eq!(QuorumConfig::new(0, 0), None);
    assert_eq!(QuorumConfig::new(5, 6), None);
    assert_eq!(QuorumConfig::new(5, 2), None);
    // a plain majority is no super-quorum
    assert_eq!(QuorumConfig::new(5, 3), None);
    assert_eq!(QuorumConfig::new(5, 4), QuorumConfig::standard(5));
    assert_eq!(QuorumConfig::new(5, 5).unwrap().fast_quorum(), 5);
    assert_eq!(QuorumConfig::new(7, 5), None);
    assert_eq!(QuorumConfig::new(7, 6), QuorumConfig::standard(7));
    assert_eq!(QuorumConfig::new(4, 3), None);
    assert_eq!(QuorumConfig::new(4, 4).unwrap().fast_quorum(), 4);
    assert_eq!(QuorumConfig::new(1, 1).unwrap().majority(), 1);
    assert_eq!(QuorumConfig::new(2, 2).unwrap().majority(), 2);
    assert_eq!(QuorumConfig::new(2, 1), None);
}

#[test]
fn tally_counts_each_member_once() {
    let mut tally = Tally::new(3);
    assert_eq!(tally.count(), 0);
    assert!(tally.record(0));
    assert!(tally.record(2));
    assert!(!tally.record(2));
    assert!(!tally.record(3));
    assert_eq!(tally.count(), 2);
    assert!(tally.contains(0));
    assert!(!tally.contains(1));
    assert!(tally.contains(2));
    assert!(!tally.contains(3));
}

#[test]
fn fast_round_commits_on_a_super_quorum() {
    let mut round = FastRound::new(QuorumConfig::standard(5).unwrap());
    assert_eq!(round.decision(), FastDecision::Pending);
    assert_eq!(round.record(0, &yes()), FastDecision::Pending);
    assert_eq!(round.record(1, &yes()), FastDecision::Pending);
    assert_eq!(round.record(2, &yes()), FastDecision::Pending);
    assert_eq!(round.record(2, &yes()), FastDecision::Pending);
    assert_eq!(round.record(3, &no()), FastDecision::Pending);
    assert_eq!(round.record(4, &yes()), FastDecision::Commit);
    assert_eq!(round.decision(), FastDecision::Commit);
}

#[test]
fn fast_round_falls_back_when_the_quorum_is_out_of_reach() {
    let mut round = FastRound::new(QuorumConfig::standard(5).unwrap());
    assert_eq!(round.record(0, &yes()), FastDecision::Pending);
    assert_eq!(round.record(1, &no()), FastDecision::Pending);
    assert_eq!(round.record(2, &no()), FastDecision::Fallback);
    assert_eq!(round.record(3, &yes()), FastDecision::Fallback);
    assert_eq!(round.record(4, &yes()), FastDecision::Fallback);
}

#[test]
fn fast_round_counts_the_first_answer_of_a_member_only() {
    let mut round = FastRound::new(QuorumConfig::standard(3).unwrap());
    assert_eq!(round.record(0, &no()), FastDecision::Fallback);
    let mut round = FastRound::new(QuorumConfig::standard(3).unwrap());
    assert_eq!(round.record(0, &yes()), FastDecision::Pending);
    assert_eq!(round.record(0, &no()), FastDecision::Pending);
    assert_eq!(round.record(9, &yes()), FastDecision::Pending);
    assert_eq!(round.record(9, &no()), FastDecision::Pending);
    assert_eq!(round.record(1, &yes()), FastDecision::Pending);
    assert_eq!(round.record(2, &yes()), FastDecision::Commit);
}

#[test]
fn recovery_needs_a_majority_of_answers() {
    let config = QuorumConfig::standard(5).unwrap();
    assert_eq!(recover_undecided(&config, 2, 2), Recovery::AskMore);
    assert_eq!(recover_undecided(&config, 0, 0), Recovery::AskMore);
    assert_eq!(recover_undecided(&config, 3, 2), Recovery::Commit);
    assert_eq!(recover_undecided(&config, 3, 3), Recovery::Commit);
    assert_eq!(recover_undecided(&config, 3, 1), Recovery::Discard);
    assert_eq!(recover_undecided(&config, 3, 0), Recovery::Discard);
    assert_eq!(recover_undecided(&config, 4, 2), Recovery::Discard);
    assert_eq!(recover_undecided(&config, 4, 3), Recovery::Commit);
    assert_eq!(recover_undecided(&config, 5, 3), Recovery::Commit);
    assert_eq!(recover_undecided(&config, 5, 2), Recovery::Discard);
}

#[test]
fn fast_committed_command_is_recovered_from_any_majority() {
    // 5 replicas, fast quorum 4: whichever 3 answer, at least 2 hold the record.
    let config = QuorumConfig::standard(5).unwrap();
    let accepted = [0u64, 1, 2, 3];
    for a in 0..5u64 {
        for b in (a + 1)..5 {
            for c in (b + 1)..5 {
                let records = [a, b, c].iter().filter(|r| accepted.contains(r)).count() as u64;
                assert_eq!(recover_undecided(&config, 3, records), Recovery::Commit);
            }
        }
    }
}

#[test]
fn fast_round_reports_the_one_result_of_its_quorum() {
    let mut round = FastRound::new(QuorumConfig::standard(5).unwrap());
    assert_eq!(round.committed_result(), None);
    let seen = Ack::Accepted(vec![Some(7), None]);
    assert_eq!(round.record(0, &seen), FastDecision::Pending);
    assert_eq!(round.record(1, &seen), FastDecision::Pending);
    assert_eq!(round.record(2, &seen), FastDecision::Pending);
    assert_eq!(round.committed_result(), None);
    assert_eq!(round.record(3, &seen), FastDecision::Commit);
    assert_eq!(round.committed_result(), Some(vec![Some(7), None]));
}

#[test]
fn fast_round_counts_another_result_as_a_refusal() {
    let mut round = FastRound::new(QuorumConfig::standard(5).unwrap());
    assert_eq!(round.record(0, &Ack::Accepted(vec![Some(7)])), FastDecision::Pending);
    assert_eq!(round.record(1, &Ack::Accepted(vec![Some(8)])), FastDecision::Pending);
    assert_eq!(round.record(2, &Ack::Accepted(vec![None])), FastDecision::Fallback);
    assert_eq!(round.record(3, &Ack::Accepted(vec![Some(7)])), FastDecision::Fallback);
    assert_eq!(round.record(4, &Ack::Accepted(vec![Some(7)])), FastDecision::Fallback);
    assert_eq!(round.committed_result(), None);
}

#[test]
fn fast_round_counts_superseded_and_unavailable_as_refusals() {
    let mut round = FastRound::new(QuorumConfig::standard(3).unwrap());
    assert_eq!(round.record(0, &Ack::Superseded(Outcome::Stale)), FastDecision::Fallback);
    let mut round = FastRound::new(QuorumConfig::standard(5).unwrap());
    assert_eq!(round.record(0, &Ack::Rejected(Refusal::Unavailable)), FastDecision::Pending);
    assert_eq!(round.record(1, &Ack::Rejected(Refusal::StaleTerm)), FastDecision::Fallback);
}

#[test]
fn value_lists_compare_by_content() {
    assert!(same_values(&vec![], &vec![]));
    assert!(same_values(&vec![Some(1), None], &vec![Some(1), None]));
    assert!(!same_values(&vec![Some(1), None], &vec![Some(1)]));
    assert!(!same_values(&vec![Some(1)], &vec![Some(2)]));
    assert!(!same_values(&vec![Some(1)], &vec![None]));
    assert!(!same_values(&vec![None], &vec![Some(0)]));
}
