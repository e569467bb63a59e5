use replicated_kv::command::{Command, Operation};
use replicated_kv::log::{Accepted, CommandLog, LogEntry, LogError};

fn write(client: u64, seq: u64, key: u64, value: u64) -> Command {
    Command::new(client, seq, vec![key], Operation::Write(value))
}

fn filled(terms: &[u64]) -> CommandLog {
    let mut log = CommandLog::new();
    for (i, term) in terms.iter().enumerate() {
        log.append(*term, write(1, i as u64 + 1, i as u64, 0)).unwrap();
    }
    log
}

#[test]
fn new_log_is_empty() {
    let log = CommandLog::new();
    assert_eq!(log.last_index(), 0);
    assert_eq!(log.last_term(), 0);
    assert_eq!(log.base_index(), 0);
    assert_eq!(log.commit_index(), 0);
    assert_eq!(log.snapshot_index(), 0);
    assert_eq!(log.get(0), None);
    assert_eq!(log.get(1), None);
    assert_eq!(log.term_at(0), Some(0));
    assert_eq!(log.term_at(1), None);
}

#[test]
fn append_returns_dense_indices() {
    let mut log = CommandLog::new();
    assert_eq!(log.append(1, write(1, 1, 1, 10)), Ok(1));
    assert_eq!(log.append(1, write(1, 2, 2, 20)), Ok(2));
    assert_eq!(log.append(3, write(1, 3, 3, 30)), Ok(3));
    assert_eq!(log.last_index(), 3);
    assert_eq!(log.last_term(), 3);
    assert_eq!(log.term_at(2), Some(1));
    assert_eq!(log.term_at(4), None);
}

#[test]
fn append_refuses_a_lower_term() {
    let mut log = filled(&[2]);
    assert_eq!(log.append(1, write(1, 2, 1, 1)), Err(LogError::TermRegressed));
    assert_eq!(log.last_index(), 1);
}

#[test]
fn get_returns_the_entry_with_its_commit_status() {
    let mut log = filled(&[1, 2]);
    log.mark_committed(1).unwrap();
    let first = log.get(1).unwrap();
    assert_eq!(first.index(), 1);
    assert_eq!(first.term(), 1);
    assert_eq!(first.command(), &write(1, 1, 0, 0));
    assert!(first.is_committed());
    let second = log.get(2).unwrap();
    assert_eq!(second.index(), 2);
    assert_eq!(second.term(), 2);
    assert!(!second.is_committed());
    assert_eq!(log.get(3), None);
    assert_eq!(second.clone(), second);
}

#[test]
fn log_entry_new_is_uncommitted() {
    let entry = LogEntry::new(4, 2, write(1, 1, 1, 1));
    assert_eq!(entry.index(), 4);
    assert_eq!(entry.term(), 2);
    assert!(!entry.is_committed());
}

#[test]
fn mark_committed_raises_the_watermark_and_never_lowers_it() {
    let mut log = filled(&[1, 1, 1]);
    assert_eq!(log.mark_committed(2), Ok(()));
    assert_eq!(log.commit_index(), 2);
    assert_eq!(log.mark_committed(1), Ok(()));
    assert_eq!(log.commit_index(), 2);
    assert_eq!(log.mark_committed(4), Err(LogError::Missing));
    assert_eq!(log.commit_index(), 2);
}

#[test]
fn snapshot_needs_committed_entries() {
    let mut log = filled(&[1, 1, 1]);
    log.mark_committed(2).unwrap();
    assert_eq!(log.record_snapshot(3), Err(LogError::NotCommitted));
    assert_eq!(log.snapshot_index(), 0);
    assert_eq!(log.record_snapshot(2), Ok(()));
    assert_eq!(log.snapshot_index(), 2);
    assert_eq!(log.record_snapshot(1), Ok(()));
    assert_eq!(log.snapshot_index(), 2);
}

#[test]
fn compact_needs_a_snapshot() {
    let mut log = filled(&[1, 1, 1]);
    log.mark_committed(3).unwrap();
    assert_eq!(log.compact(1), Err(LogError::NotInSnapshot));
    assert_eq!(log.base_index(), 0);
    assert_eq!(log.get(1).unwrap().index(), 1);
}

#[test]
fn compact_removes_the_prefix_only() {
    let mut log = filled(&[1, 2, 2, 3]);
    log.mark_committed(3).unwrap();
    log.record_snapshot(2).unwrap();
    assert_eq!(log.compact(2), Ok(2));
    assert_eq!(log.base_index(), 2);
    assert_eq!(log.last_index(), 4);
    assert_eq!(log.get(1), None);
    assert_eq!(log.get(2), None);
    assert_eq!(log.term_at(1), None);
    assert_eq!(log.term_at(2), Some(2));
    let third = log.get(3).unwrap();
    assert_eq!(third.term(), 2);
    assert_eq!(third.command(), &write(1, 3, 2, 0));
    assert!(third.is_committed());
    assert_eq!(log.get(4).unwrap().term(), 3);
    assert_eq!(log.compact(2), Ok(0));
    assert_eq!(log.compact(1), Ok(0));
    assert_eq!(log.compact(3), Err(LogError::NotInSnapshot));
    assert_eq!(log.append(3, write(1, 5, 9, 9)), Ok(5));
}

#[test]
fn truncate_never_removes_committed_entries() {
    let mut log = filled(&[1, 1, 1]);
    log.mark_committed(2).unwrap();
    assert_eq!(log.truncate_from(2), Err(LogError::AlreadyCommitted));
    assert_eq!(log.truncate_from(1), Err(LogError::AlreadyCommitted));
    assert_eq!(log.last_index(), 3);
    assert_eq!(log.truncate_from(3), Ok(()));
    assert_eq!(log.last_index(), 2);
    assert_eq!(log.truncate_from(7), Ok(()));
    assert_eq!(log.last_index(), 2);
}

#[test]
fn accept_appends_after_the_last_entry() {
    let mut log = filled(&[1]);
    assert_eq!(log.accept(2, 1, write(2, 1, 5, 5)), Ok(Accepted::Appended));
    assert_eq!(log.last_index(), 2);
    assert_eq!(log.get(2).unwrap().command(), &write(2, 1, 5, 5));
}

#[test]
fn accept_keeps_an_entry_it_already_holds() {
    let mut log = filled(&[1, 1]);
    assert_eq!(log.accept(1, 1, write(9, 9, 9, 9)), Ok(Accepted::Present));
    assert_eq!(log.last_index(), 2);
    assert_eq!(log.get(1).unwrap().command(), &write(1, 1, 0, 0));
}

#[test]
fn accept_replaces_an_uncommitted_conflict_and_what_follows() {
    let mut log = filled(&[1, 1, 1]);
    log.mark_committed(1).unwrap();
    assert_eq!(log.accept(2, 2, write(2, 1, 5, 5)), Ok(Accepted::Replaced));
    assert_eq!(log.last_index(), 2);
    assert_eq!(log.get(2).unwrap().term(), 2);
    assert_eq!(log.get(2).unwrap().command(), &write(2, 1, 5, 5));
    assert_eq!(log.get(1).unwrap().command(), &write(1, 1, 0, 0));
}

#[test]
fn accept_refuses_what_it_must() {
    let mut log = filled(&[2, 2]);
    log.mark_committed(1).unwrap();
    assert_eq!(log.accept(4, 2, write(2, 1, 5, 5)), Err(LogError::Gap));
    assert_eq!(log.accept(1, 3, write(2, 1, 5, 5)), Err(LogError::CommittedConflict));
    assert_eq!(log.accept(3, 1, write(2, 1, 5, 5)), Err(LogError::TermRegressed));
    assert_eq!(log.accept(2, 1, write(2, 1, 5, 5)), Err(LogError::TermRegressed));
    assert_eq!(log.last_index(), 2);
    assert_eq!(log.get(2).unwrap().term(), 2);
}

#[test]
fn accept_below_the_compaction_point_changes_nothing() {
    let mut log = filled(&[1, 1]);
    log.mark_committed(2).unwrap();
    log.record_snapshot(2).unwrap();
    log.compact(2).unwrap();
    assert_eq!(log.accept(1, 7, write(2, 1, 5, 5)), Ok(Accepted::Present));
    assert_eq!(log.accept(2, 7, write(2, 1, 5, 5)), Ok(Accepted::Present));
    assert_eq!(log.last_index(), 2);
    assert_eq!(log.base_index(), 2);
}

#[test]
fn install_snapshot_resets_the_log() {
    let mut log = filled(&[1, 1]);
    log.mark_committed(1).unwrap();
    assert_eq!(log.install_snapshot(1, 1), Err(LogError::AlreadyCommitted));
    assert_eq!(log.last_index(), 2);
    assert_eq!(log.install_snapshot(5, 3), Ok(()));
    assert_eq!(log.base_index(), 5);
    assert_eq!(log.last_index(), 5);
    assert_eq!(log.last_term(), 3);
    assert_eq!(log.commit_index(), 5);
    assert_eq!(log.snapshot_index(), 5);
    assert_eq!(log.get(2), None);
    assert_eq!(log.append(3, write(1, 1, 1, 1)), Ok(6));
}

#[test]
fn entries_from_copies_the_tail() {
    let mut log = filled(&[1, 2, 3]);
    log.mark_committed(2).unwrap();
    let tail = log.entries_from(2).unwrap();
    assert_eq!(tail.len(), 2);
    assert_eq!(tail[0], log.get(2).unwrap());
    assert_eq!(tail[1], log.get(3).unwrap());
    assert!(tail[0].is_committed());
    assert!(!tail[1].is_committed());
    assert_eq!(log.entries_from(4).unwrap().len(), 0);
    assert_eq!(log.entries_from(5), None);
    assert_eq!(log.entries_from(0), None);
    log.record_snapshot(2).unwrap();
    log.compact(2).unwrap();
    assert_eq!(log.entries_from(2), None);
    assert_eq!(log.entries_from(3).unwrap().len(), 1);
}

#[test]
fn first_conflict_after_skips_what_commutes_and_the_command_itself() {
    let mut log = CommandLog::new();
    log.append(1, write(1, 1, 1, 0)).unwrap();
    log.append(1, write(2, 1, 2, 0)).unwrap();
    log.append(1, write(3, 1, 1, 0)).unwrap();
    log.append(1, Command::new(4, 1, vec![2], Operation::Read)).unwrap();
    let probe = write(9, 1, 1, 5);
    assert_eq!(log.first_conflict_after(0, &probe), Some(1));
    assert_eq!(log.first_conflict_after(1, &probe), Some(3));
    assert_eq!(log.first_conflict_after(3, &probe), None);
    assert_eq!(log.first_conflict_after(9, &probe), None);
    assert_eq!(log.first_conflict_after(0, &write(9, 1, 7, 5)), None);
    assert_eq!(log.first_conflict_after(0, &Command::new(9, 1, vec![2], Operation::Read)), Some(2));
    assert_eq!(log.first_conflict_after(2, &Command::new(9, 1, vec![2], Operation::Read)), None);
    // the same command, already logged, does not block itself
    assert_eq!(log.first_conflict_after(0, &write(1, 1, 1, 0)), Some(3));
    assert_eq!(log.first_conflict_after(1, &write(3, 1, 1, 0)), None);
    log.mark_committed(2).unwrap();
    log.record_snapshot(2).unwrap();
    log.compact(2).unwrap();
    assert_eq!(log.first_conflict_after(0, &probe), Some(3));
    assert_eq!(log.first_conflict_after(2, &probe), Some(3));
}

#[test]
fn install_snapshot_keeps_the_entries_after_a_matching_entry() {
    let mut log = filled(&[1, 2, 2]);
    assert_eq!(log.install_snapshot(2, 2), Ok(()));
    assert_eq!(log.base_index(), 2);
    assert_eq!(log.commit_index(), 2);
    assert_eq!(log.snapshot_index(), 2);
    assert_eq!(log.last_index(), 3);
    assert_eq!(log.term_at(2), Some(2));
    assert_eq!(log.get(2), None);
    assert_eq!(log.get(3).unwrap().command(), &write(1, 3, 2, 0));
}

#[test]
fn install_snapshot_discards_a_log_that_differs() {
    let mut log = filled(&[1, 2, 2]);
    assert_eq!(log.install_snapshot(2, 1), Ok(()));
    assert_eq!(log.base_index(), 2);
    assert_eq!(log.last_index(), 2);
    assert_eq!(log.last_term(), 1);
    assert_eq!(log.get(3), None);
}

#[test]
fn append_refuses_when_the_indices_are_used_up() {
    let mut log = CommandLog::new();
    log.install_snapshot(u64::MAX, 1).unwrap();
    assert_eq!(log.last_index(), u64::MAX);
    assert_eq!(log.append(1, write(1, 1, 1, 1)), Err(LogError::IndexExhausted));
    assert_eq!(log.append(0, write(1, 1, 1, 1)), Err(LogError::TermRegressed));
    assert_eq!(log.accept(u64::MAX, 9, write(1, 1, 1, 1)), Ok(Accepted::Present));
    assert_eq!(log.last_index(), u64::MAX);
    assert_eq!(log.first_conflict_after(0, &write(1, 1, 1, 1)), None);
}
