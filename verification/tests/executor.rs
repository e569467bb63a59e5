use replicated_kv::command::{Command, CommandId, Operation};
use replicated_kv::executor::{Executor, SpeculationError};
use replicated_kv::machine::{ApplyError, Outcome};

fn write(client: u64, seq: u64, keys: &[u64], value: u64) -> Command {
    Command::new(client, seq, keys.to_vec(), Operation::Write(value))
}

fn read(client: u64, seq: u64, keys: &[u64]) -> Command {
    Command::new(client, seq, keys.to_vec(), Operation::Read)
}

#[test]
fn speculative_execution_leaves_the_store_alone() {
    let mut executor = Executor::new();
    assert_eq!(executor.execute_speculative(write(1, 1, &[1], 10)), Ok(vec![None]));
    assert_eq!(executor.get(1), None);
    assert_eq!(executor.applied_index(), 0);
    assert_eq!(executor.in_flight(), 1);
}

#[test]
fn commuting_commands_are_all_accepted() {
    let mut executor = Executor::new();
    assert_eq!(executor.execute_speculative(write(1, 1, &[1], 10)), Ok(vec![None]));
    assert_eq!(executor.execute_speculative(write(2, 1, &[2], 20)), Ok(vec![None]));
    assert_eq!(executor.execute_speculative(read(3, 1, &[3])), Ok(vec![None]));
    assert_eq!(executor.execute_speculative(read(4, 1, &[3])), Ok(vec![None]));
    assert_eq!(executor.in_flight(), 4);
}

#[test]
fn conflicting_command_is_refused() {
    let mut executor = Executor::new();
    executor.execute_speculative(write(1, 1, &[1], 10)).unwrap();
    assert_eq!(
        executor.execute_speculative(write(2, 1, &[1], 20)),
        Err(SpeculationError::Conflict)
    );
    assert_eq!(executor.execute_speculative(read(3, 1, &[1])), Err(SpeculationError::Conflict));
    assert_eq!(
        executor.execute_speculative(Command::new(4, 1, vec![], Operation::Read)),
        Err(SpeculationError::Conflict)
    );
    assert_eq!(executor.in_flight(), 1);
}

#[test]
fn retry_of_an_in_flight_command_repeats_its_result() {
    let mut executor = Executor::new();
    assert_eq!(executor.execute_speculative(write(1, 1, &[1], 10)), Ok(vec![None]));
    assert_eq!(executor.execute_speculative(write(1, 1, &[1], 10)), Ok(vec![None]));
    assert_eq!(executor.in_flight(), 1);
}

#[test]
fn finalized_command_is_superseded() {
    let mut executor = Executor::new();
    executor.apply_committed(1, &write(1, 2, &[1], 10)).unwrap();
    assert_eq!(
        executor.execute_speculative(write(1, 2, &[1], 10)),
        Err(SpeculationError::Superseded(Outcome::Duplicate(vec![None])))
    );
    assert_eq!(
        executor.execute_speculative(write(1, 1, &[1], 10)),
        Err(SpeculationError::Superseded(Outcome::Stale))
    );
    assert_eq!(executor.in_flight(), 0);
}

#[test]
fn confirmed_command_keeps_its_speculative_result() {
    let mut executor = Executor::new();
    executor.apply_committed(1, &write(9, 1, &[1], 5)).unwrap();
    let command = write(1, 1, &[1, 2], 10);
    let speculative = executor.execute_speculative(command.clone()).unwrap();
    assert_eq!(speculative, vec![Some(5), None]);
    executor.execute_speculative(write(2, 1, &[3], 30)).unwrap();
    let other = executor.apply_committed(2, &write(2, 1, &[3], 30)).unwrap();
    assert!(other.confirmed);
    let done = executor.apply_committed(3, &command).unwrap();
    assert_eq!(done.outcome, Outcome::Applied(speculative));
    assert!(done.confirmed);
    assert_eq!(done.rolled_back, vec![]);
    assert_eq!(executor.in_flight(), 0);
    assert_eq!(executor.get(1), Some(10));
}

#[test]
fn conflicting_commit_rolls_speculation_back() {
    let mut executor = Executor::new();
    executor.execute_speculative(write(1, 1, &[1], 10)).unwrap();
    executor.execute_speculative(write(2, 1, &[2], 20)).unwrap();
    let done = executor.apply_committed(1, &write(3, 1, &[1], 30)).unwrap();
    assert_eq!(done.outcome, Outcome::Applied(vec![None]));
    assert!(!done.confirmed);
    assert_eq!(done.rolled_back, vec![CommandId { client_id: 1, seq_no: 1 }]);
    assert_eq!(executor.in_flight(), 1);
    let later = executor.apply_committed(2, &write(1, 1, &[1], 10)).unwrap();
    assert_eq!(later.outcome, Outcome::Applied(vec![Some(30)]));
    assert!(!later.confirmed);
    assert_eq!(executor.get(1), Some(10));
}

#[test]
fn commit_of_a_later_command_of_the_client_drops_the_earlier_one() {
    let mut executor = Executor::new();
    executor.execute_speculative(write(1, 1, &[1], 10)).unwrap();
    let done = executor.apply_committed(1, &write(1, 2, &[2], 20)).unwrap();
    assert_eq!(done.rolled_back, vec![CommandId { client_id: 1, seq_no: 1 }]);
    assert_eq!(executor.in_flight(), 0);
}

#[test]
fn duplicate_commit_changes_nothing() {
    let mut executor = Executor::new();
    let command = write(1, 1, &[1], 10);
    executor.apply_committed(1, &command).unwrap();
    executor.execute_speculative(write(2, 1, &[2], 20)).unwrap();
    let again = executor.apply_committed(2, &command).unwrap();
    assert_eq!(again.outcome, Outcome::Duplicate(vec![None]));
    assert!(!again.confirmed);
    assert_eq!(again.rolled_back, vec![]);
    assert_eq!(executor.in_flight(), 1);
    assert_eq!(executor.get(1), Some(10));
}

#[test]
fn executor_applies_in_index_order_only() {
    let mut executor = Executor::new();
    executor.execute_speculative(write(1, 1, &[1], 10)).unwrap();
    assert_eq!(
        executor.apply_committed(2, &write(1, 1, &[1], 10)).unwrap_err(),
        ApplyError::OutOfOrder
    );
    assert_eq!(executor.in_flight(), 1);
    assert_eq!(executor.applied_index(), 0);
}

#[test]
fn executor_restores_from_a_snapshot_without_speculation() {
    let mut executor = Executor::new();
    executor.apply_committed(1, &write(1, 1, &[1], 10)).unwrap();
    executor.execute_speculative(write(2, 1, &[2], 20)).unwrap();
    let snapshot = executor.snapshot();
    assert_eq!(snapshot.index(), 1);
    let restored = Executor::restore(snapshot);
    assert_eq!(restored.applied_index(), 1);
    assert_eq!(restored.in_flight(), 0);
    assert_eq!(restored.get(1), Some(10));
    assert_eq!(restored.get(2), None);
}

#[test]
fn executor_recalls_what_was_finalized() {
    let mut executor = Executor::new();
    assert_eq!(executor.recall(CommandId { client_id: 1, seq_no: 1 }), None);
    executor.apply_committed(1, &write(1, 2, &[1], 10)).unwrap();
    assert_eq!(
        executor.recall(CommandId { client_id: 1, seq_no: 2 }),
        Some(Outcome::Duplicate(vec![None]))
    );
    assert_eq!(executor.recall(CommandId { client_id: 1, seq_no: 1 }), Some(Outcome::Stale));
    assert_eq!(executor.recall(CommandId { client_id: 1, seq_no: 3 }), None);
}

#[test]
fn executor_discards_one_speculation() {
    let mut executor = Executor::new();
    executor.execute_speculative(write(1, 1, &[1], 10)).unwrap();
    executor.execute_speculative(write(2, 1, &[2], 20)).unwrap();
    executor.execute_speculative(write(3, 1, &[3], 30)).unwrap();
    assert!(executor.discard(CommandId { client_id: 2, seq_no: 1 }));
    assert_eq!(executor.in_flight(), 2);
    assert!(!executor.discard(CommandId { client_id: 2, seq_no: 1 }));
    assert!(!executor.discard(CommandId { client_id: 9, seq_no: 9 }));
    assert_eq!(executor.in_flight(), 2);
    assert_eq!(executor.execute_speculative(write(4, 1, &[2], 40)), Ok(vec![None]));
    assert_eq!(
        executor.execute_speculative(write(5, 1, &[1], 50)),
        Err(SpeculationError::Conflict)
    );
}
