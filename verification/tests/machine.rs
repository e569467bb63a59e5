use replicated_kv::command::{Command, CommandId, Operation};
use replicated_kv::machine::{ApplyError, Machine, Outcome, SessionRecord, Snapshot};
use std::collections::HashMap;

fn write(client: u64, seq: u64, keys: &[u64], value: u64) -> Command {
    Command::new(client, seq, keys.to_vec(), Operation::Write(value))
}

#[test]
fn new_machine_is_empty() {
    let machine = Machine::new();
    assert_eq!(machine.applied_index(), 0);
    assert_eq!(machine.get(1), None);
    assert_eq!(machine.read(&vec![1, 2]), vec![None, None]);
    assert_eq!(machine.recall(CommandId { client_id: 1, seq_no: 1 }), None);
}

#[test]
fn write_stores_and_reports_previous_values() {
    let mut machine = Machine::new();
    assert_eq!(machine.apply(1, &write(1, 1, &[1, 2], 10)), Ok(Outcome::Applied(vec![None, None])));
    assert_eq!(machine.get(1), Some(10));
    assert_eq!(machine.get(2), Some(10));
    assert_eq!(
        machine.apply(2, &write(2, 1, &[2, 3], 20)),
        Ok(Outcome::Applied(vec![Some(10), None]))
    );
    assert_eq!(machine.read(&vec![1, 2, 3, 4]), vec![Some(10), Some(20), Some(20), None]);
    assert_eq!(machine.applied_index(), 2);
}

#[test]
fn read_changes_nothing() {
    let mut machine = Machine::new();
    machine.apply(1, &write(1, 1, &[1], 10)).unwrap();
    let read = Command::new(2, 1, vec![1, 9], Operation::Read);
    assert_eq!(machine.apply(2, &read), Ok(Outcome::Applied(vec![Some(10), None])));
    assert_eq!(machine.get(1), Some(10));
    assert_eq!(machine.get(9), None);
}

#[test]
fn delete_removes_keys() {
    let mut machine = Machine::new();
    machine.apply(1, &write(1, 1, &[1, 2], 10)).unwrap();
    let delete = Command::new(2, 1, vec![2, 3], Operation::Delete);
    assert_eq!(machine.apply(2, &delete), Ok(Outcome::Applied(vec![Some(10), None])));
    assert_eq!(machine.get(1), Some(10));
    assert_eq!(machine.get(2), None);
}

#[test]
fn a_key_listed_twice_is_written_once() {
    let mut machine = Machine::new();
    assert_eq!(machine.apply(1, &write(1, 1, &[5, 5], 3)), Ok(Outcome::Applied(vec![None, None])));
    assert_eq!(machine.get(5), Some(3));
}

#[test]
fn apply_refuses_out_of_order_indices() {
    let mut machine = Machine::new();
    assert_eq!(machine.apply(2, &write(1, 1, &[1], 10)), Err(ApplyError::OutOfOrder));
    assert_eq!(machine.apply(0, &write(1, 1, &[1], 10)), Err(ApplyError::OutOfOrder));
    assert_eq!(machine.applied_index(), 0);
    assert_eq!(machine.get(1), None);
    machine.apply(1, &write(1, 1, &[1], 10)).unwrap();
    assert_eq!(machine.apply(1, &write(1, 2, &[1], 11)), Err(ApplyError::OutOfOrder));
    assert_eq!(machine.apply(3, &write(1, 2, &[1], 11)), Err(ApplyError::OutOfOrder));
    assert_eq!(machine.get(1), Some(10));
}

#[test]
fn retry_returns_the_recorded_result_and_does_not_reapply() {
    let mut machine = Machine::new();
    let first = write(1, 1, &[1], 10);
    assert_eq!(machine.apply(1, &first), Ok(Outcome::Applied(vec![None])));
    machine.apply(2, &write(2, 1, &[1], 20)).unwrap();
    assert_eq!(machine.apply(3, &first), Ok(Outcome::Duplicate(vec![None])));
    assert_eq!(machine.get(1), Some(20));
    assert_eq!(machine.applied_index(), 3);
    assert_eq!(
        machine.recall(CommandId { client_id: 1, seq_no: 1 }),
        Some(Outcome::Duplicate(vec![None]))
    );
}

#[test]
fn older_sequence_number_is_stale() {
    let mut machine = Machine::new();
    machine.apply(1, &write(1, 5, &[1], 10)).unwrap();
    assert_eq!(machine.apply(2, &write(1, 4, &[1], 99)), Ok(Outcome::Stale));
    assert_eq!(machine.get(1), Some(10));
    assert_eq!(machine.recall(CommandId { client_id: 1, seq_no: 3 }), Some(Outcome::Stale));
    assert_eq!(machine.recall(CommandId { client_id: 1, seq_no: 6 }), None);
    assert_eq!(machine.recall(CommandId { client_id: 2, seq_no: 1 }), None);
}

#[test]
fn replicas_that_apply_the_same_log_agree() {
    let log = vec![
        write(1, 1, &[1, 2], 10),
        Command::new(2, 1, vec![2], Operation::Delete),
        write(1, 2, &[3], 30),
        write(1, 1, &[1, 2], 10),
        Command::new(3, 1, vec![1, 2, 3], Operation::Read),
    ];
    let mut a = Machine::new();
    let mut b = Machine::new();
    let mut index = 0;
    for command in &log {
        index += 1;
        let left = a.apply(index, command);
        let right = b.apply(index, command);
        assert_eq!(left, right);
    }
    assert_eq!(a.read(&vec![1, 2, 3]), vec![Some(10), None, Some(30)]);
    assert_eq!(a.read(&vec![1, 2, 3]), b.read(&vec![1, 2, 3]));
    assert_eq!(a.snapshot(), b.snapshot());
}

#[test]
fn commuting_commands_give_the_same_state_in_either_order() {
    let x = write(1, 1, &[1], 10);
    let y = write(2, 1, &[2], 20);
    let mut a = Machine::new();
    let xa = a.apply(1, &x);
    let ya = a.apply(2, &y);
    let mut b = Machine::new();
    let yb = b.apply(1, &y);
    let xb = b.apply(2, &x);
    assert_eq!(xa, xb);
    assert_eq!(ya, yb);
    assert_eq!(a.read(&vec![1, 2]), b.read(&vec![1, 2]));
}

#[test]
fn snapshot_restores_the_machine() {
    let mut machine = Machine::new();
    machine.apply(1, &write(1, 1, &[1], 10)).unwrap();
    machine.apply(2, &write(2, 1, &[2], 20)).unwrap();
    let snapshot = machine.snapshot();
    assert_eq!(snapshot.index(), 2);
    let mut restored = Machine::restore(snapshot);
    assert_eq!(restored.applied_index(), 2);
    assert_eq!(restored.read(&vec![1, 2]), vec![Some(10), Some(20)]);
    assert_eq!(restored.apply(3, &write(1, 1, &[1], 10)), Ok(Outcome::Duplicate(vec![None])));
    assert_eq!(restored.apply(4, &write(1, 2, &[1], 11)), Ok(Outcome::Applied(vec![Some(10)])));
}

#[test]
fn snapshot_plus_later_entries_equals_full_replay() {
    let log = vec![
        write(1, 1, &[1], 1),
        write(2, 1, &[2], 2),
        write(1, 2, &[2], 3),
        Command::new(2, 2, vec![1], Operation::Delete),
    ];
    let mut full = Machine::new();
    for (i, command) in log.iter().enumerate() {
        full.apply(i as u64 + 1, command).unwrap();
    }
    let mut early = Machine::new();
    early.apply(1, &log[0]).unwrap();
    early.apply(2, &log[1]).unwrap();
    let mut late = Machine::restore(early.snapshot());
    late.apply(3, &log[2]).unwrap();
    late.apply(4, &log[3]).unwrap();
    assert_eq!(late.snapshot(), full.snapshot());
}

#[test]
fn snapshot_parts_round_trip() {
    let mut kv = HashMap::new();
    kv.insert(1, 10);
    let mut sessions = HashMap::new();
    sessions.insert(7, SessionRecord::new(3, vec![None]));
    let snapshot = Snapshot::from_parts(5, kv.clone(), sessions);
    assert_eq!(snapshot.index(), 5);
    let machine = Machine::restore(snapshot);
    assert_eq!(machine.applied_index(), 5);
    assert_eq!(machine.get(1), Some(10));
    assert_eq!(
        machine.recall(CommandId { client_id: 7, seq_no: 3 }),
        Some(Outcome::Duplicate(vec![None]))
    );
    let (index, stored, records) = machine.snapshot().into_parts();
    assert_eq!(index, 5);
    assert_eq!(stored, kv);
    assert_eq!(records[&7].seq_no(), 3);
    assert_eq!(records[&7].result(), &vec![None]);
    assert_eq!(records[&7].clone(), SessionRecord::new(3, vec![None]));
}

#[test]
fn machine_at_the_last_index_applies_nothing_more() {
    let snapshot = Snapshot::from_parts(u64::MAX, HashMap::new(), HashMap::new());
    let mut machine = Machine::restore(snapshot);
    assert_eq!(machine.applied_index(), u64::MAX);
    assert_eq!(machine.apply(0, &write(1, 1, &[1], 1)), Err(ApplyError::OutOfOrder));
    assert_eq!(machine.apply(u64::MAX, &write(1, 1, &[1], 1)), Err(ApplyError::OutOfOrder));
    assert_eq!(machine.get(1), None);
}
