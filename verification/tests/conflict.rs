use replicated_kv::command::{Command, CommandId, Operation};
use replicated_kv::conflict::{commute, contains_key, detect, keys_overlap, Verdict};

fn write(client: u64, seq: u64, keys: &[u64], value: u64) -> Command {
    Command::new(client, seq, keys.to_vec(), Operation::Write(value))
}

fn read(client: u64, seq: u64, keys: &[u64]) -> Command {
    Command::new(client, seq, keys.to_vec(), Operation::Read)
}

#[test]
fn command_keeps_what_it_was_built_from() {
    let command = Command::new(7, 3, vec![1, 2], Operation::Write(9));
    assert_eq!(command.id(), CommandId { client_id: 7, seq_no: 3 });
    assert_eq!(command.keys(), &vec![1, 2]);
    assert_eq!(command.operation(), Operation::Write(9));
    assert!(!command.is_read_only());
    assert!(read(1, 1, &[1]).is_read_only());
    assert!(!Command::new(1, 1, vec![1], Operation::Delete).is_read_only());
    assert_eq!(command.clone(), command);
    assert_ne!(command, Command::new(7, 3, vec![1, 3], Operation::Write(9)));
    assert_ne!(command, Command::new(7, 4, vec![1, 2], Operation::Write(9)));
    assert_ne!(command, Command::new(7, 3, vec![1, 2], Operation::Write(8)));
}

#[test]
fn operation_read_only_flag() {
    assert!(Operation::Read.read_only());
    assert!(!Operation::Write(0).read_only());
    assert!(!Operation::Delete.read_only());
}

#[test]
fn key_search_finds_only_present_keys() {
    assert!(contains_key(&vec![4, 5, 6], 6));
    assert!(!contains_key(&vec![4, 5, 6], 7));
    assert!(!contains_key(&vec![], 0));
    assert!(keys_overlap(&vec![1, 2, 3], &vec![9, 3]));
    assert!(!keys_overlap(&vec![1, 2, 3], &vec![4, 5]));
    assert!(!keys_overlap(&vec![], &vec![4, 5]));
}

#[test]
fn disjoint_writes_commute() {
    assert!(commute(&write(1, 1, &[1], 10), &write(2, 1, &[2], 20)));
}

#[test]
fn same_key_writes_conflict() {
    assert!(!commute(&write(1, 1, &[1], 10), &write(2, 1, &[1], 20)));
}

#[test]
fn read_and_write_of_one_key_conflict() {
    assert!(!commute(&read(1, 1, &[1]), &write(2, 1, &[1], 20)));
    assert!(!commute(&write(2, 1, &[1], 20), &read(1, 1, &[1])));
    assert!(!commute(&read(1, 1, &[1, 2]), &Command::new(2, 1, vec![2], Operation::Delete)));
}

#[test]
fn reads_of_one_key_commute() {
    assert!(commute(&read(1, 1, &[1]), &read(2, 1, &[1])));
}

#[test]
fn empty_key_set_conflicts_with_everything() {
    let barrier = Command::new(1, 1, vec![], Operation::Read);
    assert!(!commute(&barrier, &read(2, 1, &[1])));
    assert!(!commute(&read(2, 1, &[1]), &barrier));
    assert!(!commute(&barrier, &write(2, 1, &[5], 1)));
    assert!(!commute(&barrier, &Command::new(3, 1, vec![], Operation::Write(1))));
}

#[test]
fn commute_is_symmetric_on_samples() {
    let samples = vec![
        write(1, 1, &[1], 1),
        write(2, 1, &[1, 2], 2),
        read(3, 1, &[2]),
        read(4, 1, &[2, 3]),
        Command::new(5, 1, vec![], Operation::Delete),
        Command::new(6, 1, vec![3], Operation::Delete),
    ];
    for a in &samples {
        for b in &samples {
            assert_eq!(commute(a, b), commute(b, a));
        }
    }
}

#[test]
fn detect_answers_commute_without_anything_in_flight() {
    assert_eq!(detect(&write(1, 1, &[1], 1), &vec![]), Verdict::Commute);
    assert_eq!(detect(&Command::new(1, 1, vec![], Operation::Read), &vec![]), Verdict::Commute);
}

#[test]
fn detect_finds_a_conflict_anywhere_in_flight() {
    let in_flight = vec![write(1, 1, &[1], 1), read(2, 1, &[2]), write(3, 1, &[3], 3)];
    assert_eq!(detect(&write(9, 1, &[4], 0), &in_flight), Verdict::Commute);
    assert_eq!(detect(&read(9, 1, &[2]), &in_flight), Verdict::Commute);
    assert_eq!(detect(&write(9, 1, &[3], 0), &in_flight), Verdict::Conflict);
    assert_eq!(detect(&write(9, 1, &[2], 0), &in_flight), Verdict::Conflict);
    assert_eq!(detect(&read(9, 1, &[7, 1]), &in_flight), Verdict::Conflict);
    assert_eq!(
        detect(&Command::new(9, 1, vec![], Operation::Read), &in_flight),
        Verdict::Conflict
    );
}

#[test]
fn detect_ignores_payloads() {
    let in_flight = vec![write(1, 1, &[1], 5)];
    assert_eq!(detect(&write(2, 1, &[1], 5), &in_flight), Verdict::Conflict);
    assert_eq!(detect(&write(2, 1, &[2], 5), &in_flight), Verdict::Commute);
}
