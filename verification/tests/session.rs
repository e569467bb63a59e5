use replicated_kv::command::{Command, Operation};
use replicated_kv::session::{ClientSession, Next, Reply, SubmitError};

#[test]
fn session_needs_a_member_as_target() {
    assert!(ClientSession::new(1, 3, 3, 2).is_none());
    assert!(ClientSession::new(1, 0, 0, 2).is_none());
    let session = ClientSession::new(1, 3, 2, 2).unwrap();
    assert_eq!(session.target(), 2);
    assert!(!session.is_busy());
}

#[test]
fn begin_numbers_commands_from_one() {
    let mut session = ClientSession::new(7, 3, 0, 2).unwrap();
    let first = session.begin(vec![1], Operation::Write(5)).unwrap();
    assert_eq!(first, Command::new(7, 1, vec![1], Operation::Write(5)));
    assert!(session.is_busy());
    assert_eq!(session.begin(vec![2], Operation::Read), Err(SubmitError::Busy));
    assert_eq!(session.on_reply(1, Reply::Committed(vec![None])), Next::Deliver(vec![None]));
    assert!(!session.is_busy());
    let second = session.begin(vec![2], Operation::Read).unwrap();
    assert_eq!(second, Command::new(7, 2, vec![2], Operation::Read));
}

#[test]
fn redirection_follows_the_named_leader() {
    let mut session = ClientSession::new(7, 5, 0, 3).unwrap();
    session.begin(vec![1], Operation::Read).unwrap();
    assert_eq!(
        session.on_reply(1, Reply::NotLeader { leader: Some(3) }),
        Next::Resend { target: 3 }
    );
    assert_eq!(session.target(), 3);
    assert!(session.is_busy());
}

#[test]
fn timeout_and_unknown_leader_try_the_next_node_in_turn() {
    let mut session = ClientSession::new(7, 3, 1, 5).unwrap();
    session.begin(vec![1], Operation::Read).unwrap();
    assert_eq!(session.on_reply(1, Reply::Timeout), Next::Resend { target: 2 });
    assert_eq!(session.on_reply(1, Reply::NotLeader { leader: None }), Next::Resend { target: 0 });
    assert_eq!(
        session.on_reply(1, Reply::NotLeader { leader: Some(9) }),
        Next::Resend { target: 1 }
    );
    assert_eq!(session.target(), 1);
}

#[test]
fn attempts_are_bounded() {
    let mut session = ClientSession::new(7, 3, 0, 2).unwrap();
    session.begin(vec![1], Operation::Read).unwrap();
    assert_eq!(session.on_reply(1, Reply::Timeout), Next::Resend { target: 1 });
    assert_eq!(session.on_reply(1, Reply::Timeout), Next::Resend { target: 2 });
    assert_eq!(session.on_reply(1, Reply::Timeout), Next::Fail(SubmitError::DeadlineExceeded));
    assert!(!session.is_busy());
    assert_eq!(session.on_reply(1, Reply::Timeout), Next::Ignore);
    // the next command gets its own attempts
    let next = session.begin(vec![1], Operation::Read).unwrap();
    assert_eq!(next, Command::new(7, 2, vec![1], Operation::Read));
    assert_eq!(session.on_reply(2, Reply::Timeout), Next::Resend { target: 0 });
}

#[test]
fn no_further_attempts_means_one_try() {
    let mut session = ClientSession::new(7, 3, 0, 0).unwrap();
    session.begin(vec![1], Operation::Read).unwrap();
    assert_eq!(
        session.on_reply(1, Reply::NotLeader { leader: Some(1) }),
        Next::Fail(SubmitError::DeadlineExceeded)
    );
    assert_eq!(session.target(), 0);
}

#[test]
fn stale_command_fails() {
    let mut session = ClientSession::new(7, 3, 0, 2).unwrap();
    session.begin(vec![1], Operation::Read).unwrap();
    assert_eq!(session.on_reply(1, Reply::Stale), Next::Fail(SubmitError::Stale));
    assert!(!session.is_busy());
}

#[test]
fn repeated_answer_delivers_the_same_result() {
    let mut session = ClientSession::new(7, 3, 0, 2).unwrap();
    session.begin(vec![1], Operation::Read).unwrap();
    assert_eq!(
        session.on_reply(1, Reply::Committed(vec![Some(4)])),
        Next::Deliver(vec![Some(4)])
    );
    assert_eq!(
        session.on_reply(1, Reply::Committed(vec![Some(9)])),
        Next::Deliver(vec![Some(4)])
    );
    assert_eq!(session.on_reply(1, Reply::Timeout), Next::Ignore);
    assert_eq!(session.on_reply(1, Reply::Stale), Next::Ignore);
}

#[test]
fn answers_for_other_sequence_numbers_are_dropped() {
    let mut session = ClientSession::new(7, 3, 0, 2).unwrap();
    assert_eq!(session.on_reply(1, Reply::Committed(vec![])), Next::Ignore);
    session.begin(vec![1], Operation::Read).unwrap();
    assert_eq!(session.on_reply(2, Reply::Committed(vec![])), Next::Ignore);
    assert_eq!(session.on_reply(0, Reply::Timeout), Next::Ignore);
    assert!(session.is_busy());
    assert_eq!(session.target(), 0);
}

#[test]
fn resumed_session_continues_its_sequence() {
    assert!(ClientSession::resume(7, 3, 3, 2, 10).is_none());
    let mut session = ClientSession::resume(7, 3, 1, 2, 10).unwrap();
    assert_eq!(session.target(), 1);
    let next = session.begin(vec![1], Operation::Read).unwrap();
    assert_eq!(next, Command::new(7, 11, vec![1], Operation::Read));
}

#[test]
fn session_stops_at_the_last_sequence_number() {
    let mut session = ClientSession::resume(7, 3, 0, 2, u64::MAX - 1).unwrap();
    let last = session.begin(vec![1], Operation::Read).unwrap();
    assert_eq!(last, Command::new(7, u64::MAX, vec![1], Operation::Read));
    assert_eq!(session.on_reply(u64::MAX, Reply::Committed(vec![None])), Next::Deliver(vec![None]));
    assert_eq!(session.begin(vec![1], Operation::Read), Err(SubmitError::Exhausted));
    assert!(!session.is_busy());
}
