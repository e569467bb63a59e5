//! The client's side of a submission: one command in flight at a time,
//! resent to another node on redirection or timeout until it is committed,
//! found stale, or the allowed attempts are used up.
//!
//! Resending keeps the sequence number, so the machine answers a retry of a
//! command that was already applied with the recorded result.

use crate::command::{Command, CommandId, CommandView, Operation};
use vstd::prelude::*;

verus! {

/// What a node answered to a submission.
#[derive(Debug, PartialEq, Eq)]
pub enum Reply {
    /// The command is committed; holds its result.
    Committed(Vec<Option<u64>>),
    /// The client has since had a later command applied.
    Stale,
    /// The node does not lead; holds the leader it knows of.
    NotLeader { leader: Option<u64> },
    /// No answer arrived in time.
    Timeout,
}

/// Why a submission failed for good.
#[derive(Clone, Copy, Debug, PartialEq, Eq, Structural)]
pub enum SubmitError {
    /// Another command of the session is still in flight.
    Busy,
    /// The session has used its last sequence number.
    Exhausted,
    /// The client has since had a later command applied.
    Stale,
    /// The allowed attempts are used up.
    DeadlineExceeded,
}

/// What the client does next.
#[derive(Debug, PartialEq, Eq)]
pub enum Next {
    /// Hand the result to the caller.
    Deliver(Vec<Option<u64>>),
    /// Send the same command, with the same sequence number, to `target`.
    Resend { target: u64 },
    /// Report the failure to the caller.
    Fail(SubmitError),
    /// The answer belongs to no command in flight; drop it.
    Ignore,
}

/// The mathematical content of a [`Next`].
pub enum NextView {
    Deliver(Seq<Option<u64>>),
    Resend { target: u64 },
    Fail(SubmitError),
    Ignore,
}

impl View for Next {
    type V = NextView;

    open spec fn view(&self) -> NextView {
        match self {
            Next::Deliver(values) => NextView::Deliver(values@),
            Next::Resend { target } => NextView::Resend { target: *target },
            Next::Fail(e) => NextView::Fail(*e),
            Next::Ignore => NextView::Ignore,
        }
    }
}

/// The mathematical content of a [`Reply`].
pub enum ReplyView {
    Committed(Seq<Option<u64>>),
    Stale,
    NotLeader { leader: Option<u64> },
    Timeout,
}

impl View for Reply {
    type V = ReplyView;

    open spec fn view(&self) -> ReplyView {
        match self {
            Reply::Committed(values) => ReplyView::Committed(values@),
            Reply::Stale => ReplyView::Stale,
            Reply::NotLeader { leader } => ReplyView::NotLeader { leader: *leader },
            Reply::Timeout => ReplyView::Timeout,
        }
    }
}

/// The mathematical content of a [`ClientSession`].
pub struct SessionState {
    pub client_id: u64,
    pub replicas: u64,
    /// The sequence number of the last command begun; 0 before any.
    pub last_seq: u64,
    /// The node the next message goes to.
    pub target: u64,
    /// The attempts a command gets.
    pub max_attempts: u32,
    /// The attempts the command in flight has left.
    pub attempts_left: u32,
    /// Whether the command `last_seq` is in flight.
    pub in_flight: bool,
    /// The result of the last delivered command, with its sequence number.
    pub delivered: Option<(u64, Seq<Option<u64>>)>,
}

impl SessionState {
    /// The invariant: the target is a member.
    pub open spec fn inv(self) -> bool {
        self.target < self.replicas
    }

    /// The node to try after `self.target` when `leader` was named.
    pub open spec fn next_target(self, leader: Option<u64>) -> u64 {
        match leader {
            Some(l) if l < self.replicas => l,
            _ => if self.target + 1 < self.replicas {
                (self.target + 1) as u64
            } else {
                0
            },
        }
    }

    /// The session after `reply` to the command `seq_no`.
    pub open spec fn after_reply(self, seq_no: u64, reply: ReplyView) -> SessionState {
        if !self.in_flight || seq_no != self.last_seq {
            self
        } else {
            match reply {
                ReplyView::Committed(values) => SessionState {
                    in_flight: false,
                    delivered: Some((seq_no, values)),
                    ..self
                },
                ReplyView::Stale => SessionState { in_flight: false, ..self },
                ReplyView::NotLeader { leader } => self.retried(leader),
                ReplyView::Timeout => self.retried(None),
            }
        }
    }

    /// The session after one more attempt was asked for.
    pub open spec fn retried(self, leader: Option<u64>) -> SessionState {
        if self.attempts_left == 0 {
            SessionState { in_flight: false, ..self }
        } else {
            SessionState {
                attempts_left: (self.attempts_left - 1) as u32,
                target: self.next_target(leader),
                ..self
            }
        }
    }

    /// What the client does after `reply` to the command `seq_no`.
    pub open spec fn reaction(self, seq_no: u64, reply: ReplyView) -> NextView {
        if !self.in_flight || seq_no != self.last_seq {
            match self.delivered {
                Some((seq, values)) if seq == seq_no && reply is Committed => NextView::Deliver(
                    values,
                ),
                _ => NextView::Ignore,
            }
        } else {
            match reply {
                ReplyView::Committed(values) => NextView::Deliver(values),
                ReplyView::Stale => NextView::Fail(SubmitError::Stale),
                ReplyView::NotLeader { leader } => self.retry_reaction(leader),
                ReplyView::Timeout => self.retry_reaction(None),
            }
        }
    }

    /// What the client does when one more attempt is asked for.
    pub open spec fn retry_reaction(self, leader: Option<u64>) -> NextView {
        if self.attempts_left == 0 {
            NextView::Fail(SubmitError::DeadlineExceeded)
        } else {
            NextView::Resend { target: self.next_target(leader) }
        }
    }
}

/// One client's session.
#[derive(Debug)]
pub struct ClientSession {
    client_id: u64,
    replicas: u64,
    last_seq: u64,
    target: u64,
    max_attempts: u32,
    attempts_left: u32,
    in_flight: bool,
    delivered: Option<(u64, Vec<Option<u64>>)>,
}

impl View for ClientSession {
    type V = SessionState;

    closed spec fn view(&self) -> SessionState {
        SessionState {
            client_id: self.client_id,
            replicas: self.replicas,
            last_seq: self.last_seq,
            target: self.target,
            max_attempts: self.max_attempts,
            attempts_left: self.attempts_left,
            in_flight: self.in_flight,
            delivered: match self.delivered {
                Some((seq, values)) => Some((seq, values@)),
                None => None,
            },
        }
    }
}

impl ClientSession {
    /// A session of `client_id` that first contacts `target` and gives every
    /// command `max_attempts` further attempts; `None` when `target` is no
    /// member of the cluster.
    pub fn new(client_id: u64, replicas: u64, target: u64, max_attempts: u32) -> (session: Option<
        Self,
    >)
        ensures
            session is Some <==> target < replicas,
            session matches Some(s) ==> s@ == (SessionState {
                client_id,
                replicas,
                last_seq: 0,
                target,
                max_attempts,
                attempts_left: 0,
                in_flight: false,
                delivered: None,
            }),
    {
        if target >= replicas {
            return None;
        }
        Some(
            ClientSession {
                client_id,
                replicas,
                last_seq: 0,
                target,
                max_attempts,
                attempts_left: 0,
                in_flight: false,
                delivered: None,
            },
        )
    }

    /// A session of `client_id` that continues after the command `last_seq`,
    /// as a client does that starts again; `None` when `target` is no member
    /// of the cluster.
    pub fn resume(
        client_id: u64,
        replicas: u64,
        target: u64,
        max_attempts: u32,
        last_seq: u64,
    ) -> (session: Option<Self>)
        ensures
            session is Some <==> target < replicas,
            session matches Some(s) ==> s@ == (SessionState {
                client_id,
                replicas,
                last_seq,
                target,
                max_attempts,
                attempts_left: 0,
                in_flight: false,
                delivered: None,
            }),
    {
        if target >= replicas {
            return None;
        }
        Some(
            ClientSession {
                client_id,
                replicas,
                last_seq,
                target,
                max_attempts,
                attempts_left: 0,
                in_flight: false,
                delivered: None,
            },
        )
    }

    /// The node the next message goes to.
    pub fn target(&self) -> (target: u64)
        ensures
            target == self@.target,
    {
        self.target
    }

    /// Whether a command is in flight.
    pub fn is_busy(&self) -> (busy: bool)
        ensures
            busy == self@.in_flight,
    {
        self.in_flight
    }

    /// Begins a new command over `keys` and returns it, to be sent to
    /// [`ClientSession::target`].
    ///
    /// The command gets the next sequence number. Refused while another
    /// command is in flight, and when the sequence numbers are used up.
    pub fn begin(&mut self, keys: Vec<u64>, op: Operation) -> (begun: Result<Command, SubmitError>)
        ensures
            match begun {
                Ok(command) => {
                    &&& !old(self)@.in_flight
                    &&& old(self)@.last_seq < u64::MAX
                    &&& command@ == (CommandView {
                        id: CommandId {
                            client_id: old(self)@.client_id,
                            seq_no: (old(self)@.last_seq + 1) as u64,
                        },
                        keys: keys@,
                        op,
                    })
                    &&& final(self)@ == (SessionState {
                        last_seq: (old(self)@.last_seq + 1) as u64,
                        attempts_left: old(self)@.max_attempts,
                        in_flight: true,
                        ..old(self)@
                    })
                },
                Err(SubmitError::Busy) => old(self)@.in_flight && final(self)@ == old(self)@,
                Err(SubmitError::Exhausted) => !old(self)@.in_flight && old(self)@.last_seq
                    == u64::MAX && final(self)@ == old(self)@,
                Err(_) => false,
            },
    {
        if self.in_flight {
            return Err(SubmitError::Busy);
        }
        if self.last_seq == u64::MAX {
            return Err(SubmitError::Exhausted);
        }
        self.last_seq = self.last_seq + 1;
        self.attempts_left = self.max_attempts;
        self.in_flight = true;
        Ok(Command::new(self.client_id, self.last_seq, keys, op))
    }

    /// Takes in a node's answer to the command `seq_no` and says what to do
    /// next.
    ///
    /// - A committed command is delivered, and its result is kept: a
    ///   repeated answer for it delivers the same result again.
    /// - A stale command fails.
    /// - A redirection or a timeout asks for one more attempt, at the named
    ///   leader if it is a member, else at the next node in turn; when no
    ///   attempt is left, the submission fails.
    /// - Answers for any other sequence number are dropped.
    pub fn on_reply(&mut self, seq_no: u64, reply: Reply) -> (next: Next)
        requires
            old(self)@.inv(),
        ensures
            final(self)@.inv(),
            final(self)@ == old(self)@.after_reply(seq_no, reply@),
            next@ == old(self)@.reaction(seq_no, reply@),
    {
        if !self.in_flight || seq_no != self.last_seq {
            let committed = match &reply {
                Reply::Committed(_) => true,
                _ => false,
            };
            return match &self.delivered {
                Some((seq, values)) => {
                    if *seq == seq_no && committed {
                        let copy = values.clone();
                        assert(copy@ =~= values@);
                        Next::Deliver(copy)
                    } else {
                        Next::Ignore
                    }
                },
                None => Next::Ignore,
            };
        }
        match reply {
            Reply::Committed(values) => {
                let copy = values.clone();
                assert(copy@ =~= values@);
                self.in_flight = false;
                self.delivered = Some((seq_no, copy));
                Next::Deliver(values)
            },
            Reply::Stale => {
                self.in_flight = false;
                Next::Fail(SubmitError::Stale)
            },
            Reply::NotLeader { leader } => self.retry(leader),
            Reply::Timeout => self.retry(None),
        }
    }

    /// Uses one attempt, or gives up when none is left.
    fn retry(&mut self, leader: Option<u64>) -> (next: Next)
        requires
            old(self)@.inv(),
        ensures
            final(self)@.inv(),
            final(self)@ == old(self)@.retried(leader),
            next@ == old(self)@.retry_reaction(leader),
    {
        if self.attempts_left == 0 {
            self.in_flight = false;
            return Next::Fail(SubmitError::DeadlineExceeded);
        }
        self.attempts_left = self.attempts_left - 1;
        let named = match leader {
            Some(l) => l < self.replicas,
            None => false,
        };
        let target = if named {
            leader.unwrap()
        } else if self.target + 1 < self.replicas {
            self.target + 1
        } else {
            0
        };
        self.target = target;
        Next::Resend { target }
    }
}

/// A submission never asks for more than the allowed further attempts: each
/// one uses up an attempt, and with none left the submission fails.
pub proof fn lemma_attempts_are_bounded(session: SessionState, leader: Option<u64>)
    requires
        session.inv(),
    ensures
        session.retry_reaction(leader) is Resend ==> session.retried(leader).attempts_left
            < session.attempts_left,
        session.attempts_left == 0 ==> session.retry_reaction(leader) == NextView::Fail(
            SubmitError::DeadlineExceeded,
        ) && !session.retried(leader).in_flight,
        session.retried(leader).inv(),
        session.retried(leader).last_seq == session.last_seq,
{
}

/// A repeated answer for a delivered command delivers the same result, and
/// leaves the session as it is.
pub proof fn lemma_repeated_answer_repeats_result(
    session: SessionState,
    seq_no: u64,
    values: Seq<Option<u64>>,
    again: Seq<Option<u64>>,
)
    requires
        session.in_flight,
        session.last_seq == seq_no,
    ensures
        ({
            let after = session.after_reply(seq_no, ReplyView::Committed(values));
            &&& session.reaction(seq_no, ReplyView::Committed(values)) == NextView::Deliver(values)
            &&& after.reaction(seq_no, ReplyView::Committed(again)) == NextView::Deliver(values)
            &&& after.after_reply(seq_no, ReplyView::Committed(again)) == after
        }),
{
}

} // verus!
