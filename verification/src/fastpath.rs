//! The coordinator's side of the fast path: collecting the replicas'
//! answers to one proposal and deciding between committing at once and
//! falling back to the leader.
//!
//! A round commits when a fast-path quorum of replicas has executed the
//! command speculatively and all of them report the same result. What is
//! proved of such a round: it never also calls for the fallback; two rounds
//! that no replica accepted together never both commit; whoever asks a
//! majority afterwards finds the command recorded by more than half of
//! those asked (see [`crate::sync`]); and a replica that still holds the
//! command in flight when the command is applied reports the result it
//! reported to the round (see [`crate::executor`]). That the leader orders
//! the command before every command that conflicts with it is the duty of
//! the caller that drives recovery and proposals; it is not enforced here.

use crate::quorum::{lemma_overlap_size, majority, members, QuorumConfig, Tally};
use crate::replica::Ack;
use vstd::prelude::*;

verus! {

/// Where a fast-path round stands.
#[derive(Clone, Copy, Debug, PartialEq, Eq, Structural)]
pub enum FastDecision {
    /// Too few replicas have answered to decide.
    Pending,
    /// A fast-path quorum accepted: the command is committed.
    Commit,
    /// So many replicas refused that no fast-path quorum can form: the
    /// command goes to the leader.
    Fallback,
}

/// The decision for a round in which `accepted` replicas accepted and
/// `refused` replicas refused.
pub open spec fn fast_decision(config: QuorumConfig, accepted: int, refused: int) -> FastDecision {
    if accepted >= config.fast_quorum_spec() {
        FastDecision::Commit
    } else if refused > config.replicas_spec() - config.fast_quorum_spec() {
        FastDecision::Fallback
    } else {
        FastDecision::Pending
    }
}

/// Whether an answer counts as an acceptance in a round whose accepted
/// result so far is `result`: the replica executed the command, and reports
/// the same result as the replicas that accepted before it.
pub open spec fn accepts(result: Option<Seq<Option<u64>>>, ack: Ack) -> bool {
    ack matches Ack::Accepted(values) && (result is None || result == Some(values@))
}

/// Whether two lists of values are the same.
pub fn same_values(a: &Vec<Option<u64>>, b: &Vec<Option<u64>>) -> (same: bool)
    ensures
        same == (a@ == b@),
{
    if a.len() != b.len() {
        return false;
    }
    let mut i: usize = 0;
    while i < a.len()
        invariant
            i <= a.len(),
            a.len() == b.len(),
            forall|k: int| 0 <= k < i ==> a@[k] == b@[k],
        decreases a.len() - i,
    {
        let equal = match (&a[i], &b[i]) {
            (Some(x), Some(y)) => *x == *y,
            (None, None) => true,
            _ => false,
        };
        if !equal {
            return false;
        }
        i += 1;
    }
    assert(a@ =~= b@);
    true
}

/// The answers to one fast-path proposal.
#[derive(Debug)]
pub struct FastRound {
    config: QuorumConfig,
    accepted: Tally,
    refused: Tally,
    result: Option<Vec<Option<u64>>>,
}

impl FastRound {
    /// The quorum configuration of the round.
    pub closed spec fn config(&self) -> QuorumConfig {
        self.config
    }

    /// The replicas that accepted, all with the same result.
    pub closed spec fn accepted(&self) -> Set<u64> {
        self.accepted@
    }

    /// The replicas that refused, had seen the command superseded, or
    /// reported another result than the replicas that accepted.
    pub closed spec fn refused(&self) -> Set<u64> {
        self.refused@
    }

    /// The result that the replicas that accepted reported; `None` while no
    /// replica has accepted.
    pub closed spec fn result(&self) -> Option<Seq<Option<u64>>> {
        match self.result {
            Some(values) => Some(values@),
            None => None,
        }
    }

    /// The round's invariant: every replica is counted at most once, and
    /// the result is known as soon as a replica has accepted.
    pub closed spec fn wf(&self) -> bool {
        &&& self.config.wf()
        &&& self.accepted.wf()
        &&& self.refused.wf()
        &&& self.accepted.replicas_spec() == self.config.replicas_spec()
        &&& self.refused.replicas_spec() == self.config.replicas_spec()
        &&& self.accepted@.disjoint(self.refused@)
        &&& self.result is None ==> self.accepted@ == Set::<u64>::empty()
    }

    /// What the invariant says of the public state.
    pub proof fn lemma_wf(&self)
        requires
            self.wf(),
        ensures
            self.config().wf(),
            self.accepted().disjoint(self.refused()),
            self.result() is None ==> self.accepted() == Set::<u64>::empty(),
    {
    }

    /// A round without answers.
    pub fn new(config: QuorumConfig) -> (round: Self)
        requires
            config.wf(),
        ensures
            round.wf(),
            round.config() == config,
            round.accepted() == Set::<u64>::empty(),
            round.refused() == Set::<u64>::empty(),
            round.result() is None,
    {
        FastRound {
            config,
            accepted: Tally::new(config.replicas()),
            refused: Tally::new(config.replicas()),
            result: None,
        }
    }

    /// Where the round stands.
    pub fn decision(&self) -> (decision: FastDecision)
        requires
            self.wf(),
        ensures
            decision == fast_decision(
                self.config(),
                self.accepted().len() as int,
                self.refused().len() as int,
            ),
    {
        if self.config.is_fast_quorum(self.accepted.count()) {
            FastDecision::Commit
        } else if self.config.fast_quorum_lost(self.refused.count()) {
            FastDecision::Fallback
        } else {
            FastDecision::Pending
        }
    }

    /// The result to report to the client once the round has committed:
    /// the one result that a fast-path quorum of replicas reported. `None`
    /// while the round has not committed.
    pub fn committed_result(&self) -> (values: Option<Vec<Option<u64>>>)
        requires
            self.wf(),
        ensures
            values is Some <==> fast_decision(
                self.config(),
                self.accepted().len() as int,
                self.refused().len() as int,
            ) == FastDecision::Commit,
            values matches Some(v) ==> self.result() == Some(v@),
    {
        match self.decision() {
            FastDecision::Commit => {
                proof {
                    if self.result is None {
                        assert(self.accepted@.len() == 0);
                    }
                }
                match &self.result {
                    Some(values) => {
                        let copy = values.clone();
                        assert(copy@ =~= values@);
                        Some(copy)
                    },
                    None => None,
                }
            },
            _ => None,
        }
    }

    /// Counts the answer of `replica` and returns where the round stands.
    ///
    /// The first answer of a member counts; later answers of the same
    /// replica and answers of non-members change nothing. An acceptance
    /// counts as one only if it reports the same result as the acceptances
    /// before it; any other answer counts as a refusal.
    pub fn record(&mut self, replica: u64, ack: &Ack) -> (decision: FastDecision)
        requires
            old(self).wf(),
        ensures
            final(self).wf(),
            final(self).config() == old(self).config(),
            final(self).accepted() == if answer_counts(*old(self), replica) && accepts(
                old(self).result(),
                *ack,
            ) {
                old(self).accepted().insert(replica)
            } else {
                old(self).accepted()
            },
            final(self).refused() == if answer_counts(*old(self), replica) && !accepts(
                old(self).result(),
                *ack,
            ) {
                old(self).refused().insert(replica)
            } else {
                old(self).refused()
            },
            final(self).result() == if answer_counts(*old(self), replica) && old(
                self,
            ).result() is None {
                match *ack {
                    Ack::Accepted(values) => Some(values@),
                    _ => None,
                }
            } else {
                old(self).result()
            },
            decision == fast_decision(
                final(self).config(),
                final(self).accepted().len() as int,
                final(self).refused().len() as int,
            ),
    {
        if replica < self.config.replicas() && !self.accepted.contains(replica)
            && !self.refused.contains(replica) {
            let agreed = match ack {
                Ack::Accepted(values) => match &self.result {
                    Some(first) => same_values(first, values),
                    None => true,
                },
                _ => false,
            };
            if agreed {
                if self.result.is_none() {
                    match ack {
                        Ack::Accepted(values) => {
                            let copy = values.clone();
                            assert(copy@ =~= values@);
                            self.result = Some(copy);
                        },
                        _ => {},
                    }
                }
                self.accepted.record(replica);
            } else {
                self.refused.record(replica);
            }
        }
        self.decision()
    }
}

/// Whether the answer of `replica` counts in `round`: the replica is a
/// member and has not answered before.
pub open spec fn answer_counts(round: FastRound, replica: u64) -> bool {
    &&& replica < round.config().replicas_spec()
    &&& !round.accepted().contains(replica)
    &&& !round.refused().contains(replica)
}

/// A round never calls for both: once a fast-path quorum has accepted, too
/// few replicas are left to refuse.
pub proof fn lemma_commit_excludes_fallback(
    config: QuorumConfig,
    accepted: Set<u64>,
    refused: Set<u64>,
)
    requires
        config.wf(),
        accepted.subset_of(members(config.replicas_spec())),
        refused.subset_of(members(config.replicas_spec())),
        accepted.disjoint(refused),
        accepted.len() >= config.fast_quorum_spec(),
    ensures
        refused.len() <= config.replicas_spec() - config.fast_quorum_spec(),
{
    crate::quorum::lemma_members_size(config.replicas_spec());
    lemma_overlap_size(members(config.replicas_spec()), accepted, refused);
    assert(accepted.intersect(refused) =~= Set::<u64>::empty());
}

/// Of two commands that no replica accepted together, as is the case for
/// conflicting commands in flight at the same time, at most one commits on
/// the fast path.
pub proof fn lemma_conflicting_rounds_commit_once(
    config: QuorumConfig,
    first: Set<u64>,
    second: Set<u64>,
)
    requires
        config.wf(),
        first.subset_of(members(config.replicas_spec())),
        second.subset_of(members(config.replicas_spec())),
        first.disjoint(second),
    ensures
        !(first.len() >= config.fast_quorum_spec() && second.len() >= config.fast_quorum_spec()),
{
    crate::quorum::lemma_members_size(config.replicas_spec());
    lemma_overlap_size(members(config.replicas_spec()), first, second);
    assert(first.intersect(second) =~= Set::<u64>::empty());
}

/// A fast-path quorum and any plain majority share a replica: a leader that
/// replicates to a majority always reaches a replica that holds the record
/// of a command committed on the fast path.
pub proof fn lemma_fast_quorum_meets_majority(
    config: QuorumConfig,
    accepted: Set<u64>,
    voters: Set<u64>,
)
    requires
        config.wf(),
        accepted.subset_of(members(config.replicas_spec())),
        voters.subset_of(members(config.replicas_spec())),
        accepted.len() >= config.fast_quorum_spec(),
        voters.len() >= majority(config.replicas_spec() as int),
    ensures
        exists|r: u64| accepted.contains(r) && voters.contains(r),
{
    crate::quorum::lemma_members_size(config.replicas_spec());
    crate::quorum::lemma_majorities_intersect(members(config.replicas_spec()), accepted, voters);
}

} // verus!
