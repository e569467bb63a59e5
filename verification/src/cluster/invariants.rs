//! What holds of every cluster that a run reaches.

use crate::cluster::model::{end_of, Basis, Cluster};
use crate::log::{LogView, SlotView};
use crate::protocol::{up_to_date, Role};
use crate::quorum::{majority, members};
use crate::replica::Replication;
use vstd::prelude::*;

verus! {

/// Whether `log` holds the first `count` entries of `of`.
pub open spec fn has_prefix(log: Seq<SlotView>, of: Seq<SlotView>, count: int) -> bool {
    &&& count <= log.len()
    &&& count <= of.len()
    &&& forall|k: int| 0 <= k < count ==> log[k] == of[k]
}

/// Whether the terms never decrease along `log`.
pub open spec fn sorted(log: Seq<SlotView>) -> bool {
    forall|x: int, y: int| 0 <= x <= y < log.len() ==> log[x].term <= log[y].term
}

/// Whether every entry of `log` stands where the leader of its term put
/// it: up to each entry, `log` equals the log of the leader of the entry's
/// term.
pub open spec fn rooted(c: Cluster, log: Seq<SlotView>) -> bool {
    forall|k: int|
        0 <= k < log.len() ==> {
            &&& c.term_logs.contains_key((#[trigger] log[k]).term)
            &&& has_prefix(log, c.term_logs[log[k].term], k + 1)
        }
}

/// Whether, by term `upto`, a leader later than `term` was elected whose log
/// did not start with the first `count` entries of the log of `term`.
pub open spec fn overruled(c: Cluster, term: u64, count: int, upto: int) -> bool {
    exists|later: u64|
        term < later <= upto && #[trigger] c.elections.contains_key(later) && !has_prefix(
            c.start_log(later),
            c.term_logs[term],
            count,
        )
}

/// Whether `log` holds, for every index through `through`, the first
/// entries of the log of `term`, unless a later leader overruled them by
/// `upto`.
pub open spec fn keeps(c: Cluster, log: Seq<SlotView>, term: u64, through: u64, upto: int) -> bool {
    forall|i: int|
        1 <= i <= through ==> #[trigger] has_prefix(log, c.term_logs[term], i) || overruled(
            c,
            term,
            i,
            upto,
        )
}

/// Whether `log` is what is left of `whole` after compaction: it ends
/// where `whole` ends, holds the entries of `whole` after its compaction
/// point, and remembers the term of the entry at that point.
pub open spec fn mirrors(log: LogView, whole: Seq<SlotView>) -> bool {
    &&& log.wf()
    &&& whole.len() == log.last_index()
    &&& forall|k: int|
        log.base_index <= k < whole.len() ==> #[trigger] whole[k] == log.slots[k
            - log.base_index]
    &&& log.base_term == if log.base_index == 0 {
        0
    } else {
        whole[log.base_index - 1].term
    }
}

/// What the invariant asks of replica `i` by itself.
pub open spec fn members_ok_at(c: Cluster, i: int) -> bool {
    let m = c.members[i];
    &&& m.node.inv()
    &&& m.node.id == i
    &&& m.node.replicas == c.size()
    &&& mirrors(m.log, c.logs[i])
    &&& m.progress.len() == c.size()
    &&& rooted(c, c.logs[i])
    &&& sorted(c.logs[i])
    &&& c.logs[i].len() <= u64::MAX
    &&& forall|k: int|
        0 <= k < c.logs[i].len() ==> 1 <= (#[trigger] c.logs[i][k]).term <= m.node.term
}

/// The replicas are well formed.
pub open spec fn members_ok(c: Cluster) -> bool {
    &&& 1 <= c.size() <= u64::MAX
    &&& c.commit_basis.len() == c.size()
    &&& c.logs.len() == c.size()
    &&& forall|i: int| 0 <= i < c.size() ==> #[trigger] members_ok_at(c, i)
}

/// What a candidacy of `term` with `log` asks of the candidate: the
/// candidate has reached the term, and while it stands in it, its log is the
/// log it stood with.
pub open spec fn candidacy_held(
    m: Replication,
    whole: Seq<SlotView>,
    term: u64,
    log: Seq<SlotView>,
) -> bool {
    &&& 1 <= term <= m.node.term
    &&& m.node.term == term && m.node.role == Role::Candidate ==> whole == log
}

/// What holds of the record of the candidacy of `candidate` in `term`.
pub open spec fn candidacy_record(c: Cluster, term: u64, candidate: u64) -> bool {
    let log = c.candidacies[(term, candidate)];
    &&& rooted(c, log)
    &&& sorted(log)
    &&& log.len() <= u64::MAX
    &&& forall|k: int| 0 <= k < log.len() ==> 1 <= (#[trigger] log[k]).term < term
    &&& forall|acked_in: u64|
        acked_in < term && #[trigger] c.acked.contains_key((candidate, acked_in)) ==> keeps(
            c,
            log,
            acked_in,
            c.acked[(candidate, acked_in)],
            term - 1,
        )
}

/// What holds of the candidacy of `candidate` in `term`.
pub open spec fn candidacy_ok(c: Cluster, term: u64, candidate: u64) -> bool {
    &&& candidate < c.size()
    &&& candidacy_held(
        c.members[candidate as int],
        c.logs[candidate as int],
        term,
        c.candidacies[(term, candidate)],
    )
    &&& candidacy_record(c, term, candidate)
}

/// What a vote granted in `term` asks of the voter: the voter has reached
/// the term, and while it is in it, it follows and holds the vote.
pub open spec fn grant_held(m: Replication, term: u64, candidate: u64) -> bool {
    &&& term <= m.node.term
    &&& m.node.term == term ==> m.node.role == Role::Follower && m.node.voted_for == Some(
        candidate,
    )
}

/// What holds of the record of the vote that `voter` granted in `term`.
pub open spec fn grant_record(c: Cluster, term: u64, voter: u64) -> bool {
    let g = c.grants[(term, voter)];
    let asked = end_of(c.candidacies[(term, g.candidate)]);
    &&& g.candidate != voter
    &&& g.candidate < c.size()
    &&& c.candidacies.contains_key((term, g.candidate))
    &&& rooted(c, g.log)
    &&& sorted(g.log)
    &&& g.log.len() <= u64::MAX
    &&& up_to_date(asked.last_term, asked.last_index, end_of(g.log))
    &&& forall|acked_in: u64|
        acked_in < term && #[trigger] c.acked.contains_key((voter, acked_in)) ==> keeps(
            c,
            g.log,
            acked_in,
            c.acked[(voter, acked_in)],
            term as int,
        )
}

/// What holds of the vote that `voter` granted in `term`.
pub open spec fn grant_ok(c: Cluster, term: u64, voter: u64) -> bool {
    &&& voter < c.size()
    &&& grant_held(c.members[voter as int], term, c.grants[(term, voter)].candidate)
    &&& grant_record(c, term, voter)
}

/// What an election of `term` asks of its winner: the winner has reached
/// the term, and while it is in it, it does not stand again and holds its
/// own vote.
pub open spec fn election_held(m: Replication, term: u64, leader: u64) -> bool {
    &&& term <= m.node.term
    &&& m.node.term == term ==> m.node.role != Role::Candidate && m.node.voted_for == Some(
        leader,
    )
}

/// What holds of the votes that decided the election of `term`.
pub open spec fn election_votes(c: Cluster, term: u64) -> bool {
    let e = c.elections[term];
    &&& term >= 1
    &&& e.leader < c.size()
    &&& e.electors.finite()
    &&& e.electors.subset_of(members(c.size() as u64))
    &&& e.electors.len() >= majority(c.size() as int)
    &&& forall|v: u64|
        #[trigger] e.electors.contains(v) && v != e.leader ==> {
            &&& c.grants.contains_key((term, v))
            &&& c.grants[(term, v)].candidate == e.leader
            &&& forall|acked_in: u64|
                acked_in < term && #[trigger] c.acked.contains_key((v, acked_in)) ==> keeps(
                    c,
                    c.grants[(term, v)].log,
                    acked_in,
                    c.acked[(v, acked_in)],
                    term - 1,
                )
        }
    &&& c.candidacies.contains_key((term, e.leader))
    &&& !c.grants.contains_key((term, e.leader))
}

/// What holds of the log of the leader of `term`: it starts with the log
/// the leader stood with, continues with entries of the term alone, and
/// reaches at least as far as the leader committed.
pub open spec fn election_log(c: Cluster, term: u64) -> bool {
    let log = c.term_logs[term];
    let start = c.start_log(term);
    &&& c.term_logs.contains_key(term)
    &&& c.announced.contains_key(term)
    &&& rooted(c, log)
    &&& sorted(log)
    &&& log.len() <= u64::MAX
    &&& start.len() <= log.len()
    &&& forall|k: int| 0 <= k < start.len() ==> #[trigger] log[k] == start[k]
    &&& forall|k: int| start.len() <= k < log.len() ==> (#[trigger] log[k]).term == term
    &&& c.announced[term] <= log.len()
    &&& c.announced[term] > 0 ==> {
        &&& c.announce_basis.contains_key(term)
        &&& c.announce_basis[term].term <= term
        &&& based(c, log, c.announced[term], c.announce_basis[term])
    }
}

/// What holds of the election of `term`.
pub open spec fn election_ok(c: Cluster, term: u64) -> bool {
    &&& election_votes(c, term)
    &&& election_held(c.members[c.elections[term].leader as int], term, c.elections[term].leader)
    &&& election_log(c, term)
}

/// Whether the first `commit` entries of `log` are committed on the
/// strength of `basis`: a leader committed through at least `commit`, and
/// `log` holds what that leader held.
pub open spec fn based(c: Cluster, log: Seq<SlotView>, commit: u64, basis: Basis) -> bool {
    &&& c.certificates.contains_key((basis.term, basis.index))
    &&& commit <= basis.index
    &&& has_prefix(log, c.term_logs[basis.term], commit as int)
}

/// What holds of a replica in its current role.
pub open spec fn role_ok(c: Cluster, id: int) -> bool {
    let m = c.members[id];
    let term = m.node.term;
    &&& m.node.role == Role::Leader ==> {
        &&& c.elections.contains_key(term)
        &&& c.elections[term].leader == id
        &&& c.logs[id] == c.term_logs[term]
        &&& c.announced[term] == m.log.commit_index
        &&& forall|r: int|
            0 <= r < c.size() && #[trigger] m.progress[r] > 0 ==> {
                &&& c.acked.contains_key((r as u64, term))
                &&& m.progress[r] <= c.acked[(r as u64, term)]
            }
    }
    &&& m.node.role == Role::Candidate ==> {
        &&& c.candidacies.contains_key((term, id as u64))
        &&& forall|v: u64|
            #[trigger] m.node.votes.contains(v) && v != id ==> {
                &&& c.grants.contains_key((term, v))
                &&& c.grants[(term, v)].candidate == id
            }
    }
    &&& m.log.commit_index > 0 ==> {
        &&& c.commit_basis[id].term <= term
        &&& based(c, c.logs[id], m.log.commit_index, c.commit_basis[id])
    }
}

/// What a report in `term` through `through` asks of the replica that
/// sent it: the replica has reached the term, and its log keeps what it
/// reported.
pub open spec fn report_held(
    c: Cluster,
    m: Replication,
    whole: Seq<SlotView>,
    term: u64,
    through: u64,
) -> bool {
    &&& term <= m.node.term
    &&& keeps(c, whole, term, through, m.node.term as int)
}

/// What holds of the report of `id` in `term`.
pub open spec fn report_ok(c: Cluster, id: u64, term: u64) -> bool {
    &&& id < c.size()
    &&& c.elections.contains_key(term)
    &&& c.acked[(id, term)] <= c.term_logs[term].len()
    &&& report_held(c, c.members[id as int], c.logs[id as int], term, c.acked[(id, term)])
}

/// What holds of the certificate of `term` for `index`.
pub open spec fn certificate_ok(c: Cluster, term: u64, index: u64) -> bool {
    let quorum = c.certificates[(term, index)];
    &&& c.elections.contains_key(term)
    &&& 1 <= index <= c.term_logs[term].len()
    &&& index <= c.announced[term]
    &&& c.term_logs[term][index - 1].term == term
    &&& quorum.finite()
    &&& quorum.subset_of(members(c.size() as u64))
    &&& quorum.len() >= majority(c.size() as int)
    &&& forall|r: u64|
        #[trigger] quorum.contains(r) ==> c.acked.contains_key((r, term)) && c.acked[(r, term)]
            >= index
}

/// The invariant of the cluster.
pub open spec fn inv(c: Cluster) -> bool {
    &&& members_ok(c)
    &&& c.term_logs.dom() == c.elections.dom()
    &&& c.announced.dom() == c.elections.dom()
    &&& forall|i: int| 0 <= i < c.size() ==> #[trigger] role_ok(c, i)
    &&& forall|term: u64, candidate: u64|
        c.candidacies.contains_key((term, candidate)) ==> #[trigger] candidacy_ok(
            c,
            term,
            candidate,
        )
    &&& forall|term: u64, voter: u64|
        c.grants.contains_key((term, voter)) ==> #[trigger] grant_ok(c, term, voter)
    &&& forall|term: u64| c.elections.contains_key(term) ==> #[trigger] election_ok(c, term)
    &&& forall|id: u64, term: u64|
        c.acked.contains_key((id, term)) ==> #[trigger] report_ok(c, id, term)
    &&& forall|term: u64, index: u64|
        c.certificates.contains_key((term, index)) ==> #[trigger] certificate_ok(c, term, index)
}

} // verus!
