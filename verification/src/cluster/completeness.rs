//! What the invariant implies within one cluster: leaders hold what was
//! committed before them, and committed entries agree.

use crate::cluster::invariants::{
    based, candidacy_ok, certificate_ok, election_ok, grant_ok, has_prefix, inv, keeps,
    members_ok_at, overruled, role_ok, rooted, sorted,
};
use crate::cluster::model::{end_of, Cluster};
use crate::log::SlotView;
use crate::quorum::{lemma_majorities_intersect, lemma_members_size, members};
use vstd::prelude::*;

verus! {

/// A log that is at least as up to date as a log that holds the first
/// `count` entries of the log of `term`, the last of them created in
/// `term`, holds them too, provided every leader between `term` and
/// `before` started with them.
proof fn lemma_current_log_holds(
    c: Cluster,
    log: Seq<SlotView>,
    other: Seq<SlotView>,
    term: u64,
    count: int,
    before: u64,
)
    requires
        inv(c),
        c.elections.contains_key(term),
        1 <= count <= c.term_logs[term].len(),
        c.term_logs[term][count - 1].term == term,
        rooted(c, log),
        rooted(c, other),
        sorted(other),
        log.len() <= u64::MAX,
        other.len() <= u64::MAX,
        forall|k: int| 0 <= k < log.len() ==> (#[trigger] log[k]).term < before,
        crate::protocol::up_to_date(end_of(log).last_term, end_of(log).last_index, end_of(other)),
        has_prefix(other, c.term_logs[term], count),
        forall|later: u64|
            term < later < before && #[trigger] c.elections.contains_key(later) ==> has_prefix(
                c.start_log(later),
                c.term_logs[term],
                count,
            ),
    ensures
        has_prefix(log, c.term_logs[term], count),
{
    let of = c.term_logs[term];
    let other_last = other[other.len() - 1];
    assert(other[count - 1] == of[count - 1]);
    assert(other[count - 1].term <= other_last.term);
    assert(election_ok(c, term));
    assert(log.len() > 0);
    let last = log[log.len() - 1];
    assert(c.term_logs.contains_key(last.term) && has_prefix(
        log,
        c.term_logs[last.term],
        log.len() as int,
    ));
    if last.term == other_last.term {
        assert(has_prefix(other, c.term_logs[other_last.term], other.len() as int));
        assert forall|k: int| 0 <= k < count implies log[k] == of[k] by {
            assert(log[k] == c.term_logs[last.term][k]);
            assert(other[k] == c.term_logs[last.term][k]);
        }
    } else {
        let later = last.term;
        assert(c.term_logs.dom().contains(later));
        assert(c.elections.dom().contains(later));
        assert(c.elections.contains_key(later));
        assert(election_ok(c, later));
        assert(has_prefix(c.start_log(later), of, count));
        let start = c.start_log(later);
        let grown = c.term_logs[later];
        assert(candidacy_ok(c, later, c.elections[later].leader));
        if log.len() - 1 < start.len() {
            assert(grown[log.len() - 1] == start[log.len() - 1]);
            assert(start[log.len() - 1].term < later);
            assert(log[log.len() - 1] == grown[log.len() - 1]);
        }
        assert forall|k: int| 0 <= k < count implies log[k] == of[k] by {
            assert(log[k] == grown[k]);
            assert(grown[k] == start[k]);
        }
    }
}

/// Every leader elected after a leader committed holds, from the start of
/// its term, what that leader committed.
pub proof fn lemma_leader_completeness(c: Cluster, term: u64, index: u64, later: u64)
    requires
        inv(c),
        c.certificates.contains_key((term, index)),
        c.elections.contains_key(later),
        term < later,
    ensures
        has_prefix(c.start_log(later), c.term_logs[term], index as int),
    decreases later,
{
    let of = c.term_logs[term];
    let count = index as int;
    assert(certificate_ok(c, term, index));
    assert(election_ok(c, later));
    let quorum = c.certificates[(term, index)];
    let election = c.elections[later];
    let cluster = members(c.size() as u64);
    lemma_members_size(c.size() as u64);
    lemma_majorities_intersect(cluster, quorum, election.electors);
    let x = choose|x: u64| quorum.contains(x) && election.electors.contains(x);
    assert(c.acked.contains_key((x, term)) && c.acked[(x, term)] >= index);
    assert forall|between: u64|
        term < between < later && #[trigger] c.elections.contains_key(between) implies has_prefix(
        c.start_log(between),
        of,
        count,
    ) by {
        lemma_leader_completeness(c, term, index, between);
    }
    assert(candidacy_ok(c, later, election.leader));
    if x == election.leader {
        assert(keeps(c, c.start_log(later), term, c.acked[(x, term)], later - 1));
        assert(has_prefix(c.start_log(later), of, count) || overruled(c, term, count, later - 1));
    } else {
        assert(c.grants.contains_key((later, x)));
        assert(grant_ok(c, later, x));
        let g = c.grants[(later, x)];
        assert(keeps(c, g.log, term, c.acked[(x, term)], later - 1));
        assert(has_prefix(g.log, of, count) || overruled(c, term, count, later - 1));
        lemma_current_log_holds(c, c.start_log(later), g.log, term, count, later);
    }
}

/// Committed entries agree: the logs of any two replicas hold the same
/// entry at every index that is at or below both their commit watermarks.
pub proof fn lemma_committed_entries_agree(c: Cluster, a: int, b: int, index: int)
    requires
        inv(c),
        0 <= a < c.size(),
        0 <= b < c.size(),
        1 <= index <= c.members[a].log.commit_index,
        index <= c.members[b].log.commit_index,
    ensures
        index <= c.logs[a].len(),
        index <= c.logs[b].len(),
        c.logs[a][index - 1] == c.logs[b][index - 1],
{
    assert(role_ok(c, a));
    assert(role_ok(c, b));
    assert(members_ok_at(c, a));
    assert(members_ok_at(c, b));
    let basis_a = c.commit_basis[a];
    let basis_b = c.commit_basis[b];
    assert(based(c, c.logs[a], c.members[a].log.commit_index, basis_a));
    assert(based(c, c.logs[b], c.members[b].log.commit_index, basis_b));
    assert(c.logs[a][index - 1] == c.term_logs[basis_a.term][index - 1]);
    assert(c.logs[b][index - 1] == c.term_logs[basis_b.term][index - 1]);
    lemma_certified_logs_agree(
        c,
        basis_a.term,
        basis_a.index,
        basis_b.term,
        basis_b.index,
        index - 1,
    );
}

/// What a replica's log holds at an index is what its whole log holds
/// there.
pub proof fn lemma_held_entry(c: Cluster, a: int, index: int)
    requires
        inv(c),
        0 <= a < c.size(),
        c.members[a].log.holds(index),
    ensures
        1 <= index <= c.logs[a].len(),
        c.members[a].log.slot_at(index) == c.logs[a][index - 1],
{
    assert(members_ok_at(c, a));
}

/// The logs of two leaders that committed agree as far as both committed.
pub proof fn lemma_certified_logs_agree(
    c: Cluster,
    first: u64,
    first_index: u64,
    second: u64,
    second_index: u64,
    x: int,
)
    requires
        inv(c),
        c.certificates.contains_key((first, first_index)),
        c.certificates.contains_key((second, second_index)),
        0 <= x < first_index,
        x < second_index,
    ensures
        c.term_logs[first][x] == c.term_logs[second][x],
{
    assert(certificate_ok(c, first, first_index));
    assert(certificate_ok(c, second, second_index));
    if first < second {
        lemma_leader_completeness(c, first, first_index, second);
        assert(election_ok(c, second));
        assert(c.start_log(second)[x] == c.term_logs[first][x]);
    } else if second < first {
        lemma_leader_completeness(c, second, second_index, first);
        assert(election_ok(c, first));
        assert(c.start_log(first)[x] == c.term_logs[second][x]);
    }
}

} // verus!
