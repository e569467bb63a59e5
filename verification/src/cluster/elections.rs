//! The steps of elections preserve the invariant: timeouts, votes, counts,
//! and the messages and faults that only change a replica's role state.

use crate::cluster::invariants::{
    based, candidacy_held, candidacy_ok, election_held, election_log, election_ok, election_votes,
    grant_held, grant_ok, has_prefix, inv, keeps, members_ok_at, mirrors, overruled, report_held,
    report_ok, role_ok, rooted,
};
use crate::cluster::model::{end_of, next, Cluster, Step};
use crate::cluster::preserve::{
    extends, lemma_assemble, lemma_based_stays, lemma_keeps_stays, lemma_quiet_step,
    lemma_rooted_stays, same_term, stepped,
};
use crate::log::SlotView;
use crate::protocol::{grants, lemma_step_preserves_invariant, Event, Role};
use crate::quorum::{lemma_majorities_intersect, lemma_members_size, majority, members};
use crate::replica::{gains_leadership, Replication};
use vstd::prelude::*;

verus! {

/// The end of a replica's log is the end of its whole log.
pub proof fn lemma_position(m: Replication, whole: Seq<SlotView>)
    requires
        mirrors(m.log, whole),
    ensures
        m.position() == end_of(whole),
{
    if m.log.slots.len() > 0 {
        assert(whole[whole.len() - 1] == m.log.slots[whole.len() - 1 - m.log.base_index]);
    }
}

/// A replica that only takes note of a term, or whose storage fails or
/// recovers, preserves the invariant.
pub proof fn lemma_role_only(pre: Cluster, post: Cluster, id: u64, event: Event)
    requires
        inv(pre),
        id < pre.size(),
        event is PeerTerm || event is StorageFault || event is StorageRecovered,
        post == pre.with_member(id, pre.members[id as int].after_event(event)),
    ensures
        inv(post),
        extends(pre, post),
{
    let before = pre.members[id as int];
    let whole = pre.logs[id as int];
    let member = before.after_event(event);
    assert(members_ok_at(pre, id as int));
    assert(role_ok(pre, id as int));
    lemma_step_preserves_invariant(before.node, event, before.position());
    lemma_quiet_step(pre, post, id, member);
}

/// A replica that crashes and starts again from its durable state preserves
/// the invariant, provided it had made durable what it had committed and
/// what it had reported.
pub proof fn lemma_restart(
    pre: Cluster,
    post: Cluster,
    id: u64,
    taken: Option<crate::cluster::model::Taken>,
    kept: u64,
    commit: u64,
)
    requires
        inv(pre),
        next(pre, Step::Restart { node: id, restored: taken, kept, commit }, post),
    ensures
        inv(post),
        extends(pre, post),
{
    let before = pre.members[id as int];
    let whole = pre.logs[id as int];
    let member = crate::cluster::model::restarted(before, kept, commit);
    let out = whole.take(kept as int);
    assert(members_ok_at(pre, id as int));
    assert(role_ok(pre, id as int));
    assert(post.logs[id as int] == out);
    assert(post.members[id as int] == member);
    assert(extends(pre, post));
    assert(stepped(pre, post, id)) by {
        assert forall|t: u64|
            #[trigger] pre.elections.contains_key(t) && pre.elections[t].leader
                != id implies same_term(pre, post, t) by {
            assert(election_ok(pre, t));
            assert(pre.announced.dom().contains(t));
        }
    }
    let cut = before.log.compacted(before.log.snapshot_index as int);
    assert(mirrors(cut, whole)) by {
        assert forall|k: int| cut.base_index <= k < whole.len() implies #[trigger] whole[k]
            == cut.slots[k - cut.base_index] by {
            assert(whole[k] == before.log.slots[k - before.log.base_index]);
        }
        if before.log.snapshot_index > before.log.base_index {
            let shift = before.log.snapshot_index - before.log.base_index;
            assert(whole[before.log.snapshot_index - 1] == before.log.slots[shift - 1]);
            assert forall|i: int, j: int| 0 <= i <= j < cut.slots.len() implies (
            #[trigger] cut.slots[i]).term <= (#[trigger] cut.slots[j]).term by {
                assert(before.log.slots[i + shift].term <= before.log.slots[j + shift].term);
            }
            assert forall|i: int| 0 <= i < cut.slots.len() implies cut.base_term <= (
            #[trigger] cut.slots[i]).term by {
                assert(before.log.slots[shift - 1].term <= before.log.slots[i + shift].term);
            }
        }
    }
    assert(mirrors(member.log, out)) by {
        assert forall|k: int| member.log.base_index <= k < out.len() implies #[trigger] out[k]
            == member.log.slots[k - member.log.base_index] by {
            assert(whole[k] == cut.slots[k - cut.base_index]);
        }
        assert forall|i: int, j: int| 0 <= i <= j < member.log.slots.len() implies (
        #[trigger] member.log.slots[i]).term <= (#[trigger] member.log.slots[j]).term by {
            assert(cut.slots[i].term <= cut.slots[j].term);
        }
        assert forall|i: int| 0 <= i < member.log.slots.len() implies member.log.base_term <= (
        #[trigger] member.log.slots[i]).term by {
            assert(cut.base_term <= cut.slots[i].term);
        }
    }
    lemma_rooted_stays(pre, post, whole);
    assert(rooted(post, out)) by {
        assert forall|k: int| 0 <= k < out.len() implies post.term_logs.contains_key(
            (#[trigger] out[k]).term,
        ) && has_prefix(out, post.term_logs[out[k].term], k + 1) by {
            assert(out[k] == whole[k]);
            assert(has_prefix(whole, post.term_logs[whole[k].term], k + 1));
            assert forall|x: int| 0 <= x < k + 1 implies out[x]
                == post.term_logs[whole[k].term][x] by {
                assert(out[x] == whole[x]);
            }
        }
    }
    assert(members_ok_at(post, id as int));
    if before.log.commit_index > 0 {
        let basis = pre.commit_basis[id as int];
        lemma_based_stays(pre, post, whole, before.log.commit_index, basis);
        assert forall|k: int| 0 <= k < before.log.commit_index implies out[k]
            == post.term_logs[basis.term][k] by {
            assert(out[k] == whole[k]);
        }
        assert(based(post, out, commit, basis));
    }
    assert(role_ok(post, id as int));
    assert forall|t: u64| #[trigger] pre.candidacies.contains_key((t, id)) implies candidacy_held(
        member,
        post.logs[id as int],
        t,
        pre.candidacies[(t, id)],
    ) by {
        assert(candidacy_ok(pre, t, id));
    }
    assert forall|t: u64| #[trigger] pre.grants.contains_key((t, id)) implies grant_held(
        member,
        t,
        pre.grants[(t, id)].candidate,
    ) by {
        assert(grant_ok(pre, t, id));
    }
    assert forall|t: u64|
        #[trigger] pre.elections.contains_key(t) && pre.elections[t].leader == id implies {
        &&& election_held(member, t, id)
        &&& !post.grants.contains_key((t, id))
        &&& election_log(post, t)
    } by {
        assert(election_ok(pre, t));
        assert(pre.announced.dom().contains(t));
        assert(same_term(pre, post, t));
        crate::cluster::preserve::lemma_frame(pre, post, id);
        assert(!post.grants.contains_key((t, id)));
        assert(election_votes(post, t));
    }
    assert forall|t: u64| #[trigger] pre.acked.contains_key((id, t)) implies {
        &&& post.acked[(id, t)] <= post.term_logs[t].len()
        &&& report_held(post, member, post.logs[id as int], t, post.acked[(id, t)])
    } by {
        assert(report_ok(pre, id, t));
        assert(pre.term_logs.dom().contains(t));
        lemma_keeps_stays(
            pre,
            post,
            whole,
            t,
            pre.acked[(id, t)],
            before.node.term as int,
            before.node.term as int,
        );
        assert forall|i: int| 1 <= i <= post.acked[(id, t)] implies #[trigger] has_prefix(
            out,
            post.term_logs[t],
            i,
        ) || overruled(post, t, i, member.node.term as int) by {
            if has_prefix(whole, post.term_logs[t], i) {
                assert forall|k: int| 0 <= k < i implies out[k] == post.term_logs[t][k] by {
                    assert(out[k] == whole[k]);
                }
            }
        }
    }
    assert(post.term_logs.dom() =~= post.elections.dom());
    assert(post.announced.dom() =~= post.elections.dom());
    lemma_assemble(pre, post, id);
}

/// What was kept by a term in which no leader was elected was kept by the
/// term before.
pub proof fn lemma_keeps_before(
    c: Cluster,
    log: Seq<SlotView>,
    term: u64,
    through: u64,
    upto: u64,
)
    requires
        keeps(c, log, term, through, upto as int),
        !c.elections.contains_key(upto),
    ensures
        keeps(c, log, term, through, upto - 1),
{
    assert forall|i: int| 1 <= i <= through implies #[trigger] has_prefix(
        log,
        c.term_logs[term],
        i,
    ) || overruled(c, term, i, upto - 1) by {
        if !has_prefix(log, c.term_logs[term], i) {
            assert(overruled(c, term, i, upto as int));
            let w = choose|w: u64|
                term < w <= upto && #[trigger] c.elections.contains_key(w) && !has_prefix(
                    c.start_log(w),
                    c.term_logs[term],
                    i,
                );
            assert(w != upto);
        }
    }
}

/// A voter that receives a request for votes preserves the invariant.
pub proof fn lemma_vote(pre: Cluster, post: Cluster, voter: u64, term: u64, candidate: u64)
    requires
        inv(pre),
        next(pre, Step::Vote { voter, term, candidate }, post),
    ensures
        inv(post),
        extends(pre, post),
{
    let before = pre.members[voter as int];
    let whole = pre.logs[voter as int];
    let asked = end_of(pre.candidacies[(term, candidate)]);
    let event = Event::VoteRequest {
        term,
        candidate,
        last_log_index: asked.last_index,
        last_log_term: asked.last_term,
    };
    let member = before.after_event(event);
    let granted = !before.node.faulted && term >= before.node.term && grants(
        before.node.observed(term),
        candidate,
        asked.last_index,
        asked.last_term,
        before.position(),
    );
    assert(members_ok_at(pre, voter as int));
    assert(role_ok(pre, voter as int));
    assert(candidacy_ok(pre, term, candidate));
    lemma_step_preserves_invariant(before.node, event, before.position());
    lemma_position(before, whole);
    if granted && !pre.grants.contains_key((term, voter)) {
        assert(member.node.role == Role::Follower);
        assert(member.node.term == term);
        assert(member.node.voted_for == Some(candidate));
        assert(extends(pre, post));
        assert(stepped(pre, post, voter));
        lemma_rooted_stays(pre, post, whole);
        if before.log.commit_index > 0 {
            lemma_based_stays(
                pre,
                post,
                whole,
                before.log.commit_index,
                pre.commit_basis[voter as int],
            );
        }
        assert forall|t: u64| #[trigger] pre.candidacies.contains_key((t, voter)) implies candidacy_held(
        member,
        post.logs[voter as int],
        t,
        pre.candidacies[(t, voter)],
        ) by {
            assert(candidacy_ok(pre, t, voter));
        }
        assert forall|t: u64| #[trigger] pre.grants.contains_key((t, voter)) implies grant_held(
            member,
            t,
            pre.grants[(t, voter)].candidate,
        ) by {
            assert(grant_ok(pre, t, voter));
        }
        assert forall|t: u64|
            #[trigger] pre.elections.contains_key(t) && pre.elections[t].leader == voter implies {
            &&& election_held(member, t, voter)
            &&& !post.grants.contains_key((t, voter))
            &&& election_log(post, t)
        } by {
            assert(election_ok(pre, t));
            crate::cluster::preserve::lemma_frame(pre, post, voter);
            assert(same_term(pre, post, t));
        }
        assert forall|t: u64| #[trigger] pre.acked.contains_key((voter, t)) implies {
            &&& post.acked[(voter, t)] <= post.term_logs[t].len()
            &&& report_held(post, member, post.logs[voter as int], t, post.acked[(voter, t)])
        } by {
            assert(report_ok(pre, voter, t));
            assert(pre.term_logs.dom().contains(t));
            lemma_keeps_stays(
                pre,
                post,
                whole,
                t,
                pre.acked[(voter, t)],
                before.node.term as int,
                member.node.term as int,
            );
        }
        assert forall|t: u64, v: u64|
            post.grants.contains_key((t, v)) && !pre.grants.contains_key(
                (t, v),
            ) implies #[trigger] grant_ok(post, t, v) by {
            assert(t == term && v == voter);
            assert forall|acked_in: u64|
                acked_in < term && #[trigger] post.acked.contains_key(
                    (voter, acked_in),
                ) implies keeps(
                post,
                whole,
                acked_in,
                post.acked[(voter, acked_in)],
                term as int,
            ) by {
                assert(report_ok(pre, voter, acked_in));
                assert(pre.term_logs.dom().contains(acked_in));
                lemma_keeps_stays(
                    pre,
                    post,
                    whole,
                    acked_in,
                    pre.acked[(voter, acked_in)],
                    before.node.term as int,
                    term as int,
                );
            }
        }
        lemma_assemble(pre, post, voter);
    } else {
        if granted {
            assert(grant_ok(pre, term, voter));
            assert(member.node == before.node);
        }
        lemma_quiet_step(pre, post, voter, member);
    }
}

/// A replica whose election timeout fires preserves the invariant.
pub proof fn lemma_timeout(pre: Cluster, post: Cluster, node: u64)
    requires
        inv(pre),
        next(pre, Step::Timeout { node }, post),
    ensures
        inv(post),
        extends(pre, post),
{
    let before = pre.members[node as int];
    let whole = pre.logs[node as int];
    let event = Event::ElectionTimeout;
    let member = before.after_event(event);
    let term = member.node.term;
    let won = gains_leadership(before.node, member.node);
    assert(members_ok_at(pre, node as int));
    assert(role_ok(pre, node as int));
    lemma_step_preserves_invariant(before.node, event, before.position());
    lemma_position(before, whole);
    if member.node.term == before.node.term {
        assert(member == before);
        assert(post.members =~= pre.members);
        assert(post == pre);
        return ;
    }
    assert(term == before.node.term + 1);
    assert(!pre.candidacies.contains_key((term, node))) by {
        if pre.candidacies.contains_key((term, node)) {
            assert(candidacy_ok(pre, term, node));
        }
    }
    if won {
        assert(pre.size() == 1);
        if pre.elections.contains_key(term) {
            assert(election_ok(pre, term));
            assert(pre.elections[term].leader == node);
            assert(election_held(before, term, node));
        }
        assert(!pre.elections.contains_key(term));
        assert(!pre.term_logs.dom().contains(term));
        assert(!pre.announced.dom().contains(term));
    }
    assert(extends(pre, post));
    assert(stepped(pre, post, node)) by {
        assert forall|t: u64|
            #[trigger] pre.elections.contains_key(t) && pre.elections[t].leader
                != node implies same_term(pre, post, t) by {
            assert(election_ok(pre, t));
            assert(pre.announced.dom().contains(t));
        }
    }
    assert(post.term_logs.dom() =~= post.elections.dom());
    assert(post.announced.dom() =~= post.elections.dom());
    lemma_rooted_stays(pre, post, whole);
    if before.log.commit_index > 0 {
        lemma_based_stays(
            pre,
            post,
            whole,
            before.log.commit_index,
            pre.commit_basis[node as int],
        );
    }
    assert(members_ok_at(post, node as int));
    assert(role_ok(post, node as int));
    assert forall|t: u64| #[trigger] pre.candidacies.contains_key((t, node)) implies candidacy_held(
        member,
        post.logs[node as int],
        t,
        pre.candidacies[(t, node)],
    ) by {
        assert(candidacy_ok(pre, t, node));
    }
    assert forall|t: u64| #[trigger] pre.grants.contains_key((t, node)) implies grant_held(
        member,
        t,
        pre.grants[(t, node)].candidate,
    ) by {
        assert(grant_ok(pre, t, node));
    }
    assert forall|t: u64|
        #[trigger] pre.elections.contains_key(t) && pre.elections[t].leader == node implies {
        &&& election_held(member, t, node)
        &&& !post.grants.contains_key((t, node))
        &&& election_log(post, t)
    } by {
        assert(election_ok(pre, t));
        assert(t != term);
        assert(pre.announced.dom().contains(t));
        assert(same_term(pre, post, t));
        crate::cluster::preserve::lemma_frame(pre, post, node);
        assert(!post.grants.contains_key((t, node)));
        assert(election_votes(post, t));
    }
    assert forall|t: u64| #[trigger] pre.acked.contains_key((node, t)) implies {
        &&& post.acked[(node, t)] <= post.term_logs[t].len()
        &&& report_held(post, member, post.logs[node as int], t, post.acked[(node, t)])
    } by {
        assert(report_ok(pre, node, t));
        assert(pre.term_logs.dom().contains(t));
        lemma_keeps_stays(
            pre,
            post,
            whole,
            t,
            pre.acked[(node, t)],
            before.node.term as int,
            member.node.term as int,
        );
    }
    assert forall|t: u64, c: u64|
        post.candidacies.contains_key((t, c)) && !pre.candidacies.contains_key(
            (t, c),
        ) implies #[trigger] candidacy_ok(post, t, c) by {
        assert(t == term && c == node);
        assert forall|acked_in: u64|
            acked_in < term && #[trigger] post.acked.contains_key((node, acked_in)) implies keeps(
            post,
            whole,
            acked_in,
            post.acked[(node, acked_in)],
            term - 1,
        ) by {
            assert(report_ok(pre, node, acked_in));
            assert(pre.term_logs.dom().contains(acked_in));
            lemma_keeps_stays(
                pre,
                post,
                whole,
                acked_in,
                pre.acked[(node, acked_in)],
                before.node.term as int,
                term - 1,
            );
        }
    }
    assert forall|t: u64|
        post.elections.contains_key(t) && !pre.elections.contains_key(
            t,
        ) implies #[trigger] election_ok(post, t) by {
        assert(t == term && won);
        let single = Set::<u64>::empty().insert(node);
        assert(member.node.votes == single);
        assert(single.len() == 1);
        assert(!post.grants.contains_key((term, node))) by {
            if pre.grants.contains_key((term, node)) {
                assert(grant_ok(pre, term, node));
            }
        }
        assert(post.start_log(term) == whole);
        assert(election_votes(post, term));
        assert(election_log(post, term));
    }
    lemma_assemble(pre, post, node);
}

/// A term in which a candidate gathers a majority has no leader yet.
proof fn lemma_one_election(pre: Cluster, candidate: u64, votes: Set<u64>)
    requires
        inv(pre),
        candidate < pre.size(),
        pre.members[candidate as int].node.role == Role::Candidate,
        votes.finite(),
        votes.subset_of(members(pre.size() as u64)),
        votes.len() >= majority(pre.size() as int),
        forall|x: u64|
            #[trigger] votes.contains(x) && x != candidate ==> {
                &&& pre.grants.contains_key((pre.members[candidate as int].node.term, x))
                &&& pre.grants[(pre.members[candidate as int].node.term, x)].candidate
                    == candidate
            },
    ensures
        !pre.elections.contains_key(pre.members[candidate as int].node.term),
{
    let term = pre.members[candidate as int].node.term;
    if pre.elections.contains_key(term) {
        assert(election_ok(pre, term));
        let e = pre.elections[term];
        lemma_members_size(pre.size() as u64);
        lemma_majorities_intersect(members(pre.size() as u64), votes, e.electors);
        let x = choose|x: u64| votes.contains(x) && e.electors.contains(x);
        assert(election_held(pre.members[e.leader as int], term, e.leader));
        if x == candidate {
            if x != e.leader {
                assert(pre.grants.contains_key((term, candidate)));
                assert(grant_ok(pre, term, candidate));
            }
        } else {
            assert(pre.grants.contains_key((term, x)));
            if x != e.leader {
                assert(pre.grants[(term, x)].candidate == e.leader);
            }
        }
    }
}

/// A candidate that receives a vote granted to it preserves the invariant.
pub proof fn lemma_count(pre: Cluster, post: Cluster, candidate: u64, term: u64, voter: u64)
    requires
        inv(pre),
        next(pre, Step::Count { candidate, term, voter }, post),
    ensures
        inv(post),
        extends(pre, post),
{
    let before = pre.members[candidate as int];
    let whole = pre.logs[candidate as int];
    let event = Event::VoteReply { term, voter, granted: true };
    let member = before.after_event(event);
    assert(members_ok_at(pre, candidate as int));
    assert(role_ok(pre, candidate as int));
    assert(grant_ok(pre, term, voter));
    lemma_step_preserves_invariant(before.node, event, before.position());
    lemma_position(before, whole);
    if !gains_leadership(before.node, member.node) {
        lemma_quiet_step(pre, post, candidate, member);
        return ;
    }
    assert(before.node.role == Role::Candidate);
    assert(before.node.term == term);
    assert(member.node.votes == before.node.votes.insert(voter));
    assert(candidacy_ok(pre, term, candidate));
    lemma_one_election(pre, candidate, member.node.votes);
    assert(!pre.term_logs.dom().contains(term));
    assert(!pre.announced.dom().contains(term));
    assert(extends(pre, post));
    assert(stepped(pre, post, candidate)) by {
        assert forall|t: u64|
            #[trigger] pre.elections.contains_key(t) && pre.elections[t].leader
                != candidate implies same_term(pre, post, t) by {
            assert(election_ok(pre, t));
            assert(pre.announced.dom().contains(t));
        }
    }
    assert(post.term_logs.dom() =~= post.elections.dom());
    assert(post.announced.dom() =~= post.elections.dom());
    lemma_rooted_stays(pre, post, whole);
    if before.log.commit_index > 0 {
        lemma_based_stays(
            pre,
            post,
            whole,
            before.log.commit_index,
            pre.commit_basis[candidate as int],
        );
    }
    assert(members_ok_at(post, candidate as int));
    assert(role_ok(post, candidate as int));
    assert forall|t: u64|
        #[trigger] pre.candidacies.contains_key((t, candidate)) implies candidacy_held(
        member,
        post.logs[candidate as int],
        t,
        pre.candidacies[(t, candidate)],
    ) by {
        assert(candidacy_ok(pre, t, candidate));
    }
    assert forall|t: u64| #[trigger] pre.grants.contains_key((t, candidate)) implies grant_held(
        member,
        t,
        pre.grants[(t, candidate)].candidate,
    ) by {
        assert(grant_ok(pre, t, candidate));
    }
    assert forall|t: u64|
        #[trigger] pre.elections.contains_key(t) && pre.elections[t].leader == candidate implies {
        &&& election_held(member, t, candidate)
        &&& !post.grants.contains_key((t, candidate))
        &&& election_log(post, t)
    } by {
        assert(election_ok(pre, t));
        assert(t != term);
        assert(pre.announced.dom().contains(t));
        assert(same_term(pre, post, t));
        crate::cluster::preserve::lemma_frame(pre, post, candidate);
        assert(!post.grants.contains_key((t, candidate)));
        assert(election_votes(post, t));
    }
    assert forall|t: u64| #[trigger] pre.acked.contains_key((candidate, t)) implies {
        &&& post.acked[(candidate, t)] <= post.term_logs[t].len()
        &&& report_held(post, member, post.logs[candidate as int], t, post.acked[(candidate, t)])
    } by {
        assert(report_ok(pre, candidate, t));
        assert(pre.term_logs.dom().contains(t));
        lemma_keeps_stays(
            pre,
            post,
            whole,
            t,
            pre.acked[(candidate, t)],
            before.node.term as int,
            member.node.term as int,
        );
    }
    assert forall|t: u64|
        post.elections.contains_key(t) && !pre.elections.contains_key(
            t,
        ) implies #[trigger] election_ok(post, t) by {
        assert(t == term);
        assert(!post.grants.contains_key((term, candidate))) by {
            if pre.grants.contains_key((term, candidate)) {
                assert(grant_ok(pre, term, candidate));
            }
        }
        assert(post.start_log(term) == whole);
        assert forall|x: u64|
            #[trigger] member.node.votes.contains(x) && x != candidate implies {
            &&& post.grants.contains_key((term, x))
            &&& post.grants[(term, x)].candidate == candidate
            &&& forall|acked_in: u64|
                acked_in < term && #[trigger] post.acked.contains_key((x, acked_in)) ==> keeps(
                    post,
                    post.grants[(term, x)].log,
                    acked_in,
                    post.acked[(x, acked_in)],
                    term - 1,
                )
        } by {
            assert(pre.grants.contains_key((term, x)));
            assert(grant_ok(pre, term, x));
            let g = pre.grants[(term, x)];
            assert forall|acked_in: u64|
                acked_in < term && #[trigger] post.acked.contains_key((x, acked_in)) implies keeps(
                post,
                g.log,
                acked_in,
                post.acked[(x, acked_in)],
                term - 1,
            ) by {
                assert(pre.acked.contains_key((x, acked_in)));
                assert(report_ok(pre, x, acked_in));
                assert(pre.term_logs.dom().contains(acked_in));
                lemma_keeps_before(pre, g.log, acked_in, pre.acked[(x, acked_in)], term);
                lemma_keeps_stays(
                    pre,
                    post,
                    g.log,
                    acked_in,
                    pre.acked[(x, acked_in)],
                    term - 1,
                    term - 1,
                );
            }
        }
        assert(election_votes(post, term));
        assert(election_log(post, term));
    }
    lemma_assemble(pre, post, candidate);
}

} // verus!
