//! The steps of a leader preserve the invariant: proposals, durability
//! notes and reports of agreement.

use crate::cluster::elections::{lemma_position, lemma_role_only};
use crate::cluster::invariants::{
    based, candidacy_held, candidacy_ok, certificate_ok, election_held, election_log, election_ok,
    election_votes, grant_held, grant_ok, has_prefix, inv, keeps, members_ok_at, mirrors,
    overruled, report_held, report_ok, role_ok, rooted, sorted,
};
use crate::cluster::model::{next, Basis, Cluster, Step};
use crate::cluster::preserve::{
    extends, lemma_assemble, lemma_based_stays, lemma_frame, lemma_keeps_stays, lemma_rooted_stays,
    same_term, stepped,
};
use crate::command::CommandView;
use crate::log::SlotView;
use crate::protocol::{Event, Role};
use crate::quorum::members;
use crate::replica::{committable, count_at_least, counts, AppendReply};
use vstd::prelude::*;

verus! {

/// A log keeps what a log it starts with keeps.
pub proof fn lemma_keeps_grows(
    c: Cluster,
    log: Seq<SlotView>,
    longer: Seq<SlotView>,
    term: u64,
    through: u64,
    upto: int,
)
    requires
        keeps(c, log, term, through, upto),
        has_prefix(longer, log, log.len() as int),
    ensures
        keeps(c, longer, term, through, upto),
{
    assert forall|i: int| 1 <= i <= through implies #[trigger] has_prefix(
        longer,
        c.term_logs[term],
        i,
    ) || overruled(c, term, i, upto) by {
        if has_prefix(log, c.term_logs[term], i) {
            assert forall|k: int| 0 <= k < i implies longer[k] == c.term_logs[term][k] by {
                assert(longer[k] == log[k]);
            }
        }
    }
}

/// The replicas whose progress is at least `index` are as many as
/// [`count_at_least`] counts.
pub proof fn lemma_count_is_size(progress: Seq<u64>, index: u64)
    requires
        progress.len() <= u64::MAX,
    ensures
        reached(progress, index).finite(),
        reached(progress, index).subset_of(members(progress.len() as u64)),
        reached(progress, index).len() == count_at_least(progress, index as int),
    decreases progress.len(),
{
    let all = reached(progress, index);
    if progress.len() == 0 {
        assert(all =~= Set::<u64>::empty());
    } else {
        let rest = progress.drop_last();
        let last = (progress.len() - 1) as u64;
        lemma_count_is_size(rest, index);
        let fewer = reached(rest, index);
        if progress.last() >= index {
            assert(all =~= fewer.insert(last));
        } else {
            assert(all =~= fewer);
        }
    }
}

/// The replicas whose progress is at least `index`.
pub open spec fn reached(progress: Seq<u64>, index: u64) -> Set<u64> {
    Set::new(|r: u64| r < progress.len() && progress[r as int] >= index)
}

/// A replica that is asked to append a command preserves the invariant.
pub proof fn lemma_propose(pre: Cluster, post: Cluster, node: u64, command: CommandView)
    requires
        inv(pre),
        next(pre, Step::Propose { node, command }, post),
    ensures
        inv(post),
        extends(pre, post),
{
    let before = pre.members[node as int];
    let whole = pre.logs[node as int];
    let member = before.after_propose(command);
    if !(before.propose_answer() is Ok) {
        return ;
    }
    let term = before.node.term;
    let log = whole;
    let longer = whole.push(SlotView { term, command });
    assert(members_ok_at(pre, node as int));
    assert(role_ok(pre, node as int));
    assert(election_ok(pre, term));
    lemma_position(before, whole);
    crate::log::lemma_append_keeps_wf(before.log, term, command);
    assert(post.logs[node as int] == longer);
    assert(has_prefix(longer, log, log.len() as int));
    assert(mirrors(member.log, longer)) by {
        assert forall|k: int| member.log.base_index <= k < longer.len() implies #[trigger] longer[k]
            == member.log.slots[k - member.log.base_index] by {
            if k < log.len() {
                assert(log[k] == before.log.slots[k - before.log.base_index]);
            }
        }
    }
    assert(sorted(longer)) by {
        assert forall|x: int, y: int| 0 <= x <= y < longer.len() implies longer[x].term
            <= longer[y].term by {
            if y == log.len() && x < y {
                assert(log[x].term <= log[log.len() - 1].term);
            }
        }
    }
    assert(pre.term_logs.dom().contains(term));
    assert(pre.announced.dom().contains(term));
    assert(extends(pre, post)) by {
        assert forall|t: u64| pre.term_logs.contains_key(t) implies #[trigger] post.term_logs.contains_key(
            t,
        ) && has_prefix(post.term_logs[t], pre.term_logs[t], pre.term_logs[t].len() as int) by {}
    }
    assert(stepped(pre, post, node)) by {
        assert forall|t: u64|
            #[trigger] pre.elections.contains_key(t) && pre.elections[t].leader
                != node implies same_term(pre, post, t) by {
            assert(election_ok(pre, t));
            assert(pre.announced.dom().contains(t));
        }
    }
    assert(post.term_logs.dom() =~= post.elections.dom());
    assert(post.announced.dom() =~= post.elections.dom());
    lemma_rooted_stays(pre, post, log);
    assert(rooted(post, longer)) by {
        assert forall|k: int| 0 <= k < longer.len() implies post.term_logs.contains_key(
            (#[trigger] longer[k]).term,
        ) && has_prefix(longer, post.term_logs[longer[k].term], k + 1) by {
            if k < log.len() {
                assert(longer[k] == log[k]);
                assert(has_prefix(log, post.term_logs[log[k].term], k + 1));
                assert forall|x: int| 0 <= x < k + 1 implies longer[x]
                    == post.term_logs[log[k].term][x] by {
                    assert(longer[x] == log[x]);
                }
            }
        }
    }
    assert(members_ok_at(post, node as int));
    if before.log.commit_index > 0 {
        let basis = pre.commit_basis[node as int];
        lemma_based_stays(pre, post, log, before.log.commit_index, basis);
        assert forall|k: int| 0 <= k < before.log.commit_index implies longer[k]
            == post.term_logs[basis.term][k] by {
            assert(longer[k] == log[k]);
        }
    }
    assert(role_ok(post, node as int));
    assert forall|t: u64| #[trigger] pre.candidacies.contains_key((t, node)) implies candidacy_held(
        member,
        post.logs[node as int],
        t,
        pre.candidacies[(t, node)],
    ) by {
        assert(candidacy_ok(pre, t, node));
    }
    assert forall|t: u64| #[trigger] pre.grants.contains_key((t, node)) implies grant_held(
        member,
        t,
        pre.grants[(t, node)].candidate,
    ) by {
        assert(grant_ok(pre, t, node));
    }
    assert forall|t: u64|
        #[trigger] pre.elections.contains_key(t) && pre.elections[t].leader == node implies {
        &&& election_held(member, t, node)
        &&& !post.grants.contains_key((t, node))
        &&& election_log(post, t)
    } by {
        assert(election_ok(pre, t));
        assert(pre.announced.dom().contains(t));
        lemma_frame(pre, post, node);
        assert(!post.grants.contains_key((t, node)));
        assert(election_votes(post, t));
        if t == term {
            crate::cluster::preserve::lemma_start_log_stays(pre, post, t);
            if pre.announced[t] > 0 {
                let basis = pre.announce_basis[t];
                lemma_based_stays(pre, post, log, pre.announced[t], basis);
                assert forall|k: int| 0 <= k < pre.announced[t] implies longer[k]
                    == post.term_logs[basis.term][k] by {
                    assert(longer[k] == log[k]);
                }
            }
            assert(election_log(post, t));
        } else {
            assert(same_term(pre, post, t));
        }
    }
    assert forall|t: u64| #[trigger] pre.acked.contains_key((node, t)) implies {
        &&& post.acked[(node, t)] <= post.term_logs[t].len()
        &&& report_held(post, member, post.logs[node as int], t, post.acked[(node, t)])
    } by {
        assert(report_ok(pre, node, t));
        assert(pre.term_logs.dom().contains(t));
        assert(post.term_logs.contains_key(t));
        lemma_keeps_stays(
            pre,
            post,
            log,
            t,
            pre.acked[(node, t)],
            before.node.term as int,
            before.node.term as int,
        );
        lemma_keeps_grows(post, log, longer, t, pre.acked[(node, t)], before.node.term as int);
    }
    lemma_assemble(pre, post, node);
}

/// A leader that notes progress of a replica, and with it perhaps commits,
/// preserves the invariant. `mid` is the cluster with the leader's own
/// report recorded, when the progress is its own.
pub proof fn lemma_progress(
    pre: Cluster,
    mid: Cluster,
    post: Cluster,
    id: u64,
    from: u64,
    index: u64,
    commit: u64,
)
    requires
        inv(pre),
        id < pre.size(),
        from < pre.size(),
        pre.members[id as int].node.role == Role::Leader,
        pre.members[id as int].settles(from, index, commit),
        mid == pre || (from == id && mid == pre.with_report(
            id,
            pre.members[id as int].node.term,
            pre.members[id as int].after_progress(from, index, commit).progress[id as int],
        )),
        mid == pre && pre.members[id as int].after_progress(from, index, commit).progress[from as int]
            > 0 ==> pre.acked.contains_key((from, pre.members[id as int].node.term))
            && pre.members[id as int].after_progress(from, index, commit).progress[from as int]
            <= pre.acked[(from, pre.members[id as int].node.term)],
        post == mid.with_commit(
            id,
            pre.members[id as int],
            pre.members[id as int].after_progress(from, index, commit),
        ).with_member(id, pre.members[id as int].after_progress(from, index, commit)),
    ensures
        inv(post),
        extends(pre, post),
{
    let before = pre.members[id as int];
    let whole = pre.logs[id as int];
    let member = before.after_progress(from, index, commit);
    let term = before.node.term;
    let log = whole;
    let raised = commit > before.log.commit_index;
    assert(members_ok_at(pre, id as int));
    assert(role_ok(pre, id as int));
    assert(election_ok(pre, term));
    lemma_position(before, whole);
    assert(pre.term_logs.dom().contains(term));
    assert(pre.announced.dom().contains(term));
    assert(member.node == before.node);
    assert(member.log.slots == before.log.slots);
    assert(member.log.commit_index == commit);
    assert(post.logs[id as int] == log);
    assert(mirrors(member.log, log));
    assert(member.progress.len() == before.progress.len());
    assert(!pre.certificates.contains_key((term, commit)) || !raised) by {
        if pre.certificates.contains_key((term, commit)) {
            assert(certificate_ok(pre, term, commit));
        }
    }
    assert(extends(pre, post));
    assert(stepped(pre, post, id)) by {
        assert forall|t: u64|
            #[trigger] pre.elections.contains_key(t) && pre.elections[t].leader
                != id implies same_term(pre, post, t) by {
            assert(election_ok(pre, t));
            assert(pre.announced.dom().contains(t));
        }
    }
    assert(post.term_logs.dom() =~= post.elections.dom());
    assert(post.announced.dom() =~= post.elections.dom());
    lemma_rooted_stays(pre, post, log);
    assert(members_ok_at(post, id as int));
    assert forall|r: int| 0 <= r < post.size() && #[trigger] member.progress[r] > 0 implies {
        &&& post.acked.contains_key((r as u64, term))
        &&& member.progress[r] <= post.acked[(r as u64, term)]
    } by {
        if r != from {
            assert(member.progress[r] == before.progress[r]);
            assert(pre.acked.contains_key((r as u64, term)));
        } else if member.progress[r] == before.progress[r] {
            assert(pre.acked.contains_key((r as u64, term)));
        }
    }
    if raised {
        assert(committable(
            before.log,
            member.progress,
            before.node.replicas as int,
            term,
            commit as int,
        ));
        lemma_count_is_size(member.progress, commit);
        let quorum = reached(member.progress, commit);
        assert(post.certificates[(term, commit)] =~= quorum);
        assert(before.log.holds(commit as int));
        assert(log[commit - 1] == before.log.slots[commit - 1 - before.log.base_index]);
        assert(post.term_logs[term][commit - 1].term == term);
        assert forall|r: u64| #[trigger] quorum.contains(r) implies post.acked.contains_key(
            (r, term),
        ) && post.acked[(r, term)] >= commit by {
            assert(member.progress[r as int] > 0);
        }
        assert(certificate_ok(post, term, commit));
        assert(based(post, log, commit, Basis { term, index: commit }));
    } else if commit > 0 {
        lemma_based_stays(pre, post, log, commit, pre.commit_basis[id as int]);
    }
    assert(role_ok(post, id as int));
    assert forall|t: u64| #[trigger] pre.candidacies.contains_key((t, id)) implies candidacy_held(
        member,
        post.logs[id as int],
        t,
        pre.candidacies[(t, id)],
    ) by {
        assert(candidacy_ok(pre, t, id));
    }
    assert forall|t: u64| #[trigger] pre.grants.contains_key((t, id)) implies grant_held(
        member,
        t,
        pre.grants[(t, id)].candidate,
    ) by {
        assert(grant_ok(pre, t, id));
    }
    assert forall|t: u64|
        #[trigger] pre.elections.contains_key(t) && pre.elections[t].leader == id implies {
        &&& election_held(member, t, id)
        &&& !post.grants.contains_key((t, id))
        &&& election_log(post, t)
    } by {
        assert(election_ok(pre, t));
        assert(pre.announced.dom().contains(t));
        lemma_frame(pre, post, id);
        assert(!post.grants.contains_key((t, id)));
        assert(election_votes(post, t));
        if t == term {
            crate::cluster::preserve::lemma_start_log_stays(pre, post, t);
            if !raised && pre.announced[t] > 0 {
                lemma_based_stays(pre, post, log, pre.announced[t], pre.announce_basis[t]);
            }
            assert(election_log(post, t));
        } else {
            assert(same_term(pre, post, t));
        }
    }
    assert forall|t: u64| #[trigger] pre.acked.contains_key((id, t)) implies {
        &&& post.acked[(id, t)] <= post.term_logs[t].len()
        &&& report_held(post, member, post.logs[id as int], t, post.acked[(id, t)])
    } by {
        assert(report_ok(pre, id, t));
        assert(pre.term_logs.dom().contains(t));
        if post.acked[(id, t)] == pre.acked[(id, t)] {
            lemma_keeps_stays(
                pre,
                post,
                log,
                t,
                pre.acked[(id, t)],
                before.node.term as int,
                before.node.term as int,
            );
        } else {
            assert(t == term);
            assert forall|i: int| 1 <= i <= post.acked[(id, t)] implies #[trigger] has_prefix(
                log,
                post.term_logs[t],
                i,
            ) by {}
        }
    }
    assert forall|r: u64, t: u64|
        post.acked.contains_key((r, t)) && !pre.acked.contains_key(
            (r, t),
        ) implies #[trigger] report_ok(post, r, t) by {
        assert(r == id && t == term);
        assert forall|i: int| 1 <= i <= post.acked[(id, t)] implies #[trigger] has_prefix(
            log,
            post.term_logs[t],
            i,
        ) by {}
    }
    assert forall|t: u64, i: u64|
        post.certificates.contains_key((t, i)) && !pre.certificates.contains_key(
            (t, i),
        ) implies #[trigger] certificate_ok(post, t, i) by {
        assert(t == term && i == commit && raised);
    }
    lemma_assemble(pre, post, id);
}

/// A replica that learns that its own log is durable preserves the
/// invariant.
pub proof fn lemma_persisted(pre: Cluster, post: Cluster, node: u64, through: u64, commit: u64)
    requires
        inv(pre),
        next(pre, Step::Persisted { node, through, commit }, post),
    ensures
        inv(post),
        extends(pre, post),
{
    let before = pre.members[node as int];
    let whole = pre.logs[node as int];
    if before.node.role == Role::Leader {
        let member = before.after_persisted(through, commit);
        assert(members_ok_at(pre, node as int));
        assert(role_ok(pre, node as int));
        let mid = pre.with_report(node, before.node.term, member.progress[node as int]);
        lemma_progress(pre, mid, post, node, node, through, commit);
    }
}

/// A replica that receives a report of agreement preserves the invariant.
pub proof fn lemma_acked(
    pre: Cluster,
    post: Cluster,
    leader: u64,
    from: u64,
    term: u64,
    index: u64,
    commit: u64,
)
    requires
        inv(pre),
        next(pre, Step::Acked { leader, from, term, index, commit }, post),
    ensures
        inv(post),
        extends(pre, post),
{
    let before = pre.members[leader as int];
    let whole = pre.logs[leader as int];
    let reply = AppendReply { term, success: true, match_index: index };
    let member = before.after_reply(from, reply, commit);
    assert(members_ok_at(pre, leader as int));
    if counts(before.node, from, reply) {
        assert(role_ok(pre, leader as int));
        assert(before.after_event(Event::PeerTerm { term }) == before) by {
            assert(before.after_event(Event::PeerTerm { term }).progress =~= before.progress);
        }
        lemma_progress(pre, pre, post, leader, from, index, commit);
    } else {
        let seen = before.after_event(Event::PeerTerm { term });
        assert(member == seen);
        assert(pre.with_commit(leader, before, member) == pre);
        lemma_role_only(pre, post, leader, Event::PeerTerm { term });
    }
}

} // verus!
