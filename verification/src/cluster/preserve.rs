//! Every step preserves the invariant.

use crate::cluster::invariants::{
    based, candidacy_held, candidacy_ok, candidacy_record, certificate_ok, election_held,
    election_log, election_ok, election_votes, grant_held, grant_ok, grant_record, has_prefix, inv,
    keeps, members_ok, members_ok_at, mirrors, overruled, report_held, report_ok, role_ok, rooted,
};
use crate::cluster::model::{initial, Basis, Cluster};
use crate::log::SlotView;
use crate::protocol::{NodeView, Role};
use crate::replica::Replication;
use vstd::prelude::*;

verus! {

/// Whether `post` holds everything that `pre` recorded: nothing recorded is
/// lost or changed, the logs of the terms only grow at their ends, and the
/// reports only rise.
pub open spec fn extends(pre: Cluster, post: Cluster) -> bool {
    &&& post.size() == pre.size()
    &&& forall|k: (u64, u64)|
        pre.candidacies.contains_key(k) ==> #[trigger] post.candidacies.contains_key(k)
            && post.candidacies[k] == pre.candidacies[k]
    &&& forall|k: (u64, u64)|
        pre.grants.contains_key(k) ==> #[trigger] post.grants.contains_key(k) && post.grants[k]
            == pre.grants[k]
    &&& forall|t: u64|
        pre.elections.contains_key(t) ==> #[trigger] post.elections.contains_key(t)
            && post.elections[t] == pre.elections[t]
    &&& forall|t: u64|
        pre.term_logs.contains_key(t) ==> #[trigger] post.term_logs.contains_key(t) && has_prefix(
            post.term_logs[t],
            pre.term_logs[t],
            pre.term_logs[t].len() as int,
        )
    &&& forall|t: u64|
        pre.announced.contains_key(t) ==> #[trigger] post.announced.contains_key(t)
            && post.announced[t] >= pre.announced[t]
    &&& forall|k: (u64, u64)|
        pre.acked.contains_key(k) ==> #[trigger] post.acked.contains_key(k) && post.acked[k]
            >= pre.acked[k]
    &&& forall|k: (u64, u64)|
        pre.certificates.contains_key(k) ==> #[trigger] post.certificates.contains_key(k)
            && post.certificates[k] == pre.certificates[k]
}

/// A log that was rooted stays rooted.
pub proof fn lemma_rooted_stays(pre: Cluster, post: Cluster, log: Seq<SlotView>)
    requires
        extends(pre, post),
        rooted(pre, log),
    ensures
        rooted(post, log),
{
    assert forall|k: int| 0 <= k < log.len() implies post.term_logs.contains_key(
        (#[trigger] log[k]).term,
    ) && has_prefix(log, post.term_logs[log[k].term], k + 1) by {
        let t = log[k].term;
        assert(pre.term_logs.contains_key(t));
        assert(has_prefix(log, pre.term_logs[t], k + 1));
        assert(post.term_logs.contains_key(t));
    }
}

/// A prefix that a log held of the log of a term, it still holds, and one
/// it did not hold, it still does not.
pub proof fn lemma_prefix_stays(
    pre: Cluster,
    post: Cluster,
    log: Seq<SlotView>,
    term: u64,
    count: int,
)
    requires
        extends(pre, post),
        pre.term_logs.contains_key(term),
        0 <= count <= pre.term_logs[term].len(),
    ensures
        has_prefix(log, post.term_logs[term], count) == has_prefix(
            log,
            pre.term_logs[term],
            count,
        ),
{
    assert(post.term_logs.contains_key(term));
    let old = pre.term_logs[term];
    let new = post.term_logs[term];
    assert(has_prefix(new, old, old.len() as int));
    if has_prefix(log, old, count) {
        assert forall|k: int| 0 <= k < count implies log[k] == new[k] by {
            assert(new[k] == old[k]);
        }
    }
    if has_prefix(log, new, count) {
        assert forall|k: int| 0 <= k < count implies log[k] == old[k] by {
            assert(new[k] == old[k]);
        }
    }
}

/// What a log kept of the log of a term, it still keeps, also by a later
/// term.
pub proof fn lemma_keeps_stays(
    pre: Cluster,
    post: Cluster,
    log: Seq<SlotView>,
    term: u64,
    through: u64,
    upto: int,
    later: int,
)
    requires
        inv(pre),
        extends(pre, post),
        pre.term_logs.contains_key(term),
        through <= pre.term_logs[term].len(),
        keeps(pre, log, term, through, upto),
        upto <= later,
    ensures
        keeps(post, log, term, through, later),
{
    assert forall|i: int| 1 <= i <= through implies #[trigger] has_prefix(
        log,
        post.term_logs[term],
        i,
    ) || overruled(post, term, i, later) by {
        lemma_prefix_stays(pre, post, log, term, i);
        assert(has_prefix(log, pre.term_logs[term], i) || overruled(pre, term, i, upto));
        if !has_prefix(log, pre.term_logs[term], i) {
            let w = choose|w: u64|
                term < w <= upto && #[trigger] pre.elections.contains_key(w) && !has_prefix(
                    pre.start_log(w),
                    pre.term_logs[term],
                    i,
                );
            assert(post.elections.contains_key(w));
            lemma_start_log_stays(pre, post, w);
            lemma_prefix_stays(pre, post, pre.start_log(w), term, i);
        }
    }
}

/// The log a leader started with stays what it was.
pub proof fn lemma_start_log_stays(pre: Cluster, post: Cluster, term: u64)
    requires
        inv(pre),
        extends(pre, post),
        pre.elections.contains_key(term),
    ensures
        post.elections.contains_key(term),
        post.start_log(term) == pre.start_log(term),
{
    assert(post.elections.contains_key(term));
    assert(election_ok(pre, term));
    let k = (term, pre.elections[term].leader);
    assert(post.candidacies.contains_key(k));
}

/// The cluster satisfies the invariant before anything has happened.
pub proof fn lemma_initial_cluster(replicas: u64)
    requires
        replicas >= 1,
    ensures
        inv(initial(replicas)),
{
    let c = initial(replicas);
    assert(c.term_logs.dom() =~= c.elections.dom());
    assert(c.announced.dom() =~= c.elections.dom());
    assert forall|i: int| 0 <= i < c.size() implies #[trigger] role_ok(c, i) by {}
    assert forall|i: int| 0 <= i < c.size() implies members_ok_at(c, i) by {
        assert(c.members[i].node.votes.finite());
    }
}

/// Whether the step of a node from `a` to `b` is quiet: the node gains
/// neither leadership nor candidacy, and within a term it keeps its vote.
pub open spec fn quiet(a: NodeView, b: NodeView) -> bool {
    &&& b.inv()
    &&& b.id == a.id
    &&& b.replicas == a.replicas
    &&& b.term >= a.term
    &&& b.role == Role::Leader ==> a.role == Role::Leader && b.term == a.term
    &&& b.role == Role::Candidate ==> a.role == Role::Candidate && b.term == a.term
    &&& b.term == a.term ==> b.voted_for == a.voted_for
}

/// A step that changes one replica's role state quietly, and nothing else,
/// preserves the invariant, provided every vote a candidate counts was
/// granted to it.
pub proof fn lemma_quiet_step(pre: Cluster, post: Cluster, id: u64, member: Replication)
    requires
        inv(pre),
        id < pre.size(),
        post == (Cluster {
            members: pre.members.update(id as int, member),
            machines: post.machines,
            snapshots: post.snapshots,
            ..pre
        }),
        quiet(pre.members[id as int].node, member.node),
        mirrors(member.log, pre.logs[id as int]),
        member.log.commit_index == pre.members[id as int].log.commit_index,
        member.progress.len() == pre.members[id as int].progress.len(),
        member.node.role == Role::Leader ==> member.progress == pre.members[id as int].progress,
        member.node.role == Role::Candidate ==> forall|v: u64|
            #[trigger] member.node.votes.contains(v) && v != id ==> {
                &&& pre.grants.contains_key((member.node.term, v))
                &&& pre.grants[(member.node.term, v)].candidate == id
            },
    ensures
        inv(post),
        extends(pre, post),
{
    let before = pre.members[id as int];
    assert(extends(pre, post));
    assert forall|i: int| 0 <= i < post.size() implies members_ok_at(post, i) by {
        assert(members_ok_at(pre, i));
    }
    assert(members_ok(post));
    assert forall|i: int| 0 <= i < post.size() implies #[trigger] role_ok(post, i) by {
        assert(role_ok(pre, i));
    }
    assert forall|term: u64, candidate: u64|
        post.candidacies.contains_key((term, candidate)) implies #[trigger] candidacy_ok(
        post,
        term,
        candidate,
    ) by {
        assert(candidacy_ok(pre, term, candidate));
        let log = pre.candidacies[(term, candidate)];
        lemma_rooted_stays(pre, post, log);
        assert forall|acked_in: u64|
            acked_in < term && #[trigger] post.acked.contains_key(
                (candidate, acked_in),
            ) implies keeps(post, log, acked_in, post.acked[(candidate, acked_in)], term - 1) by {
            assert(report_ok(pre, candidate, acked_in));
            lemma_keeps_stays(
                pre,
                post,
                log,
                acked_in,
                pre.acked[(candidate, acked_in)],
                term - 1,
                term - 1,
            );
        }
    }
    assert forall|term: u64, voter: u64|
        post.grants.contains_key((term, voter)) implies #[trigger] grant_ok(post, term, voter) by {
        assert(grant_ok(pre, term, voter));
        let log = pre.grants[(term, voter)].log;
        lemma_rooted_stays(pre, post, log);
        assert forall|acked_in: u64|
            acked_in < term && #[trigger] post.acked.contains_key((voter, acked_in)) implies keeps(
            post,
            log,
            acked_in,
            post.acked[(voter, acked_in)],
            term as int,
        ) by {
            assert(report_ok(pre, voter, acked_in));
            lemma_keeps_stays(
                pre,
                post,
                log,
                acked_in,
                pre.acked[(voter, acked_in)],
                term as int,
                term as int,
            );
        }
    }
    assert forall|term: u64| post.elections.contains_key(term) implies #[trigger] election_ok(
        post,
        term,
    ) by {
        assert(election_ok(pre, term));
    }
    assert forall|r: u64, term: u64|
        post.acked.contains_key((r, term)) implies #[trigger] report_ok(post, r, term) by {
        assert(report_ok(pre, r, term));
        lemma_keeps_stays(
            pre,
            post,
            pre.logs[r as int],
            term,
            pre.acked[(r, term)],
            pre.members[r as int].node.term as int,
            post.members[r as int].node.term as int,
        );
    }
    assert forall|term: u64, index: u64|
        post.certificates.contains_key((term, index)) implies #[trigger] certificate_ok(
        post,
        term,
        index,
    ) by {
        assert(certificate_ok(pre, term, index));
    }
}

/// Whether `post` follows from `pre` by a step of replica `id`: everything
/// recorded stands, the other replicas and what stands behind their commit
/// watermarks are as they were, the logs and watermarks of the terms of
/// other leaders are as they were, the replica's term has not decreased, and
/// only its own report in the term it is in has risen.
pub open spec fn stepped(pre: Cluster, post: Cluster, id: u64) -> bool {
    &&& extends(pre, post)
    &&& id < pre.size()
    &&& post.commit_basis.len() == pre.commit_basis.len()
    &&& post.logs.len() == pre.logs.len()
    &&& post.members[id as int].node.term >= pre.members[id as int].node.term
    &&& forall|i: int|
        0 <= i < pre.size() && i != id ==> #[trigger] post.members[i] == pre.members[i]
            && post.commit_basis[i] == pre.commit_basis[i] && post.logs[i] == pre.logs[i]
    &&& forall|t: u64|
        #[trigger] pre.elections.contains_key(t) && pre.elections[t].leader != id ==> same_term(
            pre,
            post,
            t,
        )
    &&& forall|k: (u64, u64)|
        #[trigger] post.acked.contains_key(k) && !(pre.acked.contains_key(k) && post.acked[k]
            == pre.acked[k]) ==> k.0 == id && k.1 == post.members[id as int].node.term
    &&& forall|k: (u64, u64)|
        #[trigger] post.grants.contains_key(k) && !pre.grants.contains_key(k) ==> k.1 == id
}

/// Whether the log and the commit watermark of the leader of `term` are in
/// `post` what they were in `pre`.
pub open spec fn same_term(pre: Cluster, post: Cluster, term: u64) -> bool {
    &&& post.term_logs[term] == pre.term_logs[term]
    &&& post.announced.contains_key(term)
    &&& post.announced[term] == pre.announced[term]
    &&& post.announce_basis.contains_key(term) == pre.announce_basis.contains_key(term)
    &&& post.announce_basis[term] == pre.announce_basis[term]
}

/// What was committed on the strength of a basis stays committed on it.
pub proof fn lemma_based_stays(
    pre: Cluster,
    post: Cluster,
    log: Seq<SlotView>,
    commit: u64,
    basis: Basis,
)
    requires
        inv(pre),
        extends(pre, post),
        based(pre, log, commit, basis),
    ensures
        based(post, log, commit, basis),
{
    assert(certificate_ok(pre, basis.term, basis.index));
    assert(post.certificates.contains_key((basis.term, basis.index)));
    assert(pre.term_logs.dom().contains(basis.term));
    lemma_prefix_stays(pre, post, log, basis.term, commit as int);
}

/// After a step of replica `id`, everything that the invariant says of the
/// other replicas and of what was recorded before still holds, as far as it
/// does not depend on replica `id` itself.
pub proof fn lemma_frame(pre: Cluster, post: Cluster, id: u64)
    requires
        inv(pre),
        stepped(pre, post, id),
    ensures
        forall|i: int|
            0 <= i < pre.size() && i != id ==> #[trigger] members_ok_at(post, i) && role_ok(
                post,
                i,
            ),
        forall|term: u64, candidate: u64|
            pre.candidacies.contains_key((term, candidate)) ==> #[trigger] candidacy_record(
                post,
                term,
                candidate,
            ) && (candidate != id ==> candidacy_ok(post, term, candidate)),
        forall|term: u64, voter: u64|
            pre.grants.contains_key((term, voter)) ==> #[trigger] grant_record(post, term, voter)
                && (voter != id ==> grant_ok(post, term, voter)),
        forall|term: u64|
            pre.elections.contains_key(term) ==> (!post.grants.contains_key((term, id))
                ==> #[trigger] election_votes(post, term)) && (same_term(pre, post, term)
                ==> election_log(post, term)) && (pre.elections[term].leader != id ==> election_ok(
                post,
                term,
            )),
        forall|r: u64, term: u64|
            pre.acked.contains_key((r, term)) && r != id ==> #[trigger] report_ok(post, r, term),
        forall|term: u64, index: u64|
            pre.certificates.contains_key((term, index)) ==> #[trigger] certificate_ok(
                post,
                term,
                index,
            ),
{
    assert forall|i: int| 0 <= i < pre.size() && i != id implies #[trigger] members_ok_at(
        post,
        i,
    ) && role_ok(post, i) by {
        assert(members_ok_at(pre, i));
        assert(role_ok(pre, i));
        let m = pre.members[i];
        assert(post.members[i] == m);
        assert(post.logs[i] == pre.logs[i]);
        lemma_rooted_stays(pre, post, pre.logs[i]);
        if m.node.role == Role::Leader {
            assert(post.elections.contains_key(m.node.term));
            assert(same_term(pre, post, m.node.term));
            assert forall|r: int| 0 <= r < post.size() && #[trigger] m.progress[r] > 0 implies {
                &&& post.acked.contains_key((r as u64, m.node.term))
                &&& m.progress[r] <= post.acked[(r as u64, m.node.term)]
            } by {
                assert(pre.acked.contains_key((r as u64, m.node.term)));
                assert(post.acked.contains_key((r as u64, m.node.term)));
            }
        }
        if m.node.role == Role::Candidate {
            assert(post.candidacies.contains_key((m.node.term, i as u64)));
            assert forall|v: u64| #[trigger] m.node.votes.contains(v) && v != i implies {
                &&& post.grants.contains_key((m.node.term, v))
                &&& post.grants[(m.node.term, v)].candidate == i
            } by {
                assert(pre.grants.contains_key((m.node.term, v)));
                assert(post.grants.contains_key((m.node.term, v)));
            }
        }
        if m.log.commit_index > 0 {
            lemma_based_stays(pre, post, pre.logs[i], m.log.commit_index, pre.commit_basis[i]);
        }
    }
    assert forall|term: u64, candidate: u64|
        pre.candidacies.contains_key((term, candidate)) implies #[trigger] candidacy_record(
        post,
        term,
        candidate,
    ) && (candidate != id ==> candidacy_ok(post, term, candidate)) by {
        assert(candidacy_ok(pre, term, candidate));
        assert(post.candidacies.contains_key((term, candidate)));
        let log = pre.candidacies[(term, candidate)];
        lemma_rooted_stays(pre, post, log);
        assert forall|acked_in: u64|
            acked_in < term && #[trigger] post.acked.contains_key(
                (candidate, acked_in),
            ) implies keeps(post, log, acked_in, post.acked[(candidate, acked_in)], term - 1) by {
            let k = (candidate, acked_in);
            if pre.acked.contains_key(k) && post.acked[k] == pre.acked[k] {
                assert(report_ok(pre, candidate, acked_in));
                assert(pre.term_logs.dom().contains(acked_in));
                lemma_keeps_stays(pre, post, log, acked_in, pre.acked[k], term - 1, term - 1);
            } else {
                assert(k.0 == id && k.1 == post.members[id as int].node.term);
            }
        }
    }
    assert forall|term: u64, voter: u64|
        pre.grants.contains_key((term, voter)) implies #[trigger] grant_record(post, term, voter)
        && (voter != id ==> grant_ok(post, term, voter)) by {
        assert(grant_ok(pre, term, voter));
        assert(post.grants.contains_key((term, voter)));
        let g = pre.grants[(term, voter)];
        assert(post.candidacies.contains_key((term, g.candidate)));
        lemma_rooted_stays(pre, post, g.log);
        assert forall|acked_in: u64|
            acked_in < term && #[trigger] post.acked.contains_key((voter, acked_in)) implies keeps(
            post,
            g.log,
            acked_in,
            post.acked[(voter, acked_in)],
            term as int,
        ) by {
            let k = (voter, acked_in);
            if pre.acked.contains_key(k) && post.acked[k] == pre.acked[k] {
                assert(report_ok(pre, voter, acked_in));
                assert(pre.term_logs.dom().contains(acked_in));
                lemma_keeps_stays(pre, post, g.log, acked_in, pre.acked[k], term as int, term as int);
            } else {
                assert(k.0 == id && k.1 == post.members[id as int].node.term);
            }
        }
    }
    assert forall|term: u64| pre.elections.contains_key(term) implies (!post.grants.contains_key(
        (term, id),
    ) ==> #[trigger] election_votes(post, term)) && (same_term(pre, post, term) ==> election_log(
        post,
        term,
    )) && (pre.elections[term].leader != id ==> election_ok(post, term)) by {
        assert(election_ok(pre, term));
        assert(post.elections.contains_key(term));
        let e = pre.elections[term];
        assert(post.candidacies.contains_key((term, e.leader)));
        if post.grants.contains_key((term, e.leader)) {
            assert(!pre.grants.contains_key((term, e.leader)));
            assert(e.leader == id);
        }
        assert forall|v: u64| #[trigger] e.electors.contains(v) && v != e.leader implies {
            &&& post.grants.contains_key((term, v))
            &&& post.grants[(term, v)].candidate == e.leader
            &&& forall|acked_in: u64|
                acked_in < term && #[trigger] post.acked.contains_key((v, acked_in)) ==> keeps(
                    post,
                    post.grants[(term, v)].log,
                    acked_in,
                    post.acked[(v, acked_in)],
                    term - 1,
                )
        } by {
            assert(pre.grants.contains_key((term, v)));
            assert(post.grants.contains_key((term, v)));
            assert(grant_ok(pre, term, v));
            let g = pre.grants[(term, v)];
            assert forall|acked_in: u64|
                acked_in < term && #[trigger] post.acked.contains_key((v, acked_in)) implies keeps(
                post,
                g.log,
                acked_in,
                post.acked[(v, acked_in)],
                term - 1,
            ) by {
                let k = (v, acked_in);
                if pre.acked.contains_key(k) && post.acked[k] == pre.acked[k] {
                    assert(report_ok(pre, v, acked_in));
                    assert(pre.term_logs.dom().contains(acked_in));
                    lemma_keeps_stays(pre, post, g.log, acked_in, pre.acked[k], term - 1, term - 1);
                } else {
                    assert(k.0 == id && k.1 == post.members[id as int].node.term);
                }
            }
        }
        if same_term(pre, post, term) {
            lemma_start_log_stays(pre, post, term);
            lemma_rooted_stays(pre, post, pre.term_logs[term]);
            if pre.announced[term] > 0 {
                lemma_based_stays(
                    pre,
                    post,
                    pre.term_logs[term],
                    pre.announced[term],
                    pre.announce_basis[term],
                );
            }
        }
    }
    assert forall|r: u64, term: u64|
        pre.acked.contains_key((r, term)) && r != id implies #[trigger] report_ok(
        post,
        r,
        term,
    ) by {
        assert(report_ok(pre, r, term));
        assert(post.acked.contains_key((r, term)));
        assert(pre.term_logs.dom().contains(term));
        assert(post.term_logs.contains_key(term));
        let m = pre.members[r as int];
        assert(post.members[r as int] == m);
        assert(post.logs[r as int] == pre.logs[r as int]);
        lemma_keeps_stays(
            pre,
            post,
            pre.logs[r as int],
            term,
            pre.acked[(r, term)],
            m.node.term as int,
            m.node.term as int,
        );
    }
    assert forall|term: u64, index: u64|
        pre.certificates.contains_key((term, index)) implies #[trigger] certificate_ok(
        post,
        term,
        index,
    ) by {
        assert(certificate_ok(pre, term, index));
        assert(post.certificates.contains_key((term, index)));
        assert(pre.term_logs.dom().contains(term));
        assert(pre.announced.dom().contains(term));
        assert(post.term_logs.contains_key(term));
        assert(post.announced.contains_key(term));
        assert(post.elections.contains_key(term));
        let quorum = pre.certificates[(term, index)];
        assert forall|r: u64| #[trigger] quorum.contains(r) implies post.acked.contains_key(
            (r, term),
        ) && post.acked[(r, term)] >= index by {
            assert(pre.acked.contains_key((r, term)));
            assert(post.acked.contains_key((r, term)));
        }
    }
}

/// After a step of replica `id`, the invariant holds again when it holds of
/// the replica itself, of what the invariant asks of the replica on behalf
/// of earlier records, and of every new record.
pub proof fn lemma_assemble(pre: Cluster, post: Cluster, id: u64)
    requires
        inv(pre),
        stepped(pre, post, id),
        post.term_logs.dom() == post.elections.dom(),
        post.announced.dom() == post.elections.dom(),
        members_ok_at(post, id as int),
        role_ok(post, id as int),
        forall|t: u64|
            #[trigger] pre.candidacies.contains_key((t, id)) ==> candidacy_held(
                post.members[id as int],
                post.logs[id as int],
                t,
                pre.candidacies[(t, id)],
            ),
        forall|t: u64|
            #[trigger] pre.grants.contains_key((t, id)) ==> grant_held(
                post.members[id as int],
                t,
                pre.grants[(t, id)].candidate,
            ),
        forall|t: u64|
            #[trigger] pre.elections.contains_key(t) && pre.elections[t].leader == id ==> {
                &&& election_held(post.members[id as int], t, id)
                &&& !post.grants.contains_key((t, id))
                &&& election_log(post, t)
            },
        forall|t: u64|
            #[trigger] pre.acked.contains_key((id, t)) ==> {
                &&& post.acked[(id, t)] <= post.term_logs[t].len()
                &&& report_held(
                    post,
                    post.members[id as int],
                    post.logs[id as int],
                    t,
                    post.acked[(id, t)],
                )
            },
        forall|t: u64, c: u64|
            post.candidacies.contains_key((t, c)) && !pre.candidacies.contains_key((t, c))
                ==> #[trigger] candidacy_ok(post, t, c),
        forall|t: u64, v: u64|
            post.grants.contains_key((t, v)) && !pre.grants.contains_key((t, v))
                ==> #[trigger] grant_ok(post, t, v),
        forall|t: u64|
            post.elections.contains_key(t) && !pre.elections.contains_key(t)
                ==> #[trigger] election_ok(post, t),
        forall|r: u64, t: u64|
            post.acked.contains_key((r, t)) && !pre.acked.contains_key((r, t))
                ==> #[trigger] report_ok(post, r, t),
        forall|t: u64, i: u64|
            post.certificates.contains_key((t, i)) && !pre.certificates.contains_key((t, i))
                ==> #[trigger] certificate_ok(post, t, i),
    ensures
        inv(post),
{
    lemma_frame(pre, post, id);
    assert forall|i: int| 0 <= i < post.size() implies #[trigger] members_ok_at(post, i) by {}
    assert forall|i: int| 0 <= i < post.size() implies #[trigger] role_ok(post, i) by {
        assert(members_ok_at(post, i));
    }
    assert forall|term: u64, candidate: u64|
        post.candidacies.contains_key((term, candidate)) implies #[trigger] candidacy_ok(
        post,
        term,
        candidate,
    ) by {
        if pre.candidacies.contains_key((term, candidate)) {
            assert(candidacy_record(post, term, candidate));
            assert(candidacy_ok(pre, term, candidate));
        }
    }
    assert forall|term: u64, voter: u64|
        post.grants.contains_key((term, voter)) implies #[trigger] grant_ok(post, term, voter) by {
        if pre.grants.contains_key((term, voter)) {
            assert(grant_record(post, term, voter));
            assert(grant_ok(pre, term, voter));
        }
    }
    assert forall|term: u64| post.elections.contains_key(term) implies #[trigger] election_ok(
        post,
        term,
    ) by {
        if pre.elections.contains_key(term) {
            assert(election_ok(pre, term));
            if pre.elections[term].leader == id {
                assert(election_votes(post, term));
            }
        }
    }
    assert forall|r: u64, term: u64|
        post.acked.contains_key((r, term)) implies #[trigger] report_ok(post, r, term) by {
        if pre.acked.contains_key((r, term)) {
            assert(report_ok(pre, r, term));
            if r == id {
                assert(post.elections.contains_key(term));
            }
        }
    }
    assert forall|term: u64, index: u64|
        post.certificates.contains_key((term, index)) implies #[trigger] certificate_ok(
        post,
        term,
        index,
    ) by {}
}

/// What stands in a cluster stands in every cluster that extends one that
/// extends it.
pub proof fn lemma_extends_on(first: Cluster, second: Cluster, third: Cluster)
    requires
        extends(first, second),
        extends(second, third),
    ensures
        extends(first, third),
{
    assert forall|k: (u64, u64)| first.candidacies.contains_key(k) implies #[trigger] third.candidacies.contains_key(
        k,
    ) && third.candidacies[k] == first.candidacies[k] by {
        assert(second.candidacies.contains_key(k));
        assert(second.candidacies[k] == first.candidacies[k]);
        assert(third.candidacies.contains_key(k));
        assert(third.candidacies[k] == second.candidacies[k]);
    }
    assert forall|k: (u64, u64)| first.grants.contains_key(k) implies #[trigger] third.grants.contains_key(
        k,
    ) && third.grants[k] == first.grants[k] by {
        assert(second.grants.contains_key(k));
    }
    assert forall|t: u64| first.elections.contains_key(t) implies #[trigger] third.elections.contains_key(
        t,
    ) && third.elections[t] == first.elections[t] by {
        assert(second.elections.contains_key(t));
    }
    assert forall|t: u64| first.term_logs.contains_key(t) implies #[trigger] third.term_logs.contains_key(
        t,
    ) && has_prefix(third.term_logs[t], first.term_logs[t], first.term_logs[t].len() as int) by {
        assert(second.term_logs.contains_key(t));
        assert(has_prefix(second.term_logs[t], first.term_logs[t], first.term_logs[t].len() as int));
        assert(third.term_logs.contains_key(t));
        assert(has_prefix(
            third.term_logs[t],
            second.term_logs[t],
            second.term_logs[t].len() as int,
        ));
        assert forall|x: int| 0 <= x < first.term_logs[t].len() implies third.term_logs[t][x]
            == first.term_logs[t][x] by {
            assert(second.term_logs[t][x] == first.term_logs[t][x]);
        }
    }
    assert forall|t: u64| first.announced.contains_key(t) implies #[trigger] third.announced.contains_key(
        t,
    ) && third.announced[t] >= first.announced[t] by {
        assert(second.announced.contains_key(t));
    }
    assert forall|k: (u64, u64)| first.acked.contains_key(k) implies #[trigger] third.acked.contains_key(
        k,
    ) && third.acked[k] >= first.acked[k] by {
        assert(second.acked.contains_key(k));
    }
    assert forall|k: (u64, u64)| first.certificates.contains_key(k) implies #[trigger] third.certificates.contains_key(
        k,
    ) && third.certificates[k] == first.certificates[k] by {
        assert(second.certificates.contains_key(k));
    }
}

} // verus!
