//! The step of a follower preserves the invariant: taking in a replication
//! message.

use crate::cluster::elections::lemma_position;
use crate::cluster::invariants::{
    based, candidacy_held, candidacy_ok, certificate_ok, election_held, election_log, election_ok,
    election_votes, grant_held, grant_ok, has_prefix, inv, keeps, members_ok_at, mirrors,
    overruled, report_held, report_ok, role_ok, rooted, sorted,
};
use crate::cluster::model::{next, Cluster, Step};
use crate::cluster::preserve::{
    extends, lemma_assemble, lemma_frame, lemma_keeps_stays, lemma_quiet_step, same_term, stepped,
};
use crate::log::{
    accept_log, accept_result, lemma_accept_keeps_wf, Accepted, LogEntryView, LogView, SlotView,
};
use crate::protocol::{follows, lemma_step_preserves_invariant, next_state, Event, Role};
use crate::replica::{accept_many, entry_fits, lower, raised, AppendRequestView, Replication};
use vstd::prelude::*;

verus! {

/// Whether `log` holds the beginning of `of` through every entry whose term
/// the two have in common.
pub open spec fn agrees(log: Seq<SlotView>, of: Seq<SlotView>) -> bool {
    forall|x: int|
        0 <= x < log.len() && x < of.len() && (#[trigger] log[x]).term == of[x].term
            ==> has_prefix(log, of, x + 1)
}

/// Whether `entries` are the `entries.len()` entries of `of` after the first
/// `prev`.
pub open spec fn carries(entries: Seq<LogEntryView>, of: Seq<SlotView>, prev: u64) -> bool {
    &&& prev + entries.len() <= of.len()
    &&& forall|k: int|
        0 <= k < entries.len() ==> {
            &&& (#[trigger] entries[k]).index == prev + 1 + k
            &&& entries[k].term == of[prev + k].term
            &&& entries[k].command == of[prev + k].command
        }
}

/// Whether `out` is what a whole log `whole`, committed through `commit`,
/// becomes by taking in entries of `of` through `through`, changing first at
/// position `change`, or nowhere if `change` is negative.
pub open spec fn taken_in(
    whole: Seq<SlotView>,
    commit: u64,
    out: Seq<SlotView>,
    of: Seq<SlotView>,
    through: int,
    change: int,
) -> bool {
    &&& has_prefix(out, of, through)
    &&& if change < 0 {
        out == whole
    } else {
        &&& change < through
        &&& out.len() == through
        &&& commit <= change <= whole.len()
        &&& change < whole.len() ==> whole[change].term != of[change].term
        &&& forall|x: int| 0 <= x < change ==> out[x] == whole[x]
    }
}

/// The whole log of a replica whose log `log` is what is left of `whole`,
/// after the log became `out`.
pub open spec fn rejoined(whole: Seq<SlotView>, log: LogView, out: LogView) -> Seq<SlotView> {
    whole.take(log.base_index as int) + out.slots
}

/// A log that holds the beginning of a leader's log through `prev` and takes
/// in the entries after it holds the leader's log through the last entry
/// taken in, and either has not changed or ends there.
pub proof fn lemma_takes_in(
    log: LogView,
    whole: Seq<SlotView>,
    of: Seq<SlotView>,
    entries: Seq<LogEntryView>,
    prev: u64,
    taken: int,
) -> (change: int)
    requires
        mirrors(log, whole),
        log.base_index <= prev,
        of.len() <= u64::MAX,
        carries(entries, of, prev),
        agrees(whole, of),
        has_prefix(whole, of, prev as int),
        0 <= taken <= entries.len(),
        forall|k: int|
            0 <= k < taken ==> #[trigger] entry_fits(accept_many(log, entries, k), entries, prev, k),
    ensures
        accept_many(log, entries, taken).base_index == log.base_index,
        accept_many(log, entries, taken).base_term == log.base_term,
        accept_many(log, entries, taken).snapshot_index == log.snapshot_index,
        accept_many(log, entries, taken).commit_index == log.commit_index,
        mirrors(
            accept_many(log, entries, taken),
            rejoined(whole, log, accept_many(log, entries, taken)),
        ),
        taken_in(
            whole,
            log.commit_index,
            rejoined(whole, log, accept_many(log, entries, taken)),
            of,
            prev + taken,
            change,
        ),
    decreases taken,
{
    let base = log.base_index as int;
    if taken == 0 {
        assert(rejoined(whole, log, log) =~= whole) by {
            assert forall|k: int| 0 <= k < whole.len() implies rejoined(whole, log, log)[k]
                == whole[k] by {
                if k >= base {
                    assert(whole[k] == log.slots[k - base]);
                }
            }
        }
        return -1;
    }
    let before = accept_many(log, entries, taken - 1);
    let earlier = lemma_takes_in(log, whole, of, entries, prev, taken - 1);
    let before_whole = rejoined(whole, log, before);
    let e = entries[taken - 1];
    let index = prev + taken;
    let out = accept_log(before, e.index, e.term, e.command);
    let out_whole = rejoined(whole, log, out);
    assert(out == accept_many(log, entries, taken));
    assert(entry_fits(before, entries, prev, taken - 1));
    assert(e.index == index);
    assert(e.term == of[index - 1].term && e.command == of[index - 1].command);
    lemma_accept_keeps_wf(before, e.index, e.term, e.command);
    let slot = SlotView { term: e.term, command: e.command };
    assert(slot == of[index - 1]);
    assert(before_whole.len() == base + before.slots.len());
    assert forall|k: int| 0 <= k < before_whole.len() implies before_whole[k] == if k < base {
        whole[k]
    } else {
        before.slots[k - base]
    } by {}
    assert forall|k: int| 0 <= k < out_whole.len() implies out_whole[k] == if k < base {
        whole[k]
    } else {
        out.slots[k - base]
    } by {}
    match accept_result(before, e.index, e.term) {
        Ok(Accepted::Present) => {
            assert(earlier < 0);
            assert(before_whole == whole);
            assert(before.slot_at(index) == whole[index - 1]);
            assert(whole[index - 1].term == of[index - 1].term);
            assert(has_prefix(whole, of, index));
            earlier
        },
        Ok(Accepted::Appended) => {
            assert(out.slots == before.slots.push(slot));
            assert(out_whole =~= before_whole.push(slot));
            assert forall|k: int| 0 <= k < index implies out_whole[k] == of[k] by {
                if k < index - 1 {
                    assert(out_whole[k] == before_whole[k]);
                }
            }
            assert(mirrors(out, out_whole));
            if earlier < 0 {
                index - 1
            } else {
                assert forall|x: int| 0 <= x < earlier implies out_whole[x] == whole[x] by {
                    assert(out_whole[x] == before_whole[x]);
                }
                earlier
            }
        },
        Ok(Accepted::Replaced) => {
            assert(earlier < 0);
            assert(before_whole == whole);
            assert(out.slots == before.slots.take(index - base - 1).push(slot));
            assert(out_whole =~= whole.take(index - 1).push(slot));
            assert(before.slot_at(index) == whole[index - 1]);
            assert forall|k: int| 0 <= k < index implies out_whole[k] == of[k] by {
                if k < index - 1 {
                    assert(out_whole[k] == whole[k]);
                }
            }
            assert(mirrors(out, out_whole));
            index - 1
        },
        Err(_) => {
            -1
        },
    }
}

/// What a replica reported to hold of the log of a term, it keeps when it
/// takes in entries from a leader of the same or a later term: whatever it
/// gives up, the later leader did not start with.
pub proof fn lemma_keeps_after_taking_in(
    c: Cluster,
    whole: Seq<SlotView>,
    commit: u64,
    out: Seq<SlotView>,
    term: u64,
    through: int,
    change: int,
    reported_in: u64,
    reported: u64,
    upto: int,
)
    requires
        inv(c),
        c.elections.contains_key(term),
        taken_in(whole, commit, out, c.term_logs[term], through, change),
        c.elections.contains_key(reported_in),
        reported <= c.term_logs[reported_in].len(),
        reported_in <= upto <= term,
        keeps(c, whole, reported_in, reported, upto),
    ensures
        keeps(c, out, reported_in, reported, term as int),
{
    let of = c.term_logs[term];
    let held = c.term_logs[reported_in];
    assert forall|i: int| 1 <= i <= reported implies #[trigger] has_prefix(out, held, i)
        || overruled(c, reported_in, i, term as int) by {
        if has_prefix(whole, held, i) {
            if change >= 0 {
                if i <= change {
                    assert forall|k: int| 0 <= k < i implies out[k] == held[k] by {
                        assert(out[k] == whole[k]);
                    }
                } else {
                    assert(whole[change] == held[change]);
                    assert(of[change].term != held[change].term);
                    assert(reported_in != term);
                    assert(election_ok(c, term));
                    if has_prefix(c.start_log(term), held, i) {
                        assert(c.start_log(term)[change] == held[change]);
                        assert(of[change] == c.start_log(term)[change]);
                    }
                    assert(overruled(c, reported_in, i, term as int));
                }
            }
        } else {
            assert(overruled(c, reported_in, i, upto));
            let w = choose|w: u64|
                reported_in < w <= upto && #[trigger] c.elections.contains_key(w) && !has_prefix(
                    c.start_log(w),
                    held,
                    i,
                );
            assert(reported_in < w <= term);
        }
    }
}

/// Logs that are rooted agree.
pub proof fn lemma_rooted_agree(c: Cluster, log: Seq<SlotView>, of: Seq<SlotView>)
    requires
        rooted(c, log),
        rooted(c, of),
    ensures
        agrees(log, of),
{
    assert forall|x: int|
        0 <= x < log.len() && x < of.len() && (#[trigger] log[x]).term
            == of[x].term implies has_prefix(log, of, x + 1) by {
        let t = log[x].term;
        assert(has_prefix(log, c.term_logs[t], x + 1));
        assert(has_prefix(of, c.term_logs[of[x].term], x + 1));
        assert forall|k: int| 0 <= k < x + 1 implies log[k] == of[k] by {
            assert(log[k] == c.term_logs[t][k]);
            assert(of[k] == c.term_logs[t][k]);
        }
    }
}

/// A replica that receives a replication message preserves the invariant.
pub proof fn lemma_append(
    pre: Cluster,
    post: Cluster,
    follower: u64,
    request: AppendRequestView,
    taken: int,
)
    requires
        inv(pre),
        next(pre, Step::Append { follower, request, taken }, post),
    ensures
        inv(post),
        extends(pre, post),
{
    let before = pre.members[follower as int];
    let whole = pre.logs[follower as int];
    let member = before.after_append(request, taken);
    let reply = before.append_reply(request, taken);
    let term = request.term;
    let contact = Event::LeaderContact { term, leader: request.leader };
    assert(members_ok_at(pre, follower as int));
    assert(role_ok(pre, follower as int));
    assert(election_ok(pre, term));
    lemma_step_preserves_invariant(before.node, contact, before.position());
    lemma_position(before, whole);
    if !follows(before.node, term) {
        assert(member == before);
        assert(post.members =~= pre.members);
        assert(post.logs =~= pre.logs);
        assert(post == pre);
        return ;
    }
    if !before.reaches(request) {
        assert(taken == 0);
        assert(member.log == before.log);
        assert(post.logs =~= pre.logs);
        assert(post == pre.with_member(follower, member));
        lemma_quiet_step(pre, post, follower, member);
        return ;
    }
    lemma_append_taken(pre, post, follower, request, taken);
}

/// A replica that follows the sender of a replication message and whose log
/// reaches the entry before the message's entries preserves the invariant.
proof fn lemma_append_taken(
    pre: Cluster,
    post: Cluster,
    follower: u64,
    request: AppendRequestView,
    taken: int,
)
    requires
        inv(pre),
        next(pre, Step::Append { follower, request, taken }, post),
        follows(pre.members[follower as int].node, request.term),
        pre.members[follower as int].reaches(request),
    ensures
        inv(post),
        extends(pre, post),
{
    let before = pre.members[follower as int];
    let whole = pre.logs[follower as int];
    let member = before.after_append(request, taken);
    let reply = before.append_reply(request, taken);
    let term = request.term;
    let of = pre.term_logs[term];
    let prev = request.prev_index;
    let through = prev + taken;
    let log = before.log;
    let out = accept_many(log, request.entries, taken);
    let out_whole = rejoined(whole, log, out);
    assert(members_ok_at(pre, follower as int));
    assert(election_ok(pre, term));
    lemma_rooted_agree(pre, whole, of);
    assert(carries(request.entries, of, prev));
    assert(log.base_index <= prev);
    assert(has_prefix(whole, of, prev as int)) by {
        if prev > 0 {
            if prev > log.base_index {
                assert(log.holds(prev as int));
                assert(whole[prev - 1] == log.slots[prev - 1 - log.base_index]);
            }
            assert(whole[prev - 1].term == of[prev - 1].term);
        }
    }
    let change = lemma_takes_in(log, whole, of, request.entries, prev, taken);
    let target = lower(request.leader_commit as int, through);
    assert(member.log == raised(out, target));
    assert(mirrors(member.log, out_whole));
    lemma_log_replaced(
        pre,
        post,
        follower,
        term,
        request.leader,
        member,
        out_whole,
        through,
        change,
        reply.success,
    );
}

/// A replica that follows a leader and, on the leader's word, makes its
/// whole log `out`, which holds the leader's log through `through`,
/// preserves the invariant.
pub proof fn lemma_log_replaced(
    pre: Cluster,
    post: Cluster,
    follower: u64,
    term: u64,
    leader: u64,
    member: Replication,
    out: Seq<SlotView>,
    through: int,
    change: int,
    reported: bool,
)
    requires
        inv(pre),
        follower < pre.size(),
        pre.elections.contains_key(term),
        follows(pre.members[follower as int].node, term),
        member.node == next_state(
            pre.members[follower as int].node,
            Event::LeaderContact { term, leader },
            pre.members[follower as int].position(),
        ),
        member.progress == pre.members[follower as int].progress,
        mirrors(member.log, out),
        0 <= through <= pre.term_logs[term].len(),
        taken_in(
            pre.logs[follower as int],
            pre.members[follower as int].log.commit_index,
            out,
            pre.term_logs[term],
            through,
            change,
        ),
        member.log.commit_index >= pre.members[follower as int].log.commit_index,
        member.log.commit_index > pre.members[follower as int].log.commit_index ==> {
            &&& member.log.commit_index <= through
            &&& member.log.commit_index <= pre.announced[term]
        },
        post == (Cluster {
            commit_basis: if member.log.commit_index
                > pre.members[follower as int].log.commit_index {
                pre.commit_basis.update(follower as int, pre.announce_basis[term])
            } else {
                pre.commit_basis
            },
            acked: if reported && !(pre.acked.contains_key((follower, term)) && pre.acked[(
                follower,
                term,
            )] >= through) {
                pre.acked.insert((follower, term), through as u64)
            } else {
                pre.acked
            },
            logs: pre.logs.update(follower as int, out),
            members: pre.members.update(follower as int, member),
            machines: post.machines,
            snapshots: post.snapshots,
            ..pre
        }),
    ensures
        inv(post),
        extends(pre, post),
{
    let before = pre.members[follower as int];
    let whole = pre.logs[follower as int];
    let of = pre.term_logs[term];
    let contact = Event::LeaderContact { term, leader };
    let log = before.log;
    assert(members_ok_at(pre, follower as int));
    assert(role_ok(pre, follower as int));
    assert(election_ok(pre, term));
    assert(pre.term_logs.dom().contains(term));
    assert(pre.announced.dom().contains(term));
    lemma_step_preserves_invariant(before.node, contact, before.position());
    lemma_position(before, whole);
    assert(post.logs[follower as int] == out);
    assert(member.node.term == term);
    assert(member.node.role == Role::Follower);
    let lifted = member.log.commit_index > log.commit_index;
    assert(extends(pre, post));
    assert(stepped(pre, post, follower)) by {
        assert forall|t: u64|
            #[trigger] pre.elections.contains_key(t) && pre.elections[t].leader
                != follower implies same_term(pre, post, t) by {
            assert(election_ok(pre, t));
            assert(pre.announced.dom().contains(t));
        }
    }
    assert(post.term_logs.dom() =~= post.elections.dom());
    assert(post.announced.dom() =~= post.elections.dom());
    // the replica itself
    assert(rooted(post, out)) by {
        assert forall|k: int| 0 <= k < out.len() implies post.term_logs.contains_key(
            (#[trigger] out[k]).term,
        ) && has_prefix(out, post.term_logs[out[k].term], k + 1) by {
            if k < through {
                assert(out[k] == of[k]);
                assert(pre.term_logs.contains_key(of[k].term));
                assert(has_prefix(of, pre.term_logs[of[k].term], k + 1));
                assert forall|x: int| 0 <= x < k + 1 implies out[x] == pre.term_logs[of[k].term][x] by {
                    assert(out[x] == of[x]);
                }
            } else {
                assert(out == whole);
                assert(has_prefix(whole, pre.term_logs[whole[k].term], k + 1));
            }
        }
    }
    assert forall|k: int| 0 <= k < out.len() implies 1 <= (#[trigger] out[k]).term <= term by {
        if k < through {
            assert(out[k] == of[k]);
            assert(candidacy_ok(pre, term, pre.elections[term].leader));
            if k < pre.start_log(term).len() {
                assert(of[k] == pre.start_log(term)[k]);
            }
        } else {
            assert(out == whole);
        }
    }
    assert(sorted(out)) by {
        assert forall|x: int, y: int| 0 <= x <= y < out.len() implies out[x].term
            <= out[y].term by {
            if change >= 0 {
                assert(out[x] == of[x]);
                assert(out[y] == of[y]);
            }
        }
    }
    assert(members_ok_at(post, follower as int));
    if member.log.commit_index > 0 {
        if lifted {
            let basis = pre.announce_basis[term];
            assert(based(pre, of, pre.announced[term], basis));
            assert(certificate_ok(pre, basis.term, basis.index));
            assert forall|k: int| 0 <= k < member.log.commit_index implies out[k]
                == post.term_logs[basis.term][k] by {
                assert(out[k] == of[k]);
            }
            assert(based(post, out, member.log.commit_index, basis));
        } else {
            let basis = pre.commit_basis[follower as int];
            assert(based(pre, whole, log.commit_index, basis));
            assert forall|k: int| 0 <= k < log.commit_index implies out[k]
                == post.term_logs[basis.term][k] by {
                if change >= 0 {
                    assert(out[k] == whole[k]);
                }
            }
            assert(based(post, out, member.log.commit_index, basis));
        }
    }
    assert(role_ok(post, follower as int));
    assert forall|t: u64|
        #[trigger] pre.candidacies.contains_key((t, follower)) implies candidacy_held(
        member,
        post.logs[follower as int],
        t,
        pre.candidacies[(t, follower)],
    ) by {
        assert(candidacy_ok(pre, t, follower));
    }
    assert forall|t: u64| #[trigger] pre.grants.contains_key((t, follower)) implies grant_held(
        member,
        t,
        pre.grants[(t, follower)].candidate,
    ) by {
        assert(grant_ok(pre, t, follower));
    }
    assert forall|t: u64|
        #[trigger] pre.elections.contains_key(t) && pre.elections[t].leader == follower implies {
        &&& election_held(member, t, follower)
        &&& !post.grants.contains_key((t, follower))
        &&& election_log(post, t)
    } by {
        assert(election_ok(pre, t));
        assert(pre.announced.dom().contains(t));
        assert(same_term(pre, post, t));
        lemma_frame(pre, post, follower);
        assert(!post.grants.contains_key((t, follower)));
        assert(election_votes(post, t));
    }
    assert forall|t: u64| #[trigger] pre.acked.contains_key((follower, t)) implies {
        &&& post.acked[(follower, t)] <= post.term_logs[t].len()
        &&& report_held(post, member, post.logs[follower as int], t, post.acked[(follower, t)])
    } by {
        assert(report_ok(pre, follower, t));
        assert(pre.term_logs.dom().contains(t));
        lemma_keeps_after_taking_in(
            pre,
            whole,
            log.commit_index,
            out,
            term,
            through,
            change,
            t,
            pre.acked[(follower, t)],
            before.node.term as int,
        );
        lemma_keeps_stays(pre, post, out, t, pre.acked[(follower, t)], term as int, term as int);
        if post.acked[(follower, t)] != pre.acked[(follower, t)] {
            assert(t == term);
            assert(post.acked[(follower, t)] == through);
            assert forall|i: int| 1 <= i <= through implies #[trigger] has_prefix(
                out,
                post.term_logs[t],
                i,
            ) by {}
        }
    }
    assert forall|r: u64, t: u64|
        post.acked.contains_key((r, t)) && !pre.acked.contains_key(
            (r, t),
        ) implies #[trigger] report_ok(post, r, t) by {
        assert(r == follower && t == term);
        assert(post.acked[(r, t)] == through);
        assert forall|i: int| 1 <= i <= through implies #[trigger] has_prefix(
            out,
            post.term_logs[t],
            i,
        ) by {}
    }
    lemma_assemble(pre, post, follower);
}

} // verus!
