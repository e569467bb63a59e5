//! The steps that shorten a log preserve the invariant: noting a snapshot,
//! compacting, and installing an offered snapshot.

use crate::cluster::appends::{agrees, lemma_log_replaced, lemma_rooted_agree, taken_in};
use crate::cluster::completeness::lemma_certified_logs_agree;
use crate::cluster::invariants::{
    based, election_ok, has_prefix, inv, members_ok_at, mirrors, role_ok,
};
use crate::cluster::model::{next, Cluster, Step};
use crate::cluster::preserve::{extends, lemma_quiet_step};
use crate::log::SlotView;
use crate::protocol::{follows, lemma_step_preserves_invariant, Event};
use crate::replica::SnapshotOffer;
use vstd::prelude::*;

verus! {

/// A replica that takes a snapshot preserves the invariant.
pub proof fn lemma_snapshot(pre: Cluster, post: Cluster, node: u64)
    requires
        inv(pre),
        next(pre, Step::Snapshot { node }, post),
    ensures
        inv(post),
        extends(pre, post),
{
    let before = pre.members[node as int];
    let member = before.after_note(pre.machines[node as int].applied);
    assert(members_ok_at(pre, node as int));
    assert(role_ok(pre, node as int));
    lemma_quiet_step(pre, post, node, member);
}

/// A replica that applies committed entries preserves the invariant.
pub proof fn lemma_apply(pre: Cluster, post: Cluster, node: u64)
    requires
        inv(pre),
        next(pre, Step::Apply { node }, post),
    ensures
        inv(post),
        extends(pre, post),
{
    let before = pre.members[node as int];
    assert(members_ok_at(pre, node as int));
    assert(role_ok(pre, node as int));
    assert(pre.members.update(node as int, before) =~= pre.members);
    lemma_quiet_step(pre, post, node, before);
}

/// A replica that compacts its log preserves the invariant.
pub proof fn lemma_compact(pre: Cluster, post: Cluster, node: u64, up_to: u64)
    requires
        inv(pre),
        next(pre, Step::Compact { node, up_to }, post),
    ensures
        inv(post),
        extends(pre, post),
{
    let before = pre.members[node as int];
    let member = before.after_compact(up_to);
    assert(members_ok_at(pre, node as int));
    assert(role_ok(pre, node as int));
    lemma_quiet_step(pre, post, node, member);
}

/// The first position, below `limit`, at which `whole` ends or holds another
/// term than `of`; `limit` if there is none.
pub proof fn lemma_first_difference(whole: Seq<SlotView>, of: Seq<SlotView>, limit: int) -> (d: int)
    requires
        agrees(whole, of),
        0 <= limit <= of.len(),
    ensures
        0 <= d <= limit,
        has_prefix(whole, of, d),
        d == limit || d == whole.len() || whole[d].term != of[d].term,
    decreases limit,
{
    if limit == 0 {
        return 0;
    }
    let d = lemma_first_difference(whole, of, limit - 1);
    if d == limit - 1 && d < whole.len() && whole[d].term == of[d].term {
        assert(has_prefix(whole, of, d + 1));
        limit
    } else {
        d
    }
}

/// A replica that receives the offer of a snapshot preserves the invariant.
pub proof fn lemma_offer(
    pre: Cluster,
    post: Cluster,
    follower: u64,
    offer: SnapshotOffer,
    taken: crate::cluster::model::Taken,
)
    requires
        inv(pre),
        next(pre, Step::Offer { follower, offer, snapshot: taken }, post),
    ensures
        inv(post),
        extends(pre, post),
{
    let before = pre.members[follower as int];
    let whole = pre.logs[follower as int];
    let member = before.after_offer(offer);
    let reply = before.offer_reply(offer);
    let term = offer.term;
    let of = pre.term_logs[term];
    let index = offer.index;
    let contact = Event::LeaderContact { term, leader: offer.leader };
    assert(members_ok_at(pre, follower as int));
    assert(role_ok(pre, follower as int));
    assert(election_ok(pre, term));
    assert(pre.term_logs.dom().contains(term));
    assert(pre.announced.dom().contains(term));
    lemma_step_preserves_invariant(before.node, contact, before.position());
    if !follows(before.node, term) {
        assert(member == before);
        assert(post.members =~= pre.members);
        assert(post == pre);
        return ;
    }
    if !(offer.last_term <= term) {
        assert(post == pre.with_member(follower, member));
        lemma_quiet_step(pre, post, follower, member);
        return ;
    }
    lemma_rooted_agree(pre, whole, of);
    let basis = pre.announce_basis[term];
    assert(based(pre, of, pre.announced[term], basis));
    if !before.installs(offer) {
        // the replica had committed through the snapshot before
        let own = pre.commit_basis[follower as int];
        assert(based(pre, whole, before.log.commit_index, own));
        assert forall|x: int| 0 <= x < index implies whole[x] == of[x] by {
            lemma_certified_logs_agree(pre, own.term, own.index, basis.term, basis.index, x);
        }
        assert(member.log == before.log);
        assert(pre.logs.update(follower as int, whole) =~= pre.logs);
        assert(taken_in(whole, before.log.commit_index, whole, of, index as int, -1));
        lemma_log_replaced(
            pre,
            post,
            follower,
            term,
            offer.leader,
            member,
            whole,
            index as int,
            -1,
            true,
        );
        return ;
    }
    let held = before.log.holds(index as int) && before.log.slot_at(index as int).term
        == offer.last_term;
    if held {
        assert(whole[index - 1] == before.log.slots[index - 1 - before.log.base_index]);
        assert(has_prefix(whole, of, index as int));
        assert(mirrors(member.log, whole)) by {
            assert forall|k: int| member.log.base_index <= k < whole.len() implies #[trigger] whole[k]
                == member.log.slots[k - member.log.base_index] by {
                assert(whole[k] == before.log.slots[k - before.log.base_index]);
            }
            assert forall|i: int, j: int| 0 <= i <= j < member.log.slots.len() implies (
            #[trigger] member.log.slots[i]).term <= (#[trigger] member.log.slots[j]).term by {
                let shift = index - before.log.base_index;
                assert(before.log.slots[i + shift].term <= before.log.slots[j + shift].term);
            }
            assert forall|i: int| 0 <= i < member.log.slots.len() implies member.log.base_term <= (
            #[trigger] member.log.slots[i]).term by {
                let shift = index - before.log.base_index;
                assert(before.log.slots[shift - 1].term <= before.log.slots[i + shift].term);
            }
        }
        lemma_log_replaced(
            pre,
            post,
            follower,
            term,
            offer.leader,
            member,
            whole,
            index as int,
            -1,
            true,
        );
    } else {
        let out = of.take(index as int);
        let d = lemma_first_difference(whole, of, index as int);
        if before.log.holds(index as int) {
            assert(whole[index - 1] == before.log.slots[index - 1 - before.log.base_index]);
        }
        assert(d < index);
        let own = pre.commit_basis[follower as int];
        if before.log.commit_index > 0 {
            assert(based(pre, whole, before.log.commit_index, own));
            assert forall|x: int| 0 <= x < before.log.commit_index implies whole[x] == of[x] by {
                lemma_certified_logs_agree(pre, own.term, own.index, basis.term, basis.index, x);
            }
        }
        assert(before.log.commit_index <= d);
        assert(member.log.slots =~= Seq::<SlotView>::empty());
        assert(mirrors(member.log, out));
        assert(taken_in(whole, before.log.commit_index, out, of, index as int, d));
        lemma_log_replaced(
            pre,
            post,
            follower,
            term,
            offer.leader,
            member,
            out,
            index as int,
            d,
            true,
        );
    }
}

} // verus!
