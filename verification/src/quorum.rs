//! Quorum sizes, vote tallies and the counting arguments that make the two
//! commit paths safe.
//!
//! A plain majority decides the slow path and elections. The fast path needs
//! a super-quorum: large enough that whoever later asks any majority still
//! finds the command recorded by more than half of those asked.

use vstd::prelude::*;
use vstd::set_lib::{lemma_len_subset, lemma_set_intersect_union_lens};

verus! {

/// The smallest number of replicas that is more than half of `replicas`.
pub open spec fn majority(replicas: int) -> int {
    replicas / 2 + 1
}

/// The number of replicas that may fail while a majority remains.
pub open spec fn fault_tolerance(replicas: int) -> int {
    (replicas - 1) / 2
}

/// The standard super-quorum: all replicas but half of the tolerated
/// failures. With `2f + 1` replicas this is `ceil(3f / 2) + 1`.
pub open spec fn super_quorum(replicas: int) -> int {
    replicas - fault_tolerance(replicas) / 2
}

/// How many of `responders` must hold a record of a command for a recovering
/// leader to commit it: more than half of those that answered.
pub open spec fn recovery_threshold(responders: int) -> int {
    responders / 2 + 1
}

/// Whether `fast_quorum` is a safe fast-path quorum among `replicas`: it is
/// at most all replicas, larger than a plain majority unless that would take
/// more than all replicas, and so large that the replicas outside it are
/// fewer than half of a majority.
pub open spec fn fast_quorum_valid(replicas: int, fast_quorum: int) -> bool {
    &&& replicas >= 1
    &&& majority(replicas) <= fast_quorum <= replicas
    &&& (fast_quorum > majority(replicas) || fast_quorum == replicas)
    &&& 2 * (replicas - fast_quorum) < majority(replicas)
}

/// The smallest number of replicas that is more than half of `replicas`.
pub fn majority_of(replicas: u64) -> (size: u64)
    ensures
        size == majority(replicas as int),
{
    replicas / 2 + 1
}

/// The standard super-quorum for `replicas` replicas.
pub fn super_quorum_of(replicas: u64) -> (size: u64)
    requires
        replicas >= 1,
    ensures
        size == super_quorum(replicas as int),
        fast_quorum_valid(replicas as int, size as int),
{
    replicas - ((replicas - 1) / 2) / 2
}

/// How many of `responders` must hold a record for recovery to commit it.
pub fn recovery_threshold_of(responders: u64) -> (size: u64)
    ensures
        size == recovery_threshold(responders as int),
{
    responders / 2 + 1
}

/// The size of the cluster and of its fast-path quorum.
#[derive(Clone, Copy, Debug, PartialEq, Eq, Structural)]
pub struct QuorumConfig {
    replicas: u64,
    fast_quorum: u64,
}

impl QuorumConfig {
    /// The number of replicas.
    pub closed spec fn replicas_spec(self) -> u64 {
        self.replicas
    }

    /// The fast-path quorum.
    pub closed spec fn fast_quorum_spec(self) -> u64 {
        self.fast_quorum
    }

    /// The invariant: the fast-path quorum is safe for the cluster size.
    pub open spec fn wf(self) -> bool {
        fast_quorum_valid(self.replicas_spec() as int, self.fast_quorum_spec() as int)
    }

    /// A configuration with a chosen fast-path quorum; `None` when the
    /// quorum is not safe for the cluster size.
    pub fn new(replicas: u64, fast_quorum: u64) -> (config: Option<Self>)
        ensures
            config is Some <==> fast_quorum_valid(replicas as int, fast_quorum as int),
            config matches Some(c) ==> c.replicas_spec() == replicas && c.fast_quorum_spec()
                == fast_quorum && c.wf(),
    {
        if replicas == 0 || fast_quorum > replicas {
            return None;
        }
        let plain = majority_of(replicas);
        if fast_quorum < plain {
            return None;
        }
        if fast_quorum == plain && fast_quorum != replicas {
            return None;
        }
        let outside = replicas - fast_quorum;
        if outside >= plain || 2 * outside >= plain {
            return None;
        }
        Some(QuorumConfig { replicas, fast_quorum })
    }

    /// The configuration with the standard super-quorum; `None` for an
    /// empty cluster.
    pub fn standard(replicas: u64) -> (config: Option<Self>)
        ensures
            config is Some <==> replicas >= 1,
            config matches Some(c) ==> c.replicas_spec() == replicas && c.fast_quorum_spec()
                == super_quorum(replicas as int) && c.wf(),
    {
        if replicas == 0 {
            None
        } else {
            Some(QuorumConfig { replicas, fast_quorum: super_quorum_of(replicas) })
        }
    }

    /// The number of replicas.
    pub fn replicas(&self) -> (replicas: u64)
        ensures
            replicas == self.replicas_spec(),
    {
        self.replicas
    }

    /// The size of a plain majority.
    pub fn majority(&self) -> (size: u64)
        ensures
            size == majority(self.replicas_spec() as int),
    {
        majority_of(self.replicas)
    }

    /// The size of the fast-path quorum.
    pub fn fast_quorum(&self) -> (size: u64)
        ensures
            size == self.fast_quorum_spec(),
    {
        self.fast_quorum
    }

    /// Whether `count` replicas are a plain majority.
    pub fn is_majority(&self, count: u64) -> (enough: bool)
        ensures
            enough == (count >= majority(self.replicas_spec() as int)),
    {
        count >= majority_of(self.replicas)
    }

    /// Whether `count` replicas are a fast-path quorum.
    pub fn is_fast_quorum(&self, count: u64) -> (enough: bool)
        ensures
            enough == (count >= self.fast_quorum_spec()),
    {
        count >= self.fast_quorum
    }

    /// Whether a fast-path quorum is out of reach once `refusals` replicas
    /// have refused.
    pub fn fast_quorum_lost(&self, refusals: u64) -> (lost: bool)
        requires
            self.wf(),
        ensures
            lost == (refusals > self.replicas_spec() - self.fast_quorum_spec()),
    {
        refusals > self.replicas - self.fast_quorum
    }
}

/// The replicas of a cluster of `replicas` nodes: the identifiers below
/// `replicas`.
pub open spec fn members(replicas: u64) -> Set<u64> {
    Set::new(|r: u64| r < replicas)
}

/// The replicas that have answered yes, each counted once.
#[derive(Debug)]
pub struct Tally {
    replicas: u64,
    voters: Vec<u64>,
}

impl View for Tally {
    type V = Set<u64>;

    closed spec fn view(&self) -> Set<u64> {
        self.voters@.to_set()
    }
}

impl Tally {
    /// The size of the cluster the tally counts in.
    pub closed spec fn replicas_spec(&self) -> u64 {
        self.replicas
    }

    /// The invariant: every counted replica is a member and is held once.
    pub closed spec fn wf(&self) -> bool {
        &&& self.voters@.no_duplicates()
        &&& forall|i: int| 0 <= i < self.voters.len() ==> #[trigger] self.voters@[i] < self.replicas
    }

    /// An empty tally for a cluster of `replicas` nodes.
    pub fn new(replicas: u64) -> (tally: Self)
        ensures
            tally.wf(),
            tally.replicas_spec() == replicas,
            tally@ == Set::<u64>::empty(),
    {
        let tally = Tally { replicas, voters: Vec::new() };
        assert(tally@ =~= Set::<u64>::empty());
        tally
    }

    /// Whether `replica` has been counted.
    pub fn contains(&self, replica: u64) -> (counted: bool)
        ensures
            counted == self@.contains(replica),
    {
        let mut i: usize = 0;
        while i < self.voters.len()
            invariant
                i <= self.voters.len(),
                forall|j: int| 0 <= j < i ==> self.voters@[j] != replica,
            decreases self.voters.len() - i,
        {
            if self.voters[i] == replica {
                assert(self.voters@.contains(replica));
                return true;
            }
            i += 1;
        }
        false
    }

    /// Counts `replica`, unless it is no member or was counted before.
    /// Returns whether the tally grew.
    pub fn record(&mut self, replica: u64) -> (grew: bool)
        requires
            old(self).wf(),
        ensures
            final(self).wf(),
            final(self).replicas_spec() == old(self).replicas_spec(),
            grew == (replica < old(self).replicas_spec() && !old(self)@.contains(replica)),
            final(self)@ == if grew {
                old(self)@.insert(replica)
            } else {
                old(self)@
            },
    {
        if replica >= self.replicas || self.contains(replica) {
            return false;
        }
        let ghost before = self.voters@;
        self.voters.push(replica);
        proof {
            assert(self.voters@ =~= before.push(replica));
            assert forall|i: int, j: int|
                0 <= i < self.voters@.len() && 0 <= j < self.voters@.len() && i != j implies self.voters@[i]
                != self.voters@[j] by {
                if i < before.len() {
                    assert(before.contains(before[i]));
                }
                if j < before.len() {
                    assert(before.contains(before[j]));
                }
            }
            assert forall|r: u64| self@.contains(r) <==> before.to_set().insert(r).contains(
                r,
            ) && (before.to_set().contains(r) || r == replica) by {
                if before.contains(r) {
                    let k = choose|k: int| 0 <= k < before.len() && before[k] == r;
                    assert(self.voters@[k] == r);
                }
                if r == replica {
                    assert(self.voters@[before.len() as int] == r);
                }
            }
            assert(self@ =~= before.to_set().insert(replica));
        }
        true
    }

    /// The number of replicas counted.
    pub fn count(&self) -> (count: u64)
        requires
            self.wf(),
        ensures
            count == self@.len(),
            self@.finite(),
            self@.subset_of(members(self.replicas_spec())),
            count <= self.replicas_spec(),
    {
        proof {
            self.voters@.unique_seq_to_set();
            vstd::seq_lib::seq_to_set_is_finite(self.voters@);
            lemma_members_size(self.replicas);
            assert forall|r: u64| self@.contains(r) implies members(self.replicas).contains(r) by {
                let k = choose|k: int| 0 <= k < self.voters@.len() && self.voters@[k] == r;
                assert(self.voters@[k] < self.replicas);
            }
            lemma_len_subset(self@, members(self.replicas));
        }
        self.voters.len() as u64
    }
}

/// A cluster of `replicas` nodes has exactly `replicas` members.
pub proof fn lemma_members_size(replicas: u64)
    ensures
        members(replicas).finite(),
        members(replicas).len() == replicas,
    decreases replicas,
{
    if replicas == 0 {
        assert(members(replicas) =~= Set::<u64>::empty());
    } else {
        let fewer = (replicas - 1) as u64;
        lemma_members_size(fewer);
        assert(members(replicas) =~= members(fewer).insert(fewer));
    }
}

/// Two groups of members overlap in at least as many members as their sizes
/// exceed the cluster together.
pub proof fn lemma_overlap_size(cluster: Set<u64>, a: Set<u64>, b: Set<u64>)
    requires
        cluster.finite(),
        a.subset_of(cluster),
        b.subset_of(cluster),
    ensures
        a.finite(),
        b.finite(),
        a.intersect(b).len() >= a.len() + b.len() - cluster.len(),
{
    lemma_len_subset(a, cluster);
    lemma_len_subset(b, cluster);
    lemma_set_intersect_union_lens(a, b);
    assert((a + b).subset_of(cluster));
    lemma_len_subset(a + b, cluster);
}

/// Any two majorities of a cluster share a member.
pub proof fn lemma_majorities_intersect(cluster: Set<u64>, a: Set<u64>, b: Set<u64>)
    requires
        cluster.finite(),
        a.subset_of(cluster),
        b.subset_of(cluster),
        a.len() >= majority(cluster.len() as int),
        b.len() >= majority(cluster.len() as int),
    ensures
        exists|r: u64| a.contains(r) && b.contains(r),
{
    lemma_overlap_size(cluster, a, b);
    let shared = a.intersect(b);
    assert(shared.len() >= 1);
    assert(shared.contains(shared.choose())) by {
        if shared =~= Set::<u64>::empty() {
            assert(shared.len() == 0);
        }
    }
    let r = shared.choose();
    assert(a.contains(r) && b.contains(r));
}

/// An entry that a majority has persisted is still held by a live replica
/// while any minority of the cluster is down, and every majority that can
/// form afterwards contains a replica that holds it.
pub proof fn lemma_committed_survives_minority_crash(
    cluster: Set<u64>,
    holders: Set<u64>,
    crashed: Set<u64>,
)
    requires
        cluster.finite(),
        holders.subset_of(cluster),
        crashed.subset_of(cluster),
        holders.len() >= majority(cluster.len() as int),
        2 * crashed.len() < cluster.len(),
    ensures
        exists|r: u64| holders.contains(r) && !crashed.contains(r),
        cluster.difference(crashed).len() >= majority(cluster.len() as int),
        forall|later: Set<u64>|
            later.subset_of(cluster) && later.len() >= majority(cluster.len() as int)
                ==> exists|r: u64| #[trigger] later.contains(r) && holders.contains(r),
{
    let live = cluster.difference(crashed);
    lemma_len_subset(holders, cluster);
    lemma_len_subset(crashed, cluster);
    vstd::set_lib::lemma_set_difference_len(cluster, crashed);
    assert(cluster.intersect(crashed) =~= crashed);
    assert(live.len() == cluster.len() - crashed.len());
    assert(live.subset_of(cluster));
    lemma_overlap_size(cluster, holders, live);
    let alive = holders.intersect(live);
    assert(alive.len() >= 1);
    assert(alive.contains(alive.choose())) by {
        if alive =~= Set::<u64>::empty() {
            assert(alive.len() == 0);
        }
    }
    let r = alive.choose();
    assert(holders.contains(r) && !crashed.contains(r));
    assert forall|later: Set<u64>|
        later.subset_of(cluster) && later.len() >= majority(cluster.len() as int) implies exists|
        r: u64,
    | #[trigger] later.contains(r) && holders.contains(r) by {
        lemma_majorities_intersect(cluster, later, holders);
    }
}

/// A command that a fast-path quorum accepted is recorded by more than half
/// of any majority that a recovering leader asks.
pub proof fn lemma_fast_commit_is_recoverable(
    cluster: Set<u64>,
    fast_quorum: int,
    accepted: Set<u64>,
    responders: Set<u64>,
)
    requires
        cluster.finite(),
        fast_quorum_valid(cluster.len() as int, fast_quorum),
        accepted.subset_of(cluster),
        responders.subset_of(cluster),
        accepted.len() >= fast_quorum,
        responders.len() >= majority(cluster.len() as int),
    ensures
        accepted.intersect(responders).len() >= recovery_threshold(responders.len() as int),
{
    lemma_overlap_size(cluster, accepted, responders);
}

/// Of two disjoint groups of responders at most one reaches the recovery
/// threshold. Replicas accept at most one of two conflicting commands, so at
/// most one of them is recovered.
pub proof fn lemma_recovery_picks_at_most_one(
    responders: Set<u64>,
    first: Set<u64>,
    second: Set<u64>,
)
    requires
        responders.finite(),
        first.subset_of(responders),
        second.subset_of(responders),
        first.disjoint(second),
    ensures
        !(first.len() >= recovery_threshold(responders.len() as int) && second.len()
            >= recovery_threshold(responders.len() as int)),
{
    lemma_overlap_size(responders, first, second);
    assert(first.intersect(second) =~= Set::<u64>::empty());
}

/// With `2f + 1` replicas the standard super-quorum is `ceil(3f / 2) + 1`,
/// which exceeds the plain majority `f + 1` as soon as `f >= 1`.
pub proof fn lemma_super_quorum_formula(f: int)
    requires
        f >= 0,
    ensures
        super_quorum(2 * f + 1) == (3 * f + 1) / 2 + 1,
        majority(2 * f + 1) == f + 1,
        f >= 1 ==> super_quorum(2 * f + 1) > majority(2 * f + 1),
{
}

} // verus!
