//! The state of the cluster and the steps it can take.

use crate::command::CommandView;
use crate::log::{LogView, SlotView};
use crate::machine::StateView;
use crate::protocol::{grants, Event, LogPosition, NodeView, Role};
use crate::replica::{
    counts, gains_leadership, AppendReply, AppendRequestView, Replication, SnapshotOffer,
};
use vstd::prelude::*;

verus! {

/// A vote as it was granted: for whom, and with what log the voter granted.
pub struct Grant {
    pub candidate: u64,
    pub log: Seq<SlotView>,
}

/// An election as it was won: by whom, and with whose votes.
pub struct Election {
    pub leader: u64,
    pub electors: Set<u64>,
}

/// What stands behind a commit watermark: the term of the leader that
/// committed, and the index it committed through.
pub struct Basis {
    pub term: u64,
    pub index: u64,
}

/// What a replica's state machine holds: the state, and the index of the
/// last entry applied to it.
pub struct Held {
    pub applied: u64,
    pub state: StateView,
}

/// A snapshot as it was taken: the index it covers, the state it holds, the
/// log it was taken of, and what stood behind the commit watermark of the
/// replica that took it.
pub struct Taken {
    pub index: u64,
    pub state: StateView,
    pub log: Seq<SlotView>,
    pub basis: Basis,
}

/// The cluster: the replicas, and the record of what has happened that the
/// messages in flight refer to.
pub struct Cluster {
    /// The replicas, by identifier.
    pub members: Seq<Replication>,
    /// For every replica: its log from the first entry on, including what
    /// it has compacted away.
    pub logs: Seq<Seq<SlotView>>,
    /// For every candidacy, by term and candidate: the candidate's log when
    /// it stood, which its requests for votes describe.
    pub candidacies: Map<(u64, u64), Seq<SlotView>>,
    /// For every vote granted to another node, by term and voter.
    pub grants: Map<(u64, u64), Grant>,
    /// For every election won, by term.
    pub elections: Map<u64, Election>,
    /// For every term with a leader: the leader's log as it last stood in
    /// the term, of which its replication messages carry parts.
    pub term_logs: Map<u64, Seq<SlotView>>,
    /// For every term with a leader: the commit watermark the leader last
    /// held in the term, which its replication messages do not exceed.
    pub announced: Map<u64, u64>,
    /// By replica and term: the highest index through which the replica
    /// reported agreement with the leader of the term.
    pub acked: Map<(u64, u64), u64>,
    /// For every index a leader committed through, by term: the replicas
    /// whose reports the leader counted.
    pub certificates: Map<(u64, u64), Set<u64>>,
    /// For every replica with a commit watermark above 0: what stands
    /// behind the watermark.
    pub commit_basis: Seq<Basis>,
    /// For every term with a leader whose watermark is above 0: what stands
    /// behind the watermark.
    pub announce_basis: Map<u64, Basis>,
    /// For every replica: what its state machine holds.
    pub machines: Seq<Held>,
    /// The snapshots that were taken.
    pub snapshots: Set<Taken>,
}

/// One step of the cluster.
pub enum Step {
    /// A replica's election timeout fires.
    Timeout { node: u64 },
    /// A voter receives the request for votes of a candidacy.
    Vote { voter: u64, term: u64, candidate: u64 },
    /// A candidate receives a vote that was granted to it.
    Count { candidate: u64, term: u64, voter: u64 },
    /// A replica receives any other message that carries a term, such as a
    /// refusal.
    Hear { node: u64, term: u64 },
    /// A replica's storage fails.
    Fault { node: u64 },
    /// A replica's storage fault is cleared.
    Recover { node: u64 },
    /// A replica crashes and starts again from its durable state: its term
    /// and vote, the snapshot it holds, if any, the log after that snapshot
    /// through `kept`, the last entry it had made durable, and the commit
    /// watermark `commit` it had made durable.
    Restart { node: u64, restored: Option<Taken>, kept: u64, commit: u64 },
    /// A replica applies the committed entries it has not applied yet.
    Apply { node: u64 },
    /// A replica is asked to append a command.
    Propose { node: u64, command: CommandView },
    /// A replica receives a replication message and takes in `taken` of
    /// its entries.
    Append { follower: u64, request: AppendRequestView, taken: int },
    /// A replica takes a snapshot of its state machine.
    Snapshot { node: u64 },
    /// A replica is asked to compact its log through `up_to`.
    Compact { node: u64, up_to: u64 },
    /// A replica receives the offer of a snapshot.
    Offer { follower: u64, offer: SnapshotOffer, snapshot: Taken },
    /// A replica learns that its own log is durable, and leaves its commit
    /// watermark at `commit`.
    Persisted { node: u64, through: u64, commit: u64 },
    /// A replica receives a report of agreement through `index` that replica
    /// `from` sent in `term`, and leaves its commit watermark at `commit`.
    Acked { leader: u64, from: u64, term: u64, index: u64, commit: u64 },
}

/// The commands of a log, in index order.
pub open spec fn commands(log: Seq<SlotView>) -> Seq<CommandView> {
    log.map_values(|s: SlotView| s.command)
}

/// The end of a log that starts at index 1.
pub open spec fn end_of(log: Seq<SlotView>) -> LogPosition {
    LogPosition {
        last_index: log.len() as u64,
        last_term: if log.len() == 0 {
            0
        } else {
            log.last().term
        },
    }
}

/// A replica as it starts: a follower of term 0 with an empty log.
pub open spec fn fresh_member(id: u64, replicas: u64) -> Replication {
    Replication {
        node: NodeView {
            id,
            replicas,
            role: Role::Follower,
            term: 0,
            voted_for: None,
            leader: None,
            votes: Set::empty(),
            faulted: false,
        },
        log: LogView {
            base_index: 0,
            base_term: 0,
            slots: Seq::empty(),
            commit_index: 0,
            snapshot_index: 0,
        },
        progress: Seq::new(replicas as nat, |r: int| 0u64),
    }
}

/// A replica after a crash and a restart from its durable state: a
/// follower in the term and with the vote it had, with the log it had after
/// its snapshot and through `kept`, committed through `commit`, that knows
/// no leader and tracks no progress.
pub open spec fn restarted(before: Replication, kept: u64, commit: u64) -> Replication {
    Replication {
        node: NodeView {
            role: Role::Follower,
            leader: None,
            votes: Set::empty(),
            faulted: false,
            ..before.node
        },
        log: LogView {
            commit_index: commit,
            ..before.log.compacted(before.log.snapshot_index as int).truncated(kept + 1)
        },
        progress: Seq::new(before.progress.len(), |r: int| 0u64),
    }
}

/// The cluster of `replicas` replicas before anything has happened.
pub open spec fn initial(replicas: u64) -> Cluster {
    Cluster {
        members: Seq::new(replicas as nat, |i: int| fresh_member(i as u64, replicas)),
        logs: Seq::new(replicas as nat, |i: int| Seq::empty()),
        candidacies: Map::empty(),
        grants: Map::empty(),
        elections: Map::empty(),
        term_logs: Map::empty(),
        announced: Map::empty(),
        acked: Map::empty(),
        certificates: Map::empty(),
        commit_basis: Seq::new(replicas as nat, |i: int| Basis { term: 0, index: 0 }),
        announce_basis: Map::empty(),
        machines: Seq::new(
            replicas as nat,
            |i: int| Held { applied: 0, state: crate::machine::initial_state() },
        ),
        snapshots: Set::empty(),
    }
}

impl Cluster {
    /// The number of replicas.
    pub open spec fn size(self) -> nat {
        self.members.len()
    }

    /// The log a leader started its term with.
    pub open spec fn start_log(self, term: u64) -> Seq<SlotView> {
        self.candidacies[(term, self.elections[term].leader)]
    }

    /// The cluster with replica `id` replaced by `member`.
    pub open spec fn with_member(self, id: u64, member: Replication) -> Cluster {
        Cluster { members: self.members.update(id as int, member), ..self }
    }

    /// The cluster with the whole log of replica `id` replaced by `log`.
    pub open spec fn with_log(self, id: u64, log: Seq<SlotView>) -> Cluster {
        Cluster { logs: self.logs.update(id as int, log), ..self }
    }

    /// The cluster after `leader` won the election of `term` as `member`,
    /// having been `before`.
    pub open spec fn with_election(
        self,
        leader: u64,
        before: Replication,
        member: Replication,
    ) -> Cluster {
        let term = member.node.term;
        Cluster {
            elections: self.elections.insert(
                term,
                Election { leader, electors: member.node.votes },
            ),
            term_logs: self.term_logs.insert(term, self.logs[leader as int]),
            announced: self.announced.insert(term, before.log.commit_index),
            announce_basis: self.announce_basis.insert(term, self.commit_basis[leader as int]),
            ..self
        }
    }

    /// Whether a leader sent, or may yet send, `request`: it carries a part
    /// of the log of the leader of its term, names the entry before that
    /// part, and announces no more than the leader committed.
    pub open spec fn sent(self, request: AppendRequestView) -> bool {
        let log = self.term_logs[request.term];
        &&& self.elections.contains_key(request.term)
        &&& request.leader == self.elections[request.term].leader
        &&& request.prev_index + request.entries.len() <= log.len()
        &&& request.prev_term == if request.prev_index == 0 {
            0
        } else {
            log[request.prev_index - 1].term
        }
        &&& forall|k: int|
            0 <= k < request.entries.len() ==> {
                &&& (#[trigger] request.entries[k]).index == request.prev_index + 1 + k
                &&& request.entries[k].term == log[request.prev_index + k].term
                &&& request.entries[k].command == log[request.prev_index + k].command
            }
        &&& request.leader_commit <= self.announced[request.term]
    }

    /// Whether a leader offered, or may yet offer, a snapshot as `offer`
    /// says: the snapshot covers no more than the leader of the offer's term
    /// committed, and the offer names the term of the last entry covered.
    pub open spec fn offered(self, offer: SnapshotOffer) -> bool {
        &&& self.elections.contains_key(offer.term)
        &&& offer.leader == self.elections[offer.term].leader
        &&& 1 <= offer.index <= self.announced[offer.term]
        &&& offer.last_term == self.term_logs[offer.term][offer.index - 1].term
    }

    /// The cluster after a leader of `term`, now `member`, left its commit
    /// watermark where `member` holds it, having counted the reports of
    /// `quorum` if it raised the watermark.
    pub open spec fn with_commit(self, id: u64, before: Replication, member: Replication) -> Cluster {
        let term = member.node.term;
        let commit = member.log.commit_index;
        if member.node.role == Role::Leader && commit > before.log.commit_index {
            Cluster {
                certificates: self.certificates.insert(
                    (term, commit),
                    Set::new(|r: u64| r < self.size() && member.progress[r as int] >= commit),
                ),
                commit_basis: self.commit_basis.update(id as int, Basis { term, index: commit }),
                announced: self.announced.insert(term, commit),
                announce_basis: self.announce_basis.insert(term, Basis { term, index: commit }),
                ..self
            }
        } else {
            self
        }
    }

    /// The record of reports after `id` reported agreement with the leader
    /// of `term` through `index`: the highest report stands.
    pub open spec fn with_report(self, id: u64, term: u64, index: u64) -> Cluster {
        if self.acked.contains_key((id, term)) && self.acked[(id, term)] >= index {
            self
        } else {
            Cluster { acked: self.acked.insert((id, term), index), ..self }
        }
    }
}

/// Whether `post` is the cluster after `pre` took `step`.
pub open spec fn next(pre: Cluster, step: Step, post: Cluster) -> bool {
    match step {
        Step::Timeout { node } => {
            &&& node < pre.size()
            &&& ({
                let before = pre.members[node as int];
                let member = before.after_event(Event::ElectionTimeout);
                let stood = if member.node.term != before.node.term {
                    Cluster {
                        candidacies: pre.candidacies.insert(
                            (member.node.term, node),
                            pre.logs[node as int],
                        ),
                        ..pre
                    }
                } else {
                    pre
                };
                post == if gains_leadership(before.node, member.node) {
                    stood.with_election(node, before, member).with_member(node, member)
                } else {
                    stood.with_member(node, member)
                }
            })
        },
        Step::Vote { voter, term, candidate } => {
            &&& voter < pre.size()
            &&& pre.candidacies.contains_key((term, candidate))
            &&& ({
                let before = pre.members[voter as int];
                let asked = end_of(pre.candidacies[(term, candidate)]);
                let member = before.after_event(
                    Event::VoteRequest {
                        term,
                        candidate,
                        last_log_index: asked.last_index,
                        last_log_term: asked.last_term,
                    },
                );
                let granted = !before.node.faulted && term >= before.node.term && grants(
                    before.node.observed(term),
                    candidate,
                    asked.last_index,
                    asked.last_term,
                    before.position(),
                );
                let recorded = if granted && !pre.grants.contains_key((term, voter)) {
                    Cluster {
                        grants: pre.grants.insert(
                            (term, voter),
                            Grant { candidate, log: pre.logs[voter as int] },
                        ),
                        ..pre
                    }
                } else {
                    pre
                };
                post == recorded.with_member(voter, member)
            })
        },
        Step::Count { candidate, term, voter } => {
            &&& candidate < pre.size()
            &&& pre.grants.contains_key((term, voter))
            &&& pre.grants[(term, voter)].candidate == candidate
            &&& ({
                let before = pre.members[candidate as int];
                let member = before.after_event(Event::VoteReply { term, voter, granted: true });
                post == if gains_leadership(before.node, member.node) {
                    pre.with_election(candidate, before, member).with_member(candidate, member)
                } else {
                    pre.with_member(candidate, member)
                }
            })
        },
        Step::Hear { node, term } => {
            &&& node < pre.size()
            &&& post == pre.with_member(
                node,
                pre.members[node as int].after_event(Event::PeerTerm { term }),
            )
        },
        Step::Fault { node } => {
            &&& node < pre.size()
            &&& post == pre.with_member(
                node,
                pre.members[node as int].after_event(Event::StorageFault),
            )
        },
        Step::Recover { node } => {
            &&& node < pre.size()
            &&& post == pre.with_member(
                node,
                pre.members[node as int].after_event(Event::StorageRecovered),
            )
        },
        Step::Restart { node, restored: taken, kept, commit } => {
            &&& node < pre.size()
            &&& pre.members[node as int].log.snapshot_index <= commit
                <= pre.members[node as int].log.commit_index
            &&& pre.members[node as int].log.commit_index <= kept
                <= pre.members[node as int].log.last_index()
            &&& forall|t: u64|
                #[trigger] pre.acked.contains_key((node, t)) ==> pre.acked[(node, t)] <= kept
            &&& match taken {
                Some(t) => pre.snapshots.contains(t) && t.index
                    == pre.members[node as int].log.snapshot_index,
                None => pre.members[node as int].log.snapshot_index == 0,
            }
            &&& post == (Cluster {
                machines: pre.machines.update(
                    node as int,
                    Held {
                        applied: pre.members[node as int].log.snapshot_index,
                        state: match taken {
                            Some(t) => t.state,
                            None => crate::machine::initial_state(),
                        },
                    },
                ),
                ..pre
            }).with_log(node, pre.logs[node as int].take(kept as int)).with_member(
                node,
                restarted(pre.members[node as int], kept, commit),
            )
        },
        Step::Apply { node } => {
            &&& node < pre.size()
            &&& ({
                let m = pre.members[node as int];
                let h = pre.machines[node as int];
                post == (Cluster {
                    machines: pre.machines.update(
                        node as int,
                        Held {
                            applied: m.log.commit_index,
                            state: crate::machine::replay_from(
                                h.state,
                                crate::replica::ready_commands(
                                    m.log,
                                    h.applied as int,
                                    m.log.commit_index as int,
                                ),
                            ),
                        },
                    ),
                    ..pre
                })
            })
        },
        Step::Propose { node, command } => {
            &&& node < pre.size()
            &&& ({
                let before = pre.members[node as int];
                let member = before.after_propose(command);
                let log = pre.logs[node as int].push(
                    SlotView { term: before.node.term, command },
                );
                post == if before.propose_answer() is Ok {
                    Cluster {
                        term_logs: pre.term_logs.insert(before.node.term, log),
                        ..pre
                    }.with_log(node, log).with_member(node, member)
                } else {
                    pre
                }
            })
        },
        Step::Append { follower, request, taken } => {
            &&& follower < pre.size()
            &&& pre.sent(request)
            &&& ({
                let before = pre.members[follower as int];
                let member = before.after_append(request, taken);
                let reply = before.append_reply(request, taken);
                let based = if member.log.commit_index > before.log.commit_index {
                    Cluster {
                        commit_basis: pre.commit_basis.update(
                            follower as int,
                            pre.announce_basis[request.term],
                        ),
                        ..pre
                    }
                } else {
                    pre
                };
                let log = if crate::protocol::follows(before.node, request.term)
                    && before.reaches(request) {
                    pre.logs[follower as int].take(before.log.base_index as int)
                        + member.log.slots
                } else {
                    pre.logs[follower as int]
                };
                &&& before.takes(request, taken)
                &&& post == if crate::protocol::follows(before.node, request.term)
                    && reply.success {
                    based.with_report(follower, request.term, reply.match_index).with_log(
                        follower,
                        log,
                    ).with_member(follower, member)
                } else {
                    based.with_log(follower, log).with_member(follower, member)
                }
            })
        },
        Step::Snapshot { node } => {
            &&& node < pre.size()
            &&& ({
                let h = pre.machines[node as int];
                post == (Cluster {
                    snapshots: if h.applied >= 1 {
                        pre.snapshots.insert(
                            Taken {
                                index: h.applied,
                                state: h.state,
                                log: pre.logs[node as int].take(h.applied as int),
                                basis: pre.commit_basis[node as int],
                            },
                        )
                    } else {
                        pre.snapshots
                    },
                    ..pre
                }).with_member(node, pre.members[node as int].after_note(h.applied))
            })
        },
        Step::Compact { node, up_to } => {
            &&& node < pre.size()
            &&& post == pre.with_member(node, pre.members[node as int].after_compact(up_to))
        },
        Step::Offer { follower, offer, snapshot: taken } => {
            &&& follower < pre.size()
            &&& pre.offered(offer)
            &&& pre.snapshots.contains(taken)
            &&& taken.index == offer.index
            &&& ({
                let before = pre.members[follower as int];
                let member = before.after_offer(offer);
                let reply = before.offer_reply(offer);
                let held = before.log.holds(offer.index as int) && before.log.slot_at(
                    offer.index as int,
                ).term == offer.last_term;
                let installed = if before.installs(offer) {
                    Cluster {
                        commit_basis: pre.commit_basis.update(
                            follower as int,
                            pre.announce_basis[offer.term],
                        ),
                        machines: pre.machines.update(
                            follower as int,
                            Held { applied: offer.index, state: taken.state },
                        ),
                        ..pre
                    }.with_log(
                        follower,
                        if held {
                            pre.logs[follower as int]
                        } else {
                            pre.term_logs[offer.term].take(offer.index as int)
                        },
                    )
                } else {
                    pre
                };
                post == if crate::protocol::follows(before.node, offer.term) && reply.success {
                    installed.with_report(follower, offer.term, reply.match_index).with_member(
                        follower,
                        member,
                    )
                } else {
                    installed.with_member(follower, member)
                }
            })
        },
        Step::Persisted { node, through, commit } => {
            &&& node < pre.size()
            &&& ({
                let before = pre.members[node as int];
                let member = before.after_persisted(through, commit);
                &&& member.log.commit_index == commit
                &&& before.node.role == Role::Leader ==> before.settles(node, through, commit)
                &&& post == if before.node.role == Role::Leader {
                    pre.with_report(
                        node,
                        before.node.term,
                        member.progress[node as int],
                    ).with_commit(node, before, member).with_member(node, member)
                } else {
                    pre
                }
            })
        },
        Step::Acked { leader, from, term, index, commit } => {
            &&& leader < pre.size()
            &&& pre.acked.contains_key((from, term))
            &&& index <= pre.acked[(from, term)]
            &&& ({
                let before = pre.members[leader as int];
                let reply = AppendReply { term, success: true, match_index: index };
                let member = before.after_reply(from, reply, commit);
                &&& member.log.commit_index == commit
                &&& counts(before.node, from, reply) ==> before.settles(from, index, commit)
                &&& post == pre.with_commit(leader, before, member).with_member(leader, member)
            })
        },
    }
}

/// Whether some step leads from `pre` to `post`.
pub open spec fn moves(pre: Cluster, post: Cluster) -> bool {
    exists|step: Step| next(pre, step, post)
}

/// Whether `trace` is a run of a cluster of `replicas` replicas: it starts
/// from the initial cluster, and every state follows from the one before by
/// some step.
pub open spec fn is_run(trace: Seq<Cluster>, replicas: u64) -> bool {
    &&& trace.len() > 0
    &&& replicas >= 1
    &&& trace[0] == initial(replicas)
    &&& forall|k: int| 0 < k < trace.len() ==> moves(trace[k - 1], #[trigger] trace[k])
}

} // verus!
