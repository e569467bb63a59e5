//! The role of a node and its transitions: terms, votes and leadership.
//!
//! A node is a follower, a candidate or a leader. One function, [`Node::step`],
//! consumes an event and yields the next state together with the ordered
//! actions the caller must perform. Whatever must be durable before a message
//! leaves the node comes first in that order.

use crate::quorum::{majority, members, QuorumConfig, Tally};
use vstd::prelude::*;

verus! {

/// The role a node plays in its current term.
#[derive(Clone, Copy, Debug, PartialEq, Eq, Structural)]
pub enum Role {
    /// Follows the leader of the term, if one is known.
    Follower,
    /// Asks for votes to lead the term.
    Candidate,
    /// Sequences commands for the term.
    Leader,
}

/// The end of a node's log: the index and the term of its last entry.
#[derive(Clone, Copy, Debug, PartialEq, Eq, Structural)]
pub struct LogPosition {
    pub last_index: u64,
    pub last_term: u64,
}

/// What happened.
#[derive(Clone, Copy, Debug, PartialEq, Eq, Structural)]
pub enum Event {
    /// Nothing was heard from a leader within the election timeout.
    ElectionTimeout,
    /// A candidate asks for this node's vote.
    VoteRequest { term: u64, candidate: u64, last_log_index: u64, last_log_term: u64 },
    /// A node answers this node's request for its vote.
    VoteReply { term: u64, voter: u64, granted: bool },
    /// A leader's replication message or heartbeat arrived.
    LeaderContact { term: u64, leader: u64 },
    /// Any other message arrived that carries its sender's term.
    PeerTerm { term: u64 },
    /// A durable write failed.
    StorageFault,
    /// The storage fault was cleared.
    StorageRecovered,
}

/// What the caller must do, in the order given.
#[derive(Clone, Copy, Debug, PartialEq, Eq, Structural)]
pub enum Action {
    /// Make the term and the vote durable before doing anything that follows.
    Persist { term: u64, voted_for: Option<u64> },
    /// Ask every other node for its vote.
    RequestVotes { term: u64, last_log_index: u64, last_log_term: u64 },
    /// Answer a candidate.
    ReplyVote { to: u64, term: u64, granted: bool },
    /// Tell every other node that this node leads the term.
    AnnounceLeadership { term: u64 },
    /// Tell a stale leader the current term.
    RejectLeader { to: u64, term: u64 },
}

/// The mathematical content of a [`Node`].
pub struct NodeView {
    pub id: u64,
    pub replicas: u64,
    pub role: Role,
    pub term: u64,
    pub voted_for: Option<u64>,
    pub leader: Option<u64>,
    pub votes: Set<u64>,
    pub faulted: bool,
}

impl NodeView {
    /// The invariant of a node: a leader holds a majority of votes, a
    /// candidate has voted for itself, a follower holds no votes, and a node
    /// with faulty storage is a follower.
    pub open spec fn inv(self) -> bool {
        &&& self.id < self.replicas
        &&& self.votes.finite()
        &&& self.votes.subset_of(members(self.replicas))
        &&& self.role == Role::Leader ==> {
            &&& self.votes.len() >= majority(self.replicas as int)
            &&& self.voted_for == Some(self.id)
            &&& self.leader == Some(self.id)
        }
        &&& self.role == Role::Candidate ==> {
            &&& self.voted_for == Some(self.id)
            &&& self.votes.contains(self.id)
            &&& self.leader is None
        }
        &&& self.role == Role::Follower ==> self.votes == Set::<u64>::empty()
        &&& self.faulted ==> self.role == Role::Follower
    }

    /// The node as a follower of `term`, having seen that term for the
    /// first time: no vote cast, no leader known.
    pub open spec fn entered(self, term: u64) -> NodeView {
        NodeView {
            role: Role::Follower,
            term,
            voted_for: None,
            leader: None,
            votes: Set::empty(),
            ..self
        }
    }

    /// The node after it has taken note of a peer's term.
    pub open spec fn observed(self, term: u64) -> NodeView {
        if term > self.term {
            self.entered(term)
        } else {
            self
        }
    }
}

/// Whether a log ending at (`last_term`, `last_index`) is at least as up to
/// date as a log ending at `own`: a later last term wins, then a longer log.
pub open spec fn up_to_date(last_term: u64, last_index: u64, own: LogPosition) -> bool {
    last_term > own.last_term || (last_term == own.last_term && last_index >= own.last_index)
}

/// Whether candidate `a` outranks candidate `b` in the same term: the longer
/// log wins, then the higher identifier.
pub open spec fn outranks(a_log: u64, a_id: u64, b_log: u64, b_id: u64) -> bool {
    a_log > b_log || (a_log == b_log && a_id > b_id)
}

/// Whether the node, already at the request's term, grants its vote to
/// another node: the candidate's log is at least as up to date as the
/// node's own, and the node has not voted in the term, or voted for this
/// candidate, or is itself a candidate that this candidate outranks.
pub open spec fn grants(
    node: NodeView,
    candidate: u64,
    last_log_index: u64,
    last_log_term: u64,
    own: LogPosition,
) -> bool {
    let free = node.voted_for is None || node.voted_for == Some(candidate);
    let yields = node.role == Role::Candidate && outranks(
        last_log_index,
        candidate,
        own.last_index,
        node.id,
    );
    candidate != node.id && up_to_date(last_log_term, last_log_index, own) && (free || yields)
}

/// The state after `event`, for a node whose log ends at `own`.
pub open spec fn next_state(pre: NodeView, event: Event, own: LogPosition) -> NodeView {
    match event {
        Event::StorageFault => NodeView {
            role: Role::Follower,
            leader: if pre.leader == Some(pre.id) {
                None
            } else {
                pre.leader
            },
            votes: Set::empty(),
            faulted: true,
            ..pre
        },
        Event::StorageRecovered => NodeView { faulted: false, ..pre },
        _ => if pre.faulted {
            pre
        } else {
            match event {
                Event::ElectionTimeout => {
                    if pre.role == Role::Leader || pre.term == u64::MAX {
                        pre
                    } else {
                        let alone = 1 >= majority(pre.replicas as int);
                        NodeView {
                            role: if alone {
                                Role::Leader
                            } else {
                                Role::Candidate
                            },
                            term: (pre.term + 1) as u64,
                            voted_for: Some(pre.id),
                            leader: if alone {
                                Some(pre.id)
                            } else {
                                None
                            },
                            votes: Set::<u64>::empty().insert(pre.id),
                            ..pre
                        }
                    }
                },
                Event::VoteRequest { term, candidate, last_log_index, last_log_term } => {
                    if term < pre.term {
                        pre
                    } else {
                        let at_term = pre.observed(term);
                        if grants(at_term, candidate, last_log_index, last_log_term, own) {
                            NodeView {
                                role: Role::Follower,
                                voted_for: Some(candidate),
                                leader: if at_term.role == Role::Follower {
                                    at_term.leader
                                } else {
                                    None
                                },
                                votes: Set::empty(),
                                ..at_term
                            }
                        } else {
                            at_term
                        }
                    }
                },
                Event::VoteReply { term, voter, granted } => {
                    if term > pre.term {
                        pre.entered(term)
                    } else if term == pre.term && pre.role == Role::Candidate && granted && voter
                        < pre.replicas {
                        let votes = pre.votes.insert(voter);
                        if votes.len() >= majority(pre.replicas as int) {
                            NodeView { role: Role::Leader, leader: Some(pre.id), votes, ..pre }
                        } else {
                            NodeView { votes, ..pre }
                        }
                    } else {
                        pre
                    }
                },
                Event::LeaderContact { term, leader } => {
                    if term < pre.term {
                        pre
                    } else if term > pre.term {
                        NodeView { leader: Some(leader), ..pre.entered(term) }
                    } else if pre.role == Role::Leader {
                        pre
                    } else {
                        NodeView {
                            role: Role::Follower,
                            leader: Some(leader),
                            votes: Set::empty(),
                            ..pre
                        }
                    }
                },
                Event::PeerTerm { term } => pre.observed(term),
                _ => pre,
            }
        },
    }
}

/// The actions that `event` asks of the caller, in order.
pub open spec fn next_actions(pre: NodeView, event: Event, own: LogPosition) -> Seq<Action> {
    if pre.faulted {
        Seq::empty()
    } else {
        let post = next_state(pre, event, own);
        match event {
            Event::ElectionTimeout => {
                if pre.role == Role::Leader || pre.term == u64::MAX {
                    Seq::empty()
                } else if post.role == Role::Leader {
                    seq![
                        Action::Persist { term: post.term, voted_for: post.voted_for },
                        Action::AnnounceLeadership { term: post.term },
                    ]
                } else {
                    seq![
                        Action::Persist { term: post.term, voted_for: post.voted_for },
                        Action::RequestVotes {
                            term: post.term,
                            last_log_index: own.last_index,
                            last_log_term: own.last_term,
                        },
                    ]
                }
            },
            Event::VoteRequest { term, candidate, last_log_index, last_log_term } => {
                if term < pre.term {
                    seq![Action::ReplyVote { to: candidate, term: pre.term, granted: false }]
                } else {
                    let granted = grants(
                        pre.observed(term),
                        candidate,
                        last_log_index,
                        last_log_term,
                        own,
                    );
                    if granted || term > pre.term {
                        seq![
                            Action::Persist { term: post.term, voted_for: post.voted_for },
                            Action::ReplyVote { to: candidate, term: post.term, granted },
                        ]
                    } else {
                        seq![Action::ReplyVote { to: candidate, term: post.term, granted }]
                    }
                }
            },
            Event::VoteReply { term, voter, granted } => {
                if term > pre.term {
                    seq![Action::Persist { term: post.term, voted_for: post.voted_for }]
                } else if pre.role == Role::Candidate && post.role == Role::Leader {
                    seq![Action::AnnounceLeadership { term: post.term }]
                } else {
                    Seq::empty()
                }
            },
            Event::LeaderContact { term, leader } => {
                if term < pre.term {
                    seq![Action::RejectLeader { to: leader, term: pre.term }]
                } else if term > pre.term {
                    seq![Action::Persist { term: post.term, voted_for: post.voted_for }]
                } else {
                    Seq::empty()
                }
            },
            Event::PeerTerm { term } => {
                if term > pre.term {
                    seq![Action::Persist { term: post.term, voted_for: post.voted_for }]
                } else {
                    Seq::empty()
                }
            },
            _ => Seq::empty(),
        }
    }
}

/// Whether a leader's message with `term` is one the node follows: the node's
/// storage works, the term is not stale, and the node does not itself lead
/// that term.
pub open spec fn follows(pre: NodeView, term: u64) -> bool {
    !pre.faulted && term >= pre.term && !(term == pre.term && pre.role == Role::Leader)
}

/// The role state of one node.
#[derive(Debug)]
pub struct Node {
    id: u64,
    config: QuorumConfig,
    role: Role,
    term: u64,
    voted_for: Option<u64>,
    leader: Option<u64>,
    votes: Tally,
    faulted: bool,
}

impl View for Node {
    type V = NodeView;

    closed spec fn view(&self) -> NodeView {
        NodeView {
            id: self.id,
            replicas: self.config.replicas_spec(),
            role: self.role,
            term: self.term,
            voted_for: self.voted_for,
            leader: self.leader,
            votes: self.votes@,
            faulted: self.faulted,
        }
    }
}

impl Node {
    /// The quorum configuration the node was started with.
    pub closed spec fn config_spec(&self) -> QuorumConfig {
        self.config
    }

    /// The node's invariant; see [`NodeView::inv`].
    pub closed spec fn wf(&self) -> bool {
        &&& self.config.wf()
        &&& self.votes.wf()
        &&& self.votes.replicas_spec() == self.config.replicas_spec()
        &&& self@.inv()
    }

    /// What the invariant says of the public state.
    pub proof fn lemma_wf(&self)
        requires
            self.wf(),
        ensures
            self@.inv(),
            self@.replicas == self.config_spec().replicas_spec(),
            self.config_spec().wf(),
    {
    }

    /// A follower of term 0 that has not voted; `None` when `id` is no
    /// member of the cluster.
    pub fn new(id: u64, config: QuorumConfig) -> (node: Option<Self>)
        requires
            config.wf(),
        ensures
            node is Some <==> id < config.replicas_spec(),
            node matches Some(n) ==> {
                &&& n.wf()
                &&& n.config_spec() == config
                &&& n@ == (NodeView {
                    id,
                    replicas: config.replicas_spec(),
                    role: Role::Follower,
                    term: 0,
                    voted_for: None,
                    leader: None,
                    votes: Set::empty(),
                    faulted: false,
                })
            },
    {
        if id >= config.replicas() {
            return None;
        }
        Some(
            Node {
                id,
                config,
                role: Role::Follower,
                term: 0,
                voted_for: None,
                leader: None,
                votes: Tally::new(config.replicas()),
                faulted: false,
            },
        )
    }

    /// A follower that resumes from a durable term and vote after a restart;
    /// `None` when `id` is no member of the cluster.
    pub fn recover(id: u64, config: QuorumConfig, term: u64, voted_for: Option<u64>) -> (node:
        Option<Self>)
        requires
            config.wf(),
        ensures
            node is Some <==> id < config.replicas_spec(),
            node matches Some(n) ==> {
                &&& n.wf()
                &&& n.config_spec() == config
                &&& n@ == (NodeView {
                    id,
                    replicas: config.replicas_spec(),
                    role: Role::Follower,
                    term,
                    voted_for,
                    leader: None,
                    votes: Set::empty(),
                    faulted: false,
                })
            },
    {
        if id >= config.replicas() {
            return None;
        }
        Some(
            Node {
                id,
                config,
                role: Role::Follower,
                term,
                voted_for,
                leader: None,
                votes: Tally::new(config.replicas()),
                faulted: false,
            },
        )
    }

    /// The node's identifier.
    pub fn id(&self) -> (id: u64)
        ensures
            id == self@.id,
    {
        self.id
    }

    /// The node's role.
    pub fn role(&self) -> (role: Role)
        ensures
            role == self@.role,
    {
        self.role
    }

    /// The node's current term.
    pub fn term(&self) -> (term: u64)
        ensures
            term == self@.term,
    {
        self.term
    }

    /// The candidate the node voted for in its current term.
    pub fn voted_for(&self) -> (voted_for: Option<u64>)
        ensures
            voted_for == self@.voted_for,
    {
        self.voted_for
    }

    /// The leader of the current term, as far as the node knows.
    pub fn leader(&self) -> (leader: Option<u64>)
        ensures
            leader == self@.leader,
    {
        self.leader
    }

    /// Whether the node's storage is faulty.
    pub fn is_faulted(&self) -> (faulted: bool)
        ensures
            faulted == self@.faulted,
    {
        self.faulted
    }

    /// The quorum configuration.
    pub fn config(&self) -> (config: QuorumConfig)
        ensures
            config == self.config_spec(),
    {
        self.config
    }

    /// Becomes a follower of `term`, with no vote cast and no leader known.
    fn enter(&mut self, term: u64)
        requires
            old(self).wf(),
            !old(self)@.faulted,
        ensures
            final(self).wf(),
            final(self).config_spec() == old(self).config_spec(),
            final(self)@ == old(self)@.entered(term),
    {
        self.role = Role::Follower;
        self.term = term;
        self.voted_for = None;
        self.leader = None;
        self.votes = Tally::new(self.config.replicas());
    }

    /// Consumes `event` and returns the actions to perform, in order.
    ///
    /// `own` is the end of the node's log at the time of the event.
    pub fn step(&mut self, event: Event, own: LogPosition) -> (actions: Vec<Action>)
        requires
            old(self).wf(),
        ensures
            final(self).wf(),
            final(self).config_spec() == old(self).config_spec(),
            final(self)@ == next_state(old(self)@, event, own),
            actions@ == next_actions(old(self)@, event, own),
    {
        let ghost pre = self@;
        let mut actions: Vec<Action> = Vec::new();
        match event {
            Event::StorageFault => {
                self.role = Role::Follower;
                if self.leader == Some(self.id) {
                    self.leader = None;
                }
                self.votes = Tally::new(self.config.replicas());
                self.faulted = true;
                assert(actions@ =~= next_actions(pre, event, own));
                return actions;
            },
            Event::StorageRecovered => {
                self.faulted = false;
                assert(actions@ =~= next_actions(pre, event, own));
                return actions;
            },
            _ => {},
        }
        if self.faulted {
            assert(actions@ =~= next_actions(pre, event, own));
            return actions;
        }
        match event {
            Event::ElectionTimeout => {
                if self.role == Role::Leader || self.term == u64::MAX {
                    assert(actions@ =~= next_actions(pre, event, own));
                    return actions;
                }
                let term = self.term + 1;
                self.term = term;
                self.voted_for = Some(self.id);
                self.votes = Tally::new(self.config.replicas());
                self.votes.record(self.id);
                actions.push(Action::Persist { term, voted_for: Some(self.id) });
                if self.config.is_majority(1) {
                    self.role = Role::Leader;
                    self.leader = Some(self.id);
                    actions.push(Action::AnnounceLeadership { term });
                } else {
                    self.role = Role::Candidate;
                    self.leader = None;
                    actions.push(
                        Action::RequestVotes {
                            term,
                            last_log_index: own.last_index,
                            last_log_term: own.last_term,
                        },
                    );
                }
                proof {
                    let single = Set::<u64>::empty().insert(pre.id);
                    assert(single.len() == 1);
                    assert(single.subset_of(members(pre.replicas)));
                    assert(actions@ =~= next_actions(pre, event, own));
                }
            },
            Event::VoteRequest { term, candidate, last_log_index, last_log_term } => {
                if term < self.term {
                    actions.push(
                        Action::ReplyVote { to: candidate, term: self.term, granted: false },
                    );
                    assert(actions@ =~= next_actions(pre, event, own));
                    return actions;
                }
                let newer = term > self.term;
                if newer {
                    self.enter(term);
                }
                let free = match self.voted_for {
                    None => true,
                    Some(v) => v == candidate,
                };
                let yields = self.role == Role::Candidate && (last_log_index > own.last_index || (
                last_log_index == own.last_index && candidate > self.id));
                let current = last_log_term > own.last_term || (last_log_term == own.last_term
                    && last_log_index >= own.last_index);
                let granted = candidate != self.id && current && (free || yields);
                if granted {
                    if self.role != Role::Follower {
                        self.leader = None;
                    }
                    self.role = Role::Follower;
                    self.voted_for = Some(candidate);
                    self.votes = Tally::new(self.config.replicas());
                }
                if granted || newer {
                    actions.push(Action::Persist { term: self.term, voted_for: self.voted_for });
                }
                actions.push(Action::ReplyVote { to: candidate, term: self.term, granted });
                proof {
                    assert(self@ == next_state(pre, event, own));
                    assert(actions@ =~= next_actions(pre, event, own));
                }
            },
            Event::VoteReply { term, voter, granted } => {
                if term > self.term {
                    self.enter(term);
                    actions.push(Action::Persist { term: self.term, voted_for: self.voted_for });
                } else if term == self.term && self.role == Role::Candidate && granted && voter
                    < self.config.replicas() {
                    self.votes.record(voter);
                    assert(self.votes@ =~= pre.votes.insert(voter));
                    let count = self.votes.count();
                    if self.config.is_majority(count) {
                        self.role = Role::Leader;
                        self.leader = Some(self.id);
                        actions.push(Action::AnnounceLeadership { term: self.term });
                    }
                }
                assert(actions@ =~= next_actions(pre, event, own));
            },
            Event::LeaderContact { term, leader } => {
                if term < self.term {
                    actions.push(Action::RejectLeader { to: leader, term: self.term });
                } else if term > self.term {
                    self.enter(term);
                    self.leader = Some(leader);
                    actions.push(Action::Persist { term: self.term, voted_for: self.voted_for });
                } else if self.role != Role::Leader {
                    self.role = Role::Follower;
                    self.leader = Some(leader);
                    self.votes = Tally::new(self.config.replicas());
                }
                assert(actions@ =~= next_actions(pre, event, own));
            },
            Event::PeerTerm { term } => {
                if term > self.term {
                    self.enter(term);
                    actions.push(Action::Persist { term: self.term, voted_for: self.voted_for });
                }
                assert(actions@ =~= next_actions(pre, event, own));
            },
            _ => {},
        }
        actions
    }
}

/// Every transition preserves the node's invariant.
pub proof fn lemma_step_preserves_invariant(pre: NodeView, event: Event, own: LogPosition)
    requires
        pre.inv(),
    ensures
        next_state(pre, event, own).inv(),
{
    let post = next_state(pre, event, own);
    match event {
        Event::ElectionTimeout => {
            let single = Set::<u64>::empty().insert(pre.id);
            assert(single.len() == 1);
            assert(single.subset_of(members(pre.replicas)));
        },
        Event::VoteReply { term, voter, granted } => {
            if voter < pre.replicas {
                assert(pre.votes.insert(voter).subset_of(members(pre.replicas)));
            }
        },
        _ => {},
    }
}

/// The term of a node never decreases, and nothing but a node's identity
/// and cluster size stays fixed for ever.
pub proof fn lemma_term_never_decreases(pre: NodeView, event: Event, own: LogPosition)
    ensures
        next_state(pre, event, own).term >= pre.term,
        next_state(pre, event, own).id == pre.id,
        next_state(pre, event, own).replicas == pre.replicas,
{
}

/// A node becomes leader only as a candidate, or from an election timeout in
/// a cluster where it alone is a majority, and only with the votes of a
/// majority.
pub proof fn lemma_leader_holds_majority(pre: NodeView, event: Event, own: LogPosition)
    requires
        pre.inv(),
        pre.role != Role::Leader,
        next_state(pre, event, own).role == Role::Leader,
    ensures
        next_state(pre, event, own).votes.len() >= majority(pre.replicas as int),
        next_state(pre, event, own).voted_for == Some(pre.id),
        event is VoteReply || event is ElectionTimeout,
        event is VoteReply ==> pre.role == Role::Candidate && next_state(pre, event, own).term
            == pre.term,
        event is ElectionTimeout ==> 1 >= majority(pre.replicas as int),
{
    lemma_step_preserves_invariant(pre, event, own);
}

/// A leader stops leading only when it observes a higher term or its storage
/// fails.
pub proof fn lemma_leader_steps_down(pre: NodeView, event: Event, own: LogPosition)
    requires
        pre.inv(),
        pre.role == Role::Leader,
        next_state(pre, event, own).role != Role::Leader,
    ensures
        next_state(pre, event, own).role == Role::Follower,
        next_state(pre, event, own).term > pre.term || event is StorageFault,
{
}

/// A candidate that observes a higher term becomes a follower of that term.
pub proof fn lemma_higher_term_makes_follower(pre: NodeView, term: u64, own: LogPosition)
    requires
        !pre.faulted,
        term > pre.term,
    ensures
        next_state(pre, Event::PeerTerm { term }, own) == pre.entered(term),
        forall|leader: u64|
            #![trigger next_state(pre, Event::LeaderContact { term, leader }, own)]
            next_state(pre, Event::LeaderContact { term, leader }, own).role == Role::Follower
                && next_state(pre, Event::LeaderContact { term, leader }, own).term == term,
        forall|voter: u64, granted: bool|
            #![trigger next_state(pre, Event::VoteReply { term, voter, granted }, own)]
            next_state(pre, Event::VoteReply { term, voter, granted }, own) == pre.entered(term),
{
}

/// Within a term a vote, once cast, changes in one case only: a candidate
/// that voted for itself yields to a candidate that outranks it and becomes
/// its follower. A follower's vote never changes within a term.
pub proof fn lemma_vote_is_stable(pre: NodeView, event: Event, own: LogPosition)
    requires
        pre.inv(),
        pre.voted_for is Some,
        next_state(pre, event, own).term == pre.term,
        next_state(pre, event, own).voted_for != pre.voted_for,
    ensures
        pre.role == Role::Candidate,
        pre.voted_for == Some(pre.id),
        next_state(pre, event, own).role == Role::Follower,
        event matches Event::VoteRequest { candidate, last_log_index, last_log_term, .. }
            && next_state(pre, event, own).voted_for == Some(candidate) && outranks(
            last_log_index,
            candidate,
            own.last_index,
            pre.id,
        ) && up_to_date(last_log_term, last_log_index, own),
{
}

/// A vote is granted only to another node whose log is at least as up to
/// date as the voter's, and the voter then holds that vote in the reply's
/// term.
pub proof fn lemma_vote_needs_current_log(
    pre: NodeView,
    term: u64,
    candidate: u64,
    last_log_index: u64,
    last_log_term: u64,
    own: LogPosition,
    k: int,
)
    requires
        pre.inv(),
        0 <= k < next_actions(
            pre,
            Event::VoteRequest { term, candidate, last_log_index, last_log_term },
            own,
        ).len(),
        next_actions(
            pre,
            Event::VoteRequest { term, candidate, last_log_index, last_log_term },
            own,
        )[k] matches Action::ReplyVote { granted, .. } && granted,
    ensures
        candidate != pre.id,
        up_to_date(last_log_term, last_log_index, own),
        next_state(
            pre,
            Event::VoteRequest { term, candidate, last_log_index, last_log_term },
            own,
        ).voted_for == Some(candidate),
        next_state(
            pre,
            Event::VoteRequest { term, candidate, last_log_index, last_log_term },
            own,
        ).term == term,
        next_state(
            pre,
            Event::VoteRequest { term, candidate, last_log_index, last_log_term },
            own,
        ).role == Role::Follower,
{
}

/// Whenever a step changes the term or the vote, the first action makes the
/// new term and vote durable; and a granted vote is never sent without that
/// action before it.
pub proof fn lemma_durable_before_reply(pre: NodeView, event: Event, own: LogPosition)
    requires
        !pre.faulted,
    ensures
        ({
            let post = next_state(pre, event, own);
            let actions = next_actions(pre, event, own);
            &&& (post.term != pre.term || post.voted_for != pre.voted_for) ==> actions.len() > 0
                && actions[0] == (Action::Persist { term: post.term, voted_for: post.voted_for })
            &&& forall|k: int|
                0 <= k < actions.len() && (#[trigger] actions[k] matches Action::ReplyVote {
                    granted,
                    ..
                } && granted) ==> k > 0 && actions[0] is Persist
        }),
{
    let post = next_state(pre, event, own);
    let actions = next_actions(pre, event, own);
    match event {
        Event::VoteRequest { term, candidate, last_log_index, last_log_term } => {
            if term >= pre.term {
                let granted = grants(
                    pre.observed(term),
                    candidate,
                    last_log_index,
                    last_log_term,
                    own,
                );
                if !(granted || term > pre.term) {
                    assert(actions.len() == 1);
                }
            }
        },
        _ => {},
    }
}

} // verus!
