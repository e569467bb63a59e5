//! The cluster as a whole: a model of any number of replicas that exchange
//! the messages of the slow path over a network that may delay, reorder,
//! duplicate and drop them, and the proof that committed entries, and the
//! state machines that apply them, agree on all replicas.
//!
//! The model moves by the same transition relations that the contracts of
//! [`crate::replica::Replica`] state, so what is proved of the model holds
//! of replicas that run the verified handlers. The model covers elections,
//! proposals, replication, commitment, application, snapshots, compaction,
//! storage faults, and crashes with restarts from durable state, in which a
//! replica loses whatever it had not made durable. It assumes that a
//! replica reports agreement, and counts its own log towards a majority,
//! only for what it has made durable, as the order of effects that the
//! handlers return prescribes. Speculative execution does not change what
//! the model tracks and is left out of it.
//!
//! - [`model`]: the state of the cluster and its steps.
//! - [`invariants`] and [`machines`]: what holds of every cluster that a
//!   run reaches.
//! - [`preserve`], [`elections`], [`replication`], [`appends`] and
//!   [`snapshots`]: every step preserves it.
//! - [`completeness`] and [`safety`]: what follows from it.

pub mod appends;
pub mod completeness;
pub mod elections;
pub mod invariants;
pub mod machines;
pub mod model;
pub mod preserve;
pub mod replication;
pub mod safety;
pub mod snapshots;
