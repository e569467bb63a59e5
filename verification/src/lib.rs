//! The core of a replicated key-value store: replicas agree on one order
//! of client commands and apply them in that order, each exactly once.
//!
//! Every function in this crate carries a contract that the verifier
//! checks, and the laws that tie the functions together are proved beside
//! them.
//!
//! - [`command`] and [`conflict`]: client commands, and when two of them
//!   commute.
//! - [`machine`] and [`executor`]: the state machine with its client
//!   sessions, and speculative execution ahead of the final order.
//! - [`log`]: the command log with its commit watermark and compaction.
//! - [`quorum`], [`fastpath`] and [`sync`]: quorum sizes, the fast-path
//!   round, and catching up and recovery.
//! - [`protocol`] and [`replica`]: the role of a node, and a replica's
//!   handlers for both commit paths.
//! - [`session`]: the client's side of a submission.
//! - [`cluster`]: a model of the whole cluster and the proof that what is
//!   committed agrees on all replicas.
//! - [`config`] and [`parser`]: configuration objects and their textual
//!   forms.

pub mod cluster;
pub mod command;
pub mod config;
pub mod conflict;
pub mod executor;
pub mod fastpath;
pub mod log;
pub mod machine;
pub mod parser;
pub mod protocol;
pub mod quorum;
pub mod replica;
pub mod session;
pub mod sync;

pub use parser::parse_metrics_push_protocol;
