//! Typed configuration objects consumed at startup.

pub mod metrics;
