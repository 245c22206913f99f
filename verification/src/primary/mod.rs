//! The primary: makes, gathers and commits headers.
pub mod committer;
pub mod header_waiter;
pub mod helper;
pub mod metrics;
pub mod primary;
pub mod proposer;
pub mod telemetry;
pub mod waiter_laws;
pub mod waiter_model;
