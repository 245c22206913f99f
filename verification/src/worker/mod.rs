//! The worker: makes batches, and fetches those that it misses.
pub mod batch_maker;
pub mod primary_connector;
pub mod processor;
pub mod stats;
pub mod sync_laws;
pub mod sync_model;
pub mod synchronizer;
