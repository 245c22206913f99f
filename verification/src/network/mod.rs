//! How messages reach other nodes, and how those of other nodes are taken in.
pub mod receiver;
pub mod simple_sender;
