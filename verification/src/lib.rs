//! The verified core of a DAG-based consensus node: the decisions of its primary, of its workers
//! and of their network layer, as functions and state machines over plain values.
pub mod committee;
pub mod decimal;
pub mod ident;
pub mod key;
pub mod messages;
pub mod network;
pub mod node;
pub mod primary;
pub mod sorting;
pub mod table;
pub mod worker;
