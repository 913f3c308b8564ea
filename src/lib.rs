//! Coordination layer of a sharded point collection: how writes are routed to
//! shards and how their outcomes are classified, and how the answers of the
//! shards to a read (scroll, count, retrieve) are merged into one result.
//!
//! The shards themselves are collaborators: the caller dispatches the work
//! that the functions here plan, and hands their answers back for merging.

pub mod types;
pub mod write;
pub mod dedup;
pub mod scroll;
pub mod count;
pub mod retrieve;
