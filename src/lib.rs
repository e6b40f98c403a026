//! A replicated key-value store ordered by a leaderless, EPaxos-style
//! consensus protocol: the per-replica command log and consensus engine,
//! the quorum coordinator's decisions, and the wire messages.

pub mod converter;
pub mod coordinator;
pub mod guarantees;
pub mod logic;
pub mod store;
pub mod wire;
