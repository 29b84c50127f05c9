//! A sharded gossip reconciliation engine for a content-addressed DHT.
//!
//! Each node claims an arc of a circular key space and converges with its
//! peers, through bounded pairwise rounds, on the set of agent-info records
//! and content records (ops) that fall inside the arcs both sides claim.
//! The crate holds the arc model, the bloom-filter set reconciliation, the
//! per-peer round state machine, the scheduler bookkeeping, and the wire
//! codec, all with verified contracts.

pub mod arc;
pub mod bloom;
pub mod engine;
pub mod examples;
pub mod fixt;
pub mod framing;
pub mod hashing;
pub mod host;
pub mod incoming;
pub mod integrate;
pub mod reconcile;
pub mod round;
pub mod scheduler;
pub mod store;
pub mod types;
pub mod wire;
