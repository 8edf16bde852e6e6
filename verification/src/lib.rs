//! The decision-making core of a Fleek Network node's connection pool and
//! reputation system: which peers to keep connections to, how connections
//! and dials are tracked, the measurements kept of each peer, and the
//! reputation scores computed from them.
use vstd::prelude::*;

pub mod aggregator;
pub mod broadcast;
pub mod buffered;
pub mod connector;
pub mod endpoint;
pub mod fixed;
pub mod logical_pool;
pub mod manager;
pub mod measurements;
pub mod muxer;
pub mod pinger;
pub mod provider;
pub mod reputation;
pub mod resolver;
pub mod state;
pub mod statistics;
pub mod summary;

verus! {
}
