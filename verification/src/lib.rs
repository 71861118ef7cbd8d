//! HyParView membership, verified: a partial-view gossip overlay that keeps
//! a small active view of connected peers and a larger passive view of
//! repair candidates.
//!
//! - [`peer`]: node identity, an IPv4 address and port;
//! - [`messages`]: the eight wire messages and their binary framing, with
//!   decoding proved to invert encoding;
//! - [`views`]: the bounded, disjoint, duplicate-free two-view store;
//! - [`engine`]: the protocol state machine, proved to keep the view
//!   invariants and the writer-map send discipline on every event;
//! - [`config`]: the line-oriented configuration text and its parser;
//! - [`rng`]: the per-node generator behind eviction and sampling.

pub mod config;
pub mod engine;
pub mod messages;
pub mod peer;
pub mod rng;
pub mod views;
