//! Core of a multi-tenant real-time location-sharing broker.
//!
//! Publishers open short-lived share sessions that stream location points;
//! subscribers receive, over a one-way event stream, the subset of points
//! matching a tag filter.  This crate holds the verified state engine:
//! the session and point stores, the tag index with public-tag reference
//! counting, the expiration queues, the update fan-out with per-subscriber
//! filtering and windowed coalescing, and the share-id grammar.  The HTTP
//! framing, the clock, the database driver and the broadcast channel live
//! outside; they hand plain values in and take plain values back.

pub mod bounded_set;
pub mod coords;
pub mod models;
pub mod numbers;
pub mod shareid;
pub mod state;
pub mod subscriber;
pub mod updates;
pub mod shims;
pub mod tags;

pub use tags::Tag;
