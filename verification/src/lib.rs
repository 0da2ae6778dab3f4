//! Event-time correctness and aggregation engine for an out-of-order stream
//! of social-network activity (posts, comments, likes).
//!
//! The engine assigns a safe logical processing time (a watermark) to a
//! possibly reordered feed, delays child events until their causal parent is
//! known, maintains incremental statistics used to flag anomalies, and keeps
//! expiring windowed aggregates for engagement snapshots and co-occurrence
//! based recommendations.

use vstd::prelude::*;

pub mod anomalies;
pub mod idmap;
pub mod metrics;
pub mod order;
pub mod post_stats;
pub mod ratio;
pub mod recommendations;
pub mod records;
pub mod statistics;
pub mod tags;
pub mod watermark;

verus! {

/// Maximum allowed lateness of an event, in seconds (one day).
pub const MAX_DELAY: u64 = 86400;

} // verus!
