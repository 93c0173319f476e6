//! An in-memory index over an append-ordered run of time-bucketed
//! aggregates (count, sum, min, max), laid out as an array-backed complete
//! binary tree, that answers range-aggregation queries in logarithmic time.

pub mod construct;
pub mod gather;
pub mod index;
pub mod laws;
pub mod layout;
pub mod mutate;
pub mod outline;
pub mod query;
pub mod run;
pub mod segment;

pub use index::ISegmentIndex;
pub use outline::OutlineRow;
pub use query::accumulate;
pub use segment::{combine, ISegment, Span};
