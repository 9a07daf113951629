//! Read-side analytics over a block's access list.
pub mod primitives;
pub mod order;
pub mod block;
pub mod tally;
pub mod analytics;
pub mod laws;
