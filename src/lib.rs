//! A fixed-capacity FIFO list whose nodes live in a preallocated arena of
//! slots. Free slots are chained in a free list and reused in constant time;
//! several lists may share one arena, and a run of nodes can be moved from one
//! list to another without touching the free list.
mod list;
pub mod laws;

pub use list::{range_of, total_len, without_range, CapacityExceeded, FixedCapacityList, SpliceError};
