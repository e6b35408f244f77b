//! Temporal activity aggregation for streams of edit events.
//!
//! Edit events are folded into three indexes (editor to active days, day to
//! active editors, editor to latest known name), partial indexes are merged,
//! and trailing 365-day window queries are answered from the merged index.

pub mod calendar;
pub mod error;
pub mod index;
pub mod laws;
pub mod names;
pub mod report;
pub mod set_index;
pub mod sorted_set;
pub mod timestamp;
pub mod window;
