//! A hierarchical cycle-counter profiler: named regions nest on one thread and
//! accumulate hit counts, byte counts and exclusive / inclusive cycles.
//!
//! Cycle-counter readings are handed in by the caller, so every operation here
//! is a deterministic function of its arguments.

pub mod profiler;
pub mod timing;

pub use profiler::{ProfileAnchor, ProfileBlock, Profiler};
