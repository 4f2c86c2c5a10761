//! A versioned vector whose elements live in an append-only arena.
//!
//! Every structural edit records a new ordering of arena positions, so that a
//! coordinate taken at an earlier version can still be resolved, and a bare
//! arena position names the same element for as long as it stays alive.
use vstd::prelude::*;

pub mod index;
pub mod tracing_vec;

pub use index::{IndexError, TimedIndex, TimelessIndex, TracingIndex};
pub use tracing_vec::{Trace, TracingVec};
