use vstd::prelude::*;

verus! {

/// A coordinate that is valid at one version: a position within the ordering
/// recorded at `pseudotime`.
#[derive(Debug, Clone, Copy, PartialEq, Eq, Structural, Hash)]
pub struct TimedIndex {
    pub pos: usize,
    pub pseudotime: usize,
}

/// A coordinate that names one arena entry for as long as the entry lives.
#[derive(Debug, Clone, Copy, PartialEq, Eq, Structural, Hash)]
pub struct TimelessIndex {
    pub pos: usize,
}

/// Either kind of coordinate; every operation of the vector accepts this form.
#[derive(Debug, Clone, Copy, PartialEq, Eq, Structural, Hash)]
pub enum TracingIndex {
    Timed(TimedIndex),
    Timeless(TimelessIndex),
}

/// Why a coordinate could not be used.
#[derive(Debug, Clone, Copy, PartialEq, Eq, Structural, Hash)]
pub enum IndexError {
    /// A batched operation was given no coordinate.
    NoIndicesProvided,
    /// The coordinate names a version that was never recorded.
    VersionDoesNotExist(TimedIndex),
    /// The coordinate names a position past the end of its version's ordering.
    IndexOutOfBounds(TimedIndex),
    /// The coordinate names an arena position past the end of the arena.
    DataDoesNotExist(TimelessIndex),
    /// The coordinate names an entry that is no longer in the latest ordering.
    DataAlreadyDead(TimelessIndex),
}

impl From<TimedIndex> for TracingIndex {
    fn from(index: TimedIndex) -> (r: TracingIndex)
        ensures
            r == TracingIndex::Timed(index),
    {
        TracingIndex::Timed(index)
    }
}

impl vstd::std_specs::convert::FromSpecImpl<TimedIndex> for TracingIndex {
    open spec fn obeys_from_spec() -> bool {
        true
    }

    open spec fn from_spec(index: TimedIndex) -> TracingIndex {
        TracingIndex::Timed(index)
    }
}

impl From<TimelessIndex> for TracingIndex {
    fn from(index: TimelessIndex) -> (r: TracingIndex)
        ensures
            r == TracingIndex::Timeless(index),
    {
        TracingIndex::Timeless(index)
    }
}

impl vstd::std_specs::convert::FromSpecImpl<TimelessIndex> for TracingIndex {
    open spec fn obeys_from_spec() -> bool {
        true
    }

    open spec fn from_spec(index: TimelessIndex) -> TracingIndex {
        TracingIndex::Timeless(index)
    }
}

} // verus!
