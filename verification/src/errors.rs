use vstd::prelude::*;

verus! {

/// Everything that can go wrong while recording, querying, or decoding.
#[derive(Clone, Copy, Debug, PartialEq, Eq, Structural)]
pub enum Error {
    /// The timestamp lies before the window's start.
    SampleTooEarly,
    /// The timestamp lies at or past the window's stop.
    SampleTooLate,
    /// The slice histogram rejected the value (above the configured maximum).
    RecordFailure,
    /// A persisted heatmap could not be decoded.
    MalformedPersistedState,
}

} // verus!
