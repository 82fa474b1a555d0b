use vstd::prelude::*;

verus! {

/// Relies on `time::precise_time_ns` (time 0.1.45): the current value of a
/// high-resolution counter, in nanoseconds since an unspecified epoch.
/// Nothing can be assumed of the value.
#[verifier::external_body]
pub(crate) fn now_ns() -> u64 {
    time::precise_time_ns()
}

} // verus!
