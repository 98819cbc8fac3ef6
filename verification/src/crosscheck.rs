//! Trace points, where a traced build records the state of the arrays for a
//! step-by-step comparison of two runs.
//!
//! Tracing is not built into this crate: every trace point does nothing
//! and leaves its arguments as they were.
use vstd::prelude::*;
use crate::common::{ABucket, BMixBucket, Idx};

verus! {

/// Flushes the trace (there is none to flush).
pub fn flush() {
}

/// Traces the suffix array under `label`.
pub fn SA_dump(SA: &[Idx], label: &str) {
}

/// Traces the bucket `A` under `label`.
pub fn A_dump(A: &ABucket, label: &str) {
}

/// Traces the B* buckets under `label`; `B` is left unchanged.
pub fn BSTAR_dump(B: &mut BMixBucket, label: &str)
    ensures
        *final(B) == *old(B),
{
}

} // verus!
