//! A stopwatch for the timing prints of a front end: it records the moment
//! it was created, and a caller reads the elapsed time off its `start`
//! field. The clock reading is opaque to verification.

use vstd::prelude::*;

verus! {

#[verifier::external_type_specification]
#[verifier::external_body]
pub struct ExInstant(std::time::Instant);

/// Holds the moment the current phase began.
pub struct LocalTimer {
    pub start: std::time::Instant,
}

impl LocalTimer {
    /// Relies on std::time::Instant::now: an opaque reading of the
    /// monotonic clock. The reading depends on the moment of the call, so
    /// nothing is promised of it.
    #[verifier::external_body]
    pub fn new() -> LocalTimer {
        LocalTimer { start: std::time::Instant::now() }
    }
}

} // verus!
