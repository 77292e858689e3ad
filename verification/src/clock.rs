use vstd::prelude::*;

use std::time::Instant;

verus! {

#[verifier::external_type_specification]
#[verifier::external_body]
pub struct ExInstant(Instant);

/// Relies on std::time::Instant::now: an opaque reference instant on the
/// monotonic clock. Nothing is assumed of its value.
#[verifier::external_body]
pub(crate) fn monotonic_now() -> Instant {
    Instant::now()
}

/// Relies on std::time::Instant::elapsed: the whole milliseconds gone by since
/// `start`, reduced to the low 64 bits. Nothing is assumed of the clock's
/// value, so callers must hold for every result.
#[verifier::external_body]
pub(crate) fn elapsed_ms(start: &Instant) -> u64 {
    start.elapsed().as_millis() as u64
}

} // verus!
