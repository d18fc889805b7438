//! Wall-clock time used by the search for deadlines and timing statistics.
use vstd::prelude::*;

use std::time::{Duration, Instant};

verus! {

/// `std::time::Instant`, carried through the search as an opaque value.
#[verifier::external_type_specification]
#[verifier::external_body]
pub struct ExInstant(Instant);

/// `Instant::now` from std: the current time. Nothing is stated of the value,
/// which depends on the clock.
#[verifier::external_body]
pub(crate) fn now() -> Instant {
    Instant::now()
}

/// `Instant::checked_add` from std: the instant `budget` after `start`, or
/// `None` when it cannot be represented. Nothing is stated of the value, which
/// depends on the platform's clock representation.
#[verifier::external_body]
pub(crate) fn instant_checked_add(start: Instant, budget: Duration) -> Option<Instant> {
    start.checked_add(budget)
}

/// `Instant >= Instant` from std: whether `a` is not earlier than `b`.
/// Nothing is stated, since instants are opaque here.
#[verifier::external_body]
pub(crate) fn instant_at_or_after(a: &Instant, b: &Instant) -> bool {
    *a >= *b
}

/// `Instant::elapsed` from std: the time passed since `start`. Nothing is
/// stated of the value, which depends on the clock.
#[verifier::external_body]
pub(crate) fn elapsed_since(start: &Instant) -> Duration {
    start.elapsed()
}

/// `Duration::saturating_add` from std: the sum of two durations, capped at
/// the largest duration. Nothing is stated, since durations are opaque here.
#[verifier::external_body]
pub(crate) fn duration_saturating_add(a: Duration, b: Duration) -> Duration {
    a.saturating_add(b)
}

/// `Duration::ZERO` from std: the empty duration.
#[verifier::external_body]
pub(crate) fn duration_zero() -> Duration {
    Duration::ZERO
}

/// Whether the search deadline has been reached. There is no deadline
/// without a time budget.
pub fn search_expired(deadline: Option<Instant>) -> (r: bool)
    ensures
        deadline is None ==> !r,
{
    match deadline {
        None => false,
        Some(deadline) => {
            let current = now();
            instant_at_or_after(&current, &deadline)
        },
    }
}

} // verus!
