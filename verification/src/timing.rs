//! Time spans, as `std::time::Duration` holds them.
use vstd::prelude::*;

verus! {

/// The span of `ms` milliseconds, as `Duration::from_millis` builds it.
pub uninterp spec fn millis_duration(ms: u64) -> std::time::Duration;

/// Calls `std::time::Duration::from_millis`; its result is the span of `ms`
/// milliseconds, which depends on `ms` alone.
#[verifier::external_body]
pub(crate) fn duration_from_millis(ms: u64) -> (d: std::time::Duration)
    ensures
        d == millis_duration(ms),
{
    std::time::Duration::from_millis(ms)
}

/// `Duration` is `Copy`: its `clone` gives back the same span.
pub assume_specification[ <std::time::Duration as Clone>::clone ](d: &std::time::Duration) -> (r:
    std::time::Duration)
    ensures
        r == *d,
;

} // verus!
