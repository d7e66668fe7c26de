//! The platform's monotonic time type, consumed as an opaque value: the core's
//! own timekeeping is in plain ticks (`u64`, with `u64::MAX` as the "never"
//! sentinel), and these trusted declarations relate the two.

use vstd::prelude::*;

verus! {

#[verifier::external_type_specification]
#[verifier::external_body]
pub struct ExInstant(embassy_time::Instant);

/// The tick count that a platform instant carries.
pub uninterp spec fn instant_ticks(i: embassy_time::Instant) -> u64;

/// Relies on embassy_time::Instant::from_ticks: it builds the instant that
/// carries exactly the given tick count since boot.
pub assume_specification[ embassy_time::Instant::from_ticks ](ticks: u64) -> (r:
    embassy_time::Instant)
    ensures
        instant_ticks(r) == ticks,
;

/// Relies on embassy_time::Instant::as_ticks: it returns the tick count the
/// instant carries.
pub assume_specification[ embassy_time::Instant::as_ticks ](i: &embassy_time::Instant) -> (r: u64)
    ensures
        r == instant_ticks(*i),
;

/// The tick count of a platform instant, as the core's timer queue uses it:
/// an instant carrying the largest tick count reads as "never."
pub fn instant_to_ticks(at: &embassy_time::Instant) -> (t: u64)
    ensures
        t == instant_ticks(*at),
{
    at.as_ticks()
}

/// The platform instant at a given tick count, for handing a computed
/// deadline back to the platform's sleep mechanism; the "never" sentinel
/// becomes the latest representable instant.
pub fn ticks_to_instant(t: u64) -> (r: embassy_time::Instant)
    ensures
        instant_ticks(r) == t,
{
    embassy_time::Instant::from_ticks(t)
}

} // verus!
