//! The monotonic clock, as far as the state machines read it.
use vstd::prelude::*;

verus! {

/// `std::time::Instant`, carried through as an opaque value.
#[verifier::external_type_specification]
#[verifier::external_body]
pub struct ExInstant(std::time::Instant);

/// `std::time::Instant::now`: the current instant. Nothing is stated of it.
#[verifier::external_body]
pub(crate) fn instant_now() -> (t: std::time::Instant) {
    std::time::Instant::now()
}

/// `Instant::elapsed` as whole nanoseconds (`Duration::as_nanos`): the time
/// since `since`. It depends on the clock, so nothing is stated of it.
#[verifier::external_body]
pub(crate) fn elapsed_nanos(since: &std::time::Instant) -> (r: u128) {
    since.elapsed().as_nanos()
}

/// Nanoseconds in `secs` seconds.
pub open spec fn secs_in_nanos(secs: u64) -> int {
    secs * 1_000_000_000
}

/// Whether `nanos` nanoseconds are at least `secs` seconds.
pub fn at_least_secs(nanos: u128, secs: u64) -> (r: bool)
    ensures
        r == (nanos >= secs_in_nanos(secs)),
{
    assert(secs * 1_000_000_000 <= u64::MAX * 1_000_000_000);
    nanos >= (secs as u128) * 1_000_000_000
}

/// Whether `nanos` nanoseconds are more than `secs` seconds.
pub fn more_than_secs(nanos: u128, secs: u64) -> (r: bool)
    ensures
        r == (nanos > secs_in_nanos(secs)),
{
    assert(secs * 1_000_000_000 <= u64::MAX * 1_000_000_000);
    nanos > (secs as u128) * 1_000_000_000
}

/// Whether at least `secs` seconds have passed since `since`: the elapsed
/// time read from the clock, compared by [`at_least_secs`].
pub fn elapsed_at_least(since: &std::time::Instant, secs: u64) -> (r: bool) {
    let nanos = elapsed_nanos(since);
    at_least_secs(nanos, secs)
}

/// Whether more than `secs` seconds have passed since `since`: the elapsed
/// time read from the clock, compared by [`more_than_secs`].
pub fn elapsed_more_than(since: &std::time::Instant, secs: u64) -> (r: bool) {
    let nanos = elapsed_nanos(since);
    more_than_secs(nanos, secs)
}

} // verus!
