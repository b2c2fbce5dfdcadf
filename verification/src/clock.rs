//! The wall clock, read through std.
use vstd::prelude::*;

verus! {

#[verifier::external_type_specification]
#[verifier::external_body]
pub struct ExSystemTime(std::time::SystemTime);

#[verifier::external_type_specification]
#[verifier::external_body]
pub struct ExSystemTimeError(std::time::SystemTimeError);

/// std's `SystemTime::now`: the current wall-clock time. It depends on the
/// clock alone, so nothing is claimed of it.
#[verifier::external_body]
fn system_now() -> std::time::SystemTime {
    std::time::SystemTime::now()
}

/// std's `SystemTime::duration_since`, measured from `UNIX_EPOCH`: the time
/// elapsed since the epoch, or an error for a time before it. Which of the
/// two comes back depends on the clock, so nothing is claimed of it.
#[verifier::external_body]
fn since_epoch(t: &std::time::SystemTime) -> Result<std::time::Duration, std::time::SystemTimeError> {
    t.duration_since(std::time::UNIX_EPOCH)
}

/// std's `Duration::as_millis`: the whole milliseconds of `d`. Claimed: its
/// whole seconds fit a `u64`, as a `Duration` counts its seconds in a `u64`.
#[verifier::external_body]
fn whole_millis(d: &std::time::Duration) -> (ms: u128)
    ensures
        ms / 1000 <= u64::MAX,
{
    d.as_millis()
}

/// Milliseconds since the Unix epoch; zero for a clock set before the epoch.
pub fn now_ms() -> (ms: u128)
    ensures
        ms / 1000 <= u64::MAX,
{
    let t = system_now();
    match since_epoch(&t) {
        Ok(d) => whole_millis(&d),
        Err(_) => 0,
    }
}

/// Whole seconds since the Unix epoch.
pub fn now() -> u64 {
    (now_ms() / 1000) as u64
}

} // verus!
