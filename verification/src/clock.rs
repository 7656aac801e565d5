//! Wall-clock time for record timestamps.
use vstd::prelude::*;
use std::time::{Duration, SystemTime, UNIX_EPOCH};

verus! {

#[verifier::external_type_specification]
#[verifier::external_body]
pub struct ExSystemTime(SystemTime);

/// Calls `SystemTime::now`. Nothing is promised of the value: it is the time.
#[verifier::external_body]
fn system_now() -> SystemTime {
    SystemTime::now()
}

/// Calls `SystemTime::duration_since` with the Unix epoch; a clock set
/// before the epoch gives a zero duration. Nothing is promised of the value.
#[verifier::external_body]
fn since_epoch(t: &SystemTime) -> Duration {
    match t.duration_since(UNIX_EPOCH) {
        Ok(d) => d,
        Err(_) => Duration::ZERO,
    }
}

/// Calls `Duration::as_millis`. Nothing is promised of the value.
#[verifier::external_body]
fn duration_millis(d: &Duration) -> u128 {
    d.as_millis()
}

/// Milliseconds since the Unix epoch, truncated to 64 bits.
pub fn now_ms() -> u64 {
    let t = system_now();
    let d = since_epoch(&t);
    let ms = duration_millis(&d);
    ms as u64
}

} // verus!
