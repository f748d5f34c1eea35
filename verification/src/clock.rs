//! The wall clock, as far as comments are dated by it.

use vstd::prelude::*;

verus! {

/// `std::time::SystemTime`, an opaque reading of the clock.
#[verifier::external_type_specification]
#[verifier::external_body]
pub struct ExSystemTime(std::time::SystemTime);

/// Calls `std::time::SystemTime::now`. Nothing is claimed of the reading.
#[verifier::external_body]
fn read_clock() -> std::time::SystemTime {
    std::time::SystemTime::now()
}

/// Calls `std::time::SystemTime::duration_since` with the Unix epoch; `None`
/// stands for a reading before the epoch. Nothing else is claimed: what comes
/// back rests on the machine's clock.
#[verifier::external_body]
fn since_epoch(reading: std::time::SystemTime) -> Option<std::time::Duration> {
    reading.duration_since(std::time::UNIX_EPOCH).ok()
}

/// Calls `std::time::Duration::as_secs`. Nothing is claimed of the number: it
/// rests on the machine's clock.
#[verifier::external_body]
fn whole_seconds(span: std::time::Duration) -> u64 {
    span.as_secs()
}

/// The timestamp of a clock that stands `seconds` after the Unix epoch, or
/// before the epoch when `None`: the seconds as a signed 64-bit number, and
/// zero before the epoch.
pub open spec fn timestamp_of(seconds: Option<u64>) -> int {
    match seconds {
        Some(s) => if s <= i64::MAX {
            s as int
        } else {
            s - 0x1_0000_0000_0000_0000
        },
        None => 0,
    }
}

/// The timestamp for a number of seconds since the Unix epoch.
pub fn timestamp_from_seconds(seconds: Option<u64>) -> (r: i64)
    ensures
        r == timestamp_of(seconds),
{
    match seconds {
        Some(s) => {
            assert(s > 0x7fff_ffff_ffff_ffff ==> (s as i64) == s - 0x1_0000_0000_0000_0000)
                by (bit_vector);
            assert(s <= 0x7fff_ffff_ffff_ffff ==> (s as i64) == s) by (bit_vector);
            #[verifier::truncate]
            (s as i64)
        },
        None => 0,
    }
}

/// The current Unix timestamp in seconds.
pub fn now_timestamp() -> (r: i64)
    ensures
        exists|seconds: Option<u64>| r == timestamp_of(seconds),
{
    let seconds: Option<u64> = match since_epoch(read_clock()) {
        Some(span) => Some(whole_seconds(span)),
        None => None,
    };
    let r: i64 = timestamp_from_seconds(seconds);
    proof {
        assert(r == timestamp_of(seconds));
    }
    r
}

} // verus!
