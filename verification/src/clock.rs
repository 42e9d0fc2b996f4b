//! The time of day.

use std::time::{Duration, SystemTime, SystemTimeError};
use vstd::prelude::*;

verus! {

/// A point in time of the system clock.
#[verifier::external_type_specification]
#[verifier::external_body]
pub struct ExSystemTime(SystemTime);

/// The error of `SystemTime::duration_since`.
#[verifier::external_type_specification]
#[verifier::external_body]
pub struct ExSystemTimeError(SystemTimeError);

/// `SystemTime::now` reads the system clock; nothing is known of what it shows.
pub assume_specification[ SystemTime::now ]() -> (r: SystemTime)
;

/// `Duration::as_secs` gives the whole seconds of a duration of which nothing is known.
pub assume_specification[ Duration::as_secs ](d: &Duration) -> (r: u64)
;

/// `Duration::as_millis` gives the whole milliseconds of a duration of which nothing is known.
pub assume_specification[ Duration::as_millis ](d: &Duration) -> (r: u128)
;

/// The time since 1970, by `SystemTime::duration_since`, which fails for a time before that.
#[verifier::external_body]
fn since_epoch(t: &SystemTime) -> (r: Result<Duration, SystemTimeError>) {
    t.duration_since(std::time::UNIX_EPOCH)
}

/// The system clock may show a time that is this long after 1970, or fail to be after it.
pub closed spec fn may_show(since: Result<Duration, SystemTimeError>) -> bool {
    exists|t: SystemTime| #[trigger]
        call_ensures(SystemTime::now, (), t) && call_ensures(since_epoch, (&t,), since)
}

/// The system clock may show a time that is this many whole seconds after 1970; `None` stands
/// for the times before 1970.
pub closed spec fn may_show_seconds(secs: Option<u64>) -> bool {
    exists|since: Result<Duration, SystemTimeError>| #[trigger]
        may_show(since) && match (since, secs) {
            (Ok(d), Some(n)) => call_ensures(Duration::as_secs, (&d,), n),
            (Err(_), None) => true,
            _ => false,
        }
}

/// The system clock may show a time that is this many whole milliseconds after 1970; `None`
/// stands for the times before 1970.
pub closed spec fn may_show_millis(millis: Option<u128>) -> bool {
    exists|since: Result<Duration, SystemTimeError>| #[trigger]
        may_show(since) && match (since, millis) {
            (Ok(d), Some(n)) => call_ensures(Duration::as_millis, (&d,), n),
            (Err(_), None) => true,
            _ => false,
        }
}

/// Whole seconds as a signed number, cut to 64 bits; zero for the times before 1970.
pub open spec fn signed_seconds(secs: Option<u64>) -> i64 {
    match secs {
        Some(n) => n as i64,
        None => 0,
    }
}

/// Whole milliseconds, cut to 64 bits; zero for the times before 1970.
pub open spec fn short_millis(millis: Option<u128>) -> u64 {
    match millis {
        Some(n) => n as u64,
        None => 0,
    }
}

/// The number of milliseconds since 1970 that the system clock may show.
pub open spec fn may_be_now(ms: u64) -> bool {
    exists|millis: Option<u128>| #[trigger] may_show_millis(millis) && ms == short_millis(millis)
}

/// Whole seconds as a signed number, cut to 64 bits; zero for the times before 1970.
pub fn seconds_or_zero(secs: Option<u64>) -> (r: i64)
    ensures
        r == signed_seconds(secs),
{
    match secs {
        Some(n) => n as i64,
        None => 0,
    }
}

/// Whole milliseconds, cut to 64 bits; zero for the times before 1970.
pub fn millis_or_zero(millis: Option<u128>) -> (r: u64)
    ensures
        r == short_millis(millis),
{
    match millis {
        Some(n) => n as u64,
        None => 0,
    }
}

/// What the system clock shows.
fn read_clock() -> (r: Result<Duration, SystemTimeError>)
    ensures
        may_show(r),
{
    let read = SystemTime::now;
    let measure = since_epoch;
    let t: SystemTime = read();
    measure(&t)
}

/// The seconds since 1970, or zero where the clock shows an earlier time.
pub(crate) fn now_seconds() -> (r: i64)
    ensures
        exists|secs: Option<u64>| #[trigger] may_show_seconds(secs) && r == signed_seconds(secs),
{
    let since: Result<Duration, SystemTimeError> = read_clock();
    let count = Duration::as_secs;
    let secs: Option<u64> = match &since {
        Ok(d) => Some(count(d)),
        Err(_) => None,
    };
    assert(may_show_seconds(secs));
    seconds_or_zero(secs)
}

/// The milliseconds since 1970, or zero where the clock shows an earlier time.
pub(crate) fn now_ms() -> (r: u64)
    ensures
        may_be_now(r),
{
    let since: Result<Duration, SystemTimeError> = read_clock();
    let count = Duration::as_millis;
    let millis: Option<u128> = match &since {
        Ok(d) => Some(count(d)),
        Err(_) => None,
    };
    assert(may_show_millis(millis));
    millis_or_zero(millis)
}

/// A number of seconds or milliseconds that fits is kept as it is, and a time before 1970 counts as
/// zero.
pub proof fn lemma_times_are_kept(secs: u64, millis: u128)
    ensures
        secs <= i64::MAX ==> signed_seconds(Some(secs)) == secs,
        millis <= u64::MAX ==> short_millis(Some(millis)) == millis,
        signed_seconds(None) == 0,
        short_millis(None) == 0,
{
}

}
