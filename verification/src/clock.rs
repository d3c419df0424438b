//! The wall clock.
use crate::bucket;
use vstd::prelude::*;

verus! {

/// The outside type `web_time::SystemTime`: a reading of the system clock.
#[verifier::external_type_specification]
#[verifier::external_body]
pub struct ExSystemTime(web_time::SystemTime);

/// Calls `web_time::SystemTime::now`. Nothing is claimed of what the clock
/// says.
#[verifier::external_body]
fn system_now() -> web_time::SystemTime {
    web_time::SystemTime::now()
}

/// Calls `web_time::SystemTime::duration_since` with `web_time::UNIX_EPOCH`:
/// the seconds and the nanoseconds since the epoch, which stay below one
/// second, or nothing for a time before it. Which time it is is left open, as
/// it rests on the clock.
#[verifier::external_body]
fn since_epoch(time: &web_time::SystemTime) -> (since: Option<(u64, u32)>)
    ensures
        since matches Some(parts) ==> parts.1 < 1_000_000_000,
{
    match time.duration_since(web_time::UNIX_EPOCH) {
        Ok(d) => Some((d.as_secs(), d.subsec_nanos())),
        Err(_) => None,
    }
}

/// Milliseconds since the epoch, given the seconds and nanoseconds since it.
/// A time before the epoch counts as the epoch, and one that is too late as
/// the latest that can be written.
pub open spec fn millis_of(since: Option<(u64, u32)>) -> u64 {
    match since {
        Some(parts) => bucket::saturated(parts.0 * 1000 + parts.1 as int / 1_000_000),
        None => 0,
    }
}

/// Whether these seconds and nanoseconds since the epoch come from the clock:
/// taking a reading of it and converting the reading can give them.
pub closed spec fn told_by_clock(since: Option<(u64, u32)>) -> bool {
    exists|time: web_time::SystemTime|
        call_ensures(system_now, (), time) && #[trigger] call_ensures(since_epoch, (&time,), since)
}

/// Converts the seconds and nanoseconds since the epoch to milliseconds.
pub fn epoch_millis(since: Option<(u64, u32)>) -> (ms: u64)
    requires
        since matches Some(parts) ==> parts.1 < 1_000_000_000,
    ensures
        ms == millis_of(since),
{
    match since {
        Some((secs, nanos)) => {
            let ms: u128 = secs as u128 * 1000 + (nanos / 1_000_000) as u128;
            if ms < u64::MAX as u128 {
                ms as u64
            } else {
                u64::MAX
            }
        },
        None => 0,
    }
}

/// The current time in milliseconds since the epoch: what the clock tells,
/// converted. Which time that is is not known beforehand.
pub fn now_millis() -> (ms: u64)
    ensures
        exists|since: Option<(u64, u32)>| #[trigger] told_by_clock(since) && ms == millis_of(since),
{
    let time = system_now();
    let since = since_epoch(&time);
    assert(told_by_clock(since));
    epoch_millis(since)
}

/// A time is told in the whole milliseconds that have passed since the epoch:
/// no more than have passed, and less than one is left out. Only the latest time
/// that can be told stands for all later ones, and times before the epoch are
/// told as the epoch.
pub proof fn lemma_millis_have_passed(secs: u64, nanos: u32)
    requires
        nanos < 1_000_000_000,
    ensures
        millis_of(Some((secs, nanos))) * 1_000_000 <= secs * 1_000_000_000 + nanos,
        millis_of(Some((secs, nanos))) < u64::MAX ==> secs * 1_000_000_000 + nanos < (millis_of(
            Some((secs, nanos)),
        ) + 1) * 1_000_000,
        millis_of(None) == 0,
{
}

} // verus!
