//! The clock and the calendar, by way of `chrono`.

use vstd::prelude::*;

verus! {

/// The moments between the years 0 and 9999 in any offset from UTC, in seconds
/// since the start of 1970.
pub open spec fn in_calendar(seconds: int) -> bool {
    -62_167_305_600 <= seconds <= 253_402_387_200
}

/// What `chrono::DateTime::parse_from_rfc3339` reads: seconds since the start of
/// 1970 and nanoseconds, or `None` where the text is no such timestamp.
pub uninterp spec fn rfc3339_instant(raw: Seq<char>) -> Option<(i64, u32)>;

/// How `chrono` writes a moment at an offset from UTC, given in seconds: year,
/// month and day, and the time of day to the second.
pub uninterp spec fn rendered_time(seconds: i64, nanos: u32, offset: i32) -> Option<Seq<char>>;

/// `chrono::DateTime::parse_from_rfc3339`, by name. The year has four digits and
/// the offset is less than a day, so a moment that is read lies in the calendar;
/// a second has a billion nanoseconds, and twice that many where it is a leap
/// second, which comes only after the 59th of its minute.
#[verifier::external_body]
pub(crate) fn parse_rfc3339(raw: &str) -> (r: Option<(i64, u32)>)
    ensures
        r == rfc3339_instant(raw@),
        r matches Some(at) ==> in_calendar(at.0 as int) && at.1 < 2_000_000_000 && (at.1
            < 1_000_000_000 || at.0 as int % 60 == 59),
{
    match chrono::DateTime::parse_from_rfc3339(raw) {
        Ok(at) => Some((at.timestamp(), at.timestamp_subsec_nanos())),
        Err(_) => None,
    }
}

/// The offset of `chrono::Local` from UTC at a moment, in seconds. It depends on
/// the machine's time zone; it is always less than a day.
#[verifier::external_body]
fn local_offset(seconds: i64) -> (r: i32)
    requires
        in_calendar(seconds as int),
    ensures
        -86_400 < r < 86_400,
{
    let at = chrono::DateTime::from_timestamp(seconds, 0).unwrap_or_default();
    at.with_timezone(&chrono::Local).offset().local_minus_utc()
}

/// `chrono::DateTime::format` with the pattern `%Y-%m-%d %H:%M:%S`, by name. It
/// is there for every moment of the calendar and every offset of less than a
/// day.
#[verifier::external_body]
pub(crate) fn render_time(seconds: i64, nanos: u32, offset: i32) -> (r: Option<String>)
    ensures
        r is Some <==> rendered_time(seconds, nanos, offset) is Some,
        r matches Some(shown) ==> rendered_time(seconds, nanos, offset) == Some(shown@),
        in_calendar(seconds as int) && nanos < 2_000_000_000 && (nanos < 1_000_000_000
            || seconds as int % 60 == 59) && -86_400 < offset < 86_400 ==> r is Some,
{
    let at = chrono::DateTime::from_timestamp(seconds, nanos)?;
    let zone = chrono::FixedOffset::east_opt(offset)?;
    Some(at.with_timezone(&zone).format("%Y-%m-%d %H:%M:%S").to_string())
}

/// `offset` is what the machine's time zone was found to be, in seconds from UTC,
/// when it was asked about the given moment.
pub closed spec fn local_offset_at(seconds: i64, offset: i32) -> bool {
    call_ensures(local_offset, (seconds,), offset)
}

/// The offset of the machine's time zone from UTC at a moment, in seconds.
pub(crate) fn ask_local_offset(seconds: i64) -> (r: i32)
    requires
        in_calendar(seconds as int),
    ensures
        local_offset_at(seconds, r),
        -86_400 < r < 86_400,
{
    let zone = local_offset;
    zone(seconds)
}

/// The time since 1970 in nanoseconds, as `std::time::SystemTime::now` has it, or
/// `None` where the clock is set to an earlier time. Nothing is said of which
/// time it is.
#[verifier::external_body]
fn now_nanos() -> Option<u128> {
    match std::time::SystemTime::now().duration_since(std::time::UNIX_EPOCH) {
        Ok(since) => Some(since.as_nanos()),
        Err(_) => None,
    }
}

/// `nanos` is what the clock said when it was read: nanoseconds since 1970, or
/// `None` where it is set to an earlier time.
pub closed spec fn clock_said(nanos: Option<u128>) -> bool {
    call_ensures(now_nanos, (), nanos)
}

/// Reads the clock.
pub(crate) fn read_clock() -> (r: Option<u128>)
    ensures
        clock_said(r),
{
    let clock = now_nanos;
    clock()
}

/// How `chrono` writes a moment in UTC as an RFC 3339 timestamp, where its
/// calendar has that moment.
pub uninterp spec fn rfc3339_text(seconds: i64, nanos: u32) -> Option<Seq<char>>;

/// `chrono::DateTime::from_timestamp` and `to_rfc3339`, by name. It is there for
/// every moment from 1970 to the end of the year 9999, and is read back as that
/// very moment.
#[verifier::external_body]
pub(crate) fn rfc3339_at(seconds: i64, nanos: u32) -> (r: Option<String>)
    ensures
        r is Some <==> rfc3339_text(seconds, nanos) is Some,
        r matches Some(text) ==> rfc3339_text(seconds, nanos) == Some(text@),
        0 <= seconds < 253_402_300_800 && nanos < 1_000_000_000 ==> r is Some && rfc3339_instant(
            (r->0)@,
        ) == Some((seconds, nanos)),
{
    Some(chrono::DateTime::from_timestamp(seconds, nanos)?.to_rfc3339())
}

/// Nanoseconds in a second.
pub const SECOND: u128 = 1_000_000_000;

/// How the moment `nanos` nanoseconds after the start of 1970 is written.
pub open spec fn timestamp_of_nanos(nanos: u128) -> Option<Seq<char>> {
    if nanos / SECOND <= i64::MAX {
        rfc3339_text((nanos / SECOND) as i64, (nanos % SECOND) as u32)
    } else {
        None
    }
}

/// A moment up to the end of the year 9999.
pub open spec fn before_year_10000(nanos: u128) -> bool {
    nanos / SECOND < 253_402_300_800
}

/// Writes the moment `nanos` nanoseconds after the start of 1970 as an RFC 3339
/// timestamp in UTC, where the calendar has that moment.
pub fn timestamp_at_nanos(nanos: u128) -> (r: Option<String>)
    ensures
        r is Some <==> timestamp_of_nanos(nanos) is Some,
        r matches Some(text) ==> timestamp_of_nanos(nanos) == Some(text@),
        before_year_10000(nanos) ==> r is Some && rfc3339_instant((r->0)@) == Some(
            ((nanos / SECOND) as i64, (nanos % SECOND) as u32),
        ),
{
    let seconds: u128 = nanos / SECOND;
    let rest: u128 = nanos % SECOND;
    if seconds <= i64::MAX as u128 {
        rfc3339_at(seconds as i64, rest as u32)
    } else {
        None
    }
}

/// A moment in nanoseconds is written as the whole seconds and the nanoseconds that
/// make it up, where the seconds can be counted.
pub proof fn law_moment_is_split_without_loss(nanos: u128, seconds: i64, rest: u32)
    requires
        0 <= seconds,
        rest < 1_000_000_000,
        nanos == 1_000_000_000 * seconds + rest,
    ensures
        timestamp_of_nanos(nanos) == rfc3339_text(seconds, rest),
{
    assert(nanos / 1_000_000_000 == seconds as u128);
    assert(nanos % 1_000_000_000 == rest as u128);
}

} // verus!
