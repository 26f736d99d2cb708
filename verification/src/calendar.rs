//! Wall-clock time at a fixed offset from UTC.

use crate::config::Config;
use crate::text;
use vstd::prelude::*;

verus! {

/// The offset that is used where none can be read: seven hours east of UTC.
pub const DEFAULT_OFFSET: i32 = 25_200;

/// Whether `secs` since the epoch lies well inside the calendar: some quarter of a
/// million years to both sides of it.
pub open spec fn in_calendar(secs: int) -> bool {
    -8_000_000_000_000 <= secs <= 8_000_000_000_000
}

/// Whether `offset` is less than a day.
pub open spec fn is_offset(offset: int) -> bool {
    -86_400 < offset < 86_400
}

/// Two decimal digits.
pub open spec fn two_digits(n: int) -> Seq<char> {
    seq![text::digit((n / 10) as nat), text::digit((n % 10) as nat)]
}

/// The short name of the day of the week, for `local` seconds since the start of
/// Thursday, 1 January 1970.
pub open spec fn weekday(local: int) -> Seq<char> {
    let day = (local / 86_400 + 4) % 7;
    if day == 0 {
        "Sun"@
    } else if day == 1 {
        "Mon"@
    } else if day == 2 {
        "Tue"@
    } else if day == 3 {
        "Wed"@
    } else if day == 4 {
        "Thu"@
    } else if day == 5 {
        "Fri"@
    } else {
        "Sat"@
    }
}

/// The hour and the minute of the day, for `local` seconds since the start of a day.
pub open spec fn hour_and_minute(local: int) -> Seq<char> {
    two_digits(local % 86_400 / 3_600) + seq![':'] + two_digits(local % 3_600 / 60)
}

/// The hour, the minute and the second of the day.
pub open spec fn time_of_day(local: int) -> Seq<char> {
    hour_and_minute(local) + seq![':'] + two_digits(local % 60)
}

/// The pattern of the hourly buckets that usage is collected in.
pub open spec fn bucket_pattern() -> Seq<char> {
    "%Y-%m-%dT%H:00:00%:z"@
}

/// What chrono writes for the time `secs` after the epoch, `offset` seconds east of
/// UTC, under a pattern.
pub uninterp spec fn local_format(secs: int, offset: int, pattern: Seq<char>) -> Seq<char>;

/// `chrono::DateTime::format`, on the time `secs` after the epoch, moved to `offset`
/// by `with_timezone`. It depends on its arguments alone. Under `%a` it writes the
/// short English name of the day of the week, under `%H:%M` and `%H:%M:%S` the time of
/// day in two digits each; of the hourly pattern nothing more is claimed.
#[verifier::external_body]
fn format_local(secs: i64, offset: i32, pattern: &str) -> (s: String)
    requires
        in_calendar(secs as int),
        is_offset(offset as int),
        pattern@ == "%a"@ || pattern@ == "%H:%M"@ || pattern@ == "%H:%M:%S"@ || pattern@
            == bucket_pattern(),
    ensures
        s@ == local_format(secs as int, offset as int, pattern@),
        pattern@ == "%a"@ ==> s@ == weekday(secs + offset),
        pattern@ == "%H:%M"@ ==> s@ == hour_and_minute(secs + offset),
        pattern@ == "%H:%M:%S"@ ==> s@ == time_of_day(secs + offset),
{
    let zone = chrono::FixedOffset::east_opt(offset).unwrap();
    let utc = chrono::DateTime::from_timestamp(secs, 0).unwrap();
    utc.with_timezone(&zone).format(pattern).to_string()
}

/// What chrono writes in RFC 3339 for a time `secs` and `nanos` after the epoch,
/// `offset` seconds east of UTC.
pub uninterp spec fn rfc3339_text(secs: int, nanos: int, offset: int) -> Seq<char>;

/// `chrono::DateTime::to_rfc3339`, on the time `secs` and `nanos` after the epoch,
/// moved to `offset` by `with_timezone`. It depends on its arguments alone.
#[verifier::external_body]
fn to_rfc3339(secs: i64, nanos: u32, offset: i32) -> (s: String)
    requires
        in_calendar(secs as int),
        nanos < 1_000_000_000,
        is_offset(offset as int),
    ensures
        s@ == rfc3339_text(secs as int, nanos as int, offset as int),
{
    let zone = chrono::FixedOffset::east_opt(offset).unwrap();
    let utc = chrono::DateTime::from_timestamp(secs, nanos).unwrap();
    utc.with_timezone(&zone).to_rfc3339()
}

/// The offset in seconds that chrono reads from a text, if it reads one.
pub uninterp spec fn offset_in(s: Seq<char>) -> Option<i32>;

/// `chrono::FixedOffset::from_str`, which reads an offset such as `+07:00`, and
/// `local_minus_utc`, its seconds. It depends on the text alone, and an offset that is
/// read is less than a day. It reads `+07:00` as seven hours.
#[verifier::external_body]
fn parse_offset(s: &str) -> (offset: Option<i32>)
    ensures
        offset == offset_in(s@),
        offset matches Some(o) ==> is_offset(o as int),
        s@ == "+07:00"@ ==> offset == Some(DEFAULT_OFFSET),
{
    s.parse::<chrono::FixedOffset>().ok().map(|zone| zone.local_minus_utc())
}

/// The offset to use, given what was read.
pub fn offset_or_default(parsed: Option<i32>) -> (offset: i32)
    ensures
        offset == match parsed {
            Some(o) => o,
            None => DEFAULT_OFFSET,
        },
{
    match parsed {
        Some(o) => o,
        None => DEFAULT_OFFSET,
    }
}

/// The offset from UTC that `s` writes, in seconds; seven hours where it writes none.
pub fn parse_tz(s: &str) -> (offset: i32)
    ensures
        offset == match offset_in(s@) {
            Some(o) => o,
            None => DEFAULT_OFFSET,
        },
        is_offset(offset as int),
        s@ == "+07:00"@ ==> offset == DEFAULT_OFFSET,
{
    offset_or_default(parse_offset(s))
}

impl Config {
    /// The offset from UTC at which the rules are read: what `timezone` writes, or
    /// `+07:00` where it is missing.
    pub fn utc_offset(&self) -> (offset: i32)
        ensures
            is_offset(offset as int),
            self.timezone is None ==> offset == DEFAULT_OFFSET,
            self.timezone matches Some(name) && name@ == "+07:00"@ ==> offset == DEFAULT_OFFSET,
            ({
                let name = match self.timezone {
                    Some(name) => name@,
                    None => "+07:00"@,
                };
                offset == match offset_in(name) {
                    Some(o) => o,
                    None => DEFAULT_OFFSET,
                }
            }),
    {
        match &self.timezone {
            Some(name) => parse_tz(name.as_str()),
            None => parse_tz("+07:00"),
        }
    }
}

/// The day of the week, as rules name it.
pub fn day_name(secs: i64, offset: i32) -> (day: String)
    requires
        in_calendar(secs as int),
        is_offset(offset as int),
    ensures
        day@ == weekday(secs + offset),
{
    format_local(secs, offset, "%a")
}

/// The time of day, as rules write it.
pub fn minute_of_day(secs: i64, offset: i32) -> (time: String)
    requires
        in_calendar(secs as int),
        is_offset(offset as int),
    ensures
        time@ == hour_and_minute(secs + offset),
{
    format_local(secs, offset, "%H:%M")
}

/// The time of day, as the dashboard shows it.
pub fn server_time(secs: i64, offset: i32) -> (time: String)
    requires
        in_calendar(secs as int),
        is_offset(offset as int),
    ensures
        time@ == time_of_day(secs + offset),
{
    format_local(secs, offset, "%H:%M:%S")
}

/// The hour that usage at this time is collected under.
pub fn hour_bucket(secs: i64, offset: i32) -> (hour: String)
    requires
        in_calendar(secs as int),
        is_offset(offset as int),
    ensures
        hour@ == local_format(secs as int, offset as int, bucket_pattern()),
        hour@ == local_format(secs as int, offset as int, "%Y-%m-%dT%H:00:00%:z"@),
{
    format_local(secs, offset, "%Y-%m-%dT%H:00:00%:z")
}

/// The time stamp of an event or a log entry.
pub fn timestamp(secs: i64, nanos: u32, offset: i32) -> (s: String)
    requires
        in_calendar(secs as int),
        nanos < 1_000_000_000,
        is_offset(offset as int),
    ensures
        s@ == rfc3339_text(secs as int, nanos as int, offset as int),
{
    to_rfc3339(secs, nanos, offset)
}

/// How many seconds back a named range of the request log reaches.
pub open spec fn range_length(range: Seq<char>) -> int {
    if range == "3d"@ {
        3int * 86_400
    } else if range == "7d"@ {
        7int * 86_400
    } else if range == "15d"@ {
        15int * 86_400
    } else if range == "30d"@ {
        30int * 86_400
    } else {
        24int * 3_600
    }
}

fn range_secs(range: &str) -> (secs: i64)
    ensures
        secs as int == range_length(range@),
        0 < secs <= 30 * 86_400,
{
    if text::same_text(range, "3d") {
        259_200
    } else if text::same_text(range, "7d") {
        604_800
    } else if text::same_text(range, "15d") {
        1_296_000
    } else if text::same_text(range, "30d") {
        2_592_000
    } else {
        86_400
    }
}

/// The name of the range that a query asks for: a day where it names none.
pub open spec fn range_asked(range: Option<String>) -> Seq<char> {
    match range {
        Some(name) => name@,
        None => "24h"@,
    }
}

/// The start and the end of the range of the request log that a query asks for, as
/// time stamps: it ends now, and reaches back as far as the range says.
pub fn request_range(range: &Option<String>, secs: i64, nanos: u32, offset: i32) -> (r: (
    String,
    String,
))
    requires
        in_calendar(secs - 2_592_000),
        in_calendar(secs as int),
        nanos < 1_000_000_000,
        is_offset(offset as int),
    ensures
        r.0@ == rfc3339_text(
            secs - range_length(range_asked(*range)),
            nanos as int,
            offset as int,
        ),
        r.1@ == rfc3339_text(secs as int, nanos as int, offset as int),
{
    let back: i64 = match range {
        Some(name) => range_secs(name.as_str()),
        None => range_secs("24h"),
    };
    (to_rfc3339(secs - back, nanos, offset), to_rfc3339(secs, nanos, offset))
}

} // verus!
