use vstd::prelude::*;
use chrono::{Datelike, NaiveDate, NaiveDateTime, NaiveTime};
use crate::legacy::{split_chars, split_on, vec_views, all_digits, digits_value, digit_run, read_digits, unsigned_body, parse_u64_spec};
use crate::text::chars_of;

verus! {

/// A leap year of the proleptic Gregorian calendar.
pub open spec fn leap_year(y: int) -> bool {
    y % 4 == 0 && (y % 100 != 0 || y % 400 == 0)
}

/// Number of days of a month.
pub open spec fn month_days(y: int, m: int) -> int {
    if m == 2 {
        if leap_year(y) { 29 } else { 28 }
    } else if m == 4 || m == 6 || m == 9 || m == 11 {
        30
    } else {
        31
    }
}

/// A calendar day that chrono's `NaiveDate` can hold: years -262143 to 262142.
pub open spec fn valid_ymd(y: int, m: int, d: int) -> bool {
    -262143 <= y <= 262142 && 1 <= m <= 12 && 1 <= d <= month_days(y, m)
}

/// Days from 1970-01-01 to a day of the proleptic Gregorian calendar.
pub open spec fn days_from_civil(y: int, m: int, d: int) -> int {
    let yy = if m <= 2 { y - 1 } else { y };
    let era = yy / 400;
    let yoe = yy % 400;
    let mp = if m > 2 { m - 3 } else { m + 9 };
    let doy = (153 * mp + 2) / 5 + d - 1;
    let doe = yoe * 365 + yoe / 4 - yoe / 100 + doy;
    era * 146097 + doe - 719468
}

/// Seconds since 1970-01-01 00:00 UTC of a day and a time of day.
pub open spec fn utc_seconds_spec(y: int, m: int, d: int, h: int, mi: int) -> int {
    days_from_civil(y, m, d) * 86400 + h * 3600 + mi * 60
}

/// Calls `NaiveDate::from_ymd_opt` of chrono: whether the day exists,
/// which chrono states as a month of 1 to 12, a day within the month's
/// length, and a year within its range.
#[verifier::external_body]
fn date_exists(y: i32, m: u32, d: u32) -> (r: bool)
    ensures
        r == valid_ymd(y as int, m as int, d as int),
{
    NaiveDate::from_ymd_opt(y, m, d).is_some()
}

/// Calls `NaiveTime::from_hms_opt` of chrono with 0 seconds: whether the
/// time of day exists (an hour under 24 and a minute under 60).
#[verifier::external_body]
fn time_exists(h: u32, mi: u32) -> (r: bool)
    ensures
        r == (h < 24 && mi < 60),
{
    NaiveTime::from_hms_opt(h, mi, 0).is_some()
}

/// Calls `timestamp` of chrono on the UTC date and time built from the
/// values: the seconds since the Unix epoch, which the contract states
/// with the usual days-from-civil formula.
#[verifier::external_body]
fn utc_seconds(y: i32, m: u32, d: u32, h: u32, mi: u32) -> (r: i64)
    requires
        valid_ymd(y as int, m as int, d as int),
        h < 24,
        mi < 60,
    ensures
        r == utc_seconds_spec(y as int, m as int, d as int, h as int, mi as int),
{
    let date = NaiveDate::from_ymd_opt(y, m, d).unwrap();
    let time = NaiveTime::from_hms_opt(h, mi, 0).unwrap();
    NaiveDateTime::new(date, time).and_utc().timestamp()
}

/// What `NaiveDate::parse_from_str` of chrono reads from a text with the
/// format `%Y-%m-%d`, as (year, month, day).
pub uninterp spec fn iso_date_of(s: Seq<char>) -> Option<(i32, u32, u32)>;

/// Calls `NaiveDate::parse_from_str` of chrono with the format `%Y-%m-%d`;
/// what it reads is named, not stated, but is always a day that exists.
#[verifier::external_body]
fn parse_iso_date(s: &str) -> (r: Option<(i32, u32, u32)>)
    ensures
        r == iso_date_of(s@),
        r matches Some(t) ==> valid_ymd(t.0 as int, t.1 as int, t.2 as int),
{
    match NaiveDate::parse_from_str(s, "%Y-%m-%d") {
        Ok(d) => Some((d.year(), d.month(), d.day())),
        Err(_) => None,
    }
}

/// What parsing `s` as an `i32` gives: an optional sign followed by at
/// least one ASCII digit, with a value that fits.
pub open spec fn parse_i32_spec(s: Seq<char>) -> Option<i32> {
    if s.len() > 0 && s[0] == '-' {
        match digit_run(s.drop_first()) {
            Some(v) => if v <= 2147483648 { Some((-(v as int)) as i32) } else { None },
            None => None,
        }
    } else {
        match digit_run(unsigned_body(s)) {
            Some(v) => if v <= i32::MAX { Some(v as i32) } else { None },
            None => None,
        }
    }
}

/// What parsing `s` as a `u32` gives.
pub open spec fn parse_u32_spec(s: Seq<char>) -> Option<u32> {
    match parse_u64_spec(s) {
        Some(v) => if v <= u32::MAX { Some(v as u32) } else { None },
        None => None,
    }
}

/// Reads a decimal `i32` as `str::parse` does.
pub fn parse_i32(s: &Vec<char>) -> (r: Option<i32>)
    ensures
        r == parse_i32_spec(s@),
{
    if s.len() > 0 && s[0] == '-' {
        proof {
            assert(s@.drop_first() =~= s@.skip(1));
        }
        match read_digits(s, 1) {
            Some(v) => if v <= 2147483648 {
                Some((0i64 - v as i64) as i32)
            } else {
                None
            },
            None => None,
        }
    } else {
        let start: usize = if s.len() > 0 && s[0] == '+' { 1 } else { 0 };
        proof {
            assert(unsigned_body(s@) =~= s@.skip(start as int));
        }
        match read_digits(s, start) {
            Some(v) => if v <= 2147483647 {
                Some(v as i32)
            } else {
                None
            },
            None => None,
        }
    }
}

/// Reads a decimal `u32` as `str::parse` does.
pub fn parse_u32(s: &Vec<char>) -> (r: Option<u32>)
    ensures
        r == parse_u32_spec(s@),
{
    match crate::legacy::parse_u64(s) {
        Some(v) => if v <= 4294967295 { Some(v as u32) } else { None },
        None => None,
    }
}

/// The hour and minute a time text gives: (0, 0) for an empty text, else
/// `h:m` with two numbers.
pub open spec fn time_fields(time: Seq<char>) -> Option<(u32, u32)> {
    if time.len() == 0 {
        Some((0, 0))
    } else {
        let q = split_on(time, ':');
        if q.len() != 2 {
            None
        } else {
            match (parse_u32_spec(q[0]), parse_u32_spec(q[1])) {
                (Some(h), Some(mi)) => Some((h, mi)),
                _ => None,
            }
        }
    }
}

/// The due time a date text `y-m-d` and a time text `h:m` (or an empty
/// one, for midnight) give, as seconds since the epoch in UTC: none when a
/// number does not read, the day or the time of day does not exist.
pub open spec fn due_time(date: Seq<char>, time: Seq<char>) -> Option<u64> {
    let p = split_on(date, '-');
    if p.len() != 3 {
        None
    } else {
        match (parse_i32_spec(p[0]), parse_u32_spec(p[1]), parse_u32_spec(p[2])) {
            (Some(y), Some(m), Some(d)) => {
                if !valid_ymd(y as int, m as int, d as int) {
                    None
                } else {
                    match time_fields(time) {
                        Some(hm) => if hm.0 < 24 && hm.1 < 60 {
                            Some(utc_seconds_spec(y as int, m as int, d as int, hm.0 as int, hm.1 as int) as u64)
                        } else {
                            None
                        },
                        None => None,
                    }
                }
            },
            _ => None,
        }
    }
}

/// The due time of a date and a time text (see `due_time`).
pub fn parse_datetime(date_str: &str, time_str: &str) -> (r: Option<u64>)
    ensures
        r == due_time(date_str@, time_str@),
{
    let dc = chars_of(date_str);
    let parts = split_chars(&dc, '-');
    proof {
        assert(vec_views(parts@).len() == parts@.len());
    }
    if parts.len() != 3 {
        return None;
    }
    proof {
        let vv = vec_views(parts@);
        assert(forall|i: int| 0 <= i < parts@.len() ==> #[trigger] vv[i] == parts@[i]@);
    }
    let year = match parse_i32(&parts[0]) {
        Some(v) => v,
        None => return None,
    };
    let month = match parse_u32(&parts[1]) {
        Some(v) => v,
        None => return None,
    };
    let day = match parse_u32(&parts[2]) {
        Some(v) => v,
        None => return None,
    };
    if !date_exists(year, month, day) {
        return None;
    }
    let tc = chars_of(time_str);
    let (hour, minute): (u32, u32) = if tc.len() == 0 {
        (0, 0)
    } else {
        let tp = split_chars(&tc, ':');
        proof {
            assert(vec_views(tp@).len() == tp@.len());
        }
        if tp.len() != 2 {
            return None;
        }
        proof {
            let tv = vec_views(tp@);
            assert(forall|i: int| 0 <= i < tp@.len() ==> #[trigger] tv[i] == tp@[i]@);
        }
        let h = match parse_u32(&tp[0]) {
            Some(v) => v,
            None => return None,
        };
        let m = match parse_u32(&tp[1]) {
            Some(v) => v,
            None => return None,
        };
        (h, m)
    };
    if !time_exists(hour, minute) {
        return None;
    }
    let t = utc_seconds(year, month, day, hour, minute);
    Some(t as u64)
}

/// The midnight (UTC) of the day a `%Y-%m-%d` text gives, as seconds since
/// the epoch; none when chrono does not read a day from it.
pub fn date_midnight(date_str: &str) -> (r: Option<u64>)
    ensures
        match iso_date_of(date_str@) {
            Some(t) => r == Some(utc_seconds_spec(t.0 as int, t.1 as int, t.2 as int, 0, 0) as u64),
            None => r is None,
        },
{
    match parse_iso_date(date_str) {
        Some((y, m, d)) => {
            let t = utc_seconds(y, m, d, 0, 0);
            Some(t as u64)
        },
        None => None,
    }
}

} // verus!
