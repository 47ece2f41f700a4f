use vstd::prelude::*;
use chrono::{Datelike, Timelike};
use crate::number::{digit, is_digit};
use crate::text::string_of;
use crate::value::{value_model, LocalDate, LocalDateTime, LocalTime, OffsetDateTime, Value, ValueModel};

verus! {

/// What chrono reads from an RFC 3339 date-time: year, month, day, hour, minute, second,
/// nanosecond and the offset from UTC in seconds.
pub uninterp spec fn rfc3339_fields(t: Seq<char>) -> Option<(i32, u32, u32, u32, u32, u32, u32, i32)>;

/// What chrono reads from a local date-time in the form `%Y-%m-%dT%H:%M:%S%.f`.
pub uninterp spec fn naive_datetime_fields(t: Seq<char>) -> Option<(i32, u32, u32, u32, u32, u32, u32)>;

/// What chrono reads from a local date in the form `%Y-%m-%d`.
pub uninterp spec fn naive_date_fields(t: Seq<char>) -> Option<(i32, u32, u32)>;

/// What chrono reads from a local time in the form `%H:%M:%S%.f`.
pub uninterp spec fn naive_time_fields(t: Seq<char>) -> Option<(u32, u32, u32, u32)>;

/// Relies on chrono's DateTime::parse_from_rfc3339, read through the Datelike and Timelike
/// accessors and FixedOffset::local_minus_utc.
#[verifier::external_body]
fn parse_rfc3339(t: &str) -> (r: Option<(i32, u32, u32, u32, u32, u32, u32, i32)>)
    ensures
        r == rfc3339_fields(t@),
{
    match chrono::DateTime::parse_from_rfc3339(t) {
        Ok(d) => Some((d.year(), d.month(), d.day(), d.hour(), d.minute(), d.second(), d.nanosecond(), d.offset().local_minus_utc())),
        Err(_) => None,
    }
}

/// Relies on chrono's NaiveDateTime::parse_from_str with the format `%Y-%m-%dT%H:%M:%S%.f`,
/// read through the Datelike and Timelike accessors.
#[verifier::external_body]
fn parse_naive_datetime(t: &str) -> (r: Option<(i32, u32, u32, u32, u32, u32, u32)>)
    ensures
        r == naive_datetime_fields(t@),
{
    match chrono::NaiveDateTime::parse_from_str(t, "%Y-%m-%dT%H:%M:%S%.f") {
        Ok(d) => Some((d.year(), d.month(), d.day(), d.hour(), d.minute(), d.second(), d.nanosecond())),
        Err(_) => None,
    }
}

/// Relies on chrono's NaiveDate::parse_from_str with the format `%Y-%m-%d`, read through the
/// Datelike accessors.
#[verifier::external_body]
fn parse_naive_date(t: &str) -> (r: Option<(i32, u32, u32)>)
    ensures
        r == naive_date_fields(t@),
{
    match chrono::NaiveDate::parse_from_str(t, "%Y-%m-%d") {
        Ok(d) => Some((d.year(), d.month(), d.day())),
        Err(_) => None,
    }
}

/// Relies on chrono's NaiveTime::parse_from_str with the format `%H:%M:%S%.f`, read through the
/// Timelike accessors.
#[verifier::external_body]
fn parse_naive_time(t: &str) -> (r: Option<(u32, u32, u32, u32)>)
    ensures
        r == naive_time_fields(t@),
{
    match chrono::NaiveTime::parse_from_str(t, "%H:%M:%S%.f") {
        Ok(d) => Some((d.hour(), d.minute(), d.second(), d.nanosecond())),
        Err(_) => None,
    }
}

pub open spec fn date_from(f: (i32, u32, u32)) -> LocalDate {
    LocalDate { year: f.0, month: f.1, day: f.2 }
}

pub open spec fn time_from(f: (u32, u32, u32, u32)) -> LocalTime {
    LocalTime { hour: f.0, minute: f.1, second: f.2, nanosecond: f.3 }
}

pub open spec fn datetime_from(f: (i32, u32, u32, u32, u32, u32, u32)) -> LocalDateTime {
    LocalDateTime { date: date_from((f.0, f.1, f.2)), time: time_from((f.3, f.4, f.5, f.6)) }
}

pub open spec fn offset_datetime_from(f: (i32, u32, u32, u32, u32, u32, u32, i32)) -> OffsetDateTime {
    OffsetDateTime {
        date: date_from((f.0, f.1, f.2)),
        time: time_from((f.3, f.4, f.5, f.6)),
        offset_seconds: f.7,
    }
}

/// Reads a whole text as an RFC 3339 date-time with an offset.
pub fn offset_datetime(text: &str) -> (r: Option<OffsetDateTime>)
    ensures
        r == match rfc3339_fields(text@) {
            Some(f) => Some(offset_datetime_from(f)),
            None => None,
        },
{
    match parse_rfc3339(text) {
        Some(f) => Some(
            OffsetDateTime {
                date: LocalDate { year: f.0, month: f.1, day: f.2 },
                time: LocalTime { hour: f.3, minute: f.4, second: f.5, nanosecond: f.6 },
                offset_seconds: f.7,
            },
        ),
        None => None,
    }
}

/// Reads a whole text as a local date-time, `YYYY-MM-DDTHH:MM:SS` with optional fractional
/// seconds.
pub fn local_datetime(text: &str) -> (r: Option<LocalDateTime>)
    ensures
        r == match naive_datetime_fields(text@) {
            Some(f) => Some(datetime_from(f)),
            None => None,
        },
{
    match parse_naive_datetime(text) {
        Some(f) => Some(
            LocalDateTime {
                date: LocalDate { year: f.0, month: f.1, day: f.2 },
                time: LocalTime { hour: f.3, minute: f.4, second: f.5, nanosecond: f.6 },
            },
        ),
        None => None,
    }
}

/// Reads a whole text as a local date, `YYYY-MM-DD`.
pub fn local_date(text: &str) -> (r: Option<LocalDate>)
    ensures
        r == match naive_date_fields(text@) {
            Some(f) => Some(date_from(f)),
            None => None,
        },
{
    match parse_naive_date(text) {
        Some(f) => Some(LocalDate { year: f.0, month: f.1, day: f.2 }),
        None => None,
    }
}

/// Reads a whole text as a local time, `HH:MM:SS` with optional fractional seconds.
pub fn local_time(text: &str) -> (r: Option<LocalTime>)
    ensures
        r == match naive_time_fields(text@) {
            Some(f) => Some(time_from(f)),
            None => None,
        },
{
    match parse_naive_time(text) {
        Some(f) => Some(LocalTime { hour: f.0, minute: f.1, second: f.2, nanosecond: f.3 }),
        None => None,
    }
}

/// The characters that a date-time token is made of.
pub open spec fn is_datetime_char(c: char) -> bool {
    is_digit(c, 10) || c == '-' || c == ':' || c == '.' || c == '+' || c == 'T' || c == 't'
        || c == 'Z' || c == 'z'
}

/// The end of the run of date-time characters from `i`.
pub open spec fn datetime_end(s: Seq<char>, i: int) -> int
    decreases s.len() - i,
{
    if 0 <= i < s.len() && is_datetime_char(s[i]) {
        datetime_end(s, i + 1)
    } else {
        i
    }
}

/// The date-time at `i`: the run of date-time characters there, read in turn as an offset
/// date-time, a local date-time, a local date and a local time; the first reading that succeeds
/// is the value. `None` where the run does not start with a digit or no reading succeeds.
pub open spec fn spec_datetime(s: Seq<char>, i: int) -> Option<(ValueModel, usize)> {
    if 0 <= i < s.len() && is_digit(s[i], 10) {
        let e = datetime_end(s, i);
        let t = s.subrange(i, e);
        if rfc3339_fields(t) is Some {
            Some((ValueModel::OffsetDateTime(offset_datetime_from(rfc3339_fields(t)->Some_0)), e as usize))
        } else if naive_datetime_fields(t) is Some {
            Some((ValueModel::LocalDateTime(datetime_from(naive_datetime_fields(t)->Some_0)), e as usize))
        } else if naive_date_fields(t) is Some {
            Some((ValueModel::LocalDate(date_from(naive_date_fields(t)->Some_0)), e as usize))
        } else if naive_time_fields(t) is Some {
            Some((ValueModel::LocalTime(time_from(naive_time_fields(t)->Some_0)), e as usize))
        } else {
            None
        }
    } else {
        None
    }
}

proof fn lemma_datetime_end(s: Seq<char>, i: int)
    requires
        0 <= i <= s.len(),
    ensures
        i <= datetime_end(s, i) <= s.len(),
    decreases s.len() - i,
{
    if i < s.len() && is_datetime_char(s[i]) {
        lemma_datetime_end(s, i + 1);
    }
}

fn datetime_char(c: char) -> (r: bool)
    ensures
        r == is_datetime_char(c),
{
    digit(c) < 10 || c == '-' || c == ':' || c == '.' || c == '+' || c == 'T' || c == 't' || c == 'Z'
        || c == 'z'
}

/// Parses the date-time at `i`.
pub fn datetime(s: &Vec<char>, i: usize) -> (r: Option<(Value, usize)>)
    requires
        i <= s@.len(),
    ensures
        match (r, spec_datetime(s@, i as int)) {
            (Some((v, e)), Some((m, f))) => value_model(v) == m && e == f && i < e <= s@.len(),
            (None, None) => true,
            _ => false,
        },
{
    let n = s.len();
    if !(i < n && digit(s[i]) < 10) {
        return None;
    }
    proof {
        lemma_datetime_end(s@, i as int);
    }
    let mut e = i;
    while e < n && datetime_char(s[e])
        invariant
            i <= e <= n,
            n == s@.len(),
            datetime_end(s@, e as int) == datetime_end(s@, i as int),
        decreases n - e,
    {
        e = e + 1;
    }
    let t = string_of(s, i, e);
    let ts = t.as_str();
    if let Some(d) = offset_datetime(ts) {
        return Some((Value::OffsetDateTime(d), e));
    }
    if let Some(d) = local_datetime(ts) {
        return Some((Value::LocalDateTime(d), e));
    }
    if let Some(d) = local_date(ts) {
        return Some((Value::LocalDate(d), e));
    }
    if let Some(d) = local_time(ts) {
        return Some((Value::LocalTime(d), e));
    }
    None
}

} // verus!
