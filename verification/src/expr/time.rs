//! Dates and times.
use crate::error::{fails, outcome, yields, Error};
use crate::text::{decimal, int_text};
use vstd::prelude::*;

verus! {

/// The first day, counted from 1970-01-01, that the calendar reaches.
pub const MIN_DAY: i32 = -96_465_292;

/// The last day, counted from 1970-01-01, that the calendar reaches.
pub const MAX_DAY: i32 = 95_026_236;

/// The days from 1970-01-01 to a date written `%Y-%m-%d`, or the message of
/// the calendar for text that is no such date.
pub uninterp spec fn ymd_days(s: Seq<char>) -> Result<i64, Seq<char>>;

/// A day, counted from 1970-01-01, written `%Y-%m-%d`.
pub uninterp spec fn ymd_text(days: i32) -> Seq<char>;

/// A time in UTC, given by the seconds from 1970-01-01 and the nanoseconds
/// within the second, written `%Y-%m-%d %H:%M:%S`; nothing for a time that the
/// calendar does not reach.
pub uninterp spec fn utc_text(secs: i64, nanos: u32) -> Option<Seq<char>>;

/// `chrono::NaiveDate::parse_from_str`, with the date as its distance in days
/// from `NaiveDate::default()`, which is 1970-01-01: it depends on the text and
/// is called `ymd_days`.
#[verifier::external_body]
fn days_of(s: &str) -> (r: Result<i64, String>)
    ensures
        match r {
            Ok(v) => crate::error::yields(ymd_days(s@), v),
            Err(m) => crate::error::fails(ymd_days(s@), m@),
        },
{
    let day = chrono::NaiveDate::parse_from_str(s, "%Y-%m-%d").map_err(|e| e.to_string())?;
    Ok(day.signed_duration_since(chrono::NaiveDate::default()).num_days())
}

/// The display of a `chrono::NaiveDate` that is some days from
/// `NaiveDate::default()`: it depends on the days and is called `ymd_text`.
/// Outside the calendar's range the addition panics.
#[verifier::external_body]
fn text_of_day(days: i32) -> (s: String)
    requires
        MIN_DAY <= days <= MAX_DAY,
    ensures
        s@ == ymd_text(days),
{
    let day = chrono::NaiveDate::default() + chrono::Duration::days(i64::from(days));
    day.format("%Y-%m-%d").to_string()
}

/// `chrono::Utc::timestamp_opt`, displayed: it depends on the two numbers and
/// is called `utc_text`.
#[verifier::external_body]
fn text_of_time(secs: i64, nanos: u32) -> (r: Option<String>)
    ensures
        match r {
            Some(s) => utc_text(secs, nanos) == Some(s@),
            None => utc_text(secs, nanos) is None,
        },
{
    let at = chrono::TimeZone::timestamp_opt(&chrono::Utc, secs, nanos).single();
    at.map(|t| t.format("%Y-%m-%d %H:%M:%S").to_string())
}

/// The day that a date literal stands for, or what is wrong with it.
pub open spec fn date_literal(s: Seq<char>) -> Result<i32, Seq<char>> {
    date_result(s, ymd_days(s))
}

/// The day that a date literal stands for, given what the calendar makes of it.
pub open spec fn date_result(s: Seq<char>, days: Result<i64, Seq<char>>) -> Result<i32, Seq<char>> {
    match days {
        Ok(v) => Ok(v as i32),
        Err(m) => Err("bad date '"@ + s + "': "@ + m),
    }
}

/// Reads a date literal as the days from 1970-01-01.
pub fn parse_date_lit(s: &str) -> (r: Result<i32, Error>)
    ensures
        outcome(r) == date_literal(s@),
{
    let days = days_of(s);
    finish_date(s, days)
}

/// Turns what the calendar makes of a date literal into a day or an error.
pub fn finish_date(s: &str, days: Result<i64, String>) -> (r: Result<i32, Error>)
    ensures
        outcome(r) == date_result(
            s@,
            match days {
                Ok(v) => Ok(v),
                Err(m) => Err(m@),
            },
        ),
{
    match days {
        Ok(v) => Ok(v as i32),
        Err(m) => {
            let mut t = crate::text::join3("bad date '", s, "': ");
            t.append(m.as_str());
            Err(Error::Msg(t))
        },
    }
}

/// A day as a date.
pub fn format_date_days(days: i32) -> (s: String)
    requires
        MIN_DAY <= days <= MAX_DAY,
    ensures
        s@ == ymd_text(days),
{
    text_of_day(days)
}

/// A time in microseconds as text: a date and a time of day, or the number
/// itself where the calendar does not reach it.
pub open spec fn timestamp_text(micros: i64) -> Seq<char> {
    timestamp_result(
        micros,
        utc_text((micros as int / 1_000_000) as i64, ((micros as int % 1_000_000) * 1_000) as u32),
    )
}

/// A time in microseconds as text, given what the calendar makes of it.
pub open spec fn timestamp_result(micros: i64, shown: Option<Seq<char>>) -> Seq<char> {
    match shown {
        Some(s) => s,
        None => decimal(micros as int),
    }
}

/// A time in microseconds as text.
pub fn format_timestamp_micros(micros: i64) -> (s: String)
    ensures
        s@ == timestamp_text(micros),
{
    let secs: i64 = micros.checked_div_euclid(1_000_000).unwrap();
    let within: i64 = micros.checked_rem_euclid(1_000_000).unwrap();
    let nanos: u32 = (within * 1_000) as u32;
    finish_timestamp(micros, text_of_time(secs, nanos))
}

/// Chooses the text of a time, given what the calendar makes of it.
pub fn finish_timestamp(micros: i64, shown: Option<String>) -> (s: String)
    ensures
        s@ == timestamp_result(
            micros,
            match shown {
                Some(t) => Some(t@),
                None => None,
            },
        ),
{
    match shown {
        Some(t) => t,
        None => int_text(micros as i128),
    }
}

/// The minute of the hour of a time in microseconds.
pub open spec fn minute_of_hour(micros: int) -> int {
    micros / 60_000_000 % 60
}

/// The minute of the hour, 0 to 59, of a time in microseconds.
pub fn event_time_minute_of_hour(micros: i64) -> (m: i64)
    ensures
        m == minute_of_hour(micros as int),
        0 <= m <= 59,
{
    let minutes: i64 = micros.checked_div_euclid(60_000_000).unwrap();
    minutes.checked_rem_euclid(60).unwrap()
}

/// The shift from UTC to the zone in which time buckets are shown.
pub const BUCKET_ZONE_MICROS: i64 = 25_200_000_000;

/// A time bucket as text: seven hours behind UTC.
pub fn format_timestamp_micros_trunc(micros: i64) -> (s: String)
    requires
        micros >= i64::MIN + BUCKET_ZONE_MICROS,
    ensures
        s@ == timestamp_text((micros - BUCKET_ZONE_MICROS) as i64),
{
    format_timestamp_micros(micros - BUCKET_ZONE_MICROS)
}

/// The minute of the hour is one of sixty, and the time lies within it, a whole number of
/// hours on.
pub proof fn law_minute_of_hour(micros: int) -> (hours: int)
    ensures
        0 <= minute_of_hour(micros) < 60,
        (hours * 60 + minute_of_hour(micros)) * 60_000_000 <= micros < (hours * 60
            + minute_of_hour(micros) + 1) * 60_000_000,
{
    micros / 60_000_000 / 60
}

/// A date literal stands for the day that the calendar gives, as far as such a day can be
/// held, and is refused with the reason where the calendar gives none.
pub proof fn law_date_literal(s: Seq<char>, days: i64, m: Seq<char>)
    ensures
        yields(ymd_days(s), days) && i32::MIN <= days <= i32::MAX ==> yields(
            date_literal(s),
            days as i32,
        ),
        fails(ymd_days(s), m) ==> fails(date_literal(s), "bad date '"@ + s + "': "@ + m),
{
}

/// The text of a time is that of its second, with the rest of the time as nanoseconds; a time
/// that the calendar does not reach is shown as its number.
pub proof fn law_timestamp_text(micros: i64, secs: i64, nanos: u32)
    requires
        secs * 1_000_000_000 + nanos == micros * 1_000,
        nanos < 1_000_000_000,
    ensures
        utc_text(secs, nanos) matches Some(s) ==> timestamp_text(micros) == s,
        utc_text(secs, nanos) is None ==> timestamp_text(micros) == decimal(micros as int),
{
    assert(micros as int / 1_000_000 == secs);
    assert(micros as int % 1_000_000 * 1_000 == nanos);
}

} // verus!
