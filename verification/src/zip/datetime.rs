//! MS-DOS dates and times, as ZIP headers store them.
//!
//! A date is a 16-bit word: bits 0 to 4 hold the day of the month, bits 5 to
//! 8 the month and bits 9 to 15 the year, counted from 1980. A time is a
//! 16-bit word: bits 0 to 4 hold the seconds divided by two, bits 5 to 10
//! the minutes and bits 11 to 15 the hours.
//!
//! The years that fit are 1980 to 2107. Every fourth of them is a leap year
//! but 2100.

use vstd::prelude::*;

use super::ZipError;
use crate::utils::{agrees, le_u16, spec_le_u16, Outcome, ParseError};

verus! {

/// Seconds in a day; leap seconds are not counted.
pub const SECONDS_PER_DAY: u64 = 86_400;

/// Days from 1970-01-01 to 1980-01-01.
pub const EPOCH_DIFF_DAYS: u64 = 3_652;

/// The year 1980 + `year` has a 29th of February.
pub open spec fn is_leap_year(year: int) -> bool {
    year % 4 == 0 && year != 120
}

/// The number of days of the year 1980 + `year`.
pub open spec fn days_in_year(year: int) -> int {
    if is_leap_year(year) {
        366
    } else {
        365
    }
}

/// The number of days of month `month` (1 to 12) of the year 1980 + `year`.
pub open spec fn days_in_month(year: int, month: int) -> int {
    if month == 2 {
        if is_leap_year(year) {
            29
        } else {
            28
        }
    } else if month == 4 || month == 6 || month == 9 || month == 11 {
        30
    } else {
        31
    }
}

/// `day`.`month`.(1980 + `year`) is a day of the calendar that an MS-DOS date
/// can hold.
pub open spec fn valid_date(year: int, month: int, day: int) -> bool {
    &&& 0 <= year < 128
    &&& 1 <= month <= 12
    &&& 1 <= day <= days_in_month(year, month)
}

/// The days from 1980-01-01 to the first day of the year 1980 + `year`.
pub open spec fn days_before_year(year: nat) -> int
    decreases year,
{
    if year == 0 {
        0
    } else {
        days_before_year((year - 1) as nat) + days_in_year(year - 1)
    }
}

/// The days from the first day of the year 1980 + `year` to the first day of
/// its month `month`.
pub open spec fn days_before_month(year: int, month: nat) -> int
    decreases month,
{
    if month <= 1 {
        0
    } else {
        days_before_month(year, (month - 1) as nat) + days_in_month(year, month - 1)
    }
}

/// The days from 1980-01-01 to the given day.
pub open spec fn days_since_epoch(year: nat, month: nat, day: nat) -> int {
    days_before_year(year) + days_before_month(year as int, month) + day - 1
}

/// The year, counted from 1980 and not below `from`, that holds the day
/// `days` days after 1980-01-01.
pub open spec fn year_of_days(days: int, from: nat) -> nat
    decreases 128 - from,
{
    if from >= 127 || days < days_before_year(from + 1) {
        from
    } else {
        year_of_days(days, from + 1)
    }
}

/// The month, not below `from`, that holds day number `day_of_year` (from 0)
/// of the year 1980 + `year`.
pub open spec fn month_of_days(year: int, day_of_year: int, from: nat) -> nat
    decreases 13 - from,
{
    if from >= 12 || day_of_year < days_before_month(year, from + 1) {
        from
    } else {
        month_of_days(year, day_of_year, from + 1)
    }
}

/// The calendar day (year from 1980, month, day) that lies `days` days after
/// 1980-01-01.
pub open spec fn date_of_days(days: int) -> (nat, nat, nat) {
    let year = year_of_days(days, 0);
    let day_of_year = days - days_before_year(year);
    let month = month_of_days(year as int, day_of_year, 1);
    (year, month, (day_of_year - days_before_month(year as int, month) + 1) as nat)
}

/// The hour, minute and second name a second of the day.
pub open spec fn valid_time(hours: int, minutes: int, seconds: int) -> bool {
    &&& 0 <= hours < 24
    &&& 0 <= minutes < 60
    &&& 0 <= seconds < 60
}

/// The seconds from midnight to the given second of the day.
pub open spec fn seconds_of_day(hours: int, minutes: int, seconds: int) -> int {
    (hours * 60 + minutes) * 60 + seconds
}

/// The hour, minute and second that lie `seconds` seconds after midnight.
pub open spec fn time_of_seconds(seconds: int) -> (int, int, int) {
    (seconds / 3600, (seconds / 60) % 60, seconds % 60)
}

/// The fields (year from 1980, month, day) of an MS-DOS date word.
pub open spec fn date_fields(word: u16) -> (u16, u16, u16) {
    ((word / 512) as u16, ((word / 32) % 16) as u16, (word % 32) as u16)
}

/// The fields (hours, minutes, seconds) of an MS-DOS time word.
pub open spec fn time_fields(word: u16) -> (u16, u16, u16) {
    ((word / 2048) as u16, ((word / 32) % 64) as u16, ((word % 32) * 2) as u16)
}

/// The MS-DOS date word with the given fields.
pub open spec fn date_word(year: int, month: int, day: int) -> int {
    year * 512 + month * 32 + day
}

/// The MS-DOS time word with the given fields; it keeps every other second.
pub open spec fn time_word(hours: int, minutes: int, seconds: int) -> int {
    hours * 2048 + minutes * 32 + seconds / 2
}

/// The seconds from 1970-01-01T00:00:00 to the moment that the two words
/// name.
pub open spec fn unix_seconds(time: u16, date: u16) -> int {
    let (hours, minutes, seconds) = time_fields(time);
    let (year, month, day) = date_fields(date);
    (EPOCH_DIFF_DAYS + days_since_epoch(year as nat, month as nat, day as nat)) * SECONDS_PER_DAY
        + seconds_of_day(hours as int, minutes as int, seconds as int)
}

/// Both words hold fields in range.
pub open spec fn valid_datetime(time: u16, date: u16) -> bool {
    let (hours, minutes, seconds) = time_fields(time);
    let (year, month, day) = date_fields(date);
    valid_time(hours as int, minutes as int, seconds as int) && valid_date(
        year as int,
        month as int,
        day as int,
    )
}

/// A time word and a date word, both little-endian, as seconds since
/// 1970-01-01T00:00:00.
pub open spec fn spec_msdos_datetime(s: Seq<u8>) -> Outcome<u64, ZipError> {
    match spec_le_u16::<ZipError>(s) {
        Err(e) => Err(e),
        Ok((behind, time)) => match spec_le_u16::<ZipError>(behind) {
            Err(e) => Err(e),
            Ok((rest, date)) => if valid_datetime(time, date) {
                Ok((rest, unix_seconds(time, date) as u64))
            } else {
                Err(ParseError::Failure(ZipError::InvalidDateOrTime))
            },
        },
    }
}

/// A little-endian date word as days since 1980-01-01.
pub open spec fn spec_msdos_date(s: Seq<u8>) -> Outcome<u16, ZipError> {
    match spec_le_u16::<ZipError>(s) {
        Err(e) => Err(e),
        Ok((behind, date)) => {
            let (year, month, day) = date_fields(date);
            if valid_date(year as int, month as int, day as int) {
                Ok((behind, days_since_epoch(year as nat, month as nat, day as nat) as u16))
            } else {
                Err(ParseError::Failure(ZipError::InvalidDateOrTime))
            }
        },
    }
}

/// A little-endian time word as seconds since midnight.
pub open spec fn spec_msdos_time(s: Seq<u8>) -> Outcome<u32, ZipError> {
    match spec_le_u16::<ZipError>(s) {
        Err(e) => Err(e),
        Ok((behind, time)) => {
            let (hours, minutes, seconds) = time_fields(time);
            if valid_time(hours as int, minutes as int, seconds as int) {
                Ok((behind, seconds_of_day(hours as int, minutes as int, seconds as int) as u32))
            } else {
                Err(ParseError::Failure(ZipError::InvalidDateOrTime))
            }
        },
    }
}

/// The days before a year, in closed form: 365 for each year, one more for
/// each leap year gone by, 2100 not being one.
pub proof fn lemma_days_before_year(year: nat)
    ensures
        days_before_year(year) == 365 * year + (year + 3) / 4 - (if year > 120 {
            1int
        } else {
            0int
        }),
    decreases year,
{
    if year > 0 {
        lemma_days_before_year((year - 1) as nat);
    }
}

/// The days before a month, in closed form.
pub proof fn lemma_days_before_month(year: int, month: nat)
    requires
        1 <= month <= 13,
    ensures
        days_before_month(year, month) == common_days_before_month(month as int) + (if month > 2
            && is_leap_year(year) {
            1int
        } else {
            0int
        }),
    decreases month,
{
    if month > 1 {
        lemma_days_before_month(year, (month - 1) as nat);
    }
}

/// The days of a common year that lie before month `month`.
pub open spec fn common_days_before_month(month: int) -> int {
    if month <= 1 {
        0
    } else if month == 2 {
        31
    } else if month == 3 {
        59
    } else if month == 4 {
        90
    } else if month == 5 {
        120
    } else if month == 6 {
        151
    } else if month == 7 {
        181
    } else if month == 8 {
        212
    } else if month == 9 {
        243
    } else if month == 10 {
        273
    } else if month == 11 {
        304
    } else if month == 12 {
        334
    } else {
        365
    }
}

/// Years do not overlap: a later year starts after the earlier one has ended.
pub proof fn lemma_years_in_order(earlier: nat, later: nat)
    requires
        earlier < later,
    ensures
        days_before_year(earlier) + days_in_year(earlier as int) <= days_before_year(later),
{
    lemma_days_before_year(earlier);
    lemma_days_before_year(later);
    lemma_days_before_year(earlier + 1);
}

/// `year_of_days` finds the year whose days include `days`.
pub proof fn lemma_year_of_days(days: int, from: nat, year: nat)
    requires
        from <= year < 128,
        days_before_year(year) <= days < days_before_year(year) + days_in_year(year as int),
    ensures
        year_of_days(days, from) == year,
    decreases year - from,
{
    if from < year {
        if from + 1 < year {
            lemma_years_in_order(from + 1, year);
        }
        assert(days_before_year(from + 1) <= days);
        lemma_year_of_days(days, from + 1, year);
    } else {
        assert(days_before_year(year + 1) == days_before_year(year) + days_in_year(year as int));
    }
}

/// `month_of_days` finds the month whose days include `day_of_year`.
pub proof fn lemma_month_of_days(year: int, day_of_year: int, from: nat, month: nat)
    requires
        1 <= from <= month <= 12,
        days_before_month(year, month) <= day_of_year < days_before_month(year, month)
            + days_in_month(year, month as int),
    ensures
        month_of_days(year, day_of_year, from) == month,
    decreases month - from,
{
    lemma_days_before_month(year, month);
    lemma_days_before_month(year, from + 1);
    if from < month {
        lemma_month_of_days(year, day_of_year, from + 1, month);
    } else {
        assert(days_before_month(year, month + 1) == days_before_month(year, month)
            + days_in_month(year, month as int));
    }
}

/// Every day that an MS-DOS date can hold is found again from its day
/// number: counting the days to a date and reading the date off the count
/// gives the date back.
pub proof fn lemma_date_round_trip(year: nat, month: nat, day: nat)
    requires
        valid_date(year as int, month as int, day as int),
    ensures
        0 <= days_since_epoch(year, month, day) <= 0xffff,
        date_of_days(days_since_epoch(year, month, day)) == (year, month, day),
{
    let days = days_since_epoch(year, month, day);
    lemma_days_before_year(year);
    lemma_days_before_month(year as int, month);
    lemma_days_before_month(year as int, month + 1);
    assert(days_before_month(year as int, month + 1) == days_before_month(year as int, month)
        + days_in_month(year as int, month as int));
    lemma_year_of_days(days, 0, year);
    lemma_month_of_days(year as int, days - days_before_year(year), 1, month);
}

/// Every second of the day is found again from its number.
pub proof fn lemma_time_round_trip(hours: int, minutes: int, seconds: int)
    requires
        valid_time(hours, minutes, seconds),
    ensures
        0 <= seconds_of_day(hours, minutes, seconds) < 86_400,
        time_of_seconds(seconds_of_day(hours, minutes, seconds)) == (hours, minutes, seconds),
{
    let t = seconds_of_day(hours, minutes, seconds);
    assert(t == hours * 3600 + minutes * 60 + seconds);
    assert(t / 3600 == hours && (t / 60) % 60 == minutes && t % 60 == seconds) by {
        assert(t / 60 == hours * 60 + minutes);
    }
}

/// The fields of a date come back out of the word they were packed into.
pub proof fn lemma_date_word_round_trip(year: int, month: int, day: int)
    requires
        0 <= year < 128,
        0 <= month < 16,
        0 <= day < 32,
    ensures
        0 <= date_word(year, month, day) <= 0xffff,
        date_fields(date_word(year, month, day) as u16) == (year as u16, month as u16, day as u16),
{
}

/// The fields of a time come back out of the word they were packed into, the
/// seconds rounded down to an even number.
pub proof fn lemma_time_word_round_trip(hours: int, minutes: int, seconds: int)
    requires
        0 <= hours < 32,
        0 <= minutes < 64,
        0 <= seconds < 64,
    ensures
        0 <= time_word(hours, minutes, seconds) <= 0xffff,
        time_fields(time_word(hours, minutes, seconds) as u16) == (
            hours as u16,
            minutes as u16,
            (seconds - seconds % 2) as u16,
        ),
{
}

/// The days of a common year that lie before month `month` (1 to 12).
fn common_days_before(month: u16) -> (days: u16)
    requires
        1 <= month <= 12,
    ensures
        days == common_days_before_month(month as int),
{
    if month == 1 {
        0
    } else if month == 2 {
        31
    } else if month == 3 {
        59
    } else if month == 4 {
        90
    } else if month == 5 {
        120
    } else if month == 6 {
        151
    } else if month == 7 {
        181
    } else if month == 8 {
        212
    } else if month == 9 {
        243
    } else if month == 10 {
        273
    } else if month == 11 {
        304
    } else {
        334
    }
}

/// The days of month `month` (1 to 12) in a common year.
fn common_days_in(month: u16) -> (days: u16)
    requires
        1 <= month <= 12,
    ensures
        days == days_in_month(1, month as int),
{
    if month == 2 {
        28
    } else if month == 4 || month == 6 || month == 9 || month == 11 {
        30
    } else {
        31
    }
}

/// The full days from 1980-01-01 to the given day. The year counts from
/// 1980 (0 to 127), month and day from 1. A day that the calendar does not
/// have, the 29th of February 2100 among them, is an error.
pub fn days_since_msdos_epoch(msdos_year: u16, month: u16, day: u16) -> (r: Result<u16, ()>)
    ensures
        valid_date(msdos_year as int, month as int, day as int) ==> r == Ok::<u16, ()>(
            days_since_epoch(msdos_year as nat, month as nat, day as nat) as u16,
        ),
        !valid_date(msdos_year as int, month as int, day as int) ==> r == Err::<u16, ()>(()),
        r is Ok ==> r->Ok_0 == days_since_epoch(msdos_year as nat, month as nat, day as nat),
{
    if msdos_year >= 128 {
        return Err(());
    }
    if month == 0 || month > 12 {
        return Err(());
    }
    if day == 0 {
        return Err(());
    }
    let year: u16 = 1980 + msdos_year;

    // The 29th of February exists every fourth year, but not in 2100.
    let is_leap_day: bool = year % 4 == 0 && month == 2 && day == 29;
    if is_leap_day && year == 2100 {
        return Err(());
    }
    let leap_month_correction: u16 = if is_leap_day {
        1
    } else {
        0
    };
    if day > common_days_in(month) + leap_month_correction {
        return Err(());
    }
    // Has the leap day of the current four-year cycle gone by?
    let is_after_leap: bool = year % 4 > 0 || month > 2;
    let after_leap_correction: u16 = if is_after_leap {
        1
    } else {
        0
    };
    // Has the leap day that 2100 skips gone by?
    let is_after_skip: bool = year > 2100 || (year == 2100 && is_after_leap);
    let skip_leap_correction: u16 = if is_after_skip {
        1
    } else {
        0
    };
    let leap_days_since_epoch: u16 = msdos_year / 4 + after_leap_correction - skip_leap_correction;
    let non_leap_days_since_epoch: u16 = msdos_year * 365 + common_days_before(month) + (day - 1);
    proof {
        lemma_days_before_year(msdos_year as nat);
        lemma_days_before_month(msdos_year as int, month as nat);
    }
    Ok(non_leap_days_since_epoch + leap_days_since_epoch)
}

/// The seconds from midnight to the given second of the day. A field out of
/// range is an error.
pub fn seconds_since_midnight(hours: u16, minutes: u16, seconds: u16) -> (r: Result<u32, ()>)
    ensures
        valid_time(hours as int, minutes as int, seconds as int) ==> r == Ok::<u32, ()>(
            seconds_of_day(hours as int, minutes as int, seconds as int) as u32,
        ),
        !valid_time(hours as int, minutes as int, seconds as int) ==> r == Err::<u32, ()>(()),
        r is Ok ==> r->Ok_0 == seconds_of_day(hours as int, minutes as int, seconds as int),
{
    if hours >= 24 {
        return Err(());
    }
    if minutes >= 60 {
        return Err(());
    }
    if seconds >= 60 {
        return Err(());
    }
    let total_minutes: u32 = minutes as u32 + hours as u32 * 60;
    let total_seconds: u32 = seconds as u32 + total_minutes * 60;
    Ok(total_seconds)
}

/// Splits an MS-DOS date word into (years since 1980, month, day). The
/// fields are not checked.
pub fn parse_msdos_date_bits(i: u16) -> (r: (u16, u16, u16))
    ensures
        r == date_fields(i),
        r.0 < 128 && r.1 < 16 && r.2 < 32,
{
    let days: u16 = i % 32;
    let months: u16 = (i / 32) % 16;
    let years: u16 = i / 512;
    (years, months, days)
}

/// Splits an MS-DOS time word into (hours, minutes, seconds). The fields are
/// not checked; the seconds are even.
pub fn parse_msdos_time_bits(i: u16) -> (r: (u16, u16, u16))
    ensures
        r == time_fields(i),
        r.0 < 32 && r.1 < 64 && r.2 < 64,
{
    let seconds: u16 = i % 32;
    let minutes: u16 = (i / 32) % 64;
    let hours: u16 = i / 2048;
    (hours, minutes, seconds * 2)
}

/// Reads a little-endian date word and returns the days since 1980-01-01.
pub fn parse_msdos_date(i: &[u8]) -> (r: Result<(&[u8], u16), ParseError<ZipError>>)
    ensures
        agrees(r, spec_msdos_date(i@)),
{
    let (i, date) = match le_u16::<ZipError>(i) {
        Ok(x) => x,
        Err(e) => {
            return Err(e);
        },
    };
    let (years, months, days) = parse_msdos_date_bits(date);
    match days_since_msdos_epoch(years, months, days) {
        Ok(epoch_days) => Ok((i, epoch_days)),
        Err(_) => Err(ParseError::Failure(ZipError::InvalidDateOrTime)),
    }
}

/// Reads a little-endian time word and returns the seconds since midnight.
pub fn parse_msdos_time(i: &[u8]) -> (r: Result<(&[u8], u32), ParseError<ZipError>>)
    ensures
        agrees(r, spec_msdos_time(i@)),
{
    let (i, time) = match le_u16::<ZipError>(i) {
        Ok(x) => x,
        Err(e) => {
            return Err(e);
        },
    };
    let (hours, minutes, seconds) = parse_msdos_time_bits(time);
    match seconds_since_midnight(hours, minutes, seconds) {
        Ok(seconds) => Ok((i, seconds)),
        Err(_) => Err(ParseError::Failure(ZipError::InvalidDateOrTime)),
    }
}

/// Reads a time word and a date word and returns the moment they name, in
/// seconds since 1970-01-01T00:00:00.
pub fn parse_msdos_datetime(i: &[u8]) -> (r: Result<(&[u8], u64), ParseError<ZipError>>)
    ensures
        agrees(r, spec_msdos_datetime(i@)),
{
    let (i, msdos_time) = match le_u16::<ZipError>(i) {
        Ok(x) => x,
        Err(e) => {
            return Err(e);
        },
    };
    let (i, msdos_date) = match le_u16::<ZipError>(i) {
        Ok(x) => x,
        Err(e) => {
            return Err(e);
        },
    };
    let (hours, minutes, seconds) = parse_msdos_time_bits(msdos_time);
    let (years, months, days) = parse_msdos_date_bits(msdos_date);
    let seconds: u32 = match seconds_since_midnight(hours, minutes, seconds) {
        Ok(s) => s,
        Err(_) => {
            return Err(ParseError::Failure(ZipError::InvalidDateOrTime));
        },
    };
    let epoch_days: u16 = match days_since_msdos_epoch(years, months, days) {
        Ok(d) => d,
        Err(_) => {
            return Err(ParseError::Failure(ZipError::InvalidDateOrTime));
        },
    };
    proof {
        lemma_date_round_trip(years as nat, months as nat, days as nat);
    }
    Ok((i, (EPOCH_DIFF_DAYS + epoch_days as u64) * SECONDS_PER_DAY + seconds as u64))
}

} // verus!
