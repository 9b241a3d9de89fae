//! When a backup was made, in words.

use vstd::prelude::*;
use vstd::string::*;
use vstd::utf8::*;

use crate::decimal::decimal;

verus! {

/// A minute on the calendar and the clock, both local.
#[derive(Clone, Copy, Debug, PartialEq, Eq, Structural)]
pub struct Moment {
    pub year: i32,
    pub month: u32,
    pub day: u32,
    pub hour: u32,
    pub minute: u32,
}

/// Whether a year has a 29th of February.
pub open spec fn leap(year: int) -> bool {
    year % 4 == 0 && (year % 100 != 0 || year % 400 == 0)
}

/// How many days a month has.
pub open spec fn month_days(year: int, month: int) -> int {
    if month == 2 {
        if leap(year) {
            29
        } else {
            28
        }
    } else if month == 4 || month == 6 || month == 9 || month == 11 {
        30
    } else {
        31
    }
}

/// Whether there is such a minute, in the years the calendar reaches.
pub open spec fn exists_on_calendar(at: Moment) -> bool {
    &&& -262143 <= at.year <= 262142
    &&& 1 <= at.month <= 12
    &&& 1 <= at.day <= month_days(at.year as int, at.month as int)
    &&& at.hour < 24
    &&& at.minute < 60
}

/// How many days of a year come before its month `month`.
pub open spec fn days_before(year: int, month: int) -> int
    decreases month,
{
    if month <= 1 {
        0
    } else {
        days_before(year, month - 1) + month_days(year, month - 1)
    }
}

/// The day of the week a date falls on, counted from Sunday: the calendar's first
/// day, 1 January of the year 1, was a Monday, and every year before this one
/// brought 365 days, or 366.
pub open spec fn weekday(year: int, month: int, day: int) -> int {
    let past = year - 1;
    (365 * past + past / 4 - past / 100 + past / 400 + days_before(year, month) + day) % 7
}

/// A day of the week in three letters.
pub open spec fn weekday_name(w: int) -> Seq<char> {
    if w == 0 {
        "Sun"@
    } else if w == 1 {
        "Mon"@
    } else if w == 2 {
        "Tue"@
    } else if w == 3 {
        "Wed"@
    } else if w == 4 {
        "Thu"@
    } else if w == 5 {
        "Fri"@
    } else {
        "Sat"@
    }
}

/// A month in three letters.
pub open spec fn month_name(m: int) -> Seq<char> {
    if m == 1 {
        "Jan"@
    } else if m == 2 {
        "Feb"@
    } else if m == 3 {
        "Mar"@
    } else if m == 4 {
        "Apr"@
    } else if m == 5 {
        "May"@
    } else if m == 6 {
        "Jun"@
    } else if m == 7 {
        "Jul"@
    } else if m == 8 {
        "Aug"@
    } else if m == 9 {
        "Sep"@
    } else if m == 10 {
        "Oct"@
    } else if m == 11 {
        "Nov"@
    } else {
        "Dec"@
    }
}

/// A number below a hundred in two digits.
pub open spec fn two_digits(n: nat) -> Seq<char> {
    if n < 10 {
        seq!['0'] + decode_utf8(decimal(n))
    } else {
        decode_utf8(decimal(n))
    }
}

/// A moment on the weekday `w` as the list of backups shows it:
/// "Thu 29 Feb, 09:05".
pub open spec fn spelled(w: int, at: Moment) -> Seq<char> {
    weekday_name(w) + seq![' '] + decode_utf8(decimal(at.day as nat)) + seq![' '] + month_name(
        at.month as int,
    ) + seq![',', ' '] + two_digits(at.hour as nat) + seq![':'] + two_digits(at.minute as nat)
}

/// The pattern of that.
pub const PATTERN: &'static str = "%a %-d %b, %H:%M";

/// `chrono::NaiveDateTime::format` on the moment that `NaiveDate::from_ymd_opt`
/// and `and_hms_opt` make of the numbers, which is none where there is no such
/// date or time. In this pattern `%a` and `%b` are the English names of the
/// weekday and the month in three letters, `%-d` is the day without padding, and
/// `%H` and `%M` have two digits. The calendar is the Gregorian one, carried back
/// before its first year, so [`weekday`] is the weekday of every date.
#[verifier::external_body]
fn format_moment(at: Moment, pattern: &str) -> (r: Option<String>)
    requires
        pattern@ == PATTERN@,
    ensures
        r is Some <==> exists_on_calendar(at),
        r matches Some(s) ==> s@ == spelled(
            weekday(at.year as int, at.month as int, at.day as int),
            at,
        ),
{
    let date = chrono::NaiveDate::from_ymd_opt(at.year, at.month, at.day)?;
    let time = date.and_hms_opt(at.hour, at.minute, 0)?;
    Some(time.format(pattern).to_string())
}

/// When a backup was made, as the list of backups shows it; `None` for a moment
/// that is on no calendar.
pub fn backup_when(at: Moment) -> (r: Option<String>)
    ensures
        r is Some <==> exists_on_calendar(at),
        r matches Some(s) ==> s@ == spelled(
            weekday(at.year as int, at.month as int, at.day as int),
            at,
        ),
{
    format_moment(at, PATTERN)
}

/// The days of the week go on from one day to the next: within a month, from a month to
/// the next, and from a year to the next.
pub proof fn law_weeks_go_on(year: int, month: int, day: int)
    requires
        1 <= month <= 12,
        1 <= day <= month_days(year, month),
    ensures
        day < month_days(year, month) ==> weekday(year, month, day + 1) == (weekday(year, month, day)
            + 1) % 7,
        day == month_days(year, month) && month < 12 ==> weekday(year, month + 1, 1) == (weekday(
            year,
            month,
            day,
        ) + 1) % 7,
        day == month_days(year, month) && month == 12 ==> weekday(year + 1, 1, 1) == (weekday(
            year,
            month,
            day,
        ) + 1) % 7,
{
    let past = year - 1;
    let base = 365 * past + past / 4 - past / 100 + past / 400 + days_before(year, month);
    assert((base + day + 1) % 7 == ((base + day) % 7 + 1) % 7);
    if day == month_days(year, month) {
        assert(days_before(year, month + 1) == days_before(year, month) + day);
        if month == 12 {
            reveal_with_fuel(days_before, 13);
            assert(days_before(year, 13) == if leap(year) {
                366int
            } else {
                365
            });
            assert(days_before(year + 1, 1) == 0);
            assert(365 * year + year / 4 - year / 100 + year / 400 == 365 * past + past / 4 - past / 100
                + past / 400 + (if leap(year) {
                366int
            } else {
                365
            }));
        }
    }
}

/// The days of the week have their first three letters as names.
pub proof fn law_days_are_named(w: int)
    requires
        0 <= w < 7,
    ensures
        weekday_name(w) == "SunMonTueWedThuFriSat"@.subrange(3 * w, 3 * w + 3),
{
    reveal_strlit("SunMonTueWedThuFriSat");
    reveal_strlit("Sun");
    reveal_strlit("Mon");
    reveal_strlit("Tue");
    reveal_strlit("Wed");
    reveal_strlit("Thu");
    reveal_strlit("Fri");
    reveal_strlit("Sat");
    assert(weekday_name(w) =~= "SunMonTueWedThuFriSat"@.subrange(3 * w, 3 * w + 3));
}

/// So have the months of the year.
pub proof fn law_months_are_named(m: int)
    requires
        1 <= m <= 12,
    ensures
        month_name(m) == "JanFebMarAprMayJunJulAugSepOctNovDec"@.subrange(3 * m - 3, 3 * m),
{
    reveal_strlit("JanFebMarAprMayJunJulAugSepOctNovDec");
    reveal_strlit("Jan");
    reveal_strlit("Feb");
    reveal_strlit("Mar");
    reveal_strlit("Apr");
    reveal_strlit("May");
    reveal_strlit("Jun");
    reveal_strlit("Jul");
    reveal_strlit("Aug");
    reveal_strlit("Sep");
    reveal_strlit("Oct");
    reveal_strlit("Nov");
    reveal_strlit("Dec");
    assert(month_name(m) =~= "JanFebMarAprMayJunJulAugSepOctNovDec"@.subrange(3 * m - 3, 3 * m));
}

} // verus!
