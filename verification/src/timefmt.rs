//! Human-readable timestamp formatting.
//!
//! Unix epoch seconds are unfriendly in conflict-copy names and `conflux status`
//! output, so a simplified ISO-8601 form is rendered instead.

use crate::text::{decimal, digit, is_digit, lemma_decimal};
use vstd::prelude::*;

verus! {

/// The last second of the calendar.
pub const MAX_SECONDS: u64 = 8_210_266_876_799;

/// Up to here the year has four digits in every time zone.
pub const FOUR_DIGIT_YEARS: u64 = 253_402_214_399;

/// The form of timestamps in the names of conflict copies.
const STAMP: &'static str = "%Y-%m-%d_%H-%M-%S";

/// The form of timestamps that are shown.
const SHOWN: &'static str = "%Y-%m-%d %H:%M:%S %:z";

// ---------------------------------------------------------------------------
// The calendar
// ---------------------------------------------------------------------------

/// A date and a time of day.
pub struct Moment {
    /// The year.
    pub year: int,
    /// The month, from 1 on.
    pub month: int,
    /// The day of the month, from 1 on.
    pub day: int,
    /// The hour.
    pub hour: int,
    /// The minute.
    pub minute: int,
    /// The second.
    pub second: int,
}

/// How many of the years up to `y` are leap years.
pub open spec fn leap_years(y: int) -> int {
    y / 4 - y / 100 + y / 400
}

/// How many days a month has.
pub open spec fn days_in(year: int, month: int) -> int {
    if month == 4 || month == 6 || month == 9 || month == 11 {
        30
    } else if month != 2 {
        31
    } else {
        28 + leap_years(year) - leap_years(year - 1)
    }
}

/// How many days of a year come before a month.
pub open spec fn days_before(year: int, month: int) -> int
    decreases month,
{
    if month <= 1 {
        0
    } else {
        days_before(year, month - 1) + days_in(year, month - 1)
    }
}

/// How many days a date comes after the first day of 1970.
pub open spec fn day_number(year: int, month: int, day: int) -> int {
    365 * (year - 1970) + leap_years(year - 1) - leap_years(1969) + days_before(year, month) + day
        - 1
}

/// Whether `m` is a moment of the Gregorian calendar, `t` seconds after the first
/// of 1970.
pub open spec fn is_moment(m: Moment, t: int) -> bool {
    &&& 1 <= m.year
    &&& 1 <= m.month <= 12
    &&& 1 <= m.day <= days_in(m.year, m.month)
    &&& 0 <= m.hour < 24
    &&& 0 <= m.minute < 60
    &&& 0 <= m.second < 60
    &&& t == 86400 * day_number(m.year, m.month, m.day) + 3600 * m.hour + 60 * m.minute + m.second
}

// ---------------------------------------------------------------------------
// Texts
// ---------------------------------------------------------------------------

/// A number as two digits.
pub open spec fn two(n: int) -> Seq<char> {
    seq![digit(n / 10), digit(n % 10)]
}

/// A year: four digits, or a `+` and more.
pub open spec fn year_text(y: int) -> Seq<char> {
    if y <= 9999 {
        two(y / 100) + two(y % 100)
    } else {
        seq!['+'] + decimal(y as nat)
    }
}

/// The date of a moment.
pub open spec fn date_text(m: Moment) -> Seq<char> {
    year_text(m.year) + seq!['-'] + two(m.month) + seq!['-'] + two(m.day)
}

/// The time of day of a moment, with `sep` between its parts.
pub open spec fn time_text(m: Moment, sep: char) -> Seq<char> {
    two(m.hour) + seq![sep] + two(m.minute) + seq![sep] + two(m.second)
}

/// How far a time zone is ahead of universal time, to the nearest minute.
pub open spec fn zone_text(offset: int) -> Seq<char> {
    let minutes = ((if offset < 0 {
        -offset
    } else {
        offset
    }) + 30) / 60;
    seq![if offset < 0 {
        '-'
    } else {
        '+'
    }] + two(minutes / 60) + seq![':'] + two(minutes % 60)
}

/// Whether a time zone can be so many seconds ahead of universal time, and `m` is
/// then the moment there, `seconds` after the epoch.
pub open spec fn is_local_moment(m: Moment, offset: int, seconds: u64) -> bool {
    -86400 < offset < 86400 && is_moment(m, seconds + offset)
}

/// Whether `text` is the timestamp for the name of a conflict copy in some time zone.
pub open spec fn is_stamp(seconds: u64, text: Seq<char>) -> bool {
    exists|m: Moment, offset: int| #[trigger]
        is_local_moment(m, offset, seconds) && text == date_text(m) + seq!['_'] + time_text(m, '-')
}

/// Whether `text` is the timestamp that is shown in some time zone.
pub open spec fn is_shown(seconds: u64, text: Seq<char>) -> bool {
    exists|m: Moment, offset: int| #[trigger]
        is_local_moment(m, offset, seconds) && text == date_text(m) + seq![' '] + time_text(m, ':')
            + seq![' '] + zone_text(offset)
}

/// Whether the characters of a text are digits except at some places, where
/// they are the given characters (a `0` stands for any digit there).
pub open spec fn has_form(s: Seq<char>, form: Seq<char>) -> bool {
    s.len() == form.len() && forall|i: int|
        0 <= i < s.len() ==> if form[i] == '0' {
            is_digit(#[trigger] s[i])
        } else {
            s[i] == form[i]
        }
}

/// Whether a character can occur in a timestamp of a conflict copy.
pub open spec fn is_stamp_char(c: char) -> bool {
    is_digit(c) || c == '-' || c == '_' || c == '+'
}

proof fn lemma_two(n: int)
    requires
        0 <= n <= 99,
    ensures
        two(n).len() == 2,
        is_digit(two(n)[0]),
        is_digit(two(n)[1]),
{
}

/// Before the year 10000 years have four digits.
proof fn lemma_moment(m: Moment, t: int)
    requires
        is_moment(m, t),
        t < 253_402_300_800,
    ensures
        m.year <= 9999,
{
    lemma_days_before(m.year, m.month);
    if m.year >= 10000 {
        assert(365 * (m.year - 1970) + leap_years(m.year - 1) - leap_years(1969) >= 2_932_897);
    }
}

proof fn lemma_days_before(year: int, month: int)
    requires
        1 <= month <= 12,
    ensures
        0 <= days_before(year, month),
    decreases month,
{
    if month > 1 {
        lemma_days_before(year, month - 1);
    }
}

/// The characters of a timestamp of a conflict copy, and its form while the year
/// has four digits.
proof fn lemma_stamp(seconds: u64, text: Seq<char>)
    requires
        is_stamp(seconds, text),
    ensures
        forall|i: int| 0 <= i < text.len() ==> is_stamp_char(#[trigger] text[i]),
        seconds <= FOUR_DIGIT_YEARS ==> has_form(text, "0000-00-00_00-00-00"@),
{
    reveal_strlit("0000-00-00_00-00-00");
    let (m, offset) = choose|m: Moment, offset: int| #[trigger]
        is_local_moment(m, offset, seconds) && text == date_text(m) + seq!['_'] + time_text(m, '-');
    lemma_parts(m, seconds + offset);
    if seconds <= FOUR_DIGIT_YEARS {
        lemma_moment(m, seconds + offset);
    }
    if m.year > 9999 {
        lemma_decimal(m.year as nat);
    }
    let y = year_text(m.year);
    assert forall|i: int| 0 <= i < y.len() implies is_stamp_char(#[trigger] y[i]) by {
        if m.year > 9999 && i > 0 {
            assert(y[i] == decimal(m.year as nat)[i - 1]);
        }
    }
    let d = date_text(m);
    assert forall|i: int| 0 <= i < d.len() implies is_stamp_char(#[trigger] d[i]) by {
        if i < y.len() {
            assert(d[i] == y[i]);
        }
    }
    let rest = time_text(m, '-');
    assert forall|i: int| 0 <= i < text.len() implies is_stamp_char(#[trigger] text[i]) by {
        if i < d.len() {
            assert(text[i] == d[i]);
        } else if i > d.len() {
            assert(text[i] == rest[i - d.len() - 1]);
        }
    }
}

proof fn lemma_parts(m: Moment, t: int)
    requires
        is_moment(m, t),
    ensures
        m.year <= 9999 ==> {
            let y = year_text(m.year);
            y.len() == 4 && is_digit(y[0]) && is_digit(y[1]) && is_digit(y[2]) && is_digit(y[3])
        },
        two(m.month).len() == 2 && is_digit(two(m.month)[0]) && is_digit(two(m.month)[1]),
        two(m.day).len() == 2 && is_digit(two(m.day)[0]) && is_digit(two(m.day)[1]),
        two(m.hour).len() == 2 && is_digit(two(m.hour)[0]) && is_digit(two(m.hour)[1]),
        two(m.minute).len() == 2 && is_digit(two(m.minute)[0]) && is_digit(two(m.minute)[1]),
        two(m.second).len() == 2 && is_digit(two(m.second)[0]) && is_digit(two(m.second)[1]),
{
    if m.year <= 9999 {
        lemma_two(m.year / 100);
        lemma_two(m.year % 100);
    }
    assert(days_in(m.year, m.month) <= 31);
    lemma_two(m.month);
    lemma_two(m.day);
    lemma_two(m.hour);
    lemma_two(m.minute);
    lemma_two(m.second);
}

/// The form of a timestamp that is shown, while the year has four digits.
proof fn lemma_shown(seconds: u64, text: Seq<char>)
    requires
        is_shown(seconds, text),
        seconds <= FOUR_DIGIT_YEARS,
    ensures
        has_form(text, "0000-00-00 00:00:00 +00:00"@) || has_form(
            text,
            "0000-00-00 00:00:00 -00:00"@,
        ),
{
    let (m, offset) = choose|m: Moment, offset: int| #[trigger]
        is_local_moment(m, offset, seconds) && text == date_text(m) + seq![' '] + time_text(m, ':')
            + seq![' '] + zone_text(offset);
    lemma_moment(m, seconds + offset);
    lemma_zone(offset);
    lemma_date_time(m);
    lemma_shown_form(
        date_text(m),
        time_text(m, ':'),
        zone_text(offset),
        if offset < 0 {
            '-'
        } else {
            '+'
        },
    );
}

/// The form of a date.
spec fn date_form() -> Seq<char> {
    seq!['0', '0', '0', '0', '-', '0', '0', '-', '0', '0']
}

/// The form of a time of day.
spec fn time_form() -> Seq<char> {
    seq!['0', '0', ':', '0', '0', ':', '0', '0']
}

/// The form of a time zone with the given sign.
spec fn zone_form(sign: char) -> Seq<char> {
    seq![sign, '0', '0', ':', '0', '0']
}

proof fn lemma_date_time(m: Moment)
    requires
        exists|t: int| #[trigger] is_moment(m, t),
        m.year <= 9999,
    ensures
        has_form(date_text(m), date_form()),
        has_form(time_text(m, ':'), time_form()),
{
    let t = choose|t: int| #[trigger] is_moment(m, t);
    lemma_parts(m, t);
}

proof fn lemma_shown_form(d: Seq<char>, t: Seq<char>, z: Seq<char>, sign: char)
    requires
        has_form(d, date_form()),
        has_form(t, time_form()),
        has_form(z, zone_form(sign)),
        sign == '+' || sign == '-',
    ensures
        sign == '+' ==> has_form(
            d + seq![' '] + t + seq![' '] + z,
            "0000-00-00 00:00:00 +00:00"@,
        ),
        sign == '-' ==> has_form(
            d + seq![' '] + t + seq![' '] + z,
            "0000-00-00 00:00:00 -00:00"@,
        ),
{
    reveal_strlit("0000-00-00 00:00:00 +00:00");
    reveal_strlit("0000-00-00 00:00:00 -00:00");
    let gap = seq![' '];
    lemma_form(d, gap, date_form(), gap);
    lemma_form(d + gap, t, date_form() + gap, time_form());
    lemma_form(d + gap + t, gap, date_form() + gap + time_form(), gap);
    lemma_form(d + gap + t + gap, z, date_form() + gap + time_form() + gap, zone_form(sign));
    let all = date_form() + gap + time_form() + gap + zone_form(sign);
    assert(sign == '+' ==> all =~= "0000-00-00 00:00:00 +00:00"@);
    assert(sign == '-' ==> all =~= "0000-00-00 00:00:00 -00:00"@);
}

proof fn lemma_zone(offset: int)
    requires
        -86400 < offset < 86400,
    ensures
        has_form(
            zone_text(offset),
            zone_form(
                if offset < 0 {
                    '-'
                } else {
                    '+'
                },
            ),
        ),
{
    let minutes = ((if offset < 0 {
        -offset
    } else {
        offset
    }) + 30) / 60;
    lemma_two(minutes / 60);
    lemma_two(minutes % 60);
}

/// Two texts of given forms have, one after the other, the two forms so.
proof fn lemma_form(a: Seq<char>, b: Seq<char>, first: Seq<char>, second: Seq<char>)
    requires
        has_form(a, first),
        has_form(b, second),
    ensures
        has_form(a + b, first + second),
{
    assert forall|i: int| 0 <= i < (a + b).len() implies if (first + second)[i] == '0' {
        is_digit(#[trigger] (a + b)[i])
    } else {
        (a + b)[i] == (first + second)[i]
    } by {
        if i < a.len() {
            assert((a + b)[i] == a[i]);
        } else {
            assert((a + b)[i] == b[i - a.len()]);
        }
    }
}

// ---------------------------------------------------------------------------
// Laws
// ---------------------------------------------------------------------------

/// A year has a leap day or not.
spec fn leap_day(year: int) -> int {
    leap_years(year) - leap_years(year - 1)
}

/// How many days of a year come before each month.
proof fn lemma_months(year: int)
    requires
        1 <= year,
    ensures
        0 <= leap_day(year) <= 1,
        days_before(year, 1) == 0,
        days_before(year, 2) == 31,
        days_before(year, 3) == 59 + leap_day(year),
        days_before(year, 4) == 90 + leap_day(year),
        days_before(year, 5) == 120 + leap_day(year),
        days_before(year, 6) == 151 + leap_day(year),
        days_before(year, 7) == 181 + leap_day(year),
        days_before(year, 8) == 212 + leap_day(year),
        days_before(year, 9) == 243 + leap_day(year),
        days_before(year, 10) == 273 + leap_day(year),
        days_before(year, 11) == 304 + leap_day(year),
        days_before(year, 12) == 334 + leap_day(year),
{
    assert(days_before(year, 1) == 0);
    assert(days_before(year, 2) == 31);
    assert(days_before(year, 3) == 59 + leap_day(year));
    assert(days_before(year, 4) == 90 + leap_day(year));
    assert(days_before(year, 5) == 120 + leap_day(year));
    assert(days_before(year, 6) == 151 + leap_day(year));
    assert(days_before(year, 7) == 181 + leap_day(year));
    assert(days_before(year, 8) == 212 + leap_day(year));
    assert(days_before(year, 9) == 243 + leap_day(year));
    assert(days_before(year, 10) == 273 + leap_day(year));
    assert(days_before(year, 11) == 304 + leap_day(year));
}

/// How many days come before a year, counted from 1970 on.
spec fn year_start(year: int) -> int {
    365 * (year - 1970) + leap_years(year - 1) - leap_years(1969)
}

/// Later years start later, by more than the days of the years before.
proof fn lemma_years(a: int, b: int)
    requires
        1 <= a < b,
    ensures
        year_start(a) + 365 + leap_day(a) <= year_start(b),
{
    assert(leap_years(a) <= leap_years(b - 1));
}

/// A date lies within its year, and a day within its month.
proof fn lemma_within(year: int, month: int, day: int)
    requires
        1 <= year,
        1 <= month <= 12,
        1 <= day <= days_in(year, month),
    ensures
        0 <= days_before(year, month) + day - 1 < 365 + leap_day(year),
        forall|m: int|
            month < m <= 12 ==> days_before(year, month) + day <= #[trigger] days_before(year, m),
{
    lemma_months(year);
    assert forall|m: int| month < m <= 12 implies days_before(year, month) + day
        <= #[trigger] days_before(year, m) by {
        lemma_later_months(year, month, m);
    }
}

proof fn lemma_later_months(year: int, a: int, b: int)
    requires
        1 <= year,
        1 <= a < b <= 12,
    ensures
        days_before(year, a) + days_in(year, a) <= days_before(year, b),
    decreases b - a,
{
    lemma_months(year);
    if a + 1 < b {
        lemma_later_months(year, a, b - 1);
    }
}

proof fn lemma_one_date(a: Moment, b: Moment, t: int)
    requires
        is_moment(a, t),
        is_moment(b, t),
    ensures
        a.year <= b.year,
        a.year == b.year ==> a.month <= b.month,
        day_number(a.year, a.month, a.day) == day_number(b.year, b.month, b.day),
{
    lemma_within(a.year, a.month, a.day);
    lemma_within(b.year, b.month, b.day);
    let x = day_number(a.year, a.month, a.day);
    let y = day_number(b.year, b.month, b.day);
    assert(x == y) by {
        let r = 3600 * a.hour + 60 * a.minute + a.second;
        let q = 3600 * b.hour + 60 * b.minute + b.second;
        assert(0 <= r < 86400 && 0 <= q < 86400);
    }
    if b.year < a.year {
        lemma_years(b.year, a.year);
    }
}

/// An instant has one date and time of day: the text for it in a given time zone is
/// fixed.
pub proof fn law_instant_has_one_moment(a: Moment, b: Moment, t: int)
    requires
        is_moment(a, t),
        is_moment(b, t),
    ensures
        a == b,
{
    lemma_one_date(a, b, t);
    lemma_one_date(b, a, t);
}

// ---------------------------------------------------------------------------
// Formatting
// ---------------------------------------------------------------------------

/// `chrono`'s formatting of so many seconds since the Unix epoch, in the time
/// zone of the machine. What is claimed holds in every time zone: the text is the
/// date and the time of day, in the Gregorian calendar, at an offset of less than a
/// day from universal time, which is the one that the longer form ends with. Which
/// offset it is depends on the machine.
#[verifier::external_body]
fn format_local(seconds: u64, form: &str) -> (out: String)
    requires
        seconds <= MAX_SECONDS,
        form@ == STAMP@ || form@ == SHOWN@,
    ensures
        form@ == STAMP@ ==> is_stamp(seconds, out@),
        form@ == SHOWN@ ==> is_shown(seconds, out@),
{
    let time: chrono::DateTime<chrono::Local> = (std::time::UNIX_EPOCH
        + std::time::Duration::from_secs(seconds)).into();
    time.format(form).to_string()
}

/// Format Unix `seconds` as `YYYY-MM-DD_HH-MM-SS` in the host's local time zone:
/// a filesystem-safe timestamp (no `:`, `/` or spaces) used in conflict-copy
/// names.
pub fn stamp(seconds: u64) -> (out: String)
    requires
        seconds <= MAX_SECONDS,
    ensures
        is_stamp(seconds, out@),
        forall|i: int| 0 <= i < out@.len() ==> is_stamp_char(#[trigger] out@[i]),
        seconds <= FOUR_DIGIT_YEARS ==> has_form(out@, "0000-00-00_00-00-00"@),
        !out@.contains('/'),
        !out@.contains(':'),
        !out@.contains(' '),
{
    let out = format_local(seconds, STAMP);
    proof {
        lemma_stamp(seconds, out@);
    }
    out
}

/// Format Unix `seconds` as a human-readable datetime in the host's local time
/// zone, e.g. `2026-07-11 14:34:56 +02:00`, used for `conflux status`.
pub fn local(seconds: u64) -> (out: String)
    requires
        seconds <= MAX_SECONDS,
    ensures
        is_shown(seconds, out@),
        seconds <= FOUR_DIGIT_YEARS ==> has_form(out@, "0000-00-00 00:00:00 +00:00"@) || has_form(
            out@,
            "0000-00-00 00:00:00 -00:00"@,
        ),
{
    let out = format_local(seconds, SHOWN);
    proof {
        if seconds <= FOUR_DIGIT_YEARS {
            lemma_shown(seconds, out@);
        }
    }
    out
}

} // verus!
