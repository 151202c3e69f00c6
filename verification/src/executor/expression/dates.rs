//! Calendar arithmetic on Unix timestamps in milliseconds (UTC).
use vstd::prelude::*;
use vstd::utf8::encode_utf8;

use crate::common::value_cmp::whole;
use crate::text::{
    contains_text, dec_int, digit_value, from_chars, has_text, i64_text, int_text, join3, pad_text,
    padded, parse_int, same_text, split_str, split_text, to_chars,
};
use crate::value::{text_of, Datum};
use crate::Value;

verus! {

/// Division toward zero by a positive number.
pub open spec fn tdiv(a: int, b: int) -> int {
    if a >= 0 {
        a / b
    } else {
        -((-a) / b)
    }
}

/// Whole seconds of a timestamp.
pub open spec fn secs_of(ts: int) -> int {
    tdiv(ts, 1000)
}

/// The day of a timestamp, counted from 1970-01-01.
pub open spec fn day_of(ts: int) -> int {
    secs_of(ts) / 86400
}

/// Seconds since midnight.
pub open spec fn time_of(ts: int) -> int {
    secs_of(ts) % 86400
}

/// Whether a year has a 29th of February.
pub open spec fn leap(y: int) -> bool {
    (y % 4 == 0 && y % 100 != 0) || y % 400 == 0
}

/// The number of days of a year.
pub open spec fn year_len(y: int) -> int {
    if leap(y) {
        366
    } else {
        365
    }
}

/// The first day of a year, counted from 1970-01-01.
pub open spec fn year_start(y: int) -> int {
    365 * (y - 1970) + (y - 1) / 4 - (y - 1) / 100 + (y - 1) / 400 - 477
}

/// The number of days of a month.
pub open spec fn month_len(y: int, m: int) -> int {
    if m == 2 {
        if leap(y) {
            29
        } else {
            28
        }
    } else if m == 4 || m == 6 || m == 9 || m == 11 {
        30
    } else {
        31
    }
}

/// The first day of a month, counted from the first day of the year.
pub open spec fn month_start(y: int, m: int) -> int
    decreases m,
{
    if m <= 1 {
        0
    } else {
        month_start(y, m - 1) + month_len(y, m - 1)
    }
}

/// A date of the Gregorian calendar.
pub struct Date {
    pub year: int,
    pub month: int,
    pub day: int,
}

/// Whether `t` is the date of the day `days` after 1970-01-01.
pub open spec fn is_date(days: int, t: Date) -> bool {
    &&& 1 <= t.month <= 12
    &&& 1 <= t.day <= month_len(t.year, t.month)
    &&& days == year_start(t.year) + month_start(t.year, t.month) + t.day - 1
}

/// The date of the day `days` after 1970-01-01.
pub open spec fn date_of(days: int) -> Date {
    choose|t: Date| is_date(days, t)
}

/// A year starts where the previous one ends.
proof fn lemma_year_step(y: int)
    ensures
        year_start(y + 1) == year_start(y) + year_len(y),
{
}

/// Years start one after the other.
pub proof fn lemma_year_order(a: int, b: int)
    requires
        a <= b,
    ensures
        a < b ==> year_start(a) + year_len(a) <= year_start(b),
    decreases b - a,
{
    if a < b {
        lemma_year_step(a);
        lemma_year_order(a + 1, b);
    }
}

/// The twelve months fill the year.
proof fn lemma_months(y: int)
    ensures
        month_start(y, 13) == year_len(y),
{
    reveal_with_fuel(month_start, 14);
}

/// Months start one after the other, within the year.
proof fn lemma_month_order(y: int, a: int, b: int)
    requires
        1 <= a <= b <= 13,
    ensures
        a < b ==> month_start(y, a) + month_len(y, a) <= month_start(y, b),
        0 <= month_start(y, a) <= month_start(y, b),
    decreases b,
{
    if a < b {
        lemma_month_order(y, a, b - 1);
        lemma_month_order(y, b - 1, b - 1);
    } else if a > 1 {
        lemma_month_order(y, a - 1, a - 1);
    }
}

/// A day has only one date.
pub proof fn law_date_unique(days: int, s: Date, t: Date)
    requires
        is_date(days, s),
        is_date(days, t),
    ensures
        s == t,
{
    lemma_months(s.year);
    lemma_months(t.year);
    lemma_month_order(s.year, s.month, 13);
    lemma_month_order(t.year, t.month, 13);
    if s.year < t.year {
        lemma_year_order(s.year, t.year);
    }
    if t.year < s.year {
        lemma_year_order(t.year, s.year);
    }
    if s.month < t.month {
        lemma_month_order(s.year, s.month, t.month);
    }
    if t.month < s.month {
        lemma_month_order(s.year, t.month, s.month);
    }
}

/// A date lies in its year.
pub proof fn lemma_in_year(days: int, t: Date)
    requires
        is_date(days, t),
    ensures
        year_start(t.year) <= days < year_start(t.year) + year_len(t.year),
{
    lemma_months(t.year);
    lemma_month_order(t.year, t.month, 13);
}

/// Whether the year has a 29th of February.
#[verifier::spinoff_prover]
#[verifier::rlimit(40)]
pub fn is_leap_year(y: i64) -> (r: bool)
    ensures
        r == leap(y as int),
{
    let mag: i128 = if y < 0 {
        -(y as i128)
    } else {
        y as i128
    };
    assert(mag % 4 == 0 <==> y as int % 4 == 0);
    assert(mag % 100 == 0 <==> y as int % 100 == 0);
    assert(mag % 400 == 0 <==> y as int % 400 == 0);
    (mag % 4 == 0 && mag % 100 != 0) || mag % 400 == 0
}

/// The number of days of a month.
fn days_in_month(y: i64, m: i64) -> (r: i64)
    ensures
        r == month_len(y as int, m as int),
{
    if m == 2 {
        if is_leap_year(y) {
            29
        } else {
            28
        }
    } else if m == 4 || m == 6 || m == 9 || m == 11 {
        30
    } else {
        31
    }
}

/// The number of days of the year before a month.
fn days_before(y: i64, m: i64) -> (r: i64)
    requires
        1 <= m <= 12,
    ensures
        r == month_start(y as int, m as int),
        0 <= r < 366,
{
    let mut k: i64 = 1;
    let mut n: i64 = 0;
    while k < m
        invariant
            1 <= k <= m <= 12,
            n == month_start(y as int, k as int),
            0 <= n <= 31 * (k - 1),
        decreases m - k,
    {
        assert(month_start(y as int, k + 1) == month_start(y as int, k as int) + month_len(
            y as int,
            k as int,
        ));
        n = n + days_in_month(y, k);
        k = k + 1;
    }
    n
}

/// A timestamp as its day and the seconds since midnight.
fn split_timestamp(ts_ms: i64) -> (r: (i64, i64))
    ensures
        r.0 == day_of(ts_ms as int),
        r.1 == time_of(ts_ms as int),
        -200_000_000_000 < r.0 < 200_000_000_000,
        0 <= r.1 < 86400,
{
    if ts_ms >= 0 {
        let secs: i64 = ts_ms / 1000;
        (secs / 86400, secs % 86400)
    } else {
        let back: i128 = (-(ts_ms as i128)) / 1000;
        let shifted: i128 = 200_000_000_000i128 * 86400 - back;
        proof {
            let s = -(back as int);
            assert(secs_of(ts_ms as int) == s);
            assert((s + 200_000_000_000 * 86400) / 86400 == s / 86400 + 200_000_000_000);
            assert((s + 200_000_000_000 * 86400) % 86400 == s % 86400);
        }
        ((shifted / 86400 - 200_000_000_000) as i64, (shifted % 86400) as i64)
    }
}

/// The date of the day `days` after 1970-01-01.
fn civil(days: i64) -> (r: (i64, i64, i64))
    requires
        -200_000_000_000 < days < 200_000_000_000,
    ensures
        is_date(days as int, (Date { year: r.0 as int, month: r.1 as int, day: r.2 as int })),
        date_of(days as int) == (Date { year: r.0 as int, month: r.1 as int, day: r.2 as int }),
        -600_000_000_000 < r.0 < 600_000_000_000,
        1 <= r.1 <= 12,
        1 <= r.2 <= 31,
{
    let mut y: i64 = 1970;
    let mut rem: i64 = days;
    if rem < 0 {
        while rem < 0
            invariant
                -200_000_000_000 < days < 200_000_000_000,
                rem == days - year_start(y as int),
                days <= rem < 400,
                1970 + days - rem <= y <= 1970,
                rem < 0 || rem < year_len(y as int),
            decreases 400 - rem,
        {
            proof {
                lemma_year_step(y - 1);
            }
            y = y - 1;
            rem = rem + if is_leap_year(y) {
                366
            } else {
                365
            };
        }
    } else {
        loop
            invariant
                0 <= rem <= days < 200_000_000_000,
                rem == days - year_start(y as int),
                1970 <= y <= 1970 + days - rem,
            ensures
                0 <= rem < year_len(y as int),
            decreases rem,
        {
            let n: i64 = if is_leap_year(y) {
                366
            } else {
                365
            };
            if rem < n {
                break;
            }
            proof {
                lemma_year_step(y as int);
            }
            rem = rem - n;
            y = y + 1;
        }
    }
    let mut m: i64 = 1;
    let ghost in_year = rem;
    proof {
        lemma_months(y as int);
    }
    loop
        invariant
            1 <= m <= 12,
            0 <= rem,
            in_year == rem + month_start(y as int, m as int),
            in_year < month_start(y as int, 13),
        ensures
            1 <= m <= 12,
            0 <= rem < month_len(y as int, m as int),
            in_year == rem + month_start(y as int, m as int),
        decreases 12 - m,
    {
        let n: i64 = days_in_month(y, m);
        if rem < n {
            break;
        }
        proof {
            assert(month_start(y as int, m + 1) == month_start(y as int, m as int) + n);
        }
        rem = rem - n;
        m = m + 1;
    }
    proof {
        let t = Date { year: y as int, month: m as int, day: rem + 1 };
        assert(is_date(days as int, t));
        let u = date_of(days as int);
        assert(is_date(days as int, u));
        law_date_unique(days as int, t, u);
    }
    (y, m, rem + 1)
}

/// Every day has a date.
pub proof fn law_date_exists(days: int)
    ensures
        is_date(days, date_of(days)),
{
    lemma_has_year(days, 1970);
    let y = choose|y: int| #[trigger] year_start(y) <= days < year_start(y) + year_len(y);
    lemma_months(y);
    lemma_has_month(y, days - year_start(y), 12);
    let m = choose|m: int|
        1 <= m <= 12 && #[trigger] month_start(y, m) <= days - year_start(y) < month_start(y, m)
            + month_len(y, m);
    let t = Date { year: y, month: m, day: days - year_start(y) - month_start(y, m) + 1 };
    assert(is_date(days, t));
}

proof fn lemma_has_year(days: int, y: int)
    ensures
        exists|y: int| #[trigger] year_start(y) <= days < year_start(y) + year_len(y),
    decreases
            if days >= year_start(y) {
                days - year_start(y)
            } else {
                year_start(y) - days
            },
            if days >= year_start(y) {
                0int
            } else {
                1
            },
{
    if year_start(y) <= days {
        if days >= year_start(y) + year_len(y) {
            lemma_year_step(y);
            lemma_has_year(days, y + 1);
        }
    } else {
        lemma_year_step(y - 1);
        if year_start(y - 1) > days {
            lemma_has_year(days, y - 1);
        } else {
            assert(year_start(y - 1) <= days < year_start(y - 1) + year_len(y - 1));
        }
    }
}

proof fn lemma_has_month(y: int, d: int, k: int)
    requires
        0 <= d < month_start(y, k + 1),
        1 <= k <= 12,
    ensures
        exists|m: int|
            1 <= m <= 12 && #[trigger] month_start(y, m) <= d < month_start(y, m) + month_len(
                y,
                m,
            ),
    decreases k,
{
    if d < month_start(y, k) {
        if k > 1 {
            lemma_has_month(y, d, k - 1);
        } else {
            assert(month_start(y, 1) == 0);
        }
    } else {
        assert(month_start(y, k + 1) == month_start(y, k) + month_len(y, k));
    }
}

/// A date as YYYY-MM-DD.
pub open spec fn date_text(t: Date) -> Seq<char> {
    padded(t.year, 4) + "-"@ + padded(t.month, 2) + "-"@ + padded(t.day, 2)
}

/// Seconds since midnight as HH:MM:SS.
pub open spec fn clock_text(s: int) -> Seq<char> {
    padded(s / 3600, 2) + ":"@ + padded((s % 3600) / 60, 2) + ":"@ + padded(s % 60, 2)
}

/// Writes the date of a timestamp as YYYY-MM-DD.
pub fn format_date(ts_ms: i64) -> (r: String)
    ensures
        r@ == date_text(date_of(day_of(ts_ms as int))),
{
    let (days, _) = split_timestamp(ts_ms);
    let (y, m, d) = civil(days);
    let mut s = pad_text(y, 4);
    s.push_str("-");
    s.push_str(pad_text(m, 2).as_str());
    s.push_str("-");
    s.push_str(pad_text(d, 2).as_str());
    s
}

/// Writes seconds since midnight as HH:MM:SS.
fn format_clock(s: i64) -> (r: String)
    requires
        0 <= s < 86400,
    ensures
        r@ == clock_text(s as int),
{
    let mut t = pad_text(s / 3600, 2);
    t.push_str(":");
    t.push_str(pad_text((s % 3600) / 60, 2).as_str());
    t.push_str(":");
    t.push_str(pad_text(s % 60, 2).as_str());
    t
}

/// Remainder of a division toward zero by a positive number.
pub open spec fn trem(a: int, b: int) -> int {
    a - b * tdiv(a, b)
}

/// The weekday of a day, from Sunday, 0, on. 1970-01-01 is a Thursday.
pub open spec fn weekday(days: int) -> int {
    (days + 4) % 7
}

/// The days of the year before a day.
pub open spec fn year_day(days: int) -> int {
    days - year_start(date_of(days).year)
}

/// What a conversion character of a time format stands for: the year, its
/// last two digits, the month, the day, hours, minutes, seconds, the weekday
/// from Sunday, 0, on, the day of the year in three digits, the week of the
/// year, where the first Sunday starts the first, or a percent sign. Others
/// stand for themselves.
pub open spec fn conversion(c: char, ts: int) -> Seq<char> {
    let days = day_of(ts);
    let t = date_of(days);
    let s = time_of(ts);
    let wday = weekday(days);
    let yday = year_day(days);
    if c == 'Y' {
        padded(t.year, 4)
    } else if c == 'y' {
        padded(trem(t.year, 100), 2)
    } else if c == 'm' {
        padded(t.month, 2)
    } else if c == 'd' {
        padded(t.day, 2)
    } else if c == 'H' {
        padded(s / 3600, 2)
    } else if c == 'M' {
        padded((s % 3600) / 60, 2)
    } else if c == 'S' {
        padded(s % 60, 2)
    } else if c == 'w' {
        dec_int(wday)
    } else if c == 'j' {
        padded(yday + 1, 3)
    } else if c == 'U' {
        padded((yday + 7 - wday) / 7, 2)
    } else if c == '%' {
        seq!['%']
    } else {
        seq!['%', c]
    }
}

/// A format from position `i` on, with its conversions carried out.
pub open spec fn strftime_from(fmt: Seq<char>, i: int, ts: int) -> Seq<char>
    decreases fmt.len() - i,
{
    if i < 0 || i >= fmt.len() {
        Seq::empty()
    } else if fmt[i] == '%' && i + 1 < fmt.len() {
        conversion(fmt[i + 1], ts) + strftime_from(fmt, i + 2, ts)
    } else {
        seq![fmt[i]] + strftime_from(fmt, i + 1, ts)
    }
}

fn trunc_div(a: i64, b: i64) -> (r: i64)
    requires
        b > 1,
        -1_000_000_000_000 < a < 1_000_000_000_000,
        b < 1_000_000,
    ensures
        r == tdiv(a as int, b as int),
        -1_000_000_000_000 < r < 1_000_000_000_000,
{
    proof {
        let m = if a >= 0 {
            a as int
        } else {
            -a as int
        };
        assert(0 <= m / b as int <= m) by (nonlinear_arith)
            requires
                m >= 0,
                b > 1,
        ;
    }
    if a >= 0 {
        a / b
    } else {
        -((-a) / b)
    }
}

/// Writes a timestamp by a format.
pub fn format_strftime(fmt: &str, ts_ms: i64) -> (r: String)
    ensures
        r@ == strftime_from(fmt@, 0, ts_ms as int),
{
    let (days, day_secs) = split_timestamp(ts_ms);
    let (y, m, d) = civil(days);
    let wday: i64 = (days + 4 + 7 * 200_000_000_000) % 7;
    assert(wday == weekday(days as int));
    let yday: i64 = days_before(y, m) + d - 1;
    let year2: i64 = y - 100 * trunc_div(y, 100);
    let week: i64 = (yday + 7 - wday) / 7;
    let cs = to_chars(fmt);
    let ghost ts = ts_ms as int;
    let ghost whole_text = strftime_from(fmt@, 0, ts);
    let mut out = String::new();
    let mut i: usize = 0;
    while i < cs.len()
        invariant
            cs@ == fmt@,
            i <= cs.len(),
            whole_text == strftime_from(fmt@, 0, ts),
            out@ + strftime_from(fmt@, i as int, ts) == whole_text,
            ts == ts_ms,
            days == day_of(ts),
            day_secs == time_of(ts),
            0 <= day_secs < 86400,
            date_of(days as int) == (Date { year: y as int, month: m as int, day: d as int }),
            -600_000_000_000 < y < 600_000_000_000,
            1 <= m <= 12,
            1 <= d <= 31,
            wday == weekday(days as int),
            0 <= wday < 7,
            yday == year_day(days as int),
            0 <= yday < 400,
            year2 == trem(y as int, 100),
            -1_000_000_000_000_000 < year2 < 1_000_000_000_000_000,
            week == (yday + 7 - wday) / 7,
            0 <= week < 400,
        decreases cs.len() - i,
    {
        let ghost before = out@;
        if cs[i] == '%' && i + 1 < cs.len() {
            let c = cs[i + 1];
            let piece = match c {
                'Y' => pad_text(y, 4),
                'y' => pad_text(year2, 2),
                'm' => pad_text(m, 2),
                'd' => pad_text(d, 2),
                'H' => pad_text(day_secs / 3600, 2),
                'M' => pad_text((day_secs % 3600) / 60, 2),
                'S' => pad_text(day_secs % 60, 2),
                'w' => i64_text(wday),
                'j' => pad_text(yday + 1, 3),
                'U' => pad_text(week, 2),
                '%' => {
                    let mut t = String::new();
                    t.push('%');
                    t
                },
                _ => {
                    let mut t = String::new();
                    t.push('%');
                    t.push(c);
                    t
                },
            };
            assert(piece@ =~= conversion(c, ts));
            out.push_str(piece.as_str());
            assert(out@ + strftime_from(fmt@, i + 2, ts) =~= before + strftime_from(
                fmt@,
                i as int,
                ts,
            ));
            i += 2;
        } else {
            out.push(cs[i]);
            assert(out@ + strftime_from(fmt@, i + 1, ts) =~= before + strftime_from(
                fmt@,
                i as int,
                ts,
            ));
            i += 1;
        }
    }
    assert(out@ =~= whole_text);
    out
}

/// How often a character occurs among the first `n`.
pub open spec fn occurrences(s: Seq<char>, c: char, n: int) -> int
    decreases n,
{
    if n <= 0 {
        0
    } else {
        occurrences(s, c, n - 1) + if s[n - 1] == c { 1int } else { 0 }
    }
}

/// DATE: the date of a timestamp as text. A text of ten bytes with two dashes
/// is taken for a date and stays as it is.
pub open spec fn date_datum(d: Datum) -> Datum {
    if whole(d) is Some {
        Datum::Varchar(date_text(date_of(day_of(whole(d)->0))))
    } else {
        match d {
            Datum::Varchar(s) => if encode_utf8(s).len() as usize == 10 && occurrences(
                s,
                '-',
                s.len() as int,
            ) == 2 {
                Datum::Varchar(s)
            } else {
                Datum::Null
            },
            _ => Datum::Null,
        }
    }
}

fn count_char(cs: &Vec<char>, c: char) -> (r: usize)
    ensures
        r == occurrences(cs@, c, cs.len() as int),
{
    let mut n: usize = 0;
    let mut i: usize = 0;
    while i < cs.len()
        invariant
            i <= cs.len(),
            n <= i,
            n == occurrences(cs@, c, i as int),
        decreases cs.len() - i,
    {
        if cs[i] == c {
            n += 1;
        }
        i += 1;
    }
    n
}

/// DATE of a value.
pub fn date_value(v: &Value) -> (r: Value)
    ensures
        r.deep_view() == date_datum(v.deep_view()),
{
    if let Some(ts) = v.as_i64() {
        return Value::Varchar(format_date(ts));
    }
    if let Value::Varchar(s) = v {
        let cs = to_chars(s.as_str());
        if s.as_str().len() == 10 && count_char(&cs, '-') == 2 {
            return Value::Varchar(s.clone());
        }
    }
    Value::Null
}

/// STRFTIME: a timestamp by a format.
pub open spec fn strftime_datum(fmt: Seq<char>, d: Datum) -> Datum {
    match whole(d) {
        Some(ts) => Datum::Varchar(strftime_from(fmt, 0, ts)),
        None => Datum::Null,
    }
}

/// STRFTIME of a value.
pub fn strftime_value(fmt: &str, v: &Value) -> (r: Value)
    ensures
        r.deep_view() == strftime_datum(fmt@, v.deep_view()),
{
    match v.as_i64() {
        Some(ts) => Value::Varchar(format_strftime(fmt, ts)),
        None => Value::Null,
    }
}

/// TIME: the time of day of a timestamp as text.
pub open spec fn time_datum(d: Datum) -> Datum {
    match whole(d) {
        Some(ts) => Datum::Varchar(clock_text(time_of(ts))),
        None => Datum::Null,
    }
}

/// TIME of a value.
pub fn time_value(v: &Value) -> (r: Value)
    ensures
        r.deep_view() == time_datum(v.deep_view()),
{
    match v.as_i64() {
        Some(ts) => {
            let (_, s) = split_timestamp(ts);
            Value::Varchar(format_clock(s))
        },
        None => Value::Null,
    }
}

/// DATETIME: date and time of a timestamp as text.
pub open spec fn datetime_datum(d: Datum) -> Datum {
    match whole(d) {
        Some(ts) => Datum::Varchar(
            date_text(date_of(day_of(ts))) + " "@ + clock_text(time_of(ts)),
        ),
        None => Datum::Null,
    }
}

/// DATETIME of a value.
pub fn datetime_value(v: &Value) -> (r: Value)
    ensures
        r.deep_view() == datetime_datum(v.deep_view()),
{
    match v.as_i64() {
        Some(ts) => {
            let (_, s) = split_timestamp(ts);
            let date = format_date(ts);
            let clock = format_clock(s);
            Value::Varchar(join3(date.as_str(), " ", clock.as_str()))
        },
        None => Value::Null,
    }
}

/// The length of a unit of time in milliseconds.
pub open spec fn unit_ms(u: Seq<char>) -> Option<i64> {
    if u == "millisecond"@ || u == "milliseconds"@ || u == "ms"@ {
        Some(1)
    } else if u == "second"@ || u == "seconds"@ || u == "sec"@ || u == "s"@ {
        Some(1000)
    } else if u == "minute"@ || u == "minutes"@ || u == "min"@ {
        Some(60_000)
    } else if u == "hour"@ || u == "hours"@ || u == "h"@ {
        Some(3_600_000)
    } else if u == "day"@ || u == "days"@ || u == "d"@ {
        Some(86_400_000)
    } else if u == "week"@ || u == "weeks"@ || u == "w"@ {
        Some(604_800_000)
    } else {
        None
    }
}

fn unit_length(u: &str) -> (r: Option<i64>)
    ensures
        r == unit_ms(u@),
        r is Some ==> 1 <= r->0 <= 604_800_000,
{
    if same_text(u, "millisecond") || same_text(u, "milliseconds") || same_text(u, "ms") {
        Some(1)
    } else if same_text(u, "second") || same_text(u, "seconds") || same_text(u, "sec")
        || same_text(u, "s") {
        Some(1000)
    } else if same_text(u, "minute") || same_text(u, "minutes") || same_text(u, "min") {
        Some(60_000)
    } else if same_text(u, "hour") || same_text(u, "hours") || same_text(u, "h") {
        Some(3_600_000)
    } else if same_text(u, "day") || same_text(u, "days") || same_text(u, "d") {
        Some(86_400_000)
    } else if same_text(u, "week") || same_text(u, "weeks") || same_text(u, "w") {
        Some(604_800_000)
    } else {
        None
    }
}

/// A timestamp moved by a number of units. An unknown unit moves nothing, and
/// sums beyond 64 bits wrap around.
pub open spec fn moved(ts: i64, delta: i64, unit: Seq<char>) -> i64 {
    match unit_ms(unit) {
        Some(ms) => ts.wrapping_add(delta.wrapping_mul(ms)),
        None => ts,
    }
}

/// Moves a timestamp by a number of units.
pub fn apply_date_arithmetic(ts_ms: i64, delta: i64, unit: &str) -> (r: i64)
    ensures
        r == moved(ts_ms, delta, unit@),
{
    match unit_length(unit) {
        Some(ms) => ts_ms.wrapping_add(delta.wrapping_mul(ms)),
        None => ts_ms,
    }
}

/// DATE_ADD.
pub open spec fn date_add(ts: Datum, n: Datum, unit: Seq<char>) -> Datum {
    match (whole(ts), whole(n)) {
        (Some(t), Some(k)) => Datum::Timestamp(moved(t as i64, k as i64, unit)),
        _ => Datum::Null,
    }
}

/// DATE_SUB.
pub open spec fn date_sub(ts: Datum, n: Datum, unit: Seq<char>) -> Datum {
    match (whole(ts), whole(n)) {
        (Some(t), Some(k)) => Datum::Timestamp(moved(t as i64, 0i64.wrapping_sub(k as i64), unit)),
        _ => Datum::Null,
    }
}

/// DATE_DIFF: whole units between two timestamps.
pub open spec fn date_diff(a: Datum, b: Datum, unit: Seq<char>) -> Datum {
    match (whole(a), whole(b), unit_ms(unit)) {
        (Some(x), Some(y), Some(ms)) => Datum::Int64(
            tdiv((x as i64).wrapping_sub(y as i64) as int, ms as int) as i64,
        ),
        _ => Datum::Null,
    }
}

/// DATE_ADD of values.
pub fn date_add_value(ts: &Value, n: &Value, unit: &str) -> (r: Value)
    ensures
        r.deep_view() == date_add(ts.deep_view(), n.deep_view(), unit@),
{
    match (ts.as_i64(), n.as_i64()) {
        (Some(t), Some(k)) => Value::Timestamp(apply_date_arithmetic(t, k, unit)),
        _ => Value::Null,
    }
}

/// DATE_SUB of values.
pub fn date_sub_value(ts: &Value, n: &Value, unit: &str) -> (r: Value)
    ensures
        r.deep_view() == date_sub(ts.deep_view(), n.deep_view(), unit@),
{
    match (ts.as_i64(), n.as_i64()) {
        (Some(t), Some(k)) => Value::Timestamp(
            apply_date_arithmetic(t, 0i64.wrapping_sub(k), unit),
        ),
        _ => Value::Null,
    }
}

/// DATE_DIFF of values.
pub fn date_diff_value(ts1: &Value, ts2: &Value, unit: &str) -> (r: Value)
    ensures
        r.deep_view() == date_diff(ts1.deep_view(), ts2.deep_view(), unit@),
{
    match (ts1.as_i64(), ts2.as_i64(), unit_length(unit)) {
        (Some(x), Some(y), Some(ms)) => {
            let diff: i64 = x.wrapping_sub(y);
            let q: i128 = if diff >= 0 {
                diff as i128 / ms as i128
            } else {
                -((-(diff as i128)) / ms as i128)
            };
            proof {
                let m = if diff >= 0 {
                    diff as int
                } else {
                    -(diff as int)
                };
                assert(0 <= m / ms as int <= m) by (nonlinear_arith)
                    requires
                        m >= 0,
                        ms >= 1,
                ;
                if ms == 1 {
                    assert(m / 1 == m);
                }
            }
            Value::Int64(q as i64)
        },
        _ => Value::Null,
    }
}

/// The second that a unit truncates a timestamp to: the start of its year,
/// month, week (Monday), day, hour or minute, or the second itself.
pub open spec fn truncated(ts: int, unit: Seq<char>) -> int {
    let days = day_of(ts);
    let t = date_of(days);
    let s = time_of(ts);
    if unit == "year"@ || unit == "years"@ || unit == "y"@ {
        year_start(t.year) * 86400
    } else if unit == "month"@ || unit == "months"@ {
        (year_start(t.year) + month_start(t.year, t.month)) * 86400
    } else if unit == "week"@ || unit == "weeks"@ || unit == "w"@ {
        (days - (days + 3) % 7) * 86400
    } else if unit == "day"@ || unit == "days"@ || unit == "d"@ {
        days * 86400
    } else if unit == "hour"@ || unit == "hours"@ || unit == "h"@ {
        days * 86400 + s / 3600 * 3600
    } else if unit == "minute"@ || unit == "minutes"@ || unit == "min"@ {
        days * 86400 + s / 60 * 60
    } else {
        secs_of(ts)
    }
}

/// DATE_TRUNC. A start before the first timestamp of 64 bits wraps around.
pub open spec fn date_trunc(d: Datum, unit: Seq<char>) -> Datum {
    match whole(d) {
        Some(ts) => Datum::Timestamp((truncated(ts, unit) as i64).wrapping_mul(1000)),
        None => Datum::Null,
    }
}

/// DATE_TRUNC of a value.
pub fn date_trunc_value(v: &Value, unit: &str) -> (r: Value)
    ensures
        r.deep_view() == date_trunc(v.deep_view(), unit@),
{
    let ts_ms: i64 = match v.as_i64() {
        Some(t) => t,
        None => {
            return Value::Null;
        },
    };
    let (days, day_secs) = split_timestamp(ts_ms);
    let secs: i64 = if same_text(unit, "year") || same_text(unit, "years") || same_text(unit, "y") {
        let (y, m, d) = civil(days);
        let start: i64 = days - days_into_year(y, m, d);
        start * 86400
    } else if same_text(unit, "month") || same_text(unit, "months") {
        let (y, m, d) = civil(days);
        (days - (d - 1)) * 86400
    } else if same_text(unit, "week") || same_text(unit, "weeks") || same_text(unit, "w") {
        let wd: i64 = (days + 3 + 7 * 100_000_000_000) % 7;
        (days - wd) * 86400
    } else if same_text(unit, "day") || same_text(unit, "days") || same_text(unit, "d") {
        days * 86400
    } else if same_text(unit, "hour") || same_text(unit, "hours") || same_text(unit, "h") {
        days * 86400 + (day_secs / 3600) * 3600
    } else if same_text(unit, "minute") || same_text(unit, "minutes") || same_text(unit, "min") {
        days * 86400 + (day_secs / 60) * 60
    } else {
        days * 86400 + day_secs
    };
    Value::Timestamp(secs.wrapping_mul(1000))
}

/// The days between the start of the year and a date in it.
fn days_into_year(y: i64, m: i64, d: i64) -> (r: i64)
    requires
        1 <= m <= 12,
        1 <= d <= 31,
    ensures
        r == month_start(y as int, m as int) + d - 1,
        0 <= r < 1000,
{
    let mut sum: i64 = d - 1;
    let mut k: i64 = 1;
    while k < m
        invariant
            1 <= k <= m <= 12,
            1 <= d <= 31,
            sum == month_start(y as int, k as int) + d - 1,
            0 <= sum <= 31 * k,
        decreases m - k,
    {
        sum = sum + days_in_month(y, k);
        k = k + 1;
    }
    sum
}

/// The second at which the day `d` of month `m` in year `y` starts, where the
/// month is known and the second fits 64 bits. A day outside the month counts
/// on from it, and month 13 is the first month of the next year.
pub open spec fn day_start(y: int, m: int, d: int) -> Option<i64> {
    let s = (year_start(y) + month_start(y, m) + d - 1) * 86400;
    if 1 <= m <= 13 && i64::MIN <= s <= i64::MAX {
        Some(s as i64)
    } else {
        None
    }
}

/// Years repeat after four centuries.
proof fn lemma_year_cycle(y: int, k: int)
    ensures
        year_start(y + 400 * k) == year_start(y) + 146097 * k,
{
    assert((y - 1 + 400 * k) / 4 == (y - 1) / 4 + 100 * k);
    assert((y - 1 + 400 * k) / 100 == (y - 1) / 100 + 4 * k);
    assert((y - 1 + 400 * k) / 400 == (y - 1) / 400 + k);
}

fn first_day(y: i64) -> (r: i128)
    ensures
        r == year_start(y as int),
        -5_000_000_000_000_000_000_000 < r < 5_000_000_000_000_000_000_000,
{
    let cycles: i128 = 0x1_0000_0000_0000_0000;
    let z: i128 = y as i128 + 400 * cycles;
    proof {
        lemma_year_cycle(y as int, cycles as int);
    }
    365 * (z - 1970) + (z - 1) / 4 - (z - 1) / 100 + (z - 1) / 400 - 477 - 146097 * cycles
}

fn start_of_day(y: i64, m: i64, d: i64) -> (r: Option<i64>)
    ensures
        r == day_start(y as int, m as int, d as int),
{
    if m < 1 || m > 13 {
        return None;
    }
    let lead: i128 = first_day(y);
    let into: i64 = if m == 13 {
        proof {
            lemma_months(y as int);
        }
        if is_leap_year(y) {
            366
        } else {
            365
        }
    } else {
        days_into_year(y, m, 1)
    };
    let s: i128 = (lead + into as i128 + d as i128 - 1) * 86400;
    if i64::MIN as i128 <= s && s <= i64::MAX as i128 {
        Some(s as i64)
    } else {
        None
    }
}

/// A number of 64 bits, or a default where the text denotes none.
pub open spec fn number_or(s: Seq<char>, default: int) -> int {
    match int_text(s, i64::MIN as int, i64::MAX as int) {
        Some(v) => v,
        None => default,
    }
}

fn parse_or(s: &str, default: i64) -> (r: i64)
    ensures
        r == number_or(s@, default as int),
{
    match parse_int(s, i64::MIN as i128, i64::MAX as i128) {
        Some(v) => v as i64,
        None => default,
    }
}

/// The second at which the date of a text starts. Parts that are no numbers
/// stand for 1970, 1 and 1, and a text of fewer than three parts for second 0.
pub open spec fn date_epoch(s: Seq<char>) -> Option<i64> {
    let parts = split_text(s, "-"@);
    if parts.len() < 3 {
        Some(0i64)
    } else {
        day_start(number_or(parts[0], 1970), number_or(parts[1], 1), number_or(parts[2], 1))
    }
}

/// Reads a date written as YYYY-MM-DD; gives nothing where the month is
/// unknown or the second does not fit 64 bits.
pub fn parse_date_to_epoch(date_str: &str) -> (r: Option<i64>)
    ensures
        r == date_epoch(date_str@),
{
    let parts = split_str(date_str, "-");
    let ghost view = parts.deep_view();
    if parts.len() < 3 {
        return Some(0);
    }
    assert(view[0] == parts[0]@ && view[1] == parts[1]@ && view[2] == parts[2]@);
    let y: i64 = parse_or(parts[0].as_str(), 1970);
    let m: i64 = parse_or(parts[1].as_str(), 1);
    let d: i64 = parse_or(parts[2].as_str(), 1);
    start_of_day(y, m, d)
}

/// Whether a character separates the numbers of a date and time.
pub open spec fn separates(c: char) -> bool {
    c == '-' || c == ' ' || c == 'T' || c == ':'
}

/// The groups of digits of a text from `i` on. Characters that are neither
/// digits nor separators are left out and part no group.
pub open spec fn digit_groups(s: Seq<char>, i: int, group: Seq<char>) -> Seq<Seq<char>>
    decreases s.len() - i,
{
    if i < 0 || i >= s.len() {
        if group.len() > 0 {
            seq![group]
        } else {
            Seq::empty()
        }
    } else if digit_value(s[i]) is Some {
        digit_groups(s, i + 1, group.push(s[i]))
    } else if separates(s[i]) && group.len() > 0 {
        seq![group] + digit_groups(s, i + 1, Seq::empty())
    } else {
        digit_groups(s, i + 1, group)
    }
}

fn split_digits(s: &str) -> (r: Vec<String>)
    ensures
        r.deep_view() == digit_groups(s@, 0, Seq::empty()),
{
    let cs = to_chars(s);
    let mut out: Vec<String> = Vec::new();
    let mut group: Vec<char> = Vec::new();
    let mut i: usize = 0;
    let ghost want = digit_groups(s@, 0, Seq::empty());
    assert(out.deep_view() + digit_groups(s@, 0, group@) =~= want);
    while i < cs.len()
        invariant
            cs@ == s@,
            i <= cs.len(),
            out.deep_view() + digit_groups(s@, i as int, group@) == want,
        decreases cs.len() - i,
    {
        let ghost before = out.deep_view();
        let c = cs[i];
        if '0' <= c && c <= '9' {
            group.push(c);
        } else if (c == '-' || c == ' ' || c == 'T' || c == ':') && group.len() > 0 {
            let ghost w = group@;
            out.push(from_chars(&group));
            group = Vec::new();
            let ghost rest = digit_groups(s@, i + 1, Seq::empty());
            assert(out.deep_view() =~= before.push(w));
            assert(out.deep_view() + rest =~= before + (seq![w] + rest));
        }
        i += 1;
    }
    if group.len() > 0 {
        let ghost before = out.deep_view();
        out.push(from_chars(&group));
        assert(out.deep_view() =~= before.push(group@));
    }
    assert(out.deep_view() =~= want);
    out
}

/// The number of group `k`, or a default where there is none.
pub open spec fn group_or(g: Seq<Seq<char>>, k: int, default: int) -> int {
    if k < g.len() {
        number_or(g[k], default)
    } else {
        default
    }
}

fn read_group(g: &Vec<String>, k: usize, default: i64) -> (r: i64)
    ensures
        r == group_or(g.deep_view(), k as int, default as int),
{
    if k < g.len() {
        assert(g.deep_view()[k as int] == g[k as int]@);
        parse_or(g[k].as_str(), default)
    } else {
        default
    }
}

/// STRPTIME: the timestamp that a text gives by its groups of digits: year,
/// month, day, and hour, minute and second where there are such. NULL where
/// the format lacks year, month or day, the text has fewer than three groups,
/// the month is unknown, or the timestamp does not fit 64 bits.
pub open spec fn strptime_datum(fmt: Seq<char>, d: Datum) -> Datum {
    match text_of(d) {
        None => Datum::Null,
        Some(s) => {
            let g = digit_groups(s, 0, Seq::empty());
            let known = contains_text(fmt, "%Y"@) && contains_text(fmt, "%m"@) && contains_text(
                fmt,
                "%d"@,
            );
            let start = day_start(group_or(g, 0, 1970), group_or(g, 1, 1), group_or(g, 2, 1));
            if !known || g.len() < 3 || start is None {
                Datum::Null
            } else {
                let ms = (start->0 + group_or(g, 3, 0) * 3600 + group_or(g, 4, 0) * 60 + group_or(
                    g,
                    5,
                    0,
                )) * 1000;
                if i64::MIN <= ms <= i64::MAX {
                    Datum::Timestamp(ms as i64)
                } else {
                    Datum::Null
                }
            }
        },
    }
}

/// STRPTIME of a value.
pub fn strptime_value(fmt: &str, v: &Value) -> (r: Value)
    ensures
        r.deep_view() == strptime_datum(fmt@, v.deep_view()),
{
    let s = match v.as_str() {
        Some(s) => s,
        None => {
            return Value::Null;
        },
    };
    if !(has_text(fmt, "%Y") && has_text(fmt, "%m") && has_text(fmt, "%d")) {
        return Value::Null;
    }
    let g = split_digits(s);
    if g.len() < 3 {
        return Value::Null;
    }
    let y: i64 = read_group(&g, 0, 1970);
    let m: i64 = read_group(&g, 1, 1);
    let d: i64 = read_group(&g, 2, 1);
    let h: i64 = read_group(&g, 3, 0);
    let min: i64 = read_group(&g, 4, 0);
    let sec: i64 = read_group(&g, 5, 0);
    match start_of_day(y, m, d) {
        None => Value::Null,
        Some(start) => {
            let ms: i128 = (start as i128 + h as i128 * 3600 + min as i128 * 60 + sec as i128)
                * 1000;
            if i64::MIN as i128 <= ms && ms <= i64::MAX as i128 {
                Value::Timestamp(ms as i64)
            } else {
                Value::Null
            }
        },
    }
}

} // verus!
