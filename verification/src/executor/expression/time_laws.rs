//! What the functions of time give.
use vstd::prelude::*;

use crate::executor::exact::{denotes, fits64};
use crate::executor::expression::dates::{
    conversion, date_add, date_datum, date_diff, date_of, date_sub, date_text, date_trunc,
    datetime_datum, day_of, is_date, law_date_exists, law_date_unique, leap, month_len,
    month_start, secs_of, strftime_from, time_datum, time_of, truncated, unit_ms, year_start, Date,
};
use crate::text::{dec_int, padded};
use crate::value::Datum;

verus! {

/// Whether a text names a millisecond.
pub open spec fn says_milli(u: Seq<char>) -> bool {
    u == "millisecond"@ || u == "milliseconds"@ || u == "ms"@
}

/// Whether a text names a second.
pub open spec fn says_second(u: Seq<char>) -> bool {
    u == "second"@ || u == "seconds"@ || u == "sec"@ || u == "s"@
}

/// Whether a text names a minute.
pub open spec fn says_minute(u: Seq<char>) -> bool {
    u == "minute"@ || u == "minutes"@ || u == "min"@
}

/// Whether a text names an hour.
pub open spec fn says_hour(u: Seq<char>) -> bool {
    u == "hour"@ || u == "hours"@ || u == "h"@
}

/// Whether a text names a day.
pub open spec fn says_day(u: Seq<char>) -> bool {
    u == "day"@ || u == "days"@ || u == "d"@
}

/// Whether a text names a week.
pub open spec fn says_week(u: Seq<char>) -> bool {
    u == "week"@ || u == "weeks"@ || u == "w"@
}

/// Whether a text names a month.
pub open spec fn says_month(u: Seq<char>) -> bool {
    u == "month"@ || u == "months"@
}

/// Whether a text names a year.
pub open spec fn says_year(u: Seq<char>) -> bool {
    u == "year"@ || u == "years"@ || u == "y"@
}

/// A word for a span of time, and how many milliseconds it lasts.
pub open spec fn lasts(u: Seq<char>, ms: int) -> bool {
    ||| says_milli(u) && ms == 1
    ||| says_second(u) && ms == 1000
    ||| says_minute(u) && ms == 60 * 1000
    ||| says_hour(u) && ms == 60 * 60 * 1000
    ||| says_day(u) && ms == 24 * 60 * 60 * 1000
    ||| says_week(u) && ms == 7 * 24 * 60 * 60 * 1000
}

/// The words for units differ by their lengths or by their first letters.
proof fn lemma_units()
    ensures
        forall|u: Seq<char>| #[trigger]
            says_milli(u) ==> !says_second(u) && !says_minute(u) && !says_hour(u) && !says_day(u)
                && !says_week(u) && !says_month(u) && !says_year(u),
        forall|u: Seq<char>| #[trigger]
            says_second(u) ==> !says_minute(u) && !says_hour(u) && !says_day(u) && !says_week(u)
                && !says_month(u) && !says_year(u),
        forall|u: Seq<char>| #[trigger]
            says_minute(u) ==> !says_hour(u) && !says_day(u) && !says_week(u) && !says_month(u)
                && !says_year(u),
        forall|u: Seq<char>| #[trigger]
            says_hour(u) ==> !says_day(u) && !says_week(u) && !says_month(u) && !says_year(u),
        forall|u: Seq<char>| #[trigger]
            says_day(u) ==> !says_week(u) && !says_month(u) && !says_year(u),
        forall|u: Seq<char>| #[trigger] says_week(u) ==> !says_month(u) && !says_year(u),
        forall|u: Seq<char>| #[trigger] says_month(u) ==> !says_year(u),
{
    reveal_strlit("millisecond");
    reveal_strlit("milliseconds");
    reveal_strlit("ms");
    reveal_strlit("second");
    reveal_strlit("seconds");
    reveal_strlit("sec");
    reveal_strlit("s");
    reveal_strlit("minute");
    reveal_strlit("minutes");
    reveal_strlit("min");
    reveal_strlit("hour");
    reveal_strlit("hours");
    reveal_strlit("h");
    reveal_strlit("day");
    reveal_strlit("days");
    reveal_strlit("d");
    reveal_strlit("week");
    reveal_strlit("weeks");
    reveal_strlit("w");
    reveal_strlit("month");
    reveal_strlit("months");
    reveal_strlit("year");
    reveal_strlit("years");
    reveal_strlit("y");
    assert("millisecond"@.len() == 11 && "millisecond"@[0] == 'm');
    assert("milliseconds"@.len() == 12 && "milliseconds"@[0] == 'm');
    assert("ms"@.len() == 2 && "ms"@[0] == 'm');
    assert("second"@.len() == 6 && "second"@[0] == 's');
    assert("seconds"@.len() == 7 && "seconds"@[0] == 's');
    assert("sec"@.len() == 3 && "sec"@[0] == 's');
    assert("s"@.len() == 1 && "s"@[0] == 's');
    assert("minute"@.len() == 6 && "minute"@[0] == 'm');
    assert("minutes"@.len() == 7 && "minutes"@[0] == 'm');
    assert("min"@.len() == 3 && "min"@[0] == 'm');
    assert("hour"@.len() == 4 && "hour"@[0] == 'h');
    assert("hours"@.len() == 5 && "hours"@[0] == 'h');
    assert("h"@.len() == 1 && "h"@[0] == 'h');
    assert("day"@.len() == 3 && "day"@[0] == 'd');
    assert("days"@.len() == 4 && "days"@[0] == 'd');
    assert("d"@.len() == 1 && "d"@[0] == 'd');
    assert("week"@.len() == 4 && "week"@[0] == 'w');
    assert("weeks"@.len() == 5 && "weeks"@[0] == 'w');
    assert("w"@.len() == 1 && "w"@[0] == 'w');
    assert("month"@.len() == 5 && "month"@[0] == 'm');
    assert("months"@.len() == 6 && "months"@[0] == 'm');
    assert("year"@.len() == 4 && "year"@[0] == 'y');
    assert("years"@.len() == 5 && "years"@[0] == 'y');
    assert("y"@.len() == 1 && "y"@[0] == 'y');
    assert("minute"@[1] != "months"@[1]);
}

/// The whole second of a timestamp, toward zero.
pub open spec fn whole_second(t: int) -> int {
    if t >= 0 {
        t - t % 1000
    } else {
        t + (-t) % 1000
    }
}

/// DATE_TRUNC to a day or less gives the start of the unit that the second
/// of the timestamp lies in: a multiple of the unit, from which the second is less
/// than a unit away. So timestamps of one unit truncate alike, and for one that is
/// not negative it is the greatest multiple that is not behind it.
pub proof fn law_truncate_clock(d: Datum, t: int, u: Seq<char>, ms: int)
    requires
        denotes(d, t),
        lasts(u, ms),
        says_second(u) || says_minute(u) || says_hour(u) || says_day(u),
        fits64(t - 86_400_000),
    ensures
        date_trunc(d, u) matches Datum::Timestamp(r) && {
            &&& r as int % ms == 0
            &&& r <= whole_second(t) < r + ms
            &&& t >= 0 ==> r <= t < r + ms
        },
{
    lemma_units();
    let s = truncated(t, u);
    let w = whole_second(t);
    assert(w == secs_of(t) * 1000);
    if says_second(u) {
        assert(s * 1000 == w && (s * 1000) % 1000 == 0);
    } else if says_minute(u) {
        assert((s * 1000) % 60_000 == 0 && s * 1000 <= w < s * 1000 + 60_000);
    } else if says_hour(u) {
        assert((s * 1000) % 3_600_000 == 0 && s * 1000 <= w < s * 1000 + 3_600_000);
    } else {
        assert((s * 1000) % 86_400_000 == 0 && s * 1000 <= w < s * 1000 + 86_400_000);
    }
    assert((s as i64).wrapping_mul(1000) == s * 1000);
}

/// The day of a timestamp: that of its whole second.
pub open spec fn day_in(t: int) -> int {
    whole_second(t) / 86_400_000
}

/// DATE_TRUNC to a week gives the midnight that starts the Monday on or before the
/// timestamp. 1970-01-01 is a Thursday.
pub proof fn law_truncate_week(d: Datum, t: int, u: Seq<char>)
    requires
        denotes(d, t),
        says_week(u),
        fits64(t - 8 * 86_400_000),
    ensures
        date_trunc(d, u) matches Datum::Timestamp(r) && {
            &&& r as int % 86_400_000 == 0
            &&& (r as int / 86_400_000 + 3) % 7 == 0
            &&& r <= whole_second(t) < r + 7 * 86_400_000
        },
{
    lemma_units();
    let s = truncated(t, u);
    let w = whole_second(t);
    let days = day_of(t);
    assert(w == secs_of(t) * 1000);
    assert(s * 1000 == (days - (days + 3) % 7) * 86_400_000);
    assert((s * 1000) % 86_400_000 == 0 && (s * 1000) / 86_400_000 == days - (days + 3) % 7);
    assert((s as i64).wrapping_mul(1000) == s * 1000);
}

/// DATE_TRUNC to a month or a year gives the midnight that starts the first day of
/// the month, or of the year, that the timestamp lies in.
pub proof fn law_truncate_date(d: Datum, t: int, u: Seq<char>, g: Date)
    requires
        denotes(d, t),
        says_month(u) || says_year(u),
        is_date(day_in(t), g),
        fits64(t - 367 * 86_400_000),
    ensures
        date_trunc(d, u) matches Datum::Timestamp(r) && {
            &&& r as int % 86_400_000 == 0
            &&& r <= whole_second(t)
            &&& says_month(u) ==> is_date(
                r as int / 86_400_000,
                Date { year: g.year, month: g.month, day: 1 },
            )
            &&& says_year(u) ==> is_date(
                r as int / 86_400_000,
                Date { year: g.year, month: 1, day: 1 },
            )
        },
{
    lemma_units();
    let s = truncated(t, u);
    let w = whole_second(t);
    let days = day_of(t);
    assert(w == secs_of(t) * 1000);
    assert(day_in(t) == days);
    law_date_exists(days);
    law_date_unique(days, date_of(days), g);
    lemma_months_bound(g.year, g.month);
    let k = if says_month(u) {
        year_start(g.year) + month_start(g.year, g.month)
    } else {
        year_start(g.year)
    };
    assert(s == k * 86400);
    assert((s * 1000) % 86_400_000 == 0 && (s * 1000) / 86_400_000 == k);
    assert((s as i64).wrapping_mul(1000) == s * 1000);
    assert(month_start(g.year, 1) == 0);
    assert(1 <= month_len(g.year, g.month) && 1 <= month_len(g.year, 1));
}

/// A month starts within its year.
proof fn lemma_months_bound(y: int, m: int)
    requires
        1 <= m <= 12,
    ensures
        0 <= month_start(y, m) <= 335,
{
    reveal_with_fuel(month_start, 13);
}

/// The length of a unit by its word.
proof fn lemma_unit_ms(u: Seq<char>, ms: int)
    requires
        lasts(u, ms),
    ensures
        unit_ms(u) == Some(ms as i64),
        1 <= ms <= 604_800_000,
{
    lemma_units();
    if says_milli(u) {
        assert(unit_ms(u) == Some(1i64));
    } else if says_second(u) {
        assert(!says_milli(u));
        assert(unit_ms(u) == Some(1000i64));
    } else if says_minute(u) {
        assert(!says_milli(u) && !says_second(u));
        assert(unit_ms(u) == Some(60_000i64));
    } else if says_hour(u) {
        assert(!says_milli(u) && !says_second(u) && !says_minute(u));
        assert(unit_ms(u) == Some(3_600_000i64));
    } else if says_day(u) {
        assert(!says_milli(u) && !says_second(u) && !says_minute(u) && !says_hour(u));
        assert(unit_ms(u) == Some(86_400_000i64));
    } else {
        assert(unit_ms(u) == Some(604_800_000i64));
    }
}

/// DATE_ADD moves a timestamp on by a number of units, and DATE_SUB back by as many:
/// each undoes the other. A unit that is not known moves nothing.
pub proof fn law_move(d: Datum, n: Datum, t: int, k: int, u: Seq<char>, ms: int)
    requires
        denotes(d, t),
        denotes(n, k),
        fits64(k * ms),
        fits64(-k),
        fits64(-k * ms),
    ensures
        lasts(u, ms) && fits64(t + k * ms) ==> (date_add(d, n, u) matches Datum::Timestamp(r) && r
            == t + k * ms && date_sub(Datum::Timestamp(r), n, u) == Datum::Timestamp(t as i64)),
        lasts(u, ms) && fits64(t - k * ms) ==> (date_sub(d, n, u) matches Datum::Timestamp(r) && r
            + k * ms == t && date_add(Datum::Timestamp(r), n, u) == Datum::Timestamp(t as i64)),
        (forall|m: int| !#[trigger] lasts(u, m)) ==> date_add(d, n, u) == Datum::Timestamp(t as i64)
            && date_sub(d, n, u) == Datum::Timestamp(t as i64),
{
    lemma_units();
    if lasts(u, ms) {
        lemma_unit_ms(u, ms);
        assert((-k) * ms == -(k * ms)) by (nonlinear_arith);
        assert((k as i64).wrapping_mul(ms as i64) == k * ms);
        assert((0i64.wrapping_sub(k as i64)).wrapping_mul(ms as i64) == -(k * ms));
    } else if forall|m: int| !#[trigger] lasts(u, m) {
        assert(!lasts(u, 1) && !lasts(u, 1000) && !lasts(u, 60_000) && !lasts(u, 3_600_000)
            && !lasts(u, 86_400_000) && !lasts(u, 604_800_000));
    }
}

/// DATE_DIFF counts the whole units from the second timestamp to the first: what is
/// left is less than a unit and does not point the other way. So moving a timestamp
/// by as many units leaves as many between the two.
pub proof fn law_difference(a: Datum, b: Datum, x: int, y: int, u: Seq<char>, ms: int)
    requires
        denotes(a, x),
        denotes(b, y),
        lasts(u, ms),
        fits64(x - y),
    ensures
        date_diff(a, b, u) matches Datum::Int64(q) && {
            &&& x >= y ==> q * ms <= x - y < q * ms + ms
            &&& x <= y ==> q * ms - ms < x - y <= q * ms
        },
{
    lemma_unit_ms(u, ms);
    let m: int = if x >= y {
        x - y
    } else {
        y - x
    };
    let q = m / ms;
    assert(q * ms <= m < q * ms + ms && 0 <= q <= m) by (nonlinear_arith)
        requires
            m >= 0,
            ms >= 1,
            q == m / ms,
    ;
    assert((-q) * ms == -(q * ms)) by (nonlinear_arith);
    assert(x == y ==> q == 0) by (nonlinear_arith)
        requires
            m >= 0,
            ms >= 1,
            q == m / ms,
            x == y ==> m == 0,
    ;
}

/// What is no whole number, or no unit, has no difference.
pub proof fn law_no_difference(a: Datum, b: Datum, u: Seq<char>)
    requires
        (forall|x: int| !#[trigger] denotes(a, x)) || (forall|x: int| !#[trigger] denotes(b, x)) || (
        forall|m: int| !#[trigger] lasts(u, m)),
    ensures
        date_diff(a, b, u) == Datum::Null,
{
    lemma_units();
    match a {
        Datum::Int32(v) => assert(denotes(a, v as int)),
        Datum::Int64(v) => assert(denotes(a, v as int)),
        Datum::Timestamp(v) => assert(denotes(a, v as int)),
        _ => {},
    }
    match b {
        Datum::Int32(v) => assert(denotes(b, v as int)),
        Datum::Int64(v) => assert(denotes(b, v as int)),
        Datum::Timestamp(v) => assert(denotes(b, v as int)),
        _ => {},
    }
    if forall|m: int| !#[trigger] lasts(u, m) {
        assert(!lasts(u, 1) && !lasts(u, 1000) && !lasts(u, 60_000) && !lasts(u, 3_600_000)
            && !lasts(u, 86_400_000) && !lasts(u, 604_800_000));
    }
}

/// Hours, minutes and seconds of two digits.
pub open spec fn clock_of(h: int, m: int, s: int) -> Seq<char> {
    padded(h, 2) + ":"@ + padded(m, 2) + ":"@ + padded(s, 2)
}

proof fn lemma_clock(t: int, h: int, m: int, s: int)
    requires
        0 <= h < 24,
        0 <= m < 60,
        0 <= s < 60,
        whole_second(t) % 86_400_000 == (h * 3600 + m * 60 + s) * 1000,
    ensures
        time_of(t) / 3600 == h,
        (time_of(t) % 3600) / 60 == m,
        time_of(t) % 60 == s,
        day_in(t) == day_of(t),
{
    let k = time_of(t);
    assert(whole_second(t) == secs_of(t) * 1000);
    assert(k == h * 3600 + m * 60 + s);
}

/// TIME shows the hours, minutes and seconds since midnight, and so do the
/// conversions of STRFTIME and the end of DATETIME.
pub proof fn law_clock(d: Datum, t: int, h: int, m: int, s: int)
    requires
        denotes(d, t),
        0 <= h < 24,
        0 <= m < 60,
        0 <= s < 60,
        whole_second(t) % 86_400_000 == (h * 3600 + m * 60 + s) * 1000,
    ensures
        time_datum(d) == Datum::Varchar(clock_of(h, m, s)),
        conversion('H', t) == padded(h, 2),
        conversion('M', t) == padded(m, 2),
        conversion('S', t) == padded(s, 2),
        datetime_datum(d) == Datum::Varchar(
            date_text(date_of(day_in(t))) + " "@ + clock_of(h, m, s),
        ),
{
    lemma_clock(t, h, m, s);
}

/// DATE shows year, month and day of the calendar, and so do the conversions of
/// STRFTIME: the day of the year counts on from its first, and weekdays come round
/// after seven days, Thursday, 1970-01-01, being 4.
pub proof fn law_calendar_shown(d: Datum, t: int, g: Date)
    requires
        denotes(d, t),
        is_date(day_in(t), g),
    ensures
        date_datum(d) == Datum::Varchar(
            padded(g.year, 4) + "-"@ + padded(g.month, 2) + "-"@ + padded(g.day, 2),
        ),
        conversion('Y', t) == padded(g.year, 4),
        conversion('m', t) == padded(g.month, 2),
        conversion('d', t) == padded(g.day, 2),
        g.year >= 0 ==> conversion('y', t) == padded(g.year % 100, 2),
        forall|first: int|
            #[trigger] is_date(first, Date { year: g.year, month: 1, day: 1 }) ==> conversion('j', t)
                == padded(day_in(t) - first + 1, 3),
        conversion('w', t) == dec_int((day_in(t) + 4) % 7),
        forall|first: int, k: int|
            #[trigger] is_date(first, Date { year: g.year, month: 1, day: 1 }) && #[trigger] sundays(
                first,
                day_in(t),
                k,
            ) ==> conversion('U', t) == padded(k, 2),
        conversion('%', t) == seq!['%'],
{
    let days = day_in(t);
    assert(whole_second(t) == secs_of(t) * 1000);
    assert(days == day_of(t));
    law_date_exists(days);
    law_date_unique(days, date_of(days), g);
    assert(month_start(g.year, 1) == 0);
}

/// Whether there are `k` Sundays from the day `first` to the day `last`.
pub open spec fn sundays(first: int, last: int, k: int) -> bool {
    // The last Sunday up to a day is as many days before it as its weekday says.
    7 * k == (last - (last + 4) % 7) - (first - 1 - (first - 1 + 4) % 7)
}

/// The calendar: a year has a 29th of February where 4 divides it, but of the years
/// that 100 divides only where 400 does. Years follow each other from 1970-01-01 on,
/// and months of 30 and 31 days alternate but for July and August.
pub proof fn law_calendar(y: int, m: int)
    requires
        1 <= m <= 12,
    ensures
        leap(y) <==> y % 4 == 0 && (y % 100 == 0 ==> y % 400 == 0),
        month_len(y, 2) == if leap(y) {
            29int
        } else {
            28
        },
        m != 2 ==> month_len(y, m) == 30 + (m + m / 8) % 2,
        year_start(1970) == 0,
        year_start(y + 1) - year_start(y) == 337 + month_len(y, 2),
        month_start(y, 1) == 0,
        month_start(y, m + 1) - month_start(y, m) == month_len(y, m),
        is_date(0, Date { year: 1970, month: 1, day: 1 }),
{
    assert(month_start(1970, 1) == 0);
}

/// The day behind a date is the next of its month, or the first of the next month or
/// year.
pub proof fn law_next_day(days: int, g: Date)
    requires
        is_date(days, g),
    ensures
        g.day < month_len(g.year, g.month) ==> is_date(
            days + 1,
            Date { year: g.year, month: g.month, day: g.day + 1 },
        ),
        g.day == month_len(g.year, g.month) && g.month < 12 ==> is_date(
            days + 1,
            Date { year: g.year, month: g.month + 1, day: 1 },
        ),
        g.day == month_len(g.year, g.month) && g.month == 12 ==> is_date(
            days + 1,
            Date { year: g.year + 1, month: 1, day: 1 },
        ),
{
    if g.month == 12 {
        reveal_with_fuel(month_start, 13);
    }
}

/// A format without percent signs stays as it is, and a conversion behind such a
/// part stands between what is before it and what is behind it.
pub proof fn law_format_parts(a: Seq<char>, c: char, b: Seq<char>, ts: int)
    requires
        forall|i: int| 0 <= i < a.len() ==> #[trigger] a[i] != '%',
    ensures
        strftime_from(a, 0, ts) == a,
        strftime_from(a + seq!['%', c] + b, 0, ts) == a + conversion(c, ts) + strftime_from(
            b,
            0,
            ts,
        ),
{
    let f = a + seq!['%', c] + b;
    assert(a.subrange(0, a.len() as int) =~= a);
    assert(f.subrange(0, a.len() as int) =~= a);
    assert(f.subrange(a.len() as int + 2, f.len() as int) =~= b);
    lemma_format_plain(a, a, 0, ts);
    lemma_format_plain(f, a, 0, ts);
    assert(f[a.len() as int] == '%' && f[a.len() as int + 1] == c);
    lemma_format_shift(f, b, (a.len() + 2) as int, 0, ts);
    assert(strftime_from(f, 0, ts) =~= a + conversion(c, ts) + strftime_from(b, 0, ts));
    assert(strftime_from(a, a.len() as int, ts) =~= Seq::empty());
    assert(strftime_from(a, 0, ts) =~= a);
}

/// A format that begins with plain text.
proof fn lemma_format_plain(f: Seq<char>, a: Seq<char>, i: int, ts: int)
    requires
        forall|k: int| 0 <= k < a.len() ==> #[trigger] a[k] != '%',
        a.len() <= f.len(),
        f.subrange(0, a.len() as int) == a,
        0 <= i <= a.len(),
    ensures
        strftime_from(f, i, ts) == a.subrange(i, a.len() as int) + strftime_from(
            f,
            a.len() as int,
            ts,
        ),
    decreases a.len() - i,
{
    if i < a.len() {
        lemma_format_plain(f, a, i + 1, ts);
        assert(f.subrange(0, a.len() as int)[i] == a[i]);
        assert(a.subrange(i, a.len() as int) =~= seq![a[i]] + a.subrange(i + 1, a.len() as int));
    }
    assert(strftime_from(f, i, ts) =~= a.subrange(i, a.len() as int) + strftime_from(
        f,
        a.len() as int,
        ts,
    ));
}

/// The end of a format by itself.
proof fn lemma_format_shift(f: Seq<char>, b: Seq<char>, n: int, i: int, ts: int)
    requires
        0 <= n,
        f.len() == n + b.len(),
        f.subrange(n, f.len() as int) == b,
        0 <= i,
    ensures
        strftime_from(f, n + i, ts) == strftime_from(b, i, ts),
    decreases b.len() - i,
{
    if i < b.len() {
        assert(f.subrange(n, f.len() as int)[i] == f[n + i]);
        if i + 1 < b.len() {
            assert(f.subrange(n, f.len() as int)[i + 1] == f[n + i + 1]);
        }
        lemma_format_shift(f, b, n, i + 1, ts);
        if i + 1 < b.len() {
            lemma_format_shift(f, b, n, i + 2, ts);
        }
    }
}

} // verus!
