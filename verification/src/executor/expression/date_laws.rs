//! Dates that are written are read back.
use vstd::prelude::*;

use crate::executor::expression::dates::{
    date_epoch, date_of, date_text, datetime_datum, day_of, day_start, digit_groups, is_date,
    law_date_exists, lemma_in_year, lemma_year_order, number_or, secs_of, separates, strptime_datum,
    time_of, year_start, Date,
};
use crate::text::{
    all_digits, contains_text, dec, dec_value, digit_char, digit_value, find_from, lemma_find_from,
    occurs_at, padded, pieces, split_text, zeros,
};
use crate::value::Datum;

verus! {

/// The digits of a number denote it.
pub proof fn lemma_dec_reads(n: nat)
    ensures
        dec(n).len() > 0,
        all_digits(dec(n)),
        dec_value(dec(n)) == n,
    decreases n,
{
    let s = dec(n);
    if n < 10 {
        assert(s.drop_last() =~= Seq::empty());
        assert(dec_value(s.drop_last()) == 0);
        assert(digit_value(digit_char(n as int)) == Some(n as int));
        assert(s.last() == digit_char(n as int));
    } else {
        lemma_dec_reads(n / 10);
        assert(s.drop_last() =~= dec(n / 10));
        assert(digit_value(digit_char((n % 10) as int)) == Some((n % 10) as int));
        assert(s.last() == digit_char((n % 10) as int));
        assert(dec_value(s) == dec_value(s.drop_last()) * 10 + digit_value(s.last())->0);
        assert forall|i: int| 0 <= i < s.len() implies digit_value(#[trigger] s[i]) is Some by {
            if i < s.len() - 1 {
                assert(s[i] == dec(n / 10)[i]);
            }
        }
    }
}

/// Zeros before digits change nothing.
proof fn lemma_zeros_read(k: nat, d: Seq<char>)
    requires
        all_digits(d),
    ensures
        all_digits(zeros(k) + d),
        dec_value(zeros(k) + d) == dec_value(d),
    decreases k + d.len(),
{
    let s = zeros(k) + d;
    assert(digit_value('0') == Some(0int));
    assert forall|i: int| 0 <= i < s.len() implies digit_value(#[trigger] s[i]) is Some by {
        if i >= k {
            assert(s[i] == d[i - k]);
        }
    }
    if d.len() > 0 {
        assert(all_digits(d.drop_last())) by {
            assert forall|i: int| 0 <= i < d.len() - 1 implies digit_value(
                #[trigger] d.drop_last()[i],
            ) is Some by {
                assert(d.drop_last()[i] == d[i]);
            }
        }
        lemma_zeros_read(k, d.drop_last());
        assert(s.drop_last() =~= zeros(k) + d.drop_last());
    } else if k > 0 {
        lemma_zeros_read((k - 1) as nat, d);
        assert(s.drop_last() =~= zeros((k - 1) as nat) + d);
    } else {
        assert(s =~= d);
    }
}

/// A number that is written with zeros before it is read back.
proof fn lemma_padded_read(n: int, w: nat, default: int)
    requires
        0 <= n <= i64::MAX,
    ensures
        all_digits(padded(n, w)),
        number_or(padded(n, w), default) == n,
{
    let d = dec(n as nat);
    let k = if d.len() < w {
        (w - d.len()) as nat
    } else {
        0
    };
    lemma_dec_reads(n as nat);
    lemma_zeros_read(k, d);
    let s = padded(n, w);
    assert(s == zeros(k) + d);
    assert(digit_value(s[0]) is Some);
}

/// The first dash behind digits.
proof fn lemma_first_dash(s: Seq<char>, i: int, p: int)
    requires
        0 <= i <= p < s.len(),
        s[p] == '-',
        forall|q: int| i <= q < p ==> #[trigger] s[q] != '-',
    ensures
        find_from(s, seq!['-'], i) == Some(p),
{
    let d = seq!['-'];
    lemma_find_from(s, d, i);
    assert(s.subrange(p, p + 1) =~= d);
    assert(occurs_at(s, d, p));
    let f = find_from(s, d, i)->0;
    assert(s.subrange(f, f + 1)[0] == d[0]);
    assert(s[f] == '-');
}

/// Digits between dashes are the pieces that dashes part.
proof fn lemma_dashes_part(a: Seq<char>, b: Seq<char>, c: Seq<char>)
    requires
        all_digits(a),
        all_digits(b),
        all_digits(c),
    ensures
        split_text(a + seq!['-'] + b + seq!['-'] + c, seq!['-']) == seq![a, b, c],
{
    let d = seq!['-'];
    let s = a + d + b + d + c;
    let p = a.len() as int;
    let q = p + 1 + b.len();
    let n = s.len() as int;
    assert(digit_value('-') is None);
    assert forall|i: int| 0 <= i < p implies #[trigger] s[i] != '-' by {
        assert(s[i] == a[i]);
    }
    assert forall|i: int| p < i < q implies #[trigger] s[i] != '-' by {
        assert(s[i] == b[i - p - 1]);
    }
    assert forall|i: int| q < i < n implies #[trigger] s[i] != '-' by {
        assert(s[i] == c[i - q - 1]);
    }
    lemma_first_dash(s, 0, p);
    lemma_first_dash(s, p + 1, q);
    lemma_find_from(s, d, q + 1);
    if let Some(f) = find_from(s, d, q + 1) {
        assert(s.subrange(f, f + 1)[0] == d[0]);
        assert(s[f] == '-');
    }
    assert(s.subrange(0, p) =~= a);
    assert(s.subrange(p + 1, q) =~= b);
    assert(s.subrange(q + 1, n) =~= c);
    assert(pieces(s, d, q + 1) == seq![c]);
    assert(pieces(s, d, p + 1) == seq![b] + pieces(s, d, q + 1));
    assert(pieces(s, d, 0) == seq![a] + pieces(s, d, p + 1));
    assert(split_text(s, d) =~= seq![a, b, c]);
}

/// A day from year 0 on whose date is written has that date read back as the
/// second at which it starts.
pub proof fn law_day_roundtrip(days: int)
    requires
        year_start(0) <= days,
        days * 86400 <= i64::MAX,
    ensures
        date_epoch(date_text(date_of(days))) == Some((days * 86400) as i64),
{
    let t = date_of(days);
    law_date_exists(days);
    assert(is_date(days, t));
    lemma_in_year(days, t);
    if t.year < 0 {
        lemma_year_order(t.year, 0);
    }
    assert(t.year <= i64::MAX);
    let (a, b, c) = (padded(t.year, 4), padded(t.month, 2), padded(t.day, 2));
    lemma_padded_read(t.year, 4, 1970);
    lemma_padded_read(t.month, 2, 1);
    lemma_padded_read(t.day, 2, 1);
    reveal_strlit("-");
    assert("-"@ =~= seq!['-']);
    lemma_dashes_part(a, b, c);
}

/// A timestamp at midnight, from year 0 on, is read back from its date: as
/// whole seconds.
pub proof fn law_date_roundtrip(ts: i64)
    requires
        ts as int % 86_400_000 == 0,
        ts >= -62_167_219_200_000,
    ensures
        date_epoch(date_text(date_of(day_of(ts as int)))) matches Some(s) && s * 1000 == ts,
{
    let days = day_of(ts as int);
    assert(secs_of(ts as int) * 1000 == ts);
    assert(days * 86400 == secs_of(ts as int));
    law_day_roundtrip(days);
}

/// A run of digits before a separator, or at the end, is a group.
proof fn lemma_group(s: Seq<char>, i: int, p: int, group: Seq<char>)
    requires
        0 <= i <= p <= s.len(),
        forall|j: int| i <= j < p ==> digit_value(#[trigger] s[j]) is Some,
        p < s.len() ==> separates(s[p]) && digit_value(s[p]) is None,
        group.len() > 0 || i < p,
    ensures
        digit_groups(s, i, group) == seq![group + s.subrange(i, p)] + (if p < s.len() {
            digit_groups(s, p + 1, Seq::empty())
        } else {
            Seq::empty()
        }),
    decreases p - i,
{
    if i < p {
        lemma_group(s, i + 1, p, group.push(s[i]));
        assert(group.push(s[i]) + s.subrange(i + 1, p) =~= group + s.subrange(i, p));
    } else {
        assert(group + s.subrange(i, p) =~= group);
        if p >= s.len() {
            assert(seq![group] + Seq::<Seq<char>>::empty() =~= seq![group]);
        }
    }
}

/// Whether a text of digits stands in another from `a` to `b`.
spec fn digits_in(s: Seq<char>, a: int, b: int, d: Seq<char>) -> bool {
    0 <= a < b <= s.len() && all_digits(d) && s.subrange(a, b) == d
}

proof fn lemma_next_group(s: Seq<char>, a: int, b: int, d: Seq<char>)
    requires
        digits_in(s, a, b, d),
        b < s.len() ==> separates(s[b]),
    ensures
        digit_groups(s, a, Seq::empty()) == seq![d] + (if b < s.len() {
            digit_groups(s, b + 1, Seq::empty())
        } else {
            Seq::empty()
        }),
{
    assert forall|j: int| a <= j < b implies digit_value(#[trigger] s[j]) is Some by {
        assert(s[j] == d[j - a]);
    }
    lemma_group(s, a, b, Seq::empty());
    assert(Seq::<char>::empty() + s.subrange(a, b) =~= d);
}

/// Six numbers with separators between them are the groups of their text.
proof fn lemma_six_groups(
    a: Seq<char>,
    b: Seq<char>,
    c: Seq<char>,
    h: Seq<char>,
    m: Seq<char>,
    e: Seq<char>,
)
    requires
        all_digits(a) && a.len() > 0,
        all_digits(b) && b.len() > 0,
        all_digits(c) && c.len() > 0,
        all_digits(h) && h.len() > 0,
        all_digits(m) && m.len() > 0,
        all_digits(e) && e.len() > 0,
    ensures
        digit_groups(
            a + seq!['-'] + b + seq!['-'] + c + seq![' '] + h + seq![':'] + m + seq![':'] + e,
            0,
            Seq::empty(),
        ) == seq![a, b, c, h, m, e],
{
    let s = a + seq!['-'] + b + seq!['-'] + c + seq![' '] + h + seq![':'] + m + seq![':'] + e;
    let p1 = a.len() as int;
    let p2 = p1 + 1 + b.len();
    let p3 = p2 + 1 + c.len();
    let p4 = p3 + 1 + h.len();
    let p5 = p4 + 1 + m.len();
    let n = s.len() as int;
    assert(s.subrange(0, p1) =~= a);
    assert(s.subrange(p1 + 1, p2) =~= b);
    assert(s.subrange(p2 + 1, p3) =~= c);
    assert(s.subrange(p3 + 1, p4) =~= h);
    assert(s.subrange(p4 + 1, p5) =~= m);
    assert(s.subrange(p5 + 1, n) =~= e);
    assert(s[p1] == '-' && s[p2] == '-' && s[p3] == ' ' && s[p4] == ':' && s[p5] == ':');
    lemma_next_group(s, p5 + 1, n, e);
    lemma_next_group(s, p4 + 1, p5, m);
    lemma_next_group(s, p3 + 1, p4, h);
    lemma_next_group(s, p2 + 1, p3, c);
    lemma_next_group(s, p1 + 1, p2, b);
    lemma_next_group(s, 0, p1, a);
    assert(digit_groups(s, 0, Seq::empty()) =~= seq![a, b, c, h, m, e]);
}

/// The groups of the text of a date and a time are their numbers.
proof fn lemma_stamp_groups(t: Date, h: int, m: int, s: int)
    requires
        0 <= t.year,
        0 <= t.month,
        0 <= t.day,
        0 <= h,
        0 <= m,
        0 <= s,
    ensures
        digit_groups(
            date_text(t) + " "@ + (padded(h, 2) + ":"@ + padded(m, 2) + ":"@ + padded(s, 2)),
            0,
            Seq::empty(),
        ) == seq![
            padded(t.year, 4),
            padded(t.month, 2),
            padded(t.day, 2),
            padded(h, 2),
            padded(m, 2),
            padded(s, 2),
        ],
{
    lemma_padded_some(t.year, 4);
    lemma_padded_some(t.month, 2);
    lemma_padded_some(t.day, 2);
    lemma_padded_some(h, 2);
    lemma_padded_some(m, 2);
    lemma_padded_some(s, 2);
    let (a, b, c) = (padded(t.year, 4), padded(t.month, 2), padded(t.day, 2));
    let (x, y, z) = (padded(h, 2), padded(m, 2), padded(s, 2));
    reveal_strlit("-");
    reveal_strlit(" ");
    reveal_strlit(":");
    assert("-"@ =~= seq!['-']);
    assert(" "@ =~= seq![' ']);
    assert(":"@ =~= seq![':']);
    lemma_six_groups(a, b, c, x, y, z);
    assert(date_text(t) + " "@ + (x + ":"@ + y + ":"@ + z) =~= a + seq!['-'] + b + seq!['-'] + c
        + seq![' '] + x + seq![':'] + y + seq![':'] + z);
}

/// What STRPTIME reads of a date and a time.
#[verifier::spinoff_prover]
#[verifier::rlimit(40)]
proof fn lemma_stamp_read(fmt: Seq<char>, t: Date, h: int, m: int, s: int, start: int)
    requires
        contains_text(fmt, "%Y"@) && contains_text(fmt, "%m"@) && contains_text(fmt, "%d"@),
        0 <= t.year <= i64::MAX,
        1 <= t.month <= 12,
        1 <= t.day <= 31,
        0 <= h < 24,
        0 <= m < 60,
        0 <= s < 60,
        day_start(t.year, t.month, t.day) == Some(start as i64),
        0 <= start,
        (start + 86400) * 1000 <= i64::MAX,
    ensures
        strptime_datum(
            fmt,
            Datum::Varchar(
                date_text(t) + " "@ + (padded(h, 2) + ":"@ + padded(m, 2) + ":"@ + padded(s, 2)),
            ),
        ) == Datum::Timestamp(((start + h * 3600 + m * 60 + s) * 1000) as i64),
{
    let text = date_text(t) + " "@ + (padded(h, 2) + ":"@ + padded(m, 2) + ":"@ + padded(s, 2));
    lemma_stamp_groups(t, h, m, s);
    let g = digit_groups(text, 0, Seq::empty());
    assert(g.len() == 6);
    assert(g[0] == padded(t.year, 4) && g[1] == padded(t.month, 2) && g[2] == padded(t.day, 2));
    assert(g[3] == padded(h, 2) && g[4] == padded(m, 2) && g[5] == padded(s, 2));
    lemma_padded_read(t.year, 4, 1970);
    lemma_padded_read(t.month, 2, 1);
    lemma_padded_read(t.day, 2, 1);
    lemma_padded_read(h, 2, 0);
    lemma_padded_read(m, 2, 0);
    lemma_padded_read(s, 2, 0);
}

/// What STRPTIME reads of the text that DATETIME writes is the whole second of the
/// timestamp, from 1970 on, where the format has year, month and day.
#[verifier::spinoff_prover]
#[verifier::rlimit(40)]
pub proof fn law_datetime_roundtrip(fmt: Seq<char>, ts: i64)
    requires
        0 <= ts <= i64::MAX - 86_400_000,
        contains_text(fmt, "%Y"@) && contains_text(fmt, "%m"@) && contains_text(fmt, "%d"@),
    ensures
        strptime_datum(fmt, datetime_datum(Datum::Timestamp(ts))) matches Datum::Timestamp(r) && r
            % 1000 == 0 && r <= ts && ts < r + 1000,
{
    let days = day_of(ts as int);
    let secs = time_of(ts as int);
    lemma_clock_parts(ts as int);
    let t = date_of(days);
    law_date_exists(days);
    lemma_later_date(days, t);
    let (h, m, s) = (secs / 3600, (secs % 3600) / 60, secs % 60);
    lemma_stamp_read(fmt, t, h, m, s, days * 86400);
}

/// The day and the time of a timestamp from 1970 on.
proof fn lemma_clock_parts(t: int)
    requires
        0 <= t,
    ensures
        0 <= day_of(t),
        0 <= time_of(t) < 86400,
        t / 1000 == day_of(t) * 86400 + (time_of(t) / 3600) * 3600 + ((time_of(t) % 3600) / 60) * 60
            + time_of(t) % 60,
        secs_of(t) == t / 1000,
{
    assert(secs_of(t) == day_of(t) * 86400 + time_of(t) && 0 <= time_of(t) < 86400);
}

/// A date from 1970 on has a year that is not negative, and no more years than
/// days have passed since.
#[verifier::spinoff_prover]
#[verifier::rlimit(40)]
proof fn lemma_later_date(days: int, t: Date)
    requires
        0 <= days,
        is_date(days, t),
    ensures
        0 <= t.year <= 1970 + days,
        1 <= t.month <= 12,
        1 <= t.day <= 31,
{
    lemma_in_year(days, t);
    if t.year < 0 {
        lemma_year_order(t.year, 0);
    }
    lemma_month_length(days, t);
}

/// A month has no more than 31 days.
proof fn lemma_month_length(days: int, t: Date)
    requires
        is_date(days, t),
    ensures
        1 <= t.month <= 12,
        1 <= t.day <= 31,
{
}

/// A number that is written with zeros before it is made of digits.
proof fn lemma_padded_some(n: int, w: nat)
    requires
        0 <= n,
        w > 0,
    ensures
        padded(n, w).len() > 0,
        all_digits(padded(n, w)),
{
    let d = dec(n as nat);
    lemma_dec_reads(n as nat);
    lemma_zeros_read(
        if d.len() < w {
            (w - d.len()) as nat
        } else {
            0
        },
        d,
    );
}

} // verus!
