//! What the functions of texts give.
use vstd::prelude::*;

use crate::executor::exact::denotes;
use crate::executor::env::{Answer, Question};
use crate::executor::expression::strings::{
    concat_row, instr_datum, length_datum, match_column, matches_words, part, replace_datum,
    split_part_datum, substring_datum, trim_datum, trim_from, trim_to, trimmed, trims, typeof_text,
    TrimMode,
};
use crate::executor::vector::{col_at, col_len, Column};
use crate::text::{
    contains_text, find_from, joined, lemma_find_from, lower_text, occurs_at, pieces, split_text,
    white, words, words_from,
};
use crate::value::Datum;

verus! {

/// LENGTH counts characters: none in the empty text, one in a text of one, and as
/// many in two texts together as in both.
pub proof fn law_length(s: Seq<char>, t: Seq<char>, c: char)
    requires
        s.len() + t.len() <= i64::MAX,
    ensures
        length_datum(Datum::Varchar(Seq::empty())) == Datum::Int64(0),
        length_datum(Datum::Varchar(seq![c])) == Datum::Int64(1),
        length_datum(Datum::Varchar(s)) matches Datum::Int64(a) && (length_datum(
            Datum::Varchar(t),
        ) matches Datum::Int64(b) && (length_datum(Datum::Varchar(s + t)) matches Datum::Int64(k)
            && k == a + b)),
{
}

/// SUBSTRING leaves out the characters before a position, counted from 1 on, and those
/// behind a number of characters; a position below 1 counts as 1.
pub proof fn law_substring(t: Seq<char>, start: Datum, from: int, len: Datum, n: int)
    requires
        denotes(start, from),
        denotes(len, n),
    ensures
        substring_datum(Datum::Varchar(t), start, None) matches Datum::Varchar(r) && {
            let k = t.len() - r.len();
            &&& 0 <= k <= t.len()
            &&& t == t.subrange(0, k) + r
            &&& k == t.len() || k == 0 && from <= 1 || k == from - 1
            &&& from > t.len() && t.len() > 0 ==> r.len() == 0
        },
        substring_datum(Datum::Varchar(t), start, Some(len)) matches Datum::Varchar(r) && (
        substring_datum(Datum::Varchar(t), start, None) matches Datum::Varchar(all) && {
            &&& r.len() <= all.len()
            &&& r == all.subrange(0, r.len() as int)
            &&& n <= 0 ==> r.len() == 0
            &&& 0 <= n <= all.len() ==> r.len() == n
            &&& n >= all.len() ==> r == all
        }),
        substring_datum(Datum::Null, start, None) == Datum::Null,
{
    let all = part(t, from, None);
    let r = part(t, from, Some(n));
    let k = t.len() - all.len();
    assert(t =~= t.subrange(0, k) + all);
    assert(r =~= all.subrange(0, r.len() as int));
    if n >= all.len() {
        assert(r =~= all);
    }
}

/// Whether all characters of a text are trimmed.
pub open spec fn all_trim(s: Seq<char>, set: Option<Seq<char>>) -> bool {
    forall|i: int|
        0 <= i < s.len() ==> match set {
            None => white(#[trigger] s[i]),
            Some(cs) => cs.contains(s[i]),
        }
}

/// Whether a character is not trimmed.
pub open spec fn stays(c: char, set: Option<Seq<char>>) -> bool {
    match set {
        None => !white(c),
        Some(cs) => !cs.contains(c),
    }
}

/// TRIM takes characters off both ends of a text, LTRIM off its beginning and RTRIM off
/// its end: whitespace, or those of a second text. What is left does not begin, or
/// end, with one of them.
pub proof fn law_trim(s: Seq<char>, set: Option<Seq<char>>, mode: TrimMode)
    ensures
        ({
            let d = match set {
                None => None,
                Some(cs) => Some(Datum::Varchar(cs)),
            };
            trim_datum(Datum::Varchar(s), d, mode) matches Datum::Varchar(r) && exists|
                a: int,
                b: int,
            |
                0 <= a <= b <= s.len() && r == #[trigger] s.subrange(a, b) && {
                    &&& all_trim(s.subrange(0, a), set)
                    &&& all_trim(s.subrange(b, s.len() as int), set)
                    &&& mode == TrimMode::Right ==> a == 0
                    &&& mode == TrimMode::Left ==> b == s.len()
                    &&& mode != TrimMode::Right && a < b ==> stays(s[a], set)
                    &&& mode != TrimMode::Left && a < b ==> stays(s[b - 1], set)
                    &&& mode != TrimMode::Both && a == b && 0 < s.len() ==> all_trim(s, set)
                }
        }),
        trim_datum(Datum::Null, None, mode) == Datum::Null,
        trim_datum(Datum::Varchar(s), Some(Datum::Null), mode) == Datum::Null,
{
    let a = if mode == TrimMode::Right {
        0
    } else {
        trim_from(s, set, 0)
    };
    lemma_trim_from(s, set, 0);
    lemma_trim_to(s, set, a, s.len() as int);
    let b = if mode == TrimMode::Left {
        s.len() as int
    } else {
        trim_to(s, set, a, s.len() as int)
    };
    let (p, q) = (s.subrange(0, a), s.subrange(b, s.len() as int));
    assert forall|i: int| 0 <= i < p.len() implies trims(set, #[trigger] p[i]) by {
        assert(p[i] == s[i]);
    }
    assert forall|i: int| 0 <= i < q.len() implies trims(set, #[trigger] q[i]) by {
        assert(q[i] == s[b + i]);
    }
    assert(s.subrange(a, b) == trimmed(s, set, mode));
}

proof fn lemma_trim_from(s: Seq<char>, set: Option<Seq<char>>, i: int)
    requires
        0 <= i <= s.len(),
    ensures
        i <= trim_from(s, set, i) <= s.len(),
        forall|k: int| i <= k < trim_from(s, set, i) ==> trims(set, #[trigger] s[k]),
        trim_from(s, set, i) < s.len() ==> !trims(set, s[trim_from(s, set, i)]),
    decreases s.len() - i,
{
    if i < s.len() && trims(set, s[i]) {
        lemma_trim_from(s, set, i + 1);
    }
}

proof fn lemma_trim_to(s: Seq<char>, set: Option<Seq<char>>, lo: int, hi: int)
    requires
        0 <= lo <= hi <= s.len(),
    ensures
        lo <= trim_to(s, set, lo, hi) <= hi,
        forall|k: int| trim_to(s, set, lo, hi) <= k < hi ==> trims(set, #[trigger] s[k]),
        trim_to(s, set, lo, hi) > lo ==> !trims(set, s[trim_to(s, set, lo, hi) - 1]),
    decreases hi,
{
    if lo < hi && trims(set, s[hi - 1]) {
        lemma_trim_to(s, set, lo, hi - 1);
    }
}

/// Whether a text stands in another behind so many characters.
pub open spec fn stands_behind(s: Seq<char>, t: Seq<char>, p: int) -> bool {
    0 <= p && p + t.len() <= s.len() && forall|i: int|
        0 <= i < t.len() ==> #[trigger] s[p + i] == t[i]
}

proof fn lemma_stands(s: Seq<char>, t: Seq<char>, p: int)
    ensures
        stands_behind(s, t, p) == occurs_at(s, t, p),
{
    if 0 <= p && p + t.len() <= s.len() {
        let part = s.subrange(p, p + t.len());
        if stands_behind(s, t, p) {
            assert forall|i: int| 0 <= i < t.len() implies part[i] == t[i] by {
                assert(s[p + i] == t[i]);
            }
            assert(part =~= t);
        }
        if part == t {
            assert forall|i: int| 0 <= i < t.len() implies #[trigger] s[p + i] == t[i] by {
                assert(part[i] == s[p + i]);
            }
        }
    }
}

/// INSTR is the place of the first character of the first occurrence, counted from 1
/// on, or 0 where the text does not occur.
pub proof fn law_instr(s: Seq<char>, t: Seq<char>)
    requires
        s.len() < i64::MAX,
    ensures
        instr_datum(Datum::Varchar(s), Datum::Varchar(t)) matches Datum::Int64(k) && {
            &&& 0 <= k <= s.len() + 1
            &&& k > 0 ==> stands_behind(s, t, k - 1)
            &&& forall|p: int| 0 <= p < k - 1 ==> !#[trigger] stands_behind(s, t, p)
            &&& k == 0 ==> forall|p: int| !#[trigger] stands_behind(s, t, p)
        },
        instr_datum(Datum::Null, Datum::Varchar(t)) == Datum::Null,
        instr_datum(Datum::Varchar(s), Datum::Null) == Datum::Null,
{
    lemma_find_from(s, t, 0);
    assert forall|p: int| #[trigger] stands_behind(s, t, p) == occurs_at(s, t, p) by {
        lemma_stands(s, t, p);
    }
}

/// Whether a text begins with a part that ends at the first occurrence of a
/// delimiter, and goes on behind that.
pub open spec fn parted(s: Seq<char>, d: Seq<char>, a: Seq<char>, b: Seq<char>) -> bool {
    s == a + d + b && forall|p: int| 0 <= p < a.len() ==> !#[trigger] stands_behind(s, d, p)
}

proof fn lemma_parted(s: Seq<char>, d: Seq<char>, a: Seq<char>, b: Seq<char>)
    requires
        d.len() > 0,
        parted(s, d, a, b),
    ensures
        split_text(s, d) == seq![a] + split_text(b, d),
{
    let p = a.len() as int;
    lemma_find_from(s, d, 0);
    assert(s.subrange(p, p + d.len()) =~= d);
    assert(occurs_at(s, d, p));
    let f = find_from(s, d, 0)->0;
    assert(f <= p);
    if f < p {
        lemma_stands(s, d, f);
    }
    assert(s.subrange(0, p) =~= a);
    assert(s.subrange((p + d.len()) as int, s.len() as int) =~= b);
    lemma_pieces_shift(s, d, b, (p + d.len()) as int, 0);
}

/// The pieces of the end of a text are those of the end by itself.
proof fn lemma_pieces_shift(s: Seq<char>, d: Seq<char>, b: Seq<char>, n: int, i: int)
    requires
        d.len() > 0,
        0 <= n,
        0 <= i <= b.len(),
        s.len() == n + b.len(),
        s.subrange(n, s.len() as int) == b,
    ensures
        pieces(s, d, n + i) == pieces(b, d, i),
    decreases b.len() - i,
{
    lemma_find_from(s, d, n + i);
    lemma_find_from(b, d, i);
    assert forall|q: int| 0 <= q implies #[trigger] occurs_at(b, d, q) == occurs_at(s, d, n + q) by {
        if q + d.len() <= b.len() {
            let (u, v) = (b.subrange(q, q + d.len()), s.subrange(n + q, n + q + d.len()));
            assert forall|k: int| 0 <= k < d.len() implies #[trigger] u[k] == v[k] by {
                assert(s.subrange(n, s.len() as int)[q + k] == s[n + q + k]);
            }
            assert(u =~= v);
        }
    }
    match (find_from(s, d, n + i), find_from(b, d, i)) {
        (Some(x), Some(y)) => {
            assert(occurs_at(b, d, y) && occurs_at(s, d, n + y));
            assert(occurs_at(b, d, x - n));
            assert(x == n + y);
            lemma_sub(s, b, n, i, y);
            lemma_pieces_shift(s, d, b, n, y + d.len());
        },
        (Some(x), None) => {
            assert(occurs_at(b, d, x - n));
        },
        (None, Some(y)) => {
            assert(occurs_at(s, d, n + y));
        },
        (None, None) => {
            lemma_sub(s, b, n, i, b.len() as int);
        },
    }
}

proof fn lemma_sub(s: Seq<char>, b: Seq<char>, n: int, i: int, j: int)
    requires
        0 <= n,
        0 <= i <= j <= b.len(),
        s.len() == n + b.len(),
        s.subrange(n, s.len() as int) == b,
    ensures
        s.subrange(n + i, n + j) == b.subrange(i, j),
{
    let (u, v) = (s.subrange(n + i, n + j), b.subrange(i, j));
    assert forall|k: int| 0 <= k < j - i implies #[trigger] u[k] == v[k] by {
        assert(s.subrange(n, s.len() as int)[i + k] == s[n + i + k]);
    }
    assert(u =~= v);
}

proof fn lemma_whole(s: Seq<char>, d: Seq<char>)
    requires
        d.len() > 0,
        forall|p: int| !#[trigger] stands_behind(s, d, p),
    ensures
        split_text(s, d) == seq![s],
{
    lemma_find_from(s, d, 0);
    if let Some(p) = find_from(s, d, 0) {
        lemma_stands(s, d, p);
    }
    assert(s.subrange(0, s.len() as int) =~= s);
}

/// SPLIT_PART: the first part ends at the first delimiter, and the part behind it is
/// the first of what follows. A text without the delimiter has one part. Parts that
/// are not there are empty.
pub proof fn law_split_part(
    s: Seq<char>,
    d: Seq<char>,
    a: Seq<char>,
    b: Seq<char>,
    k: int,
)
    requires
        d.len() > 0,
        1 <= k < i64::MAX,
    ensures
        parted(s, d, a, b) ==> {
            &&& split_part_datum(Datum::Varchar(s), Datum::Varchar(d), Datum::Int64(1))
                == Datum::Varchar(a)
            &&& split_part_datum(Datum::Varchar(s), Datum::Varchar(d), Datum::Int64((k + 1) as i64))
                == split_part_datum(Datum::Varchar(b), Datum::Varchar(d), Datum::Int64(k as i64))
        },
        (forall|p: int| !#[trigger] stands_behind(s, d, p)) ==> split_part_datum(
            Datum::Varchar(s),
            Datum::Varchar(d),
            Datum::Int64(k as i64),
        ) == Datum::Varchar(
            if k == 1 {
                s
            } else {
                Seq::empty()
            },
        ),
        forall|z: i64|
            z <= 0 ==> #[trigger] split_part_datum(
                Datum::Varchar(s),
                Datum::Varchar(d),
                Datum::Int64(z),
            ) == Datum::Varchar(Seq::<char>::empty()),
{
    if parted(s, d, a, b) {
        lemma_parted(s, d, a, b);
        let (x, y) = (split_text(s, d), split_text(b, d));
        if k <= y.len() {
            assert(x[k] == y[k - 1]);
        }
    }
    if forall|p: int| !#[trigger] stands_behind(s, d, p) {
        lemma_whole(s, d);
    }
}

proof fn lemma_joined_front(a: Seq<char>, parts: Seq<Seq<char>>, sep: Seq<char>)
    requires
        parts.len() > 0,
    ensures
        joined(seq![a] + parts, sep) == a + sep + joined(parts, sep),
    decreases parts.len(),
{
    let all = seq![a] + parts;
    assert(all.drop_last() =~= seq![a] + parts.drop_last());
    assert(all.last() == parts.last());
    if parts.len() > 1 {
        lemma_joined_front(a, parts.drop_last(), sep);
        assert(joined(all, sep) =~= a + sep + joined(parts, sep));
    } else {
        assert(parts.drop_last() =~= Seq::empty());
        assert(all.drop_last() =~= seq![a]);
        assert(joined(seq![a], sep) == a);
        assert(joined(parts, sep) == parts[0] && parts[0] == parts.last());
        assert(joined(all, sep) =~= a + sep + joined(parts, sep));
    }
}

/// REPLACE puts a text in the place of the first occurrence of another, and goes on
/// behind it. Where there is none the text stays as it is.
pub proof fn law_replace(
    s: Seq<char>,
    d: Seq<char>,
    u: Seq<char>,
    a: Seq<char>,
    b: Seq<char>,
)
    requires
        d.len() > 0,
    ensures
        parted(s, d, a, b) ==> (replace_datum(
            Datum::Varchar(b),
            Datum::Varchar(d),
            Datum::Varchar(u),
        ) matches Datum::Varchar(rest) && replace_datum(
            Datum::Varchar(s),
            Datum::Varchar(d),
            Datum::Varchar(u),
        ) == Datum::Varchar(a + u + rest)),
        (forall|p: int| !#[trigger] stands_behind(s, d, p)) ==> replace_datum(
            Datum::Varchar(s),
            Datum::Varchar(d),
            Datum::Varchar(u),
        ) == Datum::Varchar(s),
{
    if parted(s, d, a, b) {
        lemma_parted(s, d, a, b);
        lemma_find_from(b, d, 0);
        assert(split_text(b, d).len() > 0);
        lemma_joined_front(a, split_text(b, d), u);
    }
    if forall|p: int| !#[trigger] stands_behind(s, d, p) {
        lemma_whole(s, d);
    }
}

/// CONCAT puts the texts of a row behind each other, and is NULL where one is.
pub proof fn law_concat(
    o: spec_fn(Question) -> Answer,
    cols: Seq<Column>,
    texts: Seq<Seq<char>>,
    i: int,
    k: int,
)
    requires
        0 <= k <= cols.len(),
        texts.len() == cols.len(),
        forall|j: int|
            0 <= j < cols.len() ==> #[trigger] col_at(cols[j], i) == Datum::Varchar(texts[j]) || col_at(
                cols[j],
                i,
            ) == Datum::Null,
    ensures
        (forall|j: int| 0 <= j < k ==> #[trigger] col_at(cols[j], i) != Datum::Null) ==> concat_row(
            o,
            cols,
            i,
            k,
        ) == Some(texts.subrange(0, k).flatten()),
        (exists|j: int| 0 <= j < k && #[trigger] col_at(cols[j], i) == Datum::Null) ==> concat_row(
            o,
            cols,
            i,
            k,
        ) is None,
    decreases k,
{
    if k > 0 {
        law_concat(o, cols, texts, i, k - 1);
        let before = texts.subrange(0, k - 1);
        assert(texts.subrange(0, k) =~= before.push(texts[k - 1]));
        before.lemma_flatten_push(texts[k - 1]);
        if exists|j: int| 0 <= j < k && #[trigger] col_at(cols[j], i) == Datum::Null {
            let j = choose|j: int| 0 <= j < k && #[trigger] col_at(cols[j], i) == Datum::Null;
            if j < k - 1 {
                assert(col_at(cols[j], i) == Datum::Null);
            }
        }
    } else {
        assert(texts.subrange(0, 0) =~= Seq::empty());
        assert(Seq::<Seq<char>>::empty().flatten() =~= Seq::empty());
    }
}

/// The words of a text: without whitespace it is one word, and whitespace parts it
/// into the words before and behind.
pub proof fn law_words(a: Seq<char>, w: char, b: Seq<char>)
    requires
        white(w),
    ensures
        words(Seq::empty()) == Seq::<Seq<char>>::empty(),
        a.len() > 0 && (forall|i: int| 0 <= i < a.len() ==> !white(#[trigger] a[i])) ==> words(a)
            == seq![a],
        words(a + seq![w] + b) == words(a) + words(b),
{
    if forall|i: int| 0 <= i < a.len() ==> !white(#[trigger] a[i]) {
        lemma_one_word(a, 0);
        assert(a.subrange(0, 0) =~= Seq::empty());
    }
    lemma_words_part(a, w, b, 0, Seq::empty());
}

proof fn lemma_one_word(a: Seq<char>, i: int)
    requires
        forall|k: int| 0 <= k < a.len() ==> !white(#[trigger] a[k]),
        0 <= i <= a.len(),
    ensures
        a.len() > 0 ==> words_from(a, i, a.subrange(0, i)) == seq![a],
    decreases a.len() - i,
{
    if i < a.len() {
        lemma_one_word(a, i + 1);
        assert(a.subrange(0, i).push(a[i]) =~= a.subrange(0, i + 1));
    } else {
        assert(a.subrange(0, i) =~= a);
    }
}

proof fn lemma_words_part(a: Seq<char>, w: char, b: Seq<char>, i: int, word: Seq<char>)
    requires
        white(w),
        0 <= i <= a.len(),
    ensures
        words_from(a + seq![w] + b, i, word) == words_from(a, i, word) + words(b),
    decreases a.len() - i,
{
    let s = a + seq![w] + b;
    if i < a.len() {
        assert(s[i] == a[i]);
        if white(a[i]) {
            lemma_words_part(a, w, b, i + 1, Seq::empty());
            lemma_words_part(a, w, b, i + 1, word);
        } else {
            lemma_words_part(a, w, b, i + 1, word.push(a[i]));
        }
        assert(words_from(s, i, word) =~= words_from(a, i, word) + words(b));
    } else {
        assert(s[i] == w);
        lemma_words_shift(s, b, a.len() as int + 1, 0, Seq::empty());
        if word.len() == 0 {
            assert(word =~= Seq::empty());
        }
        assert(words_from(s, i, word) =~= words_from(a, i, word) + words(b));
    }
}

proof fn lemma_words_shift(s: Seq<char>, b: Seq<char>, n: int, i: int, word: Seq<char>)
    requires
        0 <= n,
        0 <= i <= b.len(),
        s.len() == n + b.len(),
        forall|k: int| 0 <= k < b.len() ==> #[trigger] b[k] == s[n + k],
    ensures
        words_from(s, n + i, word) == words_from(b, i, word),
    decreases b.len() - i,
{
    if i < b.len() {
        assert(b[i] == s[n + i]);
        lemma_words_shift(s, b, n, i + 1, Seq::empty());
        lemma_words_shift(s, b, n, i + 1, word);
        lemma_words_shift(s, b, n, i + 1, word.push(b[i]));
    }
}

/// Whether a text stands somewhere in another.
pub open spec fn stands_in(h: Seq<char>, n: Seq<char>) -> bool {
    exists|p: int| stands_behind(h, n, p)
}

proof fn lemma_stands_in(h: Seq<char>, n: Seq<char>)
    ensures
        contains_text(h, n) == stands_in(h, n),
{
    lemma_find_from(h, n, 0);
    if let Some(p) = find_from(h, n, 0) {
        lemma_stands(h, n, p);
        assert(stands_behind(h, n, p));
    }
    if stands_in(h, n) {
        let p = choose|p: int| stands_behind(h, n, p);
        lemma_stands(h, n, p);
    }
}

/// MATCH is true of a text in which each word of the query stands, whatever the case,
/// and of none where the query has no words.
pub proof fn law_match(c: Column, query: Seq<char>, i: int)
    requires
        0 <= i < col_len(c),
    ensures
        col_at(match_column(c, query), i) is Boolean,
        col_at(match_column(c, query), i) == Datum::Boolean(true) <==> words(query).len() > 0 && (
        col_at(c, i) matches Datum::Varchar(s) && forall|k: int|
            0 <= k < words(query).len() ==> stands_in(
                lower_text(s),
                lower_text(#[trigger] words(query)[k]),
            )),
{
    let tokens = words(query);
    if let Datum::Varchar(s) = col_at(c, i) {
        assert forall|k: int| 0 <= k < tokens.len() implies contains_text(
            lower_text(s),
            lower_text(#[trigger] tokens[k]),
        ) == stands_in(lower_text(s), lower_text(tokens[k])) by {
            lemma_stands_in(lower_text(s), lower_text(tokens[k]));
        }
        assert(matches_words(col_at(c, i), tokens) is Boolean);
    }
}

/// Whether two values are of one type.
pub open spec fn of_one_type(a: Datum, b: Datum) -> bool {
    match (a, b) {
        (Datum::Null, Datum::Null) => true,
        (Datum::Boolean(_), Datum::Boolean(_)) => true,
        (Datum::Int32(_), Datum::Int32(_)) => true,
        (Datum::Int64(_), Datum::Int64(_)) => true,
        (Datum::Float32(_), Datum::Float32(_)) => true,
        (Datum::Float64(_), Datum::Float64(_)) => true,
        (Datum::Varchar(_), Datum::Varchar(_)) => true,
        (Datum::Json(_), Datum::Json(_)) => true,
        (Datum::Vector(_), Datum::Vector(_)) => true,
        (Datum::VectorInt8(_), Datum::VectorInt8(_)) => true,
        (Datum::Blob(_), Datum::Blob(_)) => true,
        (Datum::Timestamp(_), Datum::Timestamp(_)) => true,
        _ => false,
    }
}

/// TYPEOF tells values apart that are of unlike types, and no others.
pub proof fn law_typeof(a: Datum, b: Datum)
    ensures
        typeof_text(a) == typeof_text(b) <==> of_one_type(a, b),
{
    reveal_strlit("null");
    reveal_strlit("boolean");
    reveal_strlit("int32");
    reveal_strlit("int64");
    reveal_strlit("float32");
    reveal_strlit("float64");
    reveal_strlit("varchar");
    reveal_strlit("timestamp");
    reveal_strlit("json");
    reveal_strlit("vector");
    reveal_strlit("vector_int8");
    reveal_strlit("blob");
    assert("null"@.len() == 4 && "null"@[0] == 'n');
    assert("json"@.len() == 4 && "json"@[0] == 'j');
    assert("blob"@.len() == 4 && "blob"@[0] == 'b');
    assert("int32"@.len() == 5 && "int32"@[3] == '3');
    assert("int64"@.len() == 5 && "int64"@[3] == '6');
    assert("vector"@.len() == 6);
    assert("boolean"@.len() == 7 && "boolean"@[0] == 'b' && "boolean"@[5] == 'a');
    assert("float32"@.len() == 7 && "float32"@[0] == 'f' && "float32"@[5] == '3');
    assert("float64"@.len() == 7 && "float64"@[0] == 'f' && "float64"@[5] == '6');
    assert("varchar"@.len() == 7 && "varchar"@[0] == 'v' && "varchar"@[5] == 'a');
    assert("timestamp"@.len() == 9);
    assert("vector_int8"@.len() == 11);
}

} // verus!
