//! Functions on text.
use vstd::prelude::*;
use vstd::string::StrSliceExecFns;

use crate::common::value_cmp::whole;
use crate::executor::env::{answers, oracle, show, shown, Answer, Ask, Question, Reply};
use crate::executor::expression::rowwise::map_column;
use crate::executor::expression::rowwise::{apply_each1, apply_each2, apply_each3, apply_map};
use crate::executor::expression::rowwise::{each1, each2, each3};
use crate::executor::vector::{col_at, col_len, repeat_value, Column, Vector};
use crate::text::{
    contains_text, find_chars, find_from, has_text, is_white, join_text, joined, lower_text,
    slice_text, split_str, split_text, split_words, to_chars, to_lower, to_upper, upper_text,
    white, words,
};
use crate::value::{text_of, Datum};
use crate::Value;

verus! {

/// LENGTH: the number of characters of a text.
pub open spec fn length_datum(d: Datum) -> Datum {
    match d {
        Datum::Varchar(s) => Datum::Int64(s.len() as i64),
        _ => Datum::Null,
    }
}

/// LENGTH of a value.
pub fn length_value(v: &Value) -> (r: Value)
    ensures
        r.deep_view() == length_datum(v.deep_view()),
{
    match v {
        Value::Varchar(s) => Value::Int64(s.as_str().unicode_len() as i64),
        _ => Value::Null,
    }
}

/// LENGTH of a column.
pub fn eval_length(vec: &Vector) -> (r: Vector)
    requires
        vec.wf(),
    ensures
        r.wf(),
        r.deep_view() == map_column(vec.deep_view(), |d: Datum| length_datum(d)),
{
    let g = |x: &Value| -> (z: Value)
        ensures
            z.deep_view() == length_datum(x.deep_view()),
        { length_value(x) };
    apply_map(vec, g, Ghost(|d: Datum| length_datum(d)))
}

/// UPPER: a text in upper case. Other values stay as they are.
pub open spec fn upper_datum(d: Datum) -> Datum {
    match d {
        Datum::Varchar(s) => Datum::Varchar(upper_text(s)),
        _ => d,
    }
}

/// UPPER of a value.
pub fn upper_value(v: &Value) -> (r: Value)
    ensures
        r.deep_view() == upper_datum(v.deep_view()),
{
    match v {
        Value::Varchar(s) => Value::Varchar(to_upper(s.as_str())),
        _ => v.clone(),
    }
}

/// UPPER of a column.
pub fn eval_upper(vec: &Vector) -> (r: Vector)
    requires
        vec.wf(),
    ensures
        r.wf(),
        r.deep_view() == map_column(vec.deep_view(), |d: Datum| upper_datum(d)),
{
    let g = |x: &Value| -> (z: Value)
        ensures
            z.deep_view() == upper_datum(x.deep_view()),
        { upper_value(x) };
    apply_map(vec, g, Ghost(|d: Datum| upper_datum(d)))
}

/// LOWER: a text in lower case. Other values stay as they are.
pub open spec fn lower_datum(d: Datum) -> Datum {
    match d {
        Datum::Varchar(s) => Datum::Varchar(lower_text(s)),
        _ => d,
    }
}

/// LOWER of a value.
pub fn lower_value(v: &Value) -> (r: Value)
    ensures
        r.deep_view() == lower_datum(v.deep_view()),
{
    match v {
        Value::Varchar(s) => Value::Varchar(to_lower(s.as_str())),
        _ => v.clone(),
    }
}

/// LOWER of a column.
pub fn eval_lower(vec: &Vector) -> (r: Vector)
    requires
        vec.wf(),
    ensures
        r.wf(),
        r.deep_view() == map_column(vec.deep_view(), |d: Datum| lower_datum(d)),
{
    let g = |x: &Value| -> (z: Value)
        ensures
            z.deep_view() == lower_datum(x.deep_view()),
        { lower_value(x) };
    apply_map(vec, g, Ghost(|d: Datum| lower_datum(d)))
}

/// Part of a text: `len` characters, or all, from position `start` on, where
/// the first character has position 1 and smaller positions count as 1.
pub open spec fn part(s: Seq<char>, start: int, len: Option<int>) -> Seq<char> {
    let from = if start > 0 {
        start - 1
    } else {
        0
    };
    if from >= s.len() {
        Seq::empty()
    } else {
        let to = match len {
            None => s.len() as int,
            Some(n) => if n <= 0 {
                from
            } else if from + n > s.len() {
                s.len() as int
            } else {
                from + n
            },
        };
        s.subrange(from, to)
    }
}

/// SUBSTRING of a text. A length that is no integer gives NULL unless the
/// part starts behind the text.
pub open spec fn substring_datum(s: Datum, start: Datum, len: Option<Datum>) -> Datum {
    match (s, whole(start)) {
        (Datum::Varchar(t), Some(from)) => match len {
            None => Datum::Varchar(part(t, from, None)),
            Some(l) => if from - 1 >= t.len() || (from <= 0 && t.len() == 0) {
                Datum::Varchar(Seq::empty())
            } else if whole(l) is None {
                Datum::Null
            } else {
                Datum::Varchar(part(t, from, whole(l)))
            },
        },
        _ => Datum::Null,
    }
}

/// SUBSTRING of a value.
pub fn substring_value(s: &Value, start: &Value, len: Option<&Value>) -> (r: Value)
    ensures
        r.deep_view() == substring_datum(
            s.deep_view(),
            start.deep_view(),
            match len {
                Some(l) => Some(l.deep_view()),
                None => None,
            },
        ),
{
    let t = match s {
        Value::Varchar(t) => t,
        _ => {
            return Value::Null;
        },
    };
    let begin: i64 = match start.as_i64() {
        Some(b) => b,
        None => {
            return Value::Null;
        },
    };
    let cs = to_chars(t.as_str());
    let from: u64 = if begin > 0 {
        (begin - 1) as u64
    } else {
        0
    };
    if from >= cs.len() as u64 {
        let empty = String::new();
        assert(empty@ =~= Seq::<char>::empty());
        return Value::Varchar(empty);
    }
    let first: usize = from as usize;
    let last: usize = match len {
        None => cs.len(),
        Some(l) => match l.as_i64() {
            None => {
                return Value::Null;
            },
            Some(n) => if n <= 0 {
                first
            } else if n as u64 > (cs.len() - first) as u64 {
                cs.len()
            } else {
                first + n as usize
            },
        },
    };
    Value::Varchar(slice_text(&cs, first, last))
}

/// SUBSTRING of columns.
pub open spec fn substring_column(s: Column, start: Column, len: Option<Column>) -> Column {
    Column::Flat(
        Seq::new(
            col_len(s),
            |i: int|
                substring_datum(
                    col_at(s, i),
                    col_at(start, i),
                    match len {
                        Some(l) => Some(col_at(l, i)),
                        None => None,
                    },
                ),
        ),
    )
}

/// SUBSTRING of columns.
pub fn eval_substring(str_vec: &Vector, start_vec: &Vector, len_vec: Option<&Vector>) -> (r: Vector)
    requires
        str_vec.wf(),
        start_vec.wf(),
        col_len(str_vec.deep_view()) == col_len(start_vec.deep_view()),
        len_vec is Some ==> len_vec->0.wf() && col_len(len_vec->0.deep_view()) == col_len(
            str_vec.deep_view(),
        ),
    ensures
        r.wf(),
        r.deep_view() == substring_column(
            str_vec.deep_view(),
            start_vec.deep_view(),
            match len_vec {
                Some(l) => Some(l.deep_view()),
                None => None,
            },
        ),
{
    let ghost want = substring_column(
        str_vec.deep_view(),
        start_vec.deep_view(),
        match len_vec {
            Some(l) => Some(l.deep_view()),
            None => None,
        },
    );
    match len_vec {
        None => {
            let g = |x: &Value, y: &Value| -> (z: Value)
                ensures
                    z.deep_view() == substring_datum(x.deep_view(), y.deep_view(), None),
                { substring_value(x, y, None) };
            let r = apply_each2(
                str_vec,
                start_vec,
                g,
                Ghost(|x: Datum, y: Datum| substring_datum(x, y, None)),
            );
            assert(r.deep_view()->Flat_0 =~= want->Flat_0);
            r
        },
        Some(l) => {
            let g = |x: &Value, y: &Value, w: &Value| -> (z: Value)
                ensures
                    z.deep_view() == substring_datum(
                        x.deep_view(),
                        y.deep_view(),
                        Some(w.deep_view()),
                    ),
                { substring_value(x, y, Some(w)) };
            let r = apply_each3(
                str_vec,
                start_vec,
                l,
                g,
                Ghost(|x: Datum, y: Datum, w: Datum| substring_datum(x, y, Some(w))),
            );
            assert(r.deep_view()->Flat_0 =~= want->Flat_0);
            r
        },
    }
}

/// Which ends of a text are trimmed.
#[derive(Debug, Clone, Copy, PartialEq, Eq, Structural)]
pub enum TrimMode {
    Both,
    Left,
    Right,
}

/// Whether a character is trimmed: whitespace, or one of the given ones.
pub open spec fn trims(set: Option<Seq<char>>, c: char) -> bool {
    match set {
        None => white(c),
        Some(cs) => cs.contains(c),
    }
}

/// The first position from `i` on that is not trimmed.
pub open spec fn trim_from(s: Seq<char>, set: Option<Seq<char>>, i: int) -> int
    decreases s.len() - i,
{
    if 0 <= i < s.len() && trims(set, s[i]) {
        trim_from(s, set, i + 1)
    } else {
        i
    }
}

/// The last end down to `lo` before which a character is not trimmed.
pub open spec fn trim_to(s: Seq<char>, set: Option<Seq<char>>, lo: int, hi: int) -> int
    decreases hi,
{
    if 0 <= lo < hi <= s.len() && trims(set, s[hi - 1]) {
        trim_to(s, set, lo, hi - 1)
    } else {
        hi
    }
}

/// A text trimmed.
pub open spec fn trimmed(s: Seq<char>, set: Option<Seq<char>>, mode: TrimMode) -> Seq<char> {
    let lo = if mode == TrimMode::Right {
        0
    } else {
        trim_from(s, set, 0)
    };
    let hi = if mode == TrimMode::Left {
        s.len() as int
    } else {
        trim_to(s, set, lo, s.len() as int)
    };
    s.subrange(lo, hi)
}

fn has_char(cs: &Vec<char>, c: char) -> (r: bool)
    ensures
        r == cs@.contains(c),
{
    let mut i: usize = 0;
    while i < cs.len()
        invariant
            i <= cs.len(),
            forall|k: int| 0 <= k < i ==> cs[k] != c,
        decreases cs.len() - i,
    {
        if cs[i] == c {
            assert(cs@[i as int] == c);
            return true;
        }
        i += 1;
    }
    false
}

fn char_trims(set: &Option<Vec<char>>, c: char) -> (r: bool)
    ensures
        r == trims(
            match set {
                Some(cs) => Some(cs@),
                None => None,
            },
            c,
        ),
{
    match set {
        None => is_white(c),
        Some(cs) => has_char(cs, c),
    }
}

/// Trims a text.
pub fn trim_text(s: &str, set: &Option<Vec<char>>, mode: TrimMode) -> (r: String)
    ensures
        r@ == trimmed(
            s@,
            match set {
                Some(cs) => Some(cs@),
                None => None,
            },
            mode,
        ),
{
    let ghost m = match set {
        Some(cs) => Some(cs@),
        None => None,
    };
    let cs = to_chars(s);
    let mut lo: usize = 0;
    if mode != TrimMode::Right {
        while lo < cs.len() && char_trims(set, cs[lo])
            invariant
                cs@ == s@,
                lo <= cs.len(),
                m == match set {
                    Some(cs) => Some(cs@),
                    None => None,
                },
                trim_from(s@, m, 0) == trim_from(s@, m, lo as int),
            decreases cs.len() - lo,
        {
            lo += 1;
        }
    }
    let mut hi: usize = cs.len();
    if mode != TrimMode::Left {
        while hi > lo && char_trims(set, cs[hi - 1])
            invariant
                cs@ == s@,
                lo <= hi <= cs.len(),
                m == match set {
                    Some(cs) => Some(cs@),
                    None => None,
                },
                trim_to(s@, m, lo as int, s@.len() as int) == trim_to(
                    s@,
                    m,
                    lo as int,
                    hi as int,
                ),
            decreases hi,
        {
            hi -= 1;
        }
    }
    slice_text(&cs, lo, hi)
}

/// TRIM, LTRIM and RTRIM: a text trimmed of whitespace, or of the characters
/// of a second text. A second value that is no text asks for whitespace, but
/// NULL gives NULL.
pub open spec fn trim_datum(d: Datum, set: Option<Datum>, mode: TrimMode) -> Datum {
    if text_of(d) is None || set == Some(Datum::Null) {
        Datum::Null
    } else {
        let cs = match set {
            Some(c) => text_of(c),
            None => None,
        };
        Datum::Varchar(trimmed(text_of(d)->0, cs, mode))
    }
}

/// TRIM of a value.
pub fn trim_value(v: &Value, set: Option<&Value>, mode: TrimMode) -> (r: Value)
    ensures
        r.deep_view() == trim_datum(
            v.deep_view(),
            match set {
                Some(c) => Some(c.deep_view()),
                None => None,
            },
            mode,
        ),
{
    let s = match v.as_str() {
        Some(s) => s,
        None => {
            return Value::Null;
        },
    };
    let chars: Option<Vec<char>> = match set {
        None => None,
        Some(c) => {
            if c.is_null() {
                return Value::Null;
            }
            match c.as_str() {
                Some(t) => Some(to_chars(t)),
                None => None,
            }
        },
    };
    Value::Varchar(trim_text(s, &chars, mode))
}

/// TRIM of columns.
pub open spec fn trim_column(s: Column, set: Option<Column>, mode: TrimMode) -> Column {
    Column::Flat(
        Seq::new(
            col_len(s),
            |i: int|
                trim_datum(
                    col_at(s, i),
                    match set {
                        Some(c) => Some(col_at(c, i)),
                        None => None,
                    },
                    mode,
                ),
        ),
    )
}

/// TRIM of columns.
pub fn eval_trim(str_vec: &Vector, chars_vec: Option<&Vector>, mode: TrimMode) -> (r: Vector)
    requires
        str_vec.wf(),
        chars_vec is Some ==> chars_vec->0.wf() && col_len(chars_vec->0.deep_view()) == col_len(
            str_vec.deep_view(),
        ),
    ensures
        r.wf(),
        r.deep_view() == trim_column(
            str_vec.deep_view(),
            match chars_vec {
                Some(c) => Some(c.deep_view()),
                None => None,
            },
            mode,
        ),
{
    let ghost want = trim_column(
        str_vec.deep_view(),
        match chars_vec {
            Some(c) => Some(c.deep_view()),
            None => None,
        },
        mode,
    );
    match chars_vec {
        None => {
            let g = |x: &Value| -> (z: Value)
                ensures
                    z.deep_view() == trim_datum(x.deep_view(), None, mode),
                { trim_value(x, None, mode) };
            let r = apply_each1(str_vec, g, Ghost(|x: Datum| trim_datum(x, None, mode)));
            assert(r.deep_view()->Flat_0 =~= want->Flat_0);
            r
        },
        Some(c) => {
            let g = |x: &Value, y: &Value| -> (z: Value)
                ensures
                    z.deep_view() == trim_datum(x.deep_view(), Some(y.deep_view()), mode),
                { trim_value(x, Some(y), mode) };
            let r = apply_each2(
                str_vec,
                c,
                g,
                Ghost(|x: Datum, y: Datum| trim_datum(x, Some(y), mode)),
            );
            assert(r.deep_view()->Flat_0 =~= want->Flat_0);
            r
        },
    }
}

/// INSTR: the position of the first occurrence of a text in another, counted
/// from 1, or 0 where there is none.
pub open spec fn instr_datum(h: Datum, n: Datum) -> Datum {
    match (text_of(h), text_of(n)) {
        (Some(s), Some(t)) => Datum::Int64(
            match find_from(s, t, 0) {
                Some(p) => (p + 1) as i64,
                None => 0,
            },
        ),
        _ => Datum::Null,
    }
}

/// INSTR of values.
pub fn instr_value(h: &Value, n: &Value) -> (r: Value)
    ensures
        r.deep_view() == instr_datum(h.deep_view(), n.deep_view()),
{
    match (h.as_str(), n.as_str()) {
        (Some(s), Some(t)) => {
            let cs = to_chars(s);
            let ds = to_chars(t);
            match find_chars(&cs, &ds, 0) {
                Some(p) => Value::Int64((p as i128 + 1) as i64),
                None => Value::Int64(0),
            }
        },
        _ => Value::Null,
    }
}

/// INSTR of columns.
pub fn eval_instr(haystack_vec: &Vector, needle_vec: &Vector) -> (r: Vector)
    requires
        haystack_vec.wf(),
        needle_vec.wf(),
        col_len(haystack_vec.deep_view()) == col_len(needle_vec.deep_view()),
    ensures
        r.wf(),
        r.deep_view() == each2(
            haystack_vec.deep_view(),
            needle_vec.deep_view(),
            |h: Datum, n: Datum| instr_datum(h, n),
        ),
{
    let g = |x: &Value, y: &Value| -> (z: Value)
        ensures
            z.deep_view() == instr_datum(x.deep_view(), y.deep_view()),
        { instr_value(x, y) };
    apply_each2(haystack_vec, needle_vec, g, Ghost(|h: Datum, n: Datum| instr_datum(h, n)))
}

/// SPLIT_PART: a part of a text split at a delimiter, counted from 1; the
/// empty text where there is no such part.
pub open spec fn split_part_datum(s: Datum, d: Datum, p: Datum) -> Datum {
    match (text_of(s), text_of(d), whole(p)) {
        (Some(t), Some(delim), Some(k)) => {
            let parts = split_text(t, delim);
            Datum::Varchar(
                if 1 <= k <= parts.len() {
                    parts[k - 1]
                } else {
                    Seq::empty()
                },
            )
        },
        _ => Datum::Null,
    }
}

/// SPLIT_PART of values.
pub fn split_part_value(s: &Value, d: &Value, p: &Value) -> (r: Value)
    ensures
        r.deep_view() == split_part_datum(s.deep_view(), d.deep_view(), p.deep_view()),
{
    match (s.as_str(), d.as_str(), p.as_i64()) {
        (Some(t), Some(delim), Some(k)) => {
            let empty = String::new();
            assert(empty@ =~= Seq::<char>::empty());
            if k < 1 {
                return Value::Varchar(empty);
            }
            let parts = split_str(t, delim);
            if (k - 1) as u64 >= parts.len() as u64 {
                Value::Varchar(empty)
            } else {
                let i: usize = (k - 1) as usize;
                assert(parts.deep_view()[i as int] == parts[i as int]@);
                Value::Varchar(parts[i].clone())
            }
        },
        _ => Value::Null,
    }
}

/// SPLIT_PART of columns.
pub fn eval_split_part(str_vec: &Vector, delim_vec: &Vector, part_vec: &Vector) -> (r: Vector)
    requires
        str_vec.wf(),
        delim_vec.wf(),
        part_vec.wf(),
        col_len(str_vec.deep_view()) == col_len(delim_vec.deep_view()),
        col_len(str_vec.deep_view()) == col_len(part_vec.deep_view()),
    ensures
        r.wf(),
        r.deep_view() == each3(
            str_vec.deep_view(),
            delim_vec.deep_view(),
            part_vec.deep_view(),
            |s: Datum, d: Datum, p: Datum| split_part_datum(s, d, p),
        ),
{
    let g = |x: &Value, y: &Value, w: &Value| -> (z: Value)
        ensures
            z.deep_view() == split_part_datum(x.deep_view(), y.deep_view(), w.deep_view()),
        { split_part_value(x, y, w) };
    apply_each3(
        str_vec,
        delim_vec,
        part_vec,
        g,
        Ghost(|s: Datum, d: Datum, p: Datum| split_part_datum(s, d, p)),
    )
}

/// REPLACE: a text in which each occurrence of another one is replaced.
pub open spec fn replace_datum(s: Datum, from: Datum, to: Datum) -> Datum {
    match (s, from, to) {
        (Datum::Varchar(t), Datum::Varchar(f), Datum::Varchar(u)) => Datum::Varchar(
            joined(split_text(t, f), u),
        ),
        _ => Datum::Null,
    }
}

/// REPLACE of values.
pub fn replace_value(s: &Value, from: &Value, to: &Value) -> (r: Value)
    ensures
        r.deep_view() == replace_datum(s.deep_view(), from.deep_view(), to.deep_view()),
{
    match (s, from, to) {
        (Value::Varchar(t), Value::Varchar(f), Value::Varchar(u)) => {
            let parts = split_str(t.as_str(), f.as_str());
            Value::Varchar(join_text(&parts, u.as_str()))
        },
        _ => Value::Null,
    }
}

/// REPLACE of columns.
pub fn eval_replace(str_vec: &Vector, from_vec: &Vector, to_vec: &Vector) -> (r: Vector)
    requires
        str_vec.wf(),
        from_vec.wf(),
        to_vec.wf(),
        col_len(str_vec.deep_view()) == col_len(from_vec.deep_view()),
        col_len(str_vec.deep_view()) == col_len(to_vec.deep_view()),
    ensures
        r.wf(),
        r.deep_view() == each3(
            str_vec.deep_view(),
            from_vec.deep_view(),
            to_vec.deep_view(),
            |s: Datum, f: Datum, t: Datum| replace_datum(s, f, t),
        ),
{
    let g = |x: &Value, y: &Value, w: &Value| -> (z: Value)
        ensures
            z.deep_view() == replace_datum(x.deep_view(), y.deep_view(), w.deep_view()),
        { replace_value(x, y, w) };
    apply_each3(
        str_vec,
        from_vec,
        to_vec,
        g,
        Ghost(|s: Datum, f: Datum, t: Datum| replace_datum(s, f, t)),
    )
}

/// The text of a value for CONCAT: a text as it is, else what shows the value.
pub open spec fn concat_text(o: spec_fn(Question) -> Answer, d: Datum) -> Seq<char> {
    match d {
        Datum::Varchar(s) => s,
        _ => shown(o, d),
    }
}

/// The texts of row `i` of the first `k` columns, one behind the other; none
/// where one of them is NULL.
pub open spec fn concat_row(
    o: spec_fn(Question) -> Answer,
    cols: Seq<Column>,
    i: int,
    k: int,
) -> Option<Seq<char>>
    decreases k,
{
    if k <= 0 {
        Some(Seq::empty())
    } else {
        match concat_row(o, cols, i, k - 1) {
            Some(s) => if col_at(cols[k - 1], i) == Datum::Null {
                None
            } else {
                Some(s + concat_text(o, col_at(cols[k - 1], i)))
            },
            None => None,
        }
    }
}

/// CONCAT of columns.
pub open spec fn concat_column(o: spec_fn(Question) -> Answer, cols: Seq<Column>) -> Column {
    Column::Flat(
        Seq::new(
            col_len(cols[0]),
            |i: int|
                match concat_row(o, cols, i, cols.len() as int) {
                    Some(s) => Datum::Varchar(s),
                    None => Datum::Null,
                },
        ),
    )
}

/// A NULL among the columns makes the row NULL.
proof fn lemma_concat_null(
    o: spec_fn(Question) -> Answer,
    cols: Seq<Column>,
    i: int,
    j: int,
    k: int,
)
    requires
        0 <= j <= k,
        concat_row(o, cols, i, j) is None,
    ensures
        concat_row(o, cols, i, k) is None,
    decreases k,
{
    if j < k {
        lemma_concat_null(o, cols, i, j, k - 1);
    }
}

/// Whether all columns can be read at rows below `n`.
pub open spec fn all_long(vecs: Seq<Vector>, n: nat) -> bool {
    forall|k: int|
        #![trigger vecs[k]]
        0 <= k < vecs.len() ==> vecs[k].wf() && col_len(vecs[k].deep_view()) == n
}

/// CONCAT of columns.
pub fn eval_concat_func<E: Fn(Ask) -> Reply>(vecs: &Vec<Vector>, env: &E) -> (r: Vector)
    requires
        answers(*env),
        vecs.len() > 0,
        all_long(vecs@, col_len(vecs[0].deep_view())),
    ensures
        r.wf(),
        r.deep_view() == concat_column(oracle(*env), vecs.deep_view()),
{
    let ghost o = oracle(*env);
    let ghost cols = vecs.deep_view();
    let n: usize = vecs[0].len();
    let mut out: Vec<Value> = Vec::new();
    let ghost want = concat_column(o, cols)->Flat_0;
    assert(cols[0] == vecs[0].deep_view());
    let mut i: usize = 0;
    while i < n
        invariant
            answers(*env),
            o == oracle(*env),
            cols == vecs.deep_view(),
            vecs.len() > 0,
            all_long(vecs@, n as nat),
            want == concat_column(o, cols)->Flat_0,
            want.len() == n,
            i <= n,
            out.len() == i,
            forall|k: int| 0 <= k < i ==> (#[trigger] out[k]).deep_view() == want[k],
        decreases n - i,
    {
        let mut acc = String::new();
        let mut has_null = false;
        let mut k: usize = 0;
        assert(acc@ =~= Seq::<char>::empty());
        while k < vecs.len() && !has_null
            invariant
                answers(*env),
                o == oracle(*env),
                cols == vecs.deep_view(),
                all_long(vecs@, n as nat),
                i < n,
                k <= vecs.len(),
                has_null ==> concat_row(o, cols, i as int, cols.len() as int) is None,
                !has_null ==> concat_row(o, cols, i as int, k as int) == Some(acc@),
            decreases vecs.len() - k, if has_null { 0int } else { 1 },
        {
            assert(vecs[k as int].wf());
            let v = vecs[k].get(i);
            assert(cols[k as int] == vecs[k as int].deep_view());
            if v.is_null() {
                has_null = true;
                proof {
                    assert(concat_row(o, cols, i as int, k + 1) is None);
                    lemma_concat_null(o, cols, i as int, k + 1, cols.len() as int);
                }
            } else {
                match &v {
                    Value::Varchar(s) => {
                        acc.push_str(s.as_str());
                    },
                    _ => {
                        let t = show(env, &v);
                        acc.push_str(t.as_str());
                    },
                }
                k += 1;
            }
        }
        if has_null {
            out.push(Value::Null);
        } else {
            out.push(Value::Varchar(acc));
        }
        i += 1;
    }
    assert(out.deep_view() =~= want);
    Vector::Flat(out)
}

/// The name of a value's type.
pub open spec fn typeof_text(d: Datum) -> Seq<char> {
    match d {
        Datum::Null => "null"@,
        Datum::Boolean(_) => "boolean"@,
        Datum::Int32(_) => "int32"@,
        Datum::Int64(_) => "int64"@,
        Datum::Float32(_) => "float32"@,
        Datum::Float64(_) => "float64"@,
        Datum::Varchar(_) => "varchar"@,
        Datum::Timestamp(_) => "timestamp"@,
        Datum::Json(_) => "json"@,
        Datum::Vector(_) => "vector"@,
        Datum::VectorInt8(_) => "vector_int8"@,
        Datum::Blob(_) => "blob"@,
    }
}

/// TYPEOF of a value.
pub fn typeof_value(v: &Value) -> (r: Value)
    ensures
        r.deep_view() == Datum::Varchar(typeof_text(v.deep_view())),
{
    let name = match v {
        Value::Null => "null",
        Value::Boolean(_) => "boolean",
        Value::Int32(_) => "int32",
        Value::Int64(_) => "int64",
        Value::Float32(_) => "float32",
        Value::Float64(_) => "float64",
        Value::Varchar(_) => "varchar",
        Value::Timestamp(_) => "timestamp",
        Value::Json(_) => "json",
        Value::Vector(_) => "vector",
        Value::VectorInt8(_) => "vector_int8",
        Value::Blob(_) => "blob",
    };
    Value::Varchar(name.to_owned())
}

/// TYPEOF of a column.
pub fn eval_typeof(vec: &Vector) -> (r: Vector)
    requires
        vec.wf(),
    ensures
        r.wf(),
        r.deep_view() == each1(vec.deep_view(), |d: Datum| Datum::Varchar(typeof_text(d))),
{
    let g = |x: &Value| -> (z: Value)
        ensures
            z.deep_view() == Datum::Varchar(typeof_text(x.deep_view())),
        { typeof_value(x) };
    apply_each1(vec, g, Ghost(|d: Datum| Datum::Varchar(typeof_text(d))))
}

/// Whether a text in lower case contains all words in lower case.
pub open spec fn matches_words(d: Datum, tokens: Seq<Seq<char>>) -> Datum {
    match d {
        Datum::Varchar(s) => Datum::Boolean(
            forall|k: int|
                0 <= k < tokens.len() ==> contains_text(
                    lower_text(s),
                    lower_text(#[trigger] tokens[k]),
                ),
        ),
        _ => Datum::Boolean(false),
    }
}

/// MATCH: whether each row contains all words of a query, whatever the case.
/// A query without words matches nothing.
pub open spec fn match_column(c: Column, query: Seq<char>) -> Column {
    let tokens = words(query);
    if tokens.len() == 0 {
        Column::Flat(Seq::new(col_len(c), |i: int| Datum::Boolean(false)))
    } else {
        map_column(c, |d: Datum| matches_words(d, tokens))
    }
}

fn match_value(v: &Value, tokens: &Vec<String>) -> (r: Value)
    ensures
        r.deep_view() == matches_words(v.deep_view(), tokens.deep_view()),
{
    match v {
        Value::Varchar(s) => {
            let low = to_lower(s.as_str());
            let ghost ts = tokens.deep_view();
            let mut k: usize = 0;
            while k < tokens.len()
                invariant
                    k <= tokens.len(),
                    ts == tokens.deep_view(),
                    low@ == lower_text(s@),
                    v.deep_view() == Datum::Varchar(s@),
                    forall|j: int|
                        0 <= j < k ==> contains_text(
                            lower_text(s@),
                            lower_text(#[trigger] ts[j]),
                        ),
                decreases tokens.len() - k,
            {
                assert(ts[k as int] == tokens[k as int]@);
                let t = to_lower(tokens[k].as_str());
                if !has_text(low.as_str(), t.as_str()) {
                    return Value::Boolean(false);
                }
                k += 1;
            }
            Value::Boolean(true)
        },
        _ => Value::Boolean(false),
    }
}

/// MATCH of a column.
pub fn eval_match(vec: &Vector, query: &str) -> (r: Vector)
    requires
        vec.wf(),
    ensures
        r.wf(),
        r.deep_view() == match_column(vec.deep_view(), query@),
{
    let tokens = split_words(query);
    let ghost ts = tokens.deep_view();
    if tokens.len() == 0 {
        let out = repeat_value(&Value::Boolean(false), vec.len());
        assert(out.deep_view() =~= match_column(vec.deep_view(), query@)->Flat_0);
        return Vector::Flat(out);
    }
    let g = |x: &Value| -> (z: Value)
        ensures
            z.deep_view() == matches_words(x.deep_view(), tokens.deep_view()),
        { match_value(x, &tokens) };
    apply_map(vec, g, Ghost(|d: Datum| matches_words(d, ts)))
}

} // verus!
