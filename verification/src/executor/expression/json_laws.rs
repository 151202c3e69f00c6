//! What the functions of JSON documents find, change and leave.
use vstd::prelude::*;

use crate::executor::env::{Answer, Question};
use crate::executor::expression::date_laws::lemma_dec_reads;
use crate::executor::expression::json::{
    doc_text, element_holds, elements_text, escaped, extract, holds, json_doc, lemma_first_member,
    lemma_member_after,
    lemma_member_is, lemma_member_range, lemma_place_range, lemma_same_itself, member, member_holds,
    path_steps, place, remove_path, same_doc, segment_steps, set_path, skip_char, steps_of,
    with_member, Doc, Step,
};
use crate::executor::expression::json_fn::{row_members, value_doc};
use crate::executor::expression::number_laws::law_integer_read;
use crate::executor::expression::ops::text_or_shown;
use crate::executor::vector::{col_at, Column};
use crate::text::{
    dec, digit_value, find_from, int_text, joined, lemma_find_from, occurs_at, pieces, split_text,
};
use crate::value::Datum;

verus! {

/// Whether a member is the first with a key.
pub open spec fn first_with(m: Seq<(Seq<char>, Doc)>, k: Seq<char>, i: int) -> bool {
    &&& 0 <= i < m.len()
    &&& m[i].0 == k
    &&& forall|j: int| 0 <= j < i ==> (#[trigger] m[j]).0 != k
}

/// Whether an object has no member with a key.
pub open spec fn lacks(m: Seq<(Seq<char>, Doc)>, k: Seq<char>) -> bool {
    forall|j: int| 0 <= j < m.len() ==> (#[trigger] m[j]).0 != k
}

proof fn lemma_found(m: Seq<(Seq<char>, Doc)>, k: Seq<char>, i: int)
    ensures
        first_with(m, k, i) ==> member(m, k, 0) == Some(i),
        lacks(m, k) ==> member(m, k, 0) is None,
        member(m, k, 0) matches Some(p) ==> first_with(m, k, p),
        member(m, k, 0) is None ==> lacks(m, k),
{
    if first_with(m, k, i) {
        lemma_member_is(m, k, 0, i);
    }
    lemma_member_range(m, k, 0);
    lemma_first_member(m, k, 0);
}

/// A path goes from a document through its steps: no step leads to the document, a key to
/// the value of the first member of an object with it, an index to the element of an
/// array behind as many others, and two paths, one behind the other, to where the second
/// leads from where the first does.
pub proof fn law_extract(
    d: Doc,
    m: Seq<(Seq<char>, Doc)>,
    a: Seq<Doc>,
    k: Seq<char>,
    i: int,
    n: usize,
    p: Seq<Step>,
    q: Seq<Step>,
)
    ensures
        extract(d, Seq::empty()) == Some(d),
        first_with(m, k, i) ==> extract(Doc::Object(m), seq![Step::Key(k)]) == Some(m[i].1),
        lacks(m, k) ==> extract(Doc::Object(m), seq![Step::Key(k)]) is None,
        n < a.len() ==> extract(Doc::Array(a), seq![Step::Index(n)]) == Some(a[n as int]),
        n >= a.len() ==> extract(Doc::Array(a), seq![Step::Index(n)]) is None,
        extract(Doc::Object(m), seq![Step::Index(n)]) is None,
        extract(Doc::Array(a), seq![Step::Key(k)]) is None,
        extract(d, p + q) == match extract(d, p) {
            Some(x) => extract(x, q),
            None => None,
        },
{
    lemma_found(m, k, i);
    assert(seq![Step::Key(k)].drop_first() =~= Seq::empty());
    assert(seq![Step::Index(n)].drop_first() =~= Seq::empty());
    if first_with(m, k, i) {
        assert(extract(m[i].1, Seq::empty()) == Some(m[i].1));
    }
    if n < a.len() {
        assert(extract(a[n as int], Seq::empty()) == Some(a[n as int]));
    }
    lemma_extract_on(d, p, q);
}

proof fn lemma_extract_on(d: Doc, p: Seq<Step>, q: Seq<Step>)
    ensures
        extract(d, p + q) == match extract(d, p) {
            Some(x) => extract(x, q),
            None => None,
        },
    decreases p.len(),
{
    if p.len() == 0 {
        assert(p + q =~= q);
    } else {
        let rest = p.drop_first();
        assert((p + q).drop_first() =~= rest + q);
        assert((p + q)[0] == p[0]);
        match (d, p[0]) {
            (Doc::Object(m), Step::Key(k)) => {
                if let Some(i) = member(m, k, 0) {
                    lemma_extract_on(m[i].1, rest, q);
                }
            },
            (Doc::Array(a), Step::Index(n)) => {
                if n < a.len() {
                    lemma_extract_on(a[n as int], rest, q);
                }
            },
            _ => {},
        }
    }
}

/// A member that is set under a key, or an element that is set at an index, leaves the
/// others where they can be found.
pub proof fn law_set_leaves_others(
    m: Seq<(Seq<char>, Doc)>,
    a: Seq<Doc>,
    k: Seq<char>,
    other: Seq<char>,
    n: usize,
    j: usize,
    v: Doc,
)
    requires
        k != other,
        n != j,
        n < a.len(),
    ensures
        extract(set_path(Doc::Object(m), seq![Step::Key(k)], v, false), seq![Step::Key(other)])
            == extract(Doc::Object(m), seq![Step::Key(other)]),
        extract(set_path(Doc::Array(a), seq![Step::Index(n)], v, false), seq![Step::Index(j)])
            == extract(Doc::Array(a), seq![Step::Index(j)]),
        extract(
            set_path(Doc::Array(a), seq![Step::Index(a.len() as usize)], v, false),
            seq![Step::Index(n)],
        ) == Some(a[n as int]) || a.len() > usize::MAX,
{
    assert(seq![Step::Key(k)].drop_first() =~= Seq::empty());
    assert(seq![Step::Key(other)].drop_first() =~= Seq::empty());
    assert(seq![Step::Index(n)].drop_first() =~= Seq::empty());
    assert(seq![Step::Index(j)].drop_first() =~= Seq::empty());
    assert(seq![Step::Index(a.len() as usize)].drop_first() =~= Seq::empty());
    lemma_other_member(m, k, other, v);
    assert(extract(a[n as int], Seq::empty()) == Some(a[n as int]));
}

proof fn lemma_other_member(m: Seq<(Seq<char>, Doc)>, k: Seq<char>, other: Seq<char>, v: Doc)
    requires
        k != other,
    ensures
        match member(m, other, 0) {
            Some(i) => member(with_member(m, k, v), other, 0) matches Some(p) && with_member(
                m,
                k,
                v,
            )[p].1 == m[i].1,
            None => member(with_member(m, k, v), other, 0) is None,
        },
{
    let w = with_member(m, k, v);
    lemma_found(m, other, 0);
    lemma_found(m, k, 0);
    lemma_place_range(m, k, 0);
    match member(m, k, 0) {
        Some(c) => {
            assert forall|j: int| 0 <= j < m.len() implies (#[trigger] w[j]).0 == m[j].0 by {}
            if let Some(i) = member(m, other, 0) {
                assert(first_with(w, other, i));
                lemma_found(w, other, i);
            } else {
                assert(lacks(w, other));
                lemma_found(w, other, 0);
            }
        },
        None => {
            let c = place(m, k, 0);
            if let Some(i) = member(m, other, 0) {
                let p = if i < c {
                    i
                } else {
                    i + 1
                };
                assert forall|j: int| 0 <= j < p implies (#[trigger] w[j]).0 != other by {
                    if j < c {
                        assert(w[j] == m[j]);
                    } else if j > c {
                        assert(w[j] == m[j - 1]);
                    }
                }
                assert(first_with(w, other, p));
                lemma_found(w, other, p);
            } else {
                assert forall|j: int| 0 <= j < w.len() implies (#[trigger] w[j]).0 != other by {
                    if j < c {
                        assert(w[j] == m[j]);
                    } else if j > c {
                        assert(w[j] == m[j - 1]);
                    }
                }
                lemma_found(w, other, 0);
            }
        },
    }
}

/// Whether no two members have one key.
pub open spec fn keys_once(m: Seq<(Seq<char>, Doc)>) -> bool {
    forall|i: int, j: int| 0 <= i < j < m.len() ==> (#[trigger] m[i]).0 != (#[trigger] m[j]).0
}

/// What is removed is gone, and the rest stays: a member is not found any more and the
/// others are, and the elements of an array behind one that is removed move up.
pub proof fn law_remove(
    m: Seq<(Seq<char>, Doc)>,
    a: Seq<Doc>,
    k: Seq<char>,
    other: Seq<char>,
    n: usize,
)
    requires
        keys_once(m),
        k != other,
    ensures
        extract(remove_path(Doc::Object(m), seq![Step::Key(k)]), seq![Step::Key(k)]) is None,
        extract(remove_path(Doc::Object(m), seq![Step::Key(k)]), seq![Step::Key(other)]) == extract(
            Doc::Object(m),
            seq![Step::Key(other)],
        ),
        n < a.len() ==> (remove_path(Doc::Array(a), seq![Step::Index(n)]) matches Doc::Array(b)
            && b.len() == a.len() - 1 && forall|j: int|
            0 <= j < b.len() ==> #[trigger] b[j] == a[if j < n {
                j
            } else {
                j + 1
            }]),
        n >= a.len() ==> remove_path(Doc::Array(a), seq![Step::Index(n)]) == Doc::Array(a),
{
    assert(seq![Step::Key(k)].drop_first() =~= Seq::empty());
    assert(seq![Step::Key(other)].drop_first() =~= Seq::empty());
    assert(seq![Step::Index(n)].drop_first() =~= Seq::empty());
    lemma_found(m, k, 0);
    lemma_found(m, other, 0);
    if let Some(c) = member(m, k, 0) {
        let w = m.remove(c);
        assert forall|j: int| 0 <= j < w.len() implies (#[trigger] w[j]).0 != k by {
            if j < c {
                assert(w[j] == m[j]);
            } else {
                assert(w[j] == m[j + 1]);
                assert(m[c].0 != m[j + 1].0);
            }
        }
        lemma_found(w, k, 0);
        if let Some(i) = member(m, other, 0) {
            let p = if i < c {
                i
            } else {
                i - 1
            };
            assert(w[p] == m[i]);
            assert forall|j: int| 0 <= j < p implies (#[trigger] w[j]).0 != other by {
                if j < c {
                    assert(w[j] == m[j]);
                } else {
                    assert(w[j] == m[j + 1]);
                }
            }
            assert(first_with(w, other, p));
            lemma_found(w, other, p);
        } else {
            assert forall|j: int| 0 <= j < w.len() implies (#[trigger] w[j]).0 != other by {
                if j < c {
                    assert(w[j] == m[j]);
                } else {
                    assert(w[j] == m[j + 1]);
                }
            }
            lemma_found(w, other, 0);
        }
    }
}

/// Whether a document has no parts.
pub open spec fn single_value(d: Doc) -> bool {
    !(d is Object) && !(d is Array)
}

/// A document holds itself and what the values of its members hold; an array holds, of
/// what is no array, what one of its elements holds, and of an array those of which it
/// holds all elements. A single value holds nothing but itself.
pub proof fn law_holds(m: Seq<(Seq<char>, Doc)>, a: Seq<Doc>, b: Seq<Doc>, c: Doc, t: Doc, i: int)
    ensures
        holds(t, t),
        0 <= i < m.len() && holds(m[i].1, t) ==> holds(Doc::Object(m), t),
        0 <= i < a.len() && !(t is Array) && holds(a[i], t) ==> holds(Doc::Array(a), t),
        (forall|k: int| 0 <= k < b.len() ==> a.contains(#[trigger] b[k])) ==> holds(
            Doc::Array(a),
            Doc::Array(b),
        ),
        single_value(c) && holds(c, t) ==> same_doc(c, t),
        single_value(t) && (forall|k: int| 0 <= k < a.len() ==> !holds(#[trigger] a[k], t))
            ==> !holds(Doc::Array(a), t),
        single_value(t) && (forall|k: int| 0 <= k < m.len() ==> !holds((#[trigger] m[k]).1, t))
            ==> !holds(Doc::Object(m), t),
{
    lemma_same_itself(t);
    if 0 <= i < m.len() && holds(m[i].1, t) {
        assert(member_holds(m, t));
    }
    if 0 <= i < a.len() && !(t is Array) && holds(a[i], t) {
        assert(element_holds(a, t));
    }
    if forall|k: int| 0 <= k < b.len() ==> a.contains(#[trigger] b[k]) {
        assert forall|k: int| 0 <= k < b.len() implies
            element_holds(a, #[trigger] b[k]) by {
            assert(a.contains(b[k]));
            let j = a.index_of(b[k]);
            lemma_same_itself(b[k]);
            assert(holds(a[j], b[k]));
        }
    }
}

/// Integers, truth values and NULL become the documents that stand for them, and a text
/// that is no document becomes a string.
pub proof fn law_documents(o: spec_fn(Question) -> Answer, x: i64, b: bool, s: Seq<char>)
    ensures
        value_doc(o, Datum::Int64(x)) matches Doc::Number(t) && int_text(
            t,
            i64::MIN as int,
            i64::MAX as int,
        ) == Some(x as int),
        value_doc(o, Datum::Boolean(b)) == Doc::Bool(b),
        value_doc(o, Datum::Null) == Doc::Null,
        json_doc(s) is None ==> value_doc(o, Datum::Varchar(s))
            == Doc::Text(s),
        json_doc(s) matches Some(d) ==> value_doc(
            o,
            Datum::Varchar(s),
        ) == d,
{
    law_integer_read(
        x as int,
        i64::MIN as int,
        i64::MAX as int,
    );
}

/// The text of an array is that of its elements, in their order, with commas between
/// them and brackets round them.
pub proof fn law_array_text(a: Seq<Doc>)
    ensures
        doc_text(Doc::Array(a)) == "["@ + joined(
            Seq::new(a.len(), |i: int| doc_text(a[i])),
            ","@,
        ) + "]"@,
{
    lemma_elements(a, a.len() as int);
    let all = Seq::new(a.len(), |i: int| doc_text(a[i]));
    assert(all.subrange(0, a.len() as int) =~= all);
}

proof fn lemma_elements(a: Seq<Doc>, n: int)
    requires
        0 <= n <= a.len(),
    ensures
        elements_text(a, n) == joined(
            Seq::new(a.len(), |i: int| doc_text(a[i])).subrange(0, n),
            ","@,
        ),
    decreases n,
{
    let all = Seq::new(a.len(), |i: int| doc_text(a[i]));
    if n > 0 {
        lemma_elements(a, n - 1);
        let s = all.subrange(0, n);
        assert(s.drop_last() =~= all.subrange(0, n - 1));
        assert(s.last() == doc_text(a[n - 1]));
    }
}

/// A character in a literal stays as it is, but for quotes, backslashes and control
/// characters, which begin with a backslash.
pub proof fn law_escaped(c: char)
    ensures
        c != '"' && c != '\\' && c as int >= 32 ==> escaped(c) == seq![c],
        c == '"' || c == '\\' ==> escaped(c) == seq!['\\', c],
        (c as int) < 32 ==> escaped(c).len() > 1 && escaped(c)[0] == '\\',
{
}

/// Whether a text is without a character.
pub open spec fn without(s: Seq<char>, c: char) -> bool {
    forall|i: int| 0 <= i < s.len() ==> #[trigger] s[i] != c
}

/// A segment of a path without a bracket is a key. A number in brackets is an index,
/// behind a key where something stands before it.
pub proof fn law_segment(k: Seq<char>, n: usize)
    requires
        without(k, '['),
    ensures
        segment_steps(k) == seq![Step::Key(k)],
        segment_steps(k + seq!['['] + dec(n as nat) + seq![']']) == (if k.len() > 0 {
            seq![Step::Key(k), Step::Index(n)]
        } else {
            seq![Step::Index(n)]
        }),
{
    lemma_no_bracket(k);
    lemma_bracket(k, dec(n as nat), n);
}

proof fn lemma_no_bracket(k: Seq<char>)
    requires
        without(k, '['),
    ensures
        segment_steps(k) == seq![Step::Key(k)],
{
    reveal_strlit("[");
    lemma_find_from(k, "["@, 0);
    if let Some(p) = find_from(k, "["@, 0) {
        assert(k.subrange(p, p + 1)[0] == k[p]);
        assert("["@[0] == '[');
    }
}

/// The first place of a character.
proof fn lemma_first_char(s: Seq<char>, t: Seq<char>, i: int, p: int)
    requires
        t.len() == 1,
        0 <= i <= p < s.len(),
        s[p] == t[0],
        forall|j: int| i <= j < p ==> #[trigger] s[j] != t[0],
    ensures
        find_from(s, t, i) == Some(p),
{
    lemma_find_from(s, t, i);
    assert(s.subrange(p, p + 1) =~= t);
    assert(occurs_at(s, t, p));
    let f = find_from(s, t, i)->0;
    assert(s.subrange(f, f + 1)[0] == s[f]);
    if f < p {
        assert(s[f] != t[0]);
    }
}

proof fn lemma_bracket(k: Seq<char>, d: Seq<char>, n: usize)
    requires
        without(k, '['),
        d == dec(n as nat),
    ensures
        segment_steps(k + seq!['['] + d + seq![']']) == (if k.len() > 0 {
            seq![Step::Key(k), Step::Index(n)]
        } else {
            seq![Step::Index(n)]
        }),
{
    reveal_strlit("[");
    reveal_strlit("]");
    lemma_dec_reads(n as nat);
    let s = k + seq!['['] + d + seq![']'];
    let p = k.len() as int;
    let q = p + 1 + d.len();
    assert forall|j: int| 0 <= j < p implies #[trigger] s[j] != '[' by {
        assert(s[j] == k[j]);
    }
    lemma_first_char(s, "["@, 0, p);
    assert forall|j: int| p <= j < q implies #[trigger] s[j] != ']' by {
        if j > p {
            assert(s[j] == d[j - p - 1]);
            assert(digit_value(d[j - p - 1]) is Some);
        }
    }
    lemma_first_char(s, "]"@, p, q);
    assert(s.subrange(p + 1, q) =~= d);
    lemma_index_read(d, n);
    assert(s.subrange(0, p) =~= k);
    assert(seq![Step::Key(k)].push(Step::Index(n)) =~= seq![Step::Key(k), Step::Index(n)]);
    assert(Seq::<Step>::empty().push(Step::Index(n)) =~= seq![Step::Index(n)]);
}

proof fn lemma_index_read(d: Seq<char>, n: usize)
    requires
        d == dec(n as nat),
    ensures
        int_text(d, 0, usize::MAX as int) == Some(n as int),
{
    lemma_dec_reads(n as nat);
    assert(digit_value(d[0]) is Some);
}

/// A path is a dollar sign and a dot before its segments: of one segment it has the steps
/// of that segment, and nothing behind the sign are no steps.
pub proof fn law_path(seg: Seq<char>)
    requires
        seg.len() > 0,
        without(seg, '.'),
        seg[0] != '$',
    ensures
        path_steps(seq!['$', '.'] + seg) == segment_steps(seg),
        path_steps(seg) == segment_steps(seg),
        path_steps(seq!['$']) == Seq::<Step>::empty(),
{
    reveal_strlit(".");
    assert("."@ =~= seq!['.']);
    let s = seq!['$', '.'] + seg;
    assert(s[0] == '$' && s[1] == '.' && s[2] == seg[0]);
    reveal_with_fuel(skip_char, 3);
    assert(skip_char(s, '$', 0) == 1);
    assert(skip_char(s, '.', 1) == 2);
    assert(s.subrange(2, s.len() as int) =~= seg);
    assert(seg.subrange(0, seg.len() as int) =~= seg);
    assert(skip_char(seg, '$', 0) == 0 && skip_char(seg, '.', 0) == 0);
    lemma_find_from(seg, "."@, 0);
    if let Some(p) = find_from(seg, "."@, 0) {
        assert(seg.subrange(p, p + 1)[0] == seg[p]);
    }
    assert(split_text(seg, "."@) =~= seq![seg]) by {
        reveal_with_fuel(pieces, 2);
    }
    reveal_with_fuel(steps_of, 2);
    assert(Seq::<Step>::empty() + segment_steps(seg) =~= segment_steps(seg));
    assert(steps_of(seq![seg], 1) == segment_steps(seg));
    let dollar = seq!['$'];
    assert(skip_char(dollar, '$', 0) == 1);
    assert(dollar.subrange(1, 1).len() == 0);
}

/// An object that is made of keys and values has under each key the last value that was
/// given for it.
pub proof fn law_object(
    o: spec_fn(Question) -> Answer,
    keys: Seq<Column>,
    vals: Seq<Column>,
    i: int,
    n: int,
    k: int,
)
    requires
        0 <= k < n,
        forall|j: int|
            k < j < n ==> text_or_shown(o, col_at(#[trigger] keys[j], i)) != text_or_shown(
                o,
                col_at(keys[k], i),
            ),
    ensures
        extract(
            Doc::Object(row_members(o, keys, vals, i, n)),
            seq![Step::Key(text_or_shown(o, col_at(keys[k], i)))],
        ) == Some(value_doc(o, col_at(vals[k], i))),
    decreases n - k,
{
    let key = text_or_shown(o, col_at(keys[k], i));
    let before = row_members(o, keys, vals, i, n - 1);
    let last = text_or_shown(o, col_at(keys[n - 1], i));
    let v = value_doc(o, col_at(vals[n - 1], i));
    assert(seq![Step::Key(key)].drop_first() =~= Seq::empty());
    if k == n - 1 {
        lemma_member_after(before, key, v);
        assert(extract(v, Seq::empty()) == Some(v));
    } else {
        law_object(o, keys, vals, i, n - 1, k);
        assert(text_or_shown(o, col_at(keys[n - 1], i)) != key);
        lemma_other_member(before, last, key, v);
    }
}

} // verus!
