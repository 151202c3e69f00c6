//! JSON documents and the functions on them.
use vstd::prelude::*;

use crate::common::value_cmp::{order_text, text_order};
use crate::text::{
    dec, find_chars, find_from, int_text, join3, lemma_find_from, parse_int, same_text, slice_text,
    split_str, split_text, to_chars, usize_text,
};

verus! {

/// A JSON document. Numbers are held by their JSON text, and the members of
/// an object in the order of their keys.
#[derive(Debug)]
pub enum Json {
    Null,
    Bool(bool),
    Number(String),
    Text(String),
    Array(Vec<Json>),
    Object(Vec<(String, Json)>),
}

/// The model of a [`Json`] document.
#[verifier::ext_equal]
pub enum Doc {
    Null,
    Bool(bool),
    Number(Seq<char>),
    Text(Seq<char>),
    Array(Seq<Doc>),
    Object(Seq<(Seq<char>, Doc)>),
}

/// The model of a document.
pub open spec fn doc_of(j: Json) -> Doc
    decreases j,
{
    match j {
        Json::Null => Doc::Null,
        Json::Bool(b) => Doc::Bool(b),
        Json::Number(s) => Doc::Number(s@),
        Json::Text(s) => Doc::Text(s@),
        Json::Array(a) => Doc::Array(
            Seq::new(
                a@.len(),
                |i: int|
                    if 0 <= i < a@.len() {
                        doc_of(a@[i])
                    } else {
                        arbitrary()
                    },
            ),
        ),
        Json::Object(m) => Doc::Object(
            Seq::new(
                m@.len(),
                |i: int|
                    if 0 <= i < m@.len() {
                        (m@[i].0@, doc_of(m@[i].1))
                    } else {
                        arbitrary()
                    },
            ),
        ),
    }
}

impl DeepView for Json {
    type V = Doc;

    open spec fn deep_view(&self) -> Doc {
        doc_of(*self)
    }
}

/// The model of a list of documents.
pub open spec fn docs_of(a: Seq<Json>) -> Seq<Doc> {
    Seq::new(a.len(), |i: int| a[i].deep_view())
}

/// The model of the members of an object.
pub open spec fn members_of(m: Seq<(String, Json)>) -> Seq<(Seq<char>, Doc)> {
    Seq::new(m.len(), |i: int| (m[i].0@, m[i].1.deep_view()))
}

/// An array has the documents of its elements.
pub proof fn lemma_array(a: Vec<Json>)
    ensures
        doc_of(Json::Array(a)) == Doc::Array(docs_of(a@)),
{
    assert(doc_of(Json::Array(a))->Array_0 =~= docs_of(a@));
}

/// An object has the documents of its members.
pub proof fn lemma_object(m: Vec<(String, Json)>)
    ensures
        doc_of(Json::Object(m)) == Doc::Object(members_of(m@)),
{
    assert(doc_of(Json::Object(m))->Object_0 =~= members_of(m@));
}

/// A `serde_json::Value`: a JSON document as the parser gives it.
#[verifier::external_body]
pub struct RawJson {
    inner: serde_json::Value,
}

/// What a `serde_json::Value` holds.
pub uninterp spec fn json_tree(v: RawJson) -> Doc;

/// What `serde_json::from_str` reads from a text, where it is a JSON document.
pub uninterp spec fn json_doc(s: Seq<char>) -> Option<Doc>;

/// The digit of a number below 16.
pub open spec fn hex_digit(n: int) -> char {
    if n < 10 {
        (48 + n) as char
    } else {
        (87 + n) as char
    }
}

/// A character in a JSON literal. Quotes, backslashes and control characters are
/// escaped.
pub open spec fn escaped(c: char) -> Seq<char> {
    let n = c as int;
    if c == '"' || c == '\\' {
        seq!['\\', c]
    } else if n == 8 {
        seq!['\\', 'b']
    } else if n == 9 {
        seq!['\\', 't']
    } else if n == 10 {
        seq!['\\', 'n']
    } else if n == 12 {
        seq!['\\', 'f']
    } else if n == 13 {
        seq!['\\', 'r']
    } else if n < 32 {
        seq!['\\', 'u', '0', '0', hex_digit(n / 16), hex_digit(n % 16)]
    } else {
        seq![c]
    }
}

/// The first `n` characters of a text in a JSON literal.
pub open spec fn escaped_text(s: Seq<char>, n: int) -> Seq<char>
    decreases n,
{
    if n <= 0 {
        Seq::empty()
    } else {
        escaped_text(s, n - 1) + escaped(s[n - 1])
    }
}

/// A text as a JSON literal.
pub open spec fn quoted(s: Seq<char>) -> Seq<char> {
    seq!['"'] + escaped_text(s, s.len() as int) + seq!['"']
}

/// `serde_json::from_str`: the same text always gives the same document, or
/// none.
#[verifier::external_body]
fn read_json(s: &str) -> (r: Option<RawJson>)
    ensures
        match r {
            Some(v) => json_doc(s@) == Some(json_tree(v)),
            None => json_doc(s@) is None,
        },
{
    serde_json::from_str::<serde_json::Value>(s).ok().map(|inner| RawJson { inner })
}

/// The variants of `serde_json::Value`, one for one; the map of an object is
/// walked in the order of its keys.
#[verifier::external_body]
fn tree_of(v: RawJson) -> (r: Json)
    ensures
        r.deep_view() == json_tree(v),
{
    match v.inner {
        serde_json::Value::Null => Json::Null,
        serde_json::Value::Bool(b) => Json::Bool(b),
        serde_json::Value::Number(n) => Json::Number(n.to_string()),
        serde_json::Value::String(s) => Json::Text(s),
        serde_json::Value::Array(a) => {
            Json::Array(a.into_iter().map(|inner| tree_of(RawJson { inner })).collect())
        },
        serde_json::Value::Object(m) => {
            Json::Object(m.into_iter().map(|(k, inner)| (k, tree_of(RawJson { inner }))).collect())
        },
    }
}

/// `serde_json::Value::to_string` of a string: the text between quotes, with
/// quotes, backslashes and control characters escaped.
#[verifier::external_body]
fn quote(s: &str) -> (r: String)
    ensures
        r@ == quoted(s@),
{
    serde_json::Value::String(s.to_owned()).to_string()
}

/// Reads a JSON document.
pub fn parse_json(s: &str) -> (r: Option<Json>)
    ensures
        match r {
            Some(j) => json_doc(s@) == Some(j.deep_view()),
            None => json_doc(s@) is None,
        },
{
    match read_json(s) {
        Some(v) => Some(tree_of(v)),
        None => None,
    }
}

/// A document as compact JSON text.
pub open spec fn doc_text(d: Doc) -> Seq<char>
    decreases d, 0int,
{
    match d {
        Doc::Null => "null"@,
        Doc::Bool(b) => if b {
            "true"@
        } else {
            "false"@
        },
        Doc::Number(s) => s,
        Doc::Text(s) => quoted(s),
        Doc::Array(a) => "["@ + elements_text(a, a.len() as int) + "]"@,
        Doc::Object(m) => "{"@ + members_text(m, m.len() as int) + "}"@,
    }
}

/// The first `n` elements as JSON text, separated by commas.
pub open spec fn elements_text(a: Seq<Doc>, n: int) -> Seq<char>
    decreases a, n,
{
    if n <= 0 || n > a.len() {
        Seq::empty()
    } else if n == 1 {
        doc_text(a[0])
    } else {
        elements_text(a, n - 1) + ","@ + doc_text(a[n - 1])
    }
}

/// The first `n` members as JSON text, separated by commas.
pub open spec fn members_text(m: Seq<(Seq<char>, Doc)>, n: int) -> Seq<char>
    decreases m, n,
{
    if n <= 0 || n > m.len() {
        Seq::empty()
    } else {
        let one = quoted(m[n - 1].0) + ":"@ + doc_text(m[n - 1].1);
        if n == 1 {
            one
        } else {
            members_text(m, n - 1) + ","@ + one
        }
    }
}

fn write_elements(a: &Vec<Json>) -> (r: String)
    ensures
        r@ == elements_text(docs_of(a@), a.len() as int),
    decreases a,
{
    let ghost d = docs_of(a@);
    let mut out = String::new();
    let mut i: usize = 0;
    assert(out@ =~= Seq::<char>::empty());
    while i < a.len()
        invariant
            d == docs_of(a@),
            i <= a.len(),
            out@ == elements_text(d, i as int),
        decreases a.len() - i,
    {
        let ghost before = out@;
        if i > 0 {
            out.push_str(",");
        }
        let t = json_text(&a[i]);
        out.push_str(t.as_str());
        proof {
            assert(d[i as int] == a[i as int].deep_view());
            if i == 0 {
                assert(out@ =~= t@);
            } else {
                assert(out@ =~= before + ","@ + t@);
            }
        }
        i += 1;
    }
    out
}

fn write_members(m: &Vec<(String, Json)>) -> (r: String)
    ensures
        r@ == members_text(members_of(m@), m.len() as int),
    decreases m,
{
    let ghost d = members_of(m@);
    let mut out = String::new();
    let mut i: usize = 0;
    assert(out@ =~= Seq::<char>::empty());
    while i < m.len()
        invariant
            d == members_of(m@),
            i <= m.len(),
            out@ == members_text(d, i as int),
        decreases m.len() - i,
    {
        let ghost before = out@;
        if i > 0 {
            out.push_str(",");
        }
        let k = quote(m[i].0.as_str());
        let t = json_text(&m[i].1);
        out.push_str(k.as_str());
        out.push_str(":");
        out.push_str(t.as_str());
        proof {
            let one = k@ + ":"@ + t@;
            assert(d[i as int] == (m[i as int].0@, m[i as int].1.deep_view()));
            if i == 0 {
                assert(out@ =~= one);
            } else {
                assert(out@ =~= before + ","@ + one);
            }
        }
        i += 1;
    }
    out
}

/// Writes a document as compact JSON text.
pub fn json_text(j: &Json) -> (r: String)
    ensures
        r@ == doc_text(j.deep_view()),
    decreases j,
{
    match j {
        Json::Null => "null".to_owned(),
        Json::Bool(b) => if *b {
            "true".to_owned()
        } else {
            "false".to_owned()
        },
        Json::Number(s) => s.clone(),
        Json::Text(s) => quote(s.as_str()),
        Json::Array(a) => {
            proof {
                lemma_array(*a);
            }
            let body = write_elements(a);
            join3("[", body.as_str(), "]")
        },
        Json::Object(m) => {
            proof {
                lemma_object(*m);
            }
            let body = write_members(m);
            join3("{", body.as_str(), "}")
        },
    }
}

/// A step of a path into a document.
#[derive(Debug)]
pub enum PathStep {
    Key(String),
    Index(usize),
}

/// The model of a [`PathStep`].
#[verifier::ext_equal]
pub enum Step {
    Key(Seq<char>),
    Index(usize),
}

impl DeepView for PathStep {
    type V = Step;

    open spec fn deep_view(&self) -> Step {
        match self {
            PathStep::Key(s) => Step::Key(s@),
            PathStep::Index(n) => Step::Index(*n),
        }
    }
}

/// The first position from `i` on whose character is not `c`.
pub open spec fn skip_char(s: Seq<char>, c: char, i: int) -> int
    decreases s.len() - i,
{
    if 0 <= i < s.len() && s[i] == c {
        skip_char(s, c, i + 1)
    } else {
        i
    }
}

/// The steps of one segment of a path: a key, an index in brackets, or both.
/// What is no index in the brackets is left out.
pub open spec fn segment_steps(seg: Seq<char>) -> Seq<Step> {
    match find_from(seg, "["@, 0) {
        None => seq![Step::Key(seg)],
        Some(p) => {
            let head = if p > 0 {
                seq![Step::Key(seg.subrange(0, p))]
            } else {
                Seq::empty()
            };
            let end = match find_from(seg, "]"@, p) {
                Some(q) => q,
                None => seg.len() as int,
            };
            match int_text(seg.subrange(p + 1, end), 0, usize::MAX as int) {
                Some(n) => head.push(Step::Index(n as usize)),
                None => head,
            }
        },
    }
}

/// The steps of the first `n` segments.
pub open spec fn steps_of(parts: Seq<Seq<char>>, n: int) -> Seq<Step>
    decreases n,
{
    if n <= 0 {
        Seq::empty()
    } else {
        steps_of(parts, n - 1) + segment_steps(parts[n - 1])
    }
}

/// The steps of a path such as `$.key[0].other`.
pub open spec fn path_steps(path: Seq<char>) -> Seq<Step> {
    let from = skip_char(path, '.', skip_char(path, '$', 0));
    let body = path.subrange(from, path.len() as int);
    if body.len() == 0 {
        Seq::empty()
    } else {
        let parts = split_text(body, "."@);
        steps_of(parts, parts.len() as int)
    }
}

fn skip_all(cs: &Vec<char>, c: char, from: usize) -> (r: usize)
    requires
        from <= cs.len(),
    ensures
        r == skip_char(cs@, c, from as int),
        from <= r <= cs.len(),
{
    let mut i: usize = from;
    while i < cs.len() && cs[i] == c
        invariant
            from <= i <= cs.len(),
            skip_char(cs@, c, from as int) == skip_char(cs@, c, i as int),
        decreases cs.len() - i,
    {
        i += 1;
    }
    i
}

fn parse_segment(seg: &str) -> (r: Vec<PathStep>)
    ensures
        r.deep_view() == segment_steps(seg@),
{
    let mut out: Vec<PathStep> = Vec::new();
    let cs = to_chars(seg);
    let open = to_chars("[");
    let close = to_chars("]");
    proof {
        reveal_strlit("[");
        reveal_strlit("]");
    }
    match find_chars(&cs, &open, 0) {
        None => {
            out.push(PathStep::Key(seg.to_owned()));
        },
        Some(p) => {
            if p > 0 {
                out.push(PathStep::Key(slice_text(&cs, 0, p)));
            }
            let ghost head = if p > 0 {
                seq![Step::Key(seg@.subrange(0, p as int))]
            } else {
                Seq::empty()
            };
            assert(out.deep_view() =~= head);
            proof {
                lemma_find_from(cs@, "["@, 0);
                lemma_find_from(cs@, "]"@, p as int);
                assert(cs@.subrange(p as int, p + 1)[0] == cs@[p as int]);
                assert("["@[0] == '[');
            }
            let end: usize = match find_chars(&cs, &close, p) {
                Some(q) => {
                    proof {
                        assert(cs@.subrange(q as int, q + 1)[0] == cs@[q as int]);
                        assert("]"@[0] == ']');
                    }
                    q
                },
                None => cs.len(),
            };
            let body = slice_text(&cs, p + 1, end);
            if let Some(n) = parse_int(body.as_str(), 0, usize::MAX as i128) {
                out.push(PathStep::Index(n as usize));
                assert(out.deep_view() =~= head.push(Step::Index(n as usize)));
            }
        },
    }
    assert(out.deep_view() =~= segment_steps(seg@));
    out
}

/// Reads a path such as `$.key[0].other`.
pub fn parse_json_path(path: &str) -> (r: Vec<PathStep>)
    ensures
        r.deep_view() == path_steps(path@),
{
    let cs = to_chars(path);
    let from: usize = skip_all(&cs, '$', 0);
    let from: usize = skip_all(&cs, '.', from);
    let body = slice_text(&cs, from, cs.len());
    let mut out: Vec<PathStep> = Vec::new();
    if from == cs.len() {
        assert(out.deep_view() =~= Seq::<Step>::empty());
        return out;
    }
    let parts = split_str(body.as_str(), ".");
    let ghost view = parts.deep_view();
    let mut i: usize = 0;
    assert(out.deep_view() =~= steps_of(view, 0));
    while i < parts.len()
        invariant
            view == parts.deep_view(),
            i <= parts.len(),
            out.deep_view() == steps_of(view, i as int),
        decreases parts.len() - i,
    {
        let mut steps = parse_segment(parts[i].as_str());
        assert(view[i as int] == parts[i as int]@);
        let ghost before = out.deep_view();
        let ghost more = steps.deep_view();
        let ghost (o, m) = (out@, steps@);
        out.append(&mut steps);
        assert(out.deep_view() =~= before + more) by {
            assert(out@ == o + m);
        }
        i += 1;
    }
    out
}

/// The first member from `i` on with the given key.
pub open spec fn member(m: Seq<(Seq<char>, Doc)>, key: Seq<char>, i: int) -> Option<int>
    decreases m.len() - i,
{
    if i < 0 || i >= m.len() {
        None
    } else if m[i].0 == key {
        Some(i)
    } else {
        member(m, key, i + 1)
    }
}

fn find_member(m: &Vec<(String, Json)>, key: &str) -> (r: Option<usize>)
    ensures
        match r {
            Some(i) => i < m.len() && member(members_of(m@), key@, 0) == Some(i as int),
            None => member(members_of(m@), key@, 0) is None,
        },
{
    let ghost view = members_of(m@);
    let mut i: usize = 0;
    while i < m.len()
        invariant
            view == members_of(m@),
            i <= m.len(),
            member(view, key@, 0) == member(view, key@, i as int),
        decreases m.len() - i,
    {
        if same_text(m[i].0.as_str(), key) {
            return Some(i);
        }
        i += 1;
    }
    None
}

/// What a path leads to: a key to a member of an object, an index to an
/// element of an array.
pub open spec fn extract(d: Doc, path: Seq<Step>) -> Option<Doc>
    decreases path.len(),
{
    if path.len() == 0 {
        Some(d)
    } else {
        match (d, path[0]) {
            (Doc::Object(m), Step::Key(k)) => match member(m, k, 0) {
                Some(i) => extract(m[i].1, path.drop_first()),
                None => None,
            },
            (Doc::Array(a), Step::Index(n)) => if n < a.len() {
                extract(a[n as int], path.drop_first())
            } else {
                None
            },
            _ => None,
        }
    }
}

/// The steps of a path from `from` on.
pub open spec fn rest_of(path: Seq<PathStep>, from: int) -> Seq<Step> {
    Seq::new((path.len() - from) as nat, |i: int| path[from + i].deep_view())
}

proof fn lemma_rest(path: Seq<PathStep>, from: int)
    requires
        0 <= from < path.len(),
    ensures
        rest_of(path, from).len() > 0,
        rest_of(path, from)[0] == path[from].deep_view(),
        rest_of(path, from).drop_first() == rest_of(path, from + 1),
{
    assert(rest_of(path, from).drop_first() =~= rest_of(path, from + 1));
}

fn extract_from<'a>(j: &'a Json, path: &Vec<PathStep>, from: usize) -> (r: Option<&'a Json>)
    requires
        from <= path.len(),
    ensures
        match r {
            Some(x) => extract(j.deep_view(), rest_of(path@, from as int)) == Some(x.deep_view()),
            None => extract(j.deep_view(), rest_of(path@, from as int)) is None,
        },
    decreases path.len() - from,
{
    if from == path.len() {
        return Some(j);
    }
    proof {
        lemma_rest(path@, from as int);
    }
    match (j, &path[from]) {
        (Json::Object(m), PathStep::Key(k)) => {
            proof {
                lemma_object(*m);
            }
            match find_member(m, k.as_str()) {
                Some(i) => extract_from(&m[i].1, path, from + 1),
                None => None,
            }
        },
        (Json::Array(a), PathStep::Index(n)) => {
            proof {
                lemma_array(*a);
            }
            if *n < a.len() {
                extract_from(&a[*n], path, from + 1)
            } else {
                None
            }
        },
        _ => None,
    }
}

/// What a path leads to.
pub fn json_extract_path<'a>(json_val: &'a Json, path: &Vec<PathStep>) -> (r: Option<&'a Json>)
    ensures
        match r {
            Some(x) => extract(json_val.deep_view(), path.deep_view()) == Some(x.deep_view()),
            None => extract(json_val.deep_view(), path.deep_view()) is None,
        },
{
    assert(rest_of(path@, 0) =~= path.deep_view());
    extract_from(json_val, path, 0)
}

/// The position at which a new key keeps the members in order.
pub open spec fn place(m: Seq<(Seq<char>, Doc)>, key: Seq<char>, i: int) -> int
    decreases m.len() - i,
{
    if 0 <= i < m.len() && text_order(m[i].0, key, 0) < 0 {
        place(m, key, i + 1)
    } else {
        i
    }
}

/// The members with one set: replaced where the key is there, else put in its
/// place in the order of keys.
pub open spec fn with_member(
    m: Seq<(Seq<char>, Doc)>,
    key: Seq<char>,
    d: Doc,
) -> Seq<(Seq<char>, Doc)> {
    match member(m, key, 0) {
        Some(i) => m.update(i, (key, d)),
        None => m.insert(place(m, key, 0), (key, d)),
    }
}

pub proof fn lemma_member_range(m: Seq<(Seq<char>, Doc)>, key: Seq<char>, i: int)
    ensures
        member(m, key, i) is Some ==> i <= member(m, key, i)->0 < m.len() && m[member(
            m,
            key,
            i,
        )->0].0 == key,
    decreases m.len() - i,
{
    if 0 <= i < m.len() && m[i].0 != key {
        lemma_member_range(m, key, i + 1);
    }
}

fn find_place(m: &Vec<(String, Json)>, key: &str) -> (r: usize)
    ensures
        r <= m.len(),
        r == place(members_of(m@), key@, 0),
{
    let ghost view = members_of(m@);
    let mut i: usize = 0;
    while i < m.len()
        invariant
            view == members_of(m@),
            i <= m.len(),
            place(view, key@, 0) == place(view, key@, i as int),
        decreases m.len() - i,
    {
        if order_text(m[i].0.as_str(), key) >= 0 {
            return i;
        }
        i += 1;
    }
    i
}

/// Sets a member of an object.
pub fn put_member(m: &mut Vec<(String, Json)>, key: String, j: Json)
    ensures
        members_of(final(m)@) == with_member(members_of(old(m)@), key@, j.deep_view()),
{
    let ghost before = members_of(m@);
    let ghost (k, d) = (key@, j.deep_view());
    match find_member(m, key.as_str()) {
        Some(i) => {
            m.set(i, (key, j));
            assert(members_of(m@) =~= before.update(i as int, (k, d)));
        },
        None => {
            let p: usize = find_place(m, key.as_str());
            m.insert(p, (key, j));
            assert(members_of(m@) =~= before.insert(p as int, (k, d)));
        },
    }
}

/// The key that a step is in an object: the index in decimal.
pub open spec fn step_key(s: Step) -> Seq<char> {
    match s {
        Step::Key(k) => k,
        Step::Index(n) => dec(n as nat),
    }
}

fn key_of(s: &PathStep) -> (r: String)
    ensures
        r@ == step_key(s.deep_view()),
{
    match s {
        PathStep::Key(k) => k.clone(),
        PathStep::Index(n) => usize_text(*n),
    }
}

/// A document with the value at a path set. Missing members are made; a value
/// that is neither object nor array makes way for an object; an array grows
/// by one at its end. With `insert_only` nothing that is there is replaced.
pub open spec fn set_path(d: Doc, path: Seq<Step>, v: Doc, insert_only: bool) -> Doc
    decreases path.len(),
{
    if path.len() == 0 {
        if insert_only {
            d
        } else {
            v
        }
    } else {
        let key = step_key(path[0]);
        let rest = path.drop_first();
        match d {
            Doc::Object(m) => {
                let at = member(m, key, 0);
                if rest.len() == 0 {
                    if insert_only && at is Some {
                        d
                    } else {
                        Doc::Object(with_member(m, key, v))
                    }
                } else {
                    let child = match at {
                        Some(i) => m[i].1,
                        None => Doc::Null,
                    };
                    Doc::Object(with_member(m, key, set_path(child, rest, v, insert_only)))
                }
            },
            Doc::Array(a) => match path[0] {
                Step::Index(n) => if rest.len() == 0 {
                    if n == a.len() {
                        Doc::Array(a.push(v))
                    } else if n < a.len() && !insert_only {
                        Doc::Array(a.update(n as int, v))
                    } else {
                        d
                    }
                } else if n < a.len() {
                    Doc::Array(a.update(n as int, set_path(a[n as int], rest, v, insert_only)))
                } else {
                    d
                },
                Step::Key(_) => d,
            },
            _ => if insert_only {
                d
            } else {
                Doc::Object(
                    seq![
                        (
                            key,
                            if rest.len() == 0 {
                                v
                            } else {
                                set_path(Doc::Null, rest, v, insert_only)
                            },
                        ),
                    ],
                )
            },
        }
    }
}

fn set_from(root: Json, path: &Vec<PathStep>, from: usize, value: Json, insert_only: bool) -> (r:
    Json)
    requires
        from <= path.len(),
    ensures
        r.deep_view() == set_path(
            root.deep_view(),
            rest_of(path@, from as int),
            value.deep_view(),
            insert_only,
        ),
    decreases path.len() - from,
{
    if from == path.len() {
        return if insert_only {
            root
        } else {
            value
        };
    }
    proof {
        lemma_rest(path@, from as int);
    }
    let ghost rest = rest_of(path@, from + 1);
    let ghost v = value.deep_view();
    let key = key_of(&path[from]);
    let ghost k = key@;
    let last = from + 1 == path.len();
    match root {
        Json::Object(mut m) => {
            let ghost before = members_of(m@);
            proof {
                lemma_object(m);
            }
            let at = find_member(&m, key.as_str());
            if last {
                if insert_only && at.is_some() {
                    return Json::Object(m);
                }
                put_member(&mut m, key, value);
            } else {
                match at {
                    Some(i) => {
                        let ghost whole = m@;
                        let (name, child) = m.remove(i);
                        proof {
                            lemma_member_range(before, k, 0);
                        }
                        let new = set_from(child, path, from + 1, value, insert_only);
                        let ghost n = new.deep_view();
                        m.insert(i, (name, new));
                        assert(members_of(m@) =~= before.update(i as int, (k, n)));
                    },
                    None => {
                        let new = set_from(Json::Null, path, from + 1, value, insert_only);
                        put_member(&mut m, key, new);
                    },
                }
            }
            proof {
                lemma_object(m);
            }
            Json::Object(m)
        },
        Json::Array(mut a) => {
            let ghost before = docs_of(a@);
            proof {
                lemma_array(a);
            }
            if let PathStep::Index(n) = &path[from] {
                let n: usize = *n;
                if last {
                    if n == a.len() {
                        a.push(value);
                        assert(docs_of(a@) =~= before.push(v));
                    } else if n < a.len() && !insert_only {
                        a.set(n, value);
                        assert(docs_of(a@) =~= before.update(n as int, v));
                    }
                } else if n < a.len() {
                    let child = a.remove(n);
                    let new = set_from(child, path, from + 1, value, insert_only);
                    let ghost d = new.deep_view();
                    a.insert(n, new);
                    assert(docs_of(a@) =~= before.update(n as int, d));
                }
            }
            proof {
                lemma_array(a);
            }
            Json::Array(a)
        },
        other => {
            if insert_only {
                return other;
            }
            let new = if last {
                value
            } else {
                set_from(Json::Null, path, from + 1, value, insert_only)
            };
            let ghost n = new.deep_view();
            let mut m: Vec<(String, Json)> = Vec::new();
            m.push((key, new));
            proof {
                lemma_object(m);
                assert(members_of(m@) =~= seq![(k, n)]);
            }
            Json::Object(m)
        },
    }
}

/// Sets the value at a path.
pub fn json_set_path(root: Json, path: &Vec<PathStep>, value: Json, insert_only: bool) -> (r: Json)
    ensures
        r.deep_view() == set_path(
            root.deep_view(),
            path.deep_view(),
            value.deep_view(),
            insert_only,
        ),
{
    assert(rest_of(path@, 0) =~= path.deep_view());
    set_from(root, path, 0, value, insert_only)
}

/// Whether a path leads to something.
pub open spec fn path_exists(d: Doc, path: Seq<Step>) -> bool {
    extract(d, path) is Some
}

/// Whether a path leads to something.
pub fn json_path_exists(root: &Json, path: &Vec<PathStep>) -> (r: bool)
    ensures
        r == path_exists(root.deep_view(), path.deep_view()),
{
    json_extract_path(root, path).is_some()
}

/// A document without what a path leads to.
pub open spec fn remove_path(d: Doc, path: Seq<Step>) -> Doc
    decreases path.len(),
{
    if path.len() == 0 {
        d
    } else {
        let rest = path.drop_first();
        match d {
            Doc::Object(m) => if rest.len() == 0 {
                match path[0] {
                    Step::Key(k) => match member(m, k, 0) {
                        Some(i) => Doc::Object(m.remove(i)),
                        None => d,
                    },
                    Step::Index(_) => d,
                }
            } else {
                let key = step_key(path[0]);
                match member(m, key, 0) {
                    Some(i) => Doc::Object(m.update(i, (key, remove_path(m[i].1, rest)))),
                    None => d,
                }
            },
            Doc::Array(a) => match path[0] {
                Step::Index(n) => if n >= a.len() {
                    d
                } else if rest.len() == 0 {
                    Doc::Array(a.remove(n as int))
                } else {
                    Doc::Array(a.update(n as int, remove_path(a[n as int], rest)))
                },
                Step::Key(_) => d,
            },
            _ => d,
        }
    }
}

fn remove_from(root: Json, path: &Vec<PathStep>, from: usize) -> (r: Json)
    requires
        from <= path.len(),
    ensures
        r.deep_view() == remove_path(root.deep_view(), rest_of(path@, from as int)),
    decreases path.len() - from,
{
    if from == path.len() {
        return root;
    }
    proof {
        lemma_rest(path@, from as int);
    }
    let ghost rest = rest_of(path@, from + 1);
    let last = from + 1 == path.len();
    match root {
        Json::Object(mut m) => {
            let ghost before = members_of(m@);
            proof {
                lemma_object(m);
            }
            let key = key_of(&path[from]);
            let ghost k = key@;
            let keyed = matches!(&path[from], PathStep::Key(_));
            if last && !keyed {
                return Json::Object(m);
            }
            if let Some(i) = find_member(&m, key.as_str()) {
                let (name, child) = m.remove(i);
                proof {
                    lemma_member_range(before, k, 0);
                }
                if last {
                    assert(members_of(m@) =~= before.remove(i as int));
                } else {
                    let new = remove_from(child, path, from + 1);
                    let ghost n = new.deep_view();
                    m.insert(i, (name, new));
                    assert(members_of(m@) =~= before.update(i as int, (k, n)));
                }
            }
            proof {
                lemma_object(m);
            }
            Json::Object(m)
        },
        Json::Array(mut a) => {
            let ghost before = docs_of(a@);
            proof {
                lemma_array(a);
            }
            if let PathStep::Index(n) = &path[from] {
                let n: usize = *n;
                if n < a.len() {
                    let child = a.remove(n);
                    if last {
                        assert(docs_of(a@) =~= before.remove(n as int));
                    } else {
                        let new = remove_from(child, path, from + 1);
                        let ghost d = new.deep_view();
                        a.insert(n, new);
                        assert(docs_of(a@) =~= before.update(n as int, d));
                    }
                }
            }
            proof {
                lemma_array(a);
            }
            Json::Array(a)
        },
        other => other,
    }
}

/// Removes what a path leads to.
pub fn json_remove_path(root: Json, path: &Vec<PathStep>) -> (r: Json)
    ensures
        r.deep_view() == remove_path(root.deep_view(), path.deep_view()),
{
    assert(rest_of(path@, 0) =~= path.deep_view());
    remove_from(root, path, 0)
}

/// Whether a value can be set at a path: keys meet objects, or values that
/// make way for one, and indexes meet arrays, within them or, last, at their
/// end.
pub open spec fn settable(d: Doc, path: Seq<Step>) -> bool
    decreases path.len(),
{
    if path.len() == 0 {
        true
    } else {
        let rest = path.drop_first();
        match (d, path[0]) {
            (Doc::Object(m), Step::Key(k)) => match member(m, k, 0) {
                Some(i) => settable(m[i].1, rest),
                None => settable(Doc::Null, rest),
            },
            (Doc::Array(a), Step::Index(n)) => if n < a.len() {
                settable(a[n as int], rest)
            } else {
                n == a.len() && rest.len() == 0
            },
            (Doc::Object(_), Step::Index(_)) => false,
            (Doc::Array(_), Step::Key(_)) => false,
            (_, Step::Key(_)) => settable(Doc::Null, rest),
            (_, Step::Index(_)) => false,
        }
    }
}

pub proof fn lemma_member_after(m: Seq<(Seq<char>, Doc)>, key: Seq<char>, d: Doc)
    ensures
        member(with_member(m, key, d), key, 0) is Some,
        with_member(m, key, d)[member(with_member(m, key, d), key, 0)->0].1 == d,
{
    let w = with_member(m, key, d);
    lemma_member_range(m, key, 0);
    lemma_first_member(m, key, 0);
    match member(m, key, 0) {
        Some(i) => {
            assert(forall|j: int| 0 <= j < i ==> (#[trigger] w[j]).0 == m[j].0);
            lemma_member_is(w, key, 0, i);
        },
        None => {
            lemma_place_range(m, key, 0);
            let p = place(m, key, 0);
            assert(forall|j: int| 0 <= j < p ==> (#[trigger] w[j]).0 == m[j].0);
            lemma_member_is(w, key, 0, p);
        },
    }
}

pub proof fn lemma_place_range(m: Seq<(Seq<char>, Doc)>, key: Seq<char>, i: int)
    requires
        0 <= i <= m.len(),
    ensures
        i <= place(m, key, i) <= m.len(),
    decreases m.len() - i,
{
    if i < m.len() && text_order(m[i].0, key, 0) < 0 {
        lemma_place_range(m, key, i + 1);
    }
}

pub proof fn lemma_first_member(m: Seq<(Seq<char>, Doc)>, key: Seq<char>, i: int)
    requires
        0 <= i,
    ensures
        match member(m, key, i) {
            Some(p) => forall|j: int| i <= j < p ==> (#[trigger] m[j]).0 != key,
            None => forall|j: int| i <= j < m.len() ==> (#[trigger] m[j]).0 != key,
        },
    decreases m.len() - i,
{
    if i < m.len() && m[i].0 != key {
        lemma_first_member(m, key, i + 1);
    }
}

pub proof fn lemma_member_is(m: Seq<(Seq<char>, Doc)>, key: Seq<char>, i: int, p: int)
    requires
        0 <= i <= p < m.len(),
        m[p].0 == key,
        forall|j: int| i <= j < p ==> (#[trigger] m[j]).0 != key,
    ensures
        member(m, key, i) == Some(p),
    decreases p - i,
{
    if i < p {
        assert(m[i].0 != key);
        lemma_member_is(m, key, i + 1, p);
    }
}

/// What was set at a path is found there.
pub proof fn law_set_then_extract(d: Doc, path: Seq<Step>, v: Doc)
    requires
        settable(d, path),
    ensures
        extract(set_path(d, path, v, false), path) == Some(v),
    decreases path.len(),
{
    if path.len() > 0 {
        let rest = path.drop_first();
        match (d, path[0]) {
            (Doc::Object(m), Step::Key(k)) => {
                let child = match member(m, k, 0) {
                    Some(i) => m[i].1,
                    None => Doc::Null,
                };
                law_set_then_extract(child, rest, v);
                let new = if rest.len() == 0 {
                    v
                } else {
                    set_path(child, rest, v, false)
                };
                lemma_member_after(m, k, new);
            },
            (Doc::Array(a), Step::Index(n)) => {
                if n < a.len() {
                    law_set_then_extract(a[n as int], rest, v);
                }
            },
            (_, Step::Key(k)) => {
                law_set_then_extract(Doc::Null, rest, v);
                let new = if rest.len() == 0 {
                    v
                } else {
                    set_path(Doc::Null, rest, v, false)
                };
                let m = seq![(k, new)];
                assert(member(m, k, 0) == Some(0int));
            },
            _ => {},
        }
    }
}

/// Inserting replaces nothing: where a path leads somewhere, the document
/// stays as it is.
pub proof fn law_insert_keeps(d: Doc, path: Seq<Step>, v: Doc)
    requires
        path_exists(d, path),
    ensures
        set_path(d, path, v, true) == d,
    decreases path.len(),
{
    if path.len() > 0 {
        let rest = path.drop_first();
        match (d, path[0]) {
            (Doc::Object(m), Step::Key(k)) => {
                lemma_member_range(m, k, 0);
                let i = member(m, k, 0)->0;
                if rest.len() > 0 {
                    law_insert_keeps(m[i].1, rest, v);
                    assert(m.update(i, (k, m[i].1)) =~= m);
                }
            },
            (Doc::Array(a), Step::Index(n)) => {
                if rest.len() > 0 {
                    law_insert_keeps(a[n as int], rest, v);
                    assert(a.update(n as int, a[n as int]) =~= a);
                }
            },
            _ => {},
        }
    }
}

/// Removing what is not there changes nothing: a path of keys that leads
/// nowhere leaves the document as it is.
pub proof fn law_remove_absent(d: Doc, path: Seq<Step>)
    requires
        !path_exists(d, path),
        forall|i: int| 0 <= i < path.len() ==> (#[trigger] path[i]) is Key,
    ensures
        remove_path(d, path) == d,
    decreases path.len(),
{
    if path.len() > 0 {
        let rest = path.drop_first();
        assert(forall|i: int| 0 <= i < rest.len() ==> (#[trigger] rest[i]) == path[i + 1]);
        match (d, path[0]) {
            (Doc::Object(m), Step::Key(k)) => {
                lemma_member_range(m, k, 0);
                if let Some(i) = member(m, k, 0) {
                    if rest.len() > 0 {
                        law_remove_absent(m[i].1, rest);
                        assert(m.update(i, (k, m[i].1)) =~= m);
                    } else {
                        assert(extract(m[i].1, rest) is Some);
                    }
                }
            },
            _ => {},
        }
    }
}

/// Whether a number's text is a floating-point zero of either sign.
pub open spec fn zero_text(s: Seq<char>) -> bool {
    s == "0.0"@ || s == "-0.0"@
}

/// Whether two documents are equal. Floating-point zeros of either sign are.
pub open spec fn same_doc(a: Doc, b: Doc) -> bool
    decreases a,
{
    match (a, b) {
        (Doc::Null, Doc::Null) => true,
        (Doc::Bool(x), Doc::Bool(y)) => x == y,
        (Doc::Number(x), Doc::Number(y)) => x == y || (zero_text(x) && zero_text(y)),
        (Doc::Text(x), Doc::Text(y)) => x == y,
        (Doc::Array(x), Doc::Array(y)) => x.len() == y.len() && forall|i: int|
            #![trigger x[i]]
            0 <= i < x.len() ==> same_doc(x[i], y[i]),
        (Doc::Object(x), Doc::Object(y)) => x.len() == y.len() && forall|i: int|
            #![trigger x[i]]
            0 <= i < x.len() ==> x[i].0 == y[i].0 && same_doc(x[i].1, y[i].1),
        _ => false,
    }
}

fn same_elements(a: &Vec<Json>, b: &Vec<Json>) -> (r: bool)
    requires
        a.len() == b.len(),
    ensures
        r == (forall|i: int|
            #![trigger docs_of(a@)[i]]
            0 <= i < a.len() ==> same_doc(docs_of(a@)[i], docs_of(b@)[i])),
    decreases a,
{
    let ghost (x, y) = (docs_of(a@), docs_of(b@));
    let mut i: usize = 0;
    while i < a.len()
        invariant
            x == docs_of(a@),
            y == docs_of(b@),
            a.len() == b.len(),
            i <= a.len(),
            forall|k: int| #![trigger x[k]] 0 <= k < i ==> same_doc(x[k], y[k]),
        decreases a.len() - i,
    {
        assert(x[i as int] == a[i as int].deep_view());
        assert(y[i as int] == b[i as int].deep_view());
        if !same_json(&a[i], &b[i]) {
            return false;
        }
        i += 1;
    }
    true
}

fn same_members(a: &Vec<(String, Json)>, b: &Vec<(String, Json)>) -> (r: bool)
    requires
        a.len() == b.len(),
    ensures
        r == (forall|i: int|
            #![trigger members_of(a@)[i]]
            0 <= i < a.len() ==> members_of(a@)[i].0 == members_of(b@)[i].0 && same_doc(
                members_of(a@)[i].1,
                members_of(b@)[i].1,
            )),
    decreases a,
{
    let ghost (x, y) = (members_of(a@), members_of(b@));
    let mut i: usize = 0;
    while i < a.len()
        invariant
            x == members_of(a@),
            y == members_of(b@),
            a.len() == b.len(),
            i <= a.len(),
            forall|k: int|
                #![trigger x[k]]
                0 <= k < i ==> x[k].0 == y[k].0 && same_doc(x[k].1, y[k].1),
        decreases a.len() - i,
    {
        assert(x[i as int] == (a[i as int].0@, a[i as int].1.deep_view()));
        assert(y[i as int] == (b[i as int].0@, b[i as int].1.deep_view()));
        if !same_text(a[i].0.as_str(), b[i].0.as_str()) || !same_json(&a[i].1, &b[i].1) {
            return false;
        }
        i += 1;
    }
    true
}

/// Whether two documents are equal.
pub fn same_json(a: &Json, b: &Json) -> (r: bool)
    ensures
        r == same_doc(a.deep_view(), b.deep_view()),
    decreases a,
{
    match (a, b) {
        (Json::Null, Json::Null) => true,
        (Json::Bool(x), Json::Bool(y)) => *x == *y,
        (Json::Number(x), Json::Number(y)) => {
            same_text(x.as_str(), y.as_str()) || ((same_text(x.as_str(), "0.0") || same_text(
                x.as_str(),
                "-0.0",
            )) && (same_text(y.as_str(), "0.0") || same_text(y.as_str(), "-0.0")))
        },
        (Json::Text(x), Json::Text(y)) => same_text(x.as_str(), y.as_str()),
        (Json::Array(x), Json::Array(y)) => {
            proof {
                lemma_array(*x);
                lemma_array(*y);
            }
            x.len() == y.len() && same_elements(x, y)
        },
        (Json::Object(x), Json::Object(y)) => {
            proof {
                lemma_object(*x);
                lemma_object(*y);
            }
            x.len() == y.len() && same_members(x, y)
        },
        _ => false,
    }
}

/// Whether a document holds another: it is that document, one of its members
/// or elements holds it, or it is an array whose elements together hold all
/// elements of the other array.
pub open spec fn holds(c: Doc, t: Doc) -> bool
    decreases c,
{
    same_doc(c, t) || match c {
        Doc::Object(m) => member_holds(m, t),
        Doc::Array(a) => match t {
            Doc::Array(ts) => forall|k: int|
                0 <= k < ts.len() ==> element_holds(a, #[trigger] ts[k]),
            _ => element_holds(a, t),
        },
        _ => false,
    }
}

/// Whether an element holds a document.
pub open spec fn element_holds(a: Seq<Doc>, t: Doc) -> bool
    decreases a,
{
    exists|i: int| #![trigger a[i]] 0 <= i < a.len() && holds(a[i], t)
}

/// Whether the value of a member holds a document.
pub open spec fn member_holds(m: Seq<(Seq<char>, Doc)>, t: Doc) -> bool
    decreases m,
{
    exists|i: int| #![trigger m[i]] 0 <= i < m.len() && holds(m[i].1, t)
}

fn any_element(a: &Vec<Json>, t: &Json) -> (r: bool)
    ensures
        r == element_holds(docs_of(a@), t.deep_view()),
    decreases a, 0int,
{
    let ghost x = docs_of(a@);
    let mut i: usize = 0;
    while i < a.len()
        invariant
            x == docs_of(a@),
            i <= a.len(),
            forall|k: int| #![trigger x[k]] 0 <= k < i ==> !holds(x[k], t.deep_view()),
        decreases a.len() - i,
    {
        assert(x[i as int] == a[i as int].deep_view());
        if json_contains_recursive(&a[i], t) {
            return true;
        }
        i += 1;
    }
    false
}

fn any_member(m: &Vec<(String, Json)>, t: &Json) -> (r: bool)
    ensures
        r == member_holds(members_of(m@), t.deep_view()),
    decreases m, 0int,
{
    let ghost x = members_of(m@);
    let mut i: usize = 0;
    while i < m.len()
        invariant
            x == members_of(m@),
            i <= m.len(),
            forall|k: int| #![trigger x[k]] 0 <= k < i ==> !holds(x[k].1, t.deep_view()),
        decreases m.len() - i,
    {
        assert(x[i as int] == (m[i as int].0@, m[i as int].1.deep_view()));
        if json_contains_recursive(&m[i].1, t) {
            return true;
        }
        i += 1;
    }
    false
}

fn all_elements(a: &Vec<Json>, ts: &Vec<Json>) -> (r: bool)
    ensures
        r == (forall|k: int|
            0 <= k < ts.len() ==> element_holds(docs_of(a@), #[trigger] docs_of(ts@)[k])),
    decreases a, 1int,
{
    let ghost x = docs_of(a@);
    let ghost y = docs_of(ts@);
    let mut k: usize = 0;
    while k < ts.len()
        invariant
            x == docs_of(a@),
            y == docs_of(ts@),
            k <= ts.len(),
            forall|j: int| 0 <= j < k ==> element_holds(x, #[trigger] y[j]),
        decreases ts.len() - k,
    {
        assert(y[k as int] == ts[k as int].deep_view());
        if !any_element(a, &ts[k]) {
            return false;
        }
        k += 1;
    }
    true
}

/// Whether a document holds another.
pub fn json_contains_recursive(container: &Json, target: &Json) -> (r: bool)
    ensures
        r == holds(container.deep_view(), target.deep_view()),
    decreases container, 2int,
{
    if same_json(container, target) {
        return true;
    }
    match container {
        Json::Object(m) => {
            proof {
                lemma_object(*m);
            }
            any_member(m, target)
        },
        Json::Array(a) => {
            proof {
                lemma_array(*a);
            }
            match target {
                Json::Array(ts) => {
                    proof {
                        lemma_array(*ts);
                    }
                    all_elements(a, ts)
                },
                _ => any_element(a, target),
            }
        },
        _ => false,
    }
}

/// Every document holds itself.
pub proof fn law_holds_itself(d: Doc)
    ensures
        holds(d, d),
{
    lemma_same_itself(d);
}

pub proof fn lemma_same_itself(d: Doc)
    ensures
        same_doc(d, d),
    decreases d,
{
    match d {
        Doc::Array(a) => {
            assert forall|i: int| #![trigger a[i]] 0 <= i < a.len() implies same_doc(
                a[i],
                a[i],
            ) by {
                lemma_same_itself(a[i]);
            }
        },
        Doc::Object(m) => {
            assert forall|i: int| #![trigger m[i]] 0 <= i < m.len() implies same_doc(
                m[i].1,
                m[i].1,
            ) by {
                lemma_same_itself(m[i].1);
            }
        },
        _ => {},
    }
}

} // verus!
