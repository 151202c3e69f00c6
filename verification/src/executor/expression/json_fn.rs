//! The JSON functions of SQL.
use vstd::prelude::*;

use crate::executor::env::{
    answers, json_number, number_text, oracle, Answer, Ask, Question, Reply,
};
use crate::executor::expression::json::{
    doc_of, doc_text, docs_of, extract, holds, json_contains_recursive, json_doc, json_extract_path,
    json_path_exists, json_remove_path, json_set_path, json_text, members_of, parse_json,
    parse_json_path, path_exists, path_steps, put_member, remove_path, set_path, with_member, Doc,
    Json,
};
use crate::executor::expression::ops::{display_text, text_or_shown};
use crate::executor::expression::rowwise::{apply_each1, apply_each2, apply_each3, apply_zip};
use crate::executor::expression::rowwise::{each2, each3, zip_columns};
use crate::executor::expression::strings::all_long;
use crate::executor::vector::{col_at, col_len, Column, Vector};
use crate::float::{f32_widen, widen32, F64};
use crate::text::{dec_int, i64_text};
use crate::value::{text_of, Datum};
use crate::Value;

verus! {

/// The document of a text or JSON value, where its text is one.
pub open spec fn doc_in(d: Datum) -> Option<Doc> {
    match text_of(d) {
        Some(s) => json_doc(s),
        None => None,
    }
}

fn read_doc(v: &Value) -> (r: Option<Json>)
    ensures
        match r {
            Some(j) => doc_in(v.deep_view()) == Some(j.deep_view()),
            None => doc_in(v.deep_view()) is None,
        },
{
    match v.as_str() {
        Some(s) => parse_json(s),
        None => None,
    }
}

/// What a path, where there is one, leads to in a document.
pub open spec fn at_path(d: Doc, path: Option<Datum>) -> Option<Doc> {
    match path {
        None => Some(d),
        Some(p) => match text_of(p) {
            Some(s) => extract(d, path_steps(s)),
            None => None,
        },
    }
}

fn find_path<'a>(j: &'a Json, path: Option<&Value>) -> (r: Option<&'a Json>)
    ensures
        match r {
            Some(x) => at_path(
                j.deep_view(),
                match path {
                    Some(p) => Some(p.deep_view()),
                    None => None,
                },
            ) == Some(x.deep_view()),
            None => at_path(
                j.deep_view(),
                match path {
                    Some(p) => Some(p.deep_view()),
                    None => None,
                },
            ) is None,
        },
{
    match path {
        None => Some(j),
        Some(p) => match p.as_str() {
            Some(s) => {
                let steps = parse_json_path(s);
                json_extract_path(j, &steps)
            },
            None => None,
        },
    }
}

/// JSON_EXTRACT: what a path leads to, as JSON; NULL where it leads nowhere
/// or the text is no document.
pub open spec fn json_extract_datum(j: Datum, p: Datum) -> Datum {
    match doc_in(j) {
        Some(d) => match at_path(d, Some(p)) {
            Some(x) => Datum::Json(doc_text(x)),
            None => Datum::Null,
        },
        None => Datum::Null,
    }
}

/// JSON_EXTRACT of values.
pub fn json_extract_value(json_val: &Value, path_val: &Value) -> (r: Value)
    ensures
        r.deep_view() == json_extract_datum(json_val.deep_view(), path_val.deep_view()),
{
    match read_doc(json_val) {
        Some(j) => match find_path(&j, Some(path_val)) {
            Some(x) => Value::Json(json_text(x)),
            None => Value::Null,
        },
        None => Value::Null,
    }
}

/// JSON_EXTRACT of columns.
pub fn eval_json_extract(json_vec: &Vector, path_vec: &Vector) -> (r: Vector)
    requires
        json_vec.wf(),
        path_vec.wf(),
        col_len(json_vec.deep_view()) == col_len(path_vec.deep_view()),
    ensures
        r.wf(),
        r.deep_view() == zip_columns(
            json_vec.deep_view(),
            path_vec.deep_view(),
            |j: Datum, p: Datum| json_extract_datum(j, p),
        ),
{
    let g = |x: &Value, y: &Value| -> (z: Value)
        ensures
            z.deep_view() == json_extract_datum(x.deep_view(), y.deep_view()),
        { json_extract_value(x, y) };
    apply_zip(json_vec, path_vec, g, Ghost(|j: Datum, p: Datum| json_extract_datum(j, p)))
}

/// JSON_CONTAINS: whether a document, or what a path leads to in it, holds
/// another one; NULL where a text is no document or the path leads nowhere.
pub open spec fn json_contains_datum(j: Datum, t: Datum, p: Option<Datum>) -> Datum {
    match (doc_in(j), doc_in(t)) {
        (Some(d), Some(u)) => match at_path(d, p) {
            Some(x) => Datum::Boolean(holds(x, u)),
            None => Datum::Null,
        },
        _ => Datum::Null,
    }
}

/// JSON_CONTAINS of values.
pub fn json_contains_value(json_val: &Value, target_val: &Value, path_val: Option<&Value>) -> (r:
    Value)
    ensures
        r.deep_view() == json_contains_datum(
            json_val.deep_view(),
            target_val.deep_view(),
            match path_val {
                Some(p) => Some(p.deep_view()),
                None => None,
            },
        ),
{
    match (read_doc(json_val), read_doc(target_val)) {
        (Some(j), Some(t)) => match find_path(&j, path_val) {
            Some(x) => Value::Boolean(json_contains_recursive(x, &t)),
            None => Value::Null,
        },
        _ => Value::Null,
    }
}

/// JSON_CONTAINS of columns.
pub open spec fn json_contains_column(j: Column, t: Column, p: Option<Column>) -> Column {
    Column::Flat(
        Seq::new(
            col_len(j),
            |i: int|
                json_contains_datum(
                    col_at(j, i),
                    col_at(t, i),
                    match p {
                        Some(c) => Some(col_at(c, i)),
                        None => None,
                    },
                ),
        ),
    )
}

/// JSON_CONTAINS of columns.
pub fn eval_json_contains(json_vec: &Vector, target_vec: &Vector, path_vec: Option<&Vector>) -> (r:
    Vector)
    requires
        json_vec.wf(),
        target_vec.wf(),
        col_len(json_vec.deep_view()) == col_len(target_vec.deep_view()),
        path_vec is Some ==> path_vec->0.wf() && col_len(path_vec->0.deep_view()) == col_len(
            json_vec.deep_view(),
        ),
    ensures
        r.wf(),
        r.deep_view() == json_contains_column(
            json_vec.deep_view(),
            target_vec.deep_view(),
            match path_vec {
                Some(p) => Some(p.deep_view()),
                None => None,
            },
        ),
{
    let ghost want = json_contains_column(
        json_vec.deep_view(),
        target_vec.deep_view(),
        match path_vec {
            Some(p) => Some(p.deep_view()),
            None => None,
        },
    );
    match path_vec {
        None => {
            let g = |x: &Value, y: &Value| -> (z: Value)
                ensures
                    z.deep_view() == json_contains_datum(x.deep_view(), y.deep_view(), None),
                { json_contains_value(x, y, None) };
            let r = apply_each2(
                json_vec,
                target_vec,
                g,
                Ghost(|x: Datum, y: Datum| json_contains_datum(x, y, None)),
            );
            assert(r.deep_view()->Flat_0 =~= want->Flat_0);
            r
        },
        Some(p) => {
            let g = |x: &Value, y: &Value, w: &Value| -> (z: Value)
                ensures
                    z.deep_view() == json_contains_datum(
                        x.deep_view(),
                        y.deep_view(),
                        Some(w.deep_view()),
                    ),
                { json_contains_value(x, y, Some(w)) };
            let r = apply_each3(
                json_vec,
                target_vec,
                p,
                g,
                Ghost(|x: Datum, y: Datum, w: Datum| json_contains_datum(x, y, Some(w))),
            );
            assert(r.deep_view()->Flat_0 =~= want->Flat_0);
            r
        },
    }
}

/// JSON_ARRAY_LENGTH: the number of elements of an array.
pub open spec fn json_array_length_datum(j: Datum, p: Option<Datum>) -> Datum {
    match doc_in(j) {
        Some(d) => match at_path(d, p) {
            Some(Doc::Array(a)) => Datum::Int64(a.len() as i64),
            _ => Datum::Null,
        },
        None => Datum::Null,
    }
}

/// JSON_ARRAY_LENGTH of a value.
pub fn json_array_length_value(json_val: &Value, path_val: Option<&Value>) -> (r: Value)
    ensures
        r.deep_view() == json_array_length_datum(
            json_val.deep_view(),
            match path_val {
                Some(p) => Some(p.deep_view()),
                None => None,
            },
        ),
{
    match read_doc(json_val) {
        Some(j) => match find_path(&j, path_val) {
            Some(Json::Array(a)) => {
                let r = Value::Int64(a.len() as i64);
                assert(doc_of(Json::Array(*a))->Array_0.len() == a.len());
                r
            },
            _ => Value::Null,
        },
        None => Value::Null,
    }
}

/// JSON_ARRAY_LENGTH of columns.
pub open spec fn json_array_length_column(j: Column, p: Option<Column>) -> Column {
    Column::Flat(
        Seq::new(
            col_len(j),
            |i: int|
                json_array_length_datum(
                    col_at(j, i),
                    match p {
                        Some(c) => Some(col_at(c, i)),
                        None => None,
                    },
                ),
        ),
    )
}

/// JSON_ARRAY_LENGTH of columns.
pub fn eval_json_array_length(json_vec: &Vector, path_vec: Option<&Vector>) -> (r: Vector)
    requires
        json_vec.wf(),
        path_vec is Some ==> path_vec->0.wf() && col_len(path_vec->0.deep_view()) == col_len(
            json_vec.deep_view(),
        ),
    ensures
        r.wf(),
        r.deep_view() == json_array_length_column(
            json_vec.deep_view(),
            match path_vec {
                Some(p) => Some(p.deep_view()),
                None => None,
            },
        ),
{
    let ghost want = json_array_length_column(
        json_vec.deep_view(),
        match path_vec {
            Some(p) => Some(p.deep_view()),
            None => None,
        },
    );
    match path_vec {
        None => {
            let g = |x: &Value| -> (z: Value)
                ensures
                    z.deep_view() == json_array_length_datum(x.deep_view(), None),
                { json_array_length_value(x, None) };
            let r = apply_each1(json_vec, g, Ghost(|x: Datum| json_array_length_datum(x, None)));
            assert(r.deep_view()->Flat_0 =~= want->Flat_0);
            r
        },
        Some(p) => {
            let g = |x: &Value, y: &Value| -> (z: Value)
                ensures
                    z.deep_view() == json_array_length_datum(x.deep_view(), Some(y.deep_view())),
                { json_array_length_value(x, Some(y)) };
            let r = apply_each2(
                json_vec,
                p,
                g,
                Ghost(|x: Datum, y: Datum| json_array_length_datum(x, Some(y))),
            );
            assert(r.deep_view()->Flat_0 =~= want->Flat_0);
            r
        },
    }
}

/// Whether a double is neither infinite nor NaN.
pub open spec fn is_finite64(b: u64) -> bool {
    b % 0x8000_0000_0000_0000 < 0x7ff0_0000_0000_0000
}

/// A double as a document: a number, or null where it is not finite.
pub open spec fn float_doc(o: spec_fn(Question) -> Answer, b: u64) -> Doc {
    if is_finite64(b) {
        Doc::Number(json_number(o, b))
    } else {
        Doc::Null
    }
}

/// A value as a document. A text that is a document stands for it, else for a
/// string.
pub open spec fn value_doc(o: spec_fn(Question) -> Answer, d: Datum) -> Doc {
    match d {
        Datum::Null => Doc::Null,
        Datum::Boolean(b) => Doc::Bool(b),
        Datum::Int32(n) => Doc::Number(dec_int(n as int)),
        Datum::Int64(n) => Doc::Number(dec_int(n as int)),
        Datum::Float32(b) => float_doc(o, widen32(b)),
        Datum::Float64(b) => float_doc(o, b),
        Datum::Varchar(s) => match json_doc(s) {
            Some(x) => x,
            None => Doc::Text(s),
        },
        Datum::Json(s) => match json_doc(s) {
            Some(x) => x,
            None => Doc::Text(s),
        },
        Datum::Blob(_) => Doc::Text("<blob>"@),
        Datum::Vector(_) => Doc::Text("<vector>"@),
        Datum::VectorInt8(_) => Doc::Text("<vector>"@),
        Datum::Timestamp(t) => Doc::Number(dec_int(t as int)),
    }
}

fn float_json<E: Fn(Ask) -> Reply>(x: F64, env: &E) -> (r: Json)
    requires
        answers(*env),
    ensures
        r.deep_view() == float_doc(oracle(*env), x.bits),
{
    if x.bits % 0x8000_0000_0000_0000 < 0x7ff0_0000_0000_0000 {
        Json::Number(number_text(env, x))
    } else {
        Json::Null
    }
}

fn text_json(s: &String) -> (r: Json)
    ensures
        r.deep_view() == match json_doc(s@) {
            Some(x) => x,
            None => Doc::Text(s@),
        },
{
    match parse_json(s.as_str()) {
        Some(j) => j,
        None => Json::Text(s.clone()),
    }
}

/// A value as a document.
pub fn value_to_json<E: Fn(Ask) -> Reply>(v: &Value, env: &E) -> (r: Json)
    requires
        answers(*env),
    ensures
        r.deep_view() == value_doc(oracle(*env), v.deep_view()),
{
    match v {
        Value::Null => Json::Null,
        Value::Boolean(b) => Json::Bool(*b),
        Value::Int32(n) => Json::Number(i64_text(*n as i64)),
        Value::Int64(n) => Json::Number(i64_text(*n)),
        Value::Float32(x) => float_json(f32_widen(*x), env),
        Value::Float64(x) => float_json(*x, env),
        Value::Varchar(s) => text_json(s),
        Value::Json(s) => text_json(s),
        Value::Blob(_) => Json::Text("<blob>".to_owned()),
        Value::Vector(_) => Json::Text("<vector>".to_owned()),
        Value::VectorInt8(_) => Json::Text("<vector>".to_owned()),
        Value::Timestamp(t) => Json::Number(i64_text(*t)),
    }
}

/// The members that the first `k` columns of keys and values give at row `i`.
pub open spec fn row_members(
    o: spec_fn(Question) -> Answer,
    keys: Seq<Column>,
    vals: Seq<Column>,
    i: int,
    k: int,
) -> Seq<(Seq<char>, Doc)>
    decreases k,
{
    if k <= 0 {
        Seq::empty()
    } else {
        with_member(
            row_members(o, keys, vals, i, k - 1),
            text_or_shown(o, col_at(keys[k - 1], i)),
            value_doc(o, col_at(vals[k - 1], i)),
        )
    }
}

/// JSON_OBJECT: one object per row, of the keys and values in that row.
pub open spec fn json_object_column(
    o: spec_fn(Question) -> Answer,
    keys: Seq<Column>,
    vals: Seq<Column>,
    n: nat,
) -> Column {
    Column::Flat(
        Seq::new(
            n,
            |i: int|
                Datum::Json(
                    doc_text(Doc::Object(row_members(o, keys, vals, i, keys.len() as int))),
                ),
        ),
    )
}

/// JSON_OBJECT of columns.
pub fn eval_json_object<E: Fn(Ask) -> Reply>(
    key_vecs: &Vec<Vector>,
    val_vecs: &Vec<Vector>,
    count: usize,
    env: &E,
) -> (r: Vector)
    requires
        answers(*env),
        key_vecs.len() == val_vecs.len(),
        all_long(key_vecs@, count as nat),
        all_long(val_vecs@, count as nat),
    ensures
        r.wf(),
        r.deep_view() == json_object_column(
            oracle(*env),
            key_vecs.deep_view(),
            val_vecs.deep_view(),
            count as nat,
        ),
{
    let ghost o = oracle(*env);
    let ghost (ks, vs) = (key_vecs.deep_view(), val_vecs.deep_view());
    let ghost want = json_object_column(o, ks, vs, count as nat)->Flat_0;
    let mut out: Vec<Value> = Vec::new();
    let mut i: usize = 0;
    while i < count
        invariant
            answers(*env),
            o == oracle(*env),
            ks == key_vecs.deep_view(),
            vs == val_vecs.deep_view(),
            key_vecs.len() == val_vecs.len(),
            all_long(key_vecs@, count as nat),
            all_long(val_vecs@, count as nat),
            want == json_object_column(o, ks, vs, count as nat)->Flat_0,
            i <= count,
            out.len() == i,
            forall|k: int| 0 <= k < i ==> (#[trigger] out[k]).deep_view() == want[k],
        decreases count - i,
    {
        let mut members: Vec<(String, Json)> = Vec::new();
        let mut k: usize = 0;
        assert(members_of(members@) =~= row_members(o, ks, vs, i as int, 0));
        while k < key_vecs.len()
            invariant
                answers(*env),
                o == oracle(*env),
                ks == key_vecs.deep_view(),
                vs == val_vecs.deep_view(),
                key_vecs.len() == val_vecs.len(),
                all_long(key_vecs@, count as nat),
                all_long(val_vecs@, count as nat),
                i < count,
                k <= key_vecs.len(),
                members_of(members@) == row_members(o, ks, vs, i as int, k as int),
            decreases key_vecs.len() - k,
        {
            assert(key_vecs[k as int].wf() && val_vecs[k as int].wf());
            let key_val = key_vecs[k].get(i);
            let val = val_vecs[k].get(i);
            let key = display_text(&key_val, env);
            let j = value_to_json(&val, env);
            assert(ks[k as int] == key_vecs[k as int].deep_view());
            assert(vs[k as int] == val_vecs[k as int].deep_view());
            put_member(&mut members, key, j);
            k += 1;
        }
        proof {
            crate::executor::expression::json::lemma_object(members);
        }
        let j = Json::Object(members);
        out.push(Value::Json(json_text(&j)));
        i += 1;
    }
    assert(out.deep_view() =~= want);
    Vector::Flat(out)
}

/// JSON_ARRAY: one array per row, of the values in that row.
pub open spec fn json_array_column(
    o: spec_fn(Question) -> Answer,
    vals: Seq<Column>,
    n: nat,
) -> Column {
    Column::Flat(
        Seq::new(
            n,
            |i: int|
                Datum::Json(
                    doc_text(
                        Doc::Array(
                            Seq::new(vals.len(), |k: int| value_doc(o, col_at(vals[k], i))),
                        ),
                    ),
                ),
        ),
    )
}

/// JSON_ARRAY of columns.
pub fn eval_json_array<E: Fn(Ask) -> Reply>(val_vecs: &Vec<Vector>, count: usize, env: &E) -> (r:
    Vector)
    requires
        answers(*env),
        all_long(val_vecs@, count as nat),
    ensures
        r.wf(),
        r.deep_view() == json_array_column(oracle(*env), val_vecs.deep_view(), count as nat),
{
    let ghost o = oracle(*env);
    let ghost vs = val_vecs.deep_view();
    let ghost want = json_array_column(o, vs, count as nat)->Flat_0;
    let mut out: Vec<Value> = Vec::new();
    let mut i: usize = 0;
    while i < count
        invariant
            answers(*env),
            o == oracle(*env),
            vs == val_vecs.deep_view(),
            all_long(val_vecs@, count as nat),
            want == json_array_column(o, vs, count as nat)->Flat_0,
            i <= count,
            out.len() == i,
            forall|k: int| 0 <= k < i ==> (#[trigger] out[k]).deep_view() == want[k],
        decreases count - i,
    {
        let mut items: Vec<Json> = Vec::new();
        let mut k: usize = 0;
        while k < val_vecs.len()
            invariant
                answers(*env),
                o == oracle(*env),
                vs == val_vecs.deep_view(),
                all_long(val_vecs@, count as nat),
                i < count,
                k <= val_vecs.len(),
                items.len() == k,
                forall|m: int|
                    0 <= m < k ==> (#[trigger] items[m]).deep_view() == value_doc(
                        o,
                        col_at(vs[m], i as int),
                    ),
            decreases val_vecs.len() - k,
        {
            assert(val_vecs[k as int].wf());
            let val = val_vecs[k].get(i);
            assert(vs[k as int] == val_vecs[k as int].deep_view());
            let j = value_to_json(&val, env);
            items.push(j);
            k += 1;
        }
        proof {
            crate::executor::expression::json::lemma_array(items);
            assert(docs_of(items@) =~= Seq::new(
                vs.len(),
                |k: int| value_doc(o, col_at(vs[k], i as int)),
            ));
        }
        let j = Json::Array(items);
        out.push(Value::Json(json_text(&j)));
        assert(want[i as int] == Datum::Json(
            doc_text(
                Doc::Array(Seq::new(vs.len(), |k: int| value_doc(o, col_at(vs[k], i as int)))),
            ),
        ));
        i += 1;
    }
    assert(out.deep_view() =~= want);
    Vector::Flat(out)
}

/// JSON_SET and JSON_INSERT: a document with the value at a path set. The
/// first replaces what is there, the second does not.
pub open spec fn json_set_datum(
    o: spec_fn(Question) -> Answer,
    j: Datum,
    p: Datum,
    v: Datum,
    insert_only: bool,
) -> Datum {
    match (doc_in(j), text_of(p)) {
        (Some(d), Some(s)) => Datum::Json(
            doc_text(set_path(d, path_steps(s), value_doc(o, v), insert_only)),
        ),
        _ => Datum::Null,
    }
}

/// JSON_SET and JSON_INSERT of values.
pub fn json_set_value<E: Fn(Ask) -> Reply>(
    j: &Value,
    p: &Value,
    v: &Value,
    insert_only: bool,
    env: &E,
) -> (r: Value)
    requires
        answers(*env),
    ensures
        r.deep_view() == json_set_datum(
            oracle(*env),
            j.deep_view(),
            p.deep_view(),
            v.deep_view(),
            insert_only,
        ),
{
    match (read_doc(j), p.as_str()) {
        (Some(d), Some(s)) => {
            let steps = parse_json_path(s);
            let new = value_to_json(v, env);
            let res = json_set_path(d, &steps, new, insert_only);
            Value::Json(json_text(&res))
        },
        _ => Value::Null,
    }
}

/// JSON_SET and JSON_INSERT of columns.
pub fn eval_json_set<E: Fn(Ask) -> Reply>(
    json_vec: &Vector,
    path_vec: &Vector,
    val_vec: &Vector,
    insert_only: bool,
    env: &E,
) -> (r: Vector)
    requires
        answers(*env),
        json_vec.wf(),
        path_vec.wf(),
        val_vec.wf(),
        col_len(json_vec.deep_view()) == col_len(path_vec.deep_view()),
        col_len(json_vec.deep_view()) == col_len(val_vec.deep_view()),
    ensures
        r.wf(),
        r.deep_view() == each3(
            json_vec.deep_view(),
            path_vec.deep_view(),
            val_vec.deep_view(),
            |j: Datum, p: Datum, v: Datum| json_set_datum(oracle(*env), j, p, v, insert_only),
        ),
{
    let g = |x: &Value, y: &Value, w: &Value| -> (z: Value)
        ensures
            z.deep_view() == json_set_datum(
                oracle(*env),
                x.deep_view(),
                y.deep_view(),
                w.deep_view(),
                insert_only,
            ),
        { json_set_value(x, y, w, insert_only, env) };
    apply_each3(
        json_vec,
        path_vec,
        val_vec,
        g,
        Ghost(
            |j: Datum, p: Datum, v: Datum| json_set_datum(oracle(*env), j, p, v, insert_only),
        ),
    )
}

/// JSON_REPLACE: a document with the value at a path replaced, where the path
/// leads to something.
pub open spec fn json_replace_datum(
    o: spec_fn(Question) -> Answer,
    j: Datum,
    p: Datum,
    v: Datum,
) -> Datum {
    match (doc_in(j), text_of(p)) {
        (Some(d), Some(s)) => Datum::Json(
            doc_text(
                if path_exists(d, path_steps(s)) {
                    set_path(d, path_steps(s), value_doc(o, v), false)
                } else {
                    d
                },
            ),
        ),
        _ => Datum::Null,
    }
}

/// JSON_REPLACE of values.
pub fn json_replace_value<E: Fn(Ask) -> Reply>(j: &Value, p: &Value, v: &Value, env: &E) -> (r:
    Value)
    requires
        answers(*env),
    ensures
        r.deep_view() == json_replace_datum(
            oracle(*env),
            j.deep_view(),
            p.deep_view(),
            v.deep_view(),
        ),
{
    match (read_doc(j), p.as_str()) {
        (Some(d), Some(s)) => {
            let steps = parse_json_path(s);
            if json_path_exists(&d, &steps) {
                let new = value_to_json(v, env);
                let res = json_set_path(d, &steps, new, false);
                Value::Json(json_text(&res))
            } else {
                Value::Json(json_text(&d))
            }
        },
        _ => Value::Null,
    }
}

/// JSON_REPLACE of columns.
pub fn eval_json_replace<E: Fn(Ask) -> Reply>(
    json_vec: &Vector,
    path_vec: &Vector,
    val_vec: &Vector,
    env: &E,
) -> (r: Vector)
    requires
        answers(*env),
        json_vec.wf(),
        path_vec.wf(),
        val_vec.wf(),
        col_len(json_vec.deep_view()) == col_len(path_vec.deep_view()),
        col_len(json_vec.deep_view()) == col_len(val_vec.deep_view()),
    ensures
        r.wf(),
        r.deep_view() == each3(
            json_vec.deep_view(),
            path_vec.deep_view(),
            val_vec.deep_view(),
            |j: Datum, p: Datum, v: Datum| json_replace_datum(oracle(*env), j, p, v),
        ),
{
    let g = |x: &Value, y: &Value, w: &Value| -> (z: Value)
        ensures
            z.deep_view() == json_replace_datum(
                oracle(*env),
                x.deep_view(),
                y.deep_view(),
                w.deep_view(),
            ),
        { json_replace_value(x, y, w, env) };
    apply_each3(
        json_vec,
        path_vec,
        val_vec,
        g,
        Ghost(|j: Datum, p: Datum, v: Datum| json_replace_datum(oracle(*env), j, p, v)),
    )
}

/// JSON_REMOVE: a document without what a path leads to.
pub open spec fn json_remove_datum(j: Datum, p: Datum) -> Datum {
    match (doc_in(j), text_of(p)) {
        (Some(d), Some(s)) => Datum::Json(doc_text(remove_path(d, path_steps(s)))),
        _ => Datum::Null,
    }
}

/// JSON_REMOVE of values.
pub fn json_remove_value(j: &Value, p: &Value) -> (r: Value)
    ensures
        r.deep_view() == json_remove_datum(j.deep_view(), p.deep_view()),
{
    match (read_doc(j), p.as_str()) {
        (Some(d), Some(s)) => {
            let steps = parse_json_path(s);
            let res = json_remove_path(d, &steps);
            Value::Json(json_text(&res))
        },
        _ => Value::Null,
    }
}

/// JSON_REMOVE of columns.
pub fn eval_json_remove(json_vec: &Vector, path_vec: &Vector) -> (r: Vector)
    requires
        json_vec.wf(),
        path_vec.wf(),
        col_len(json_vec.deep_view()) == col_len(path_vec.deep_view()),
    ensures
        r.wf(),
        r.deep_view() == each2(
            json_vec.deep_view(),
            path_vec.deep_view(),
            |j: Datum, p: Datum| json_remove_datum(j, p),
        ),
{
    let g = |x: &Value, y: &Value| -> (z: Value)
        ensures
            z.deep_view() == json_remove_datum(x.deep_view(), y.deep_view()),
        { json_remove_value(x, y) };
    apply_each2(json_vec, path_vec, g, Ghost(|j: Datum, p: Datum| json_remove_datum(j, p)))
}

} // verus!
