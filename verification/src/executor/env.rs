//! What evaluation needs from outside: floating-point arithmetic, the text of
//! values, and the time.
//!
//! Evaluation is handed a function that answers such questions. It is
//! verified for every such function that gives equal answers to equal
//! questions.
use vstd::prelude::*;

use crate::float::F64;
use crate::sql::ast::{Expr, Expression};
use crate::text::{dec_int, i64_text, join3};
use crate::value::Datum;
use crate::Value;

verus! {

/// Floating-point operations. Those with one operand ignore the second.
#[derive(Debug, Clone, Copy, PartialEq, Eq, Structural)]
pub enum FloatOp {
    Add,
    Sub,
    Mul,
    Div,
    Rem,
    Ceil,
    Floor,
    Trunc,
    Round,
    Sqrt,
    Ln,
    Log10,
    Log2,
    Pow,
}

/// A question put to the environment.
#[derive(Debug)]
pub enum Ask {
    /// The result of an operation.
    Arith(FloatOp, F64, F64),
    /// Ten to an integral power.
    TenTo(i32),
    /// The text that shows a float or a vector of floats.
    Show(Value),
    /// The number that a text denotes, where it denotes one.
    ParseFloat(String),
    /// The JSON text of a finite double.
    JsonNumber(F64),
    /// The text that shows a value to a developer.
    Debug(Value),
    /// The text that shows an expression to a developer.
    DebugExpr(Expression),
    /// The text that shows names to a developer.
    DebugNames(Vec<String>),
    /// The time in Unix milliseconds.
    Now,
    /// The time in microseconds that the execution of a plan has taken.
    Elapsed,
}

/// The model of a question.
#[verifier::ext_equal]
pub enum Question {
    Arith(FloatOp, u64, u64),
    TenTo(i32),
    Show(Datum),
    ParseFloat(Seq<char>),
    JsonNumber(u64),
    Debug(Datum),
    DebugExpr(Expr),
    DebugNames(Seq<Seq<char>>),
    Now,
    Elapsed,
}

/// An answer of the environment.
#[derive(Debug)]
pub enum Reply {
    Number(F64),
    Text(String),
    Moment(i64),
    Nothing,
}

/// The model of an answer.
#[verifier::ext_equal]
pub enum Answer {
    Number(u64),
    Text(Seq<char>),
    Moment(i64),
    Nothing,
}

impl DeepView for Ask {
    type V = Question;

    open spec fn deep_view(&self) -> Question {
        match self {
            Ask::Arith(op, x, y) => Question::Arith(*op, x.bits, y.bits),
            Ask::TenTo(n) => Question::TenTo(*n),
            Ask::Show(v) => Question::Show(v.deep_view()),
            Ask::ParseFloat(s) => Question::ParseFloat(s@),
            Ask::JsonNumber(x) => Question::JsonNumber(x.bits),
            Ask::Debug(v) => Question::Debug(v.deep_view()),
            Ask::DebugExpr(e) => Question::DebugExpr(e.deep_view()),
            Ask::DebugNames(v) => Question::DebugNames(v.deep_view()),
            Ask::Now => Question::Now,
            Ask::Elapsed => Question::Elapsed,
        }
    }
}

impl DeepView for Reply {
    type V = Answer;

    open spec fn deep_view(&self) -> Answer {
        match self {
            Reply::Number(x) => Answer::Number(x.bits),
            Reply::Text(s) => Answer::Text(s@),
            Reply::Moment(t) => Answer::Moment(*t),
            Reply::Nothing => Answer::Nothing,
        }
    }
}

/// Whether an answer is of the kind that the question asks for.
pub open spec fn fits(q: Question, a: Answer) -> bool {
    match q {
        Question::Arith(_, _, _) => a is Number,
        Question::TenTo(_) => a is Number,
        Question::Show(_) => a is Text,
        Question::ParseFloat(_) => a is Number || a is Nothing,
        Question::JsonNumber(_) => a is Text,
        Question::Debug(_) => a is Text,
        Question::DebugExpr(_) => a is Text,
        Question::DebugNames(_) => a is Text,
        Question::Now => a is Moment,
        Question::Elapsed => a is Moment,
    }
}

/// Whether the function answers every question, fittingly, and equal
/// questions equally.
pub open spec fn answers<E: Fn(Ask) -> Reply>(env: E) -> bool {
    &&& forall|a: Ask| #[trigger] call_requires(env, (a,))
    &&& forall|a: Ask, r: Reply|
        #[trigger] call_ensures(env, (a,), r) ==> fits(a.deep_view(), r.deep_view())
    &&& forall|a: Ask, r: Reply, b: Ask, s: Reply| #[trigger]
        call_ensures(env, (a,), r) && #[trigger] call_ensures(env, (b,), s) && a.deep_view()
            == b.deep_view() ==> r.deep_view() == s.deep_view()
}

/// Whether the function gives answer `a` to the question `q`.
pub open spec fn gives<E: Fn(Ask) -> Reply>(env: E, q: Question, a: Answer) -> bool {
    exists|x: Ask, r: Reply|
        #![trigger call_ensures(env, (x,), r)]
        call_ensures(env, (x,), r) && x.deep_view() == q && r.deep_view() == a
}

/// The answers of the function as a mathematical function.
pub open spec fn oracle<E: Fn(Ask) -> Reply>(env: E) -> spec_fn(Question) -> Answer {
    |q: Question| choose|a: Answer| gives(env, q, a)
}

/// The number in an answer.
pub open spec fn number(a: Answer) -> u64 {
    a->Number_0
}

/// The result of an operation on two doubles.
pub open spec fn arith2(o: spec_fn(Question) -> Answer, op: FloatOp, x: u64, y: u64) -> u64 {
    number(o(Question::Arith(op, x, y)))
}

/// The result of an operation on one double.
pub open spec fn arith1(o: spec_fn(Question) -> Answer, op: FloatOp, x: u64) -> u64 {
    number(o(Question::Arith(op, x, 0)))
}

/// The decimal texts of the first `n` integers, with commas between them.
pub open spec fn int_items(xs: Seq<int>, n: int) -> Seq<char>
    decreases n,
{
    if n <= 0 {
        Seq::empty()
    } else if n == 1 {
        dec_int(xs[0])
    } else {
        int_items(xs, n - 1) + ", "@ + dec_int(xs[n - 1])
    }
}

/// The text that shows a value without floats.
pub open spec fn plainly_shown(d: Datum) -> Option<Seq<char>> {
    match d {
        Datum::Null => Some("NULL"@),
        Datum::Boolean(b) => Some(
            if b {
                "true"@
            } else {
                "false"@
            },
        ),
        Datum::Int32(x) => Some(dec_int(x as int)),
        Datum::Int64(x) => Some(dec_int(x as int)),
        Datum::Timestamp(x) => Some(dec_int(x as int)),
        Datum::Varchar(s) => Some(s),
        Datum::Json(s) => Some(s),
        Datum::VectorInt8(v) => Some(
            "["@ + int_items(Seq::new(v.len(), |i: int| v[i] as int), v.len() as int) + "]"@,
        ),
        Datum::Blob(v) => Some(
            "["@ + int_items(Seq::new(v.len(), |i: int| v[i] as int), v.len() as int) + "]"@,
        ),
        Datum::Float32(_) | Datum::Float64(_) | Datum::Vector(_) => None,
    }
}

/// The text that shows a value.
pub open spec fn shown(o: spec_fn(Question) -> Answer, d: Datum) -> Seq<char> {
    match plainly_shown(d) {
        Some(s) => s,
        None => o(Question::Show(d))->Text_0,
    }
}

/// The number that a text denotes.
pub open spec fn parsed(o: spec_fn(Question) -> Answer, s: Seq<char>) -> Option<u64> {
    match o(Question::ParseFloat(s)) {
        Answer::Number(b) => Some(b),
        _ => None,
    }
}

/// The JSON text of a finite double.
pub open spec fn json_number(o: spec_fn(Question) -> Answer, b: u64) -> Seq<char> {
    o(Question::JsonNumber(b))->Text_0
}

/// The time.
pub open spec fn moment(o: spec_fn(Question) -> Answer) -> i64 {
    o(Question::Now)->Moment_0
}

/// Puts a question.
pub fn put<E: Fn(Ask) -> Reply>(env: &E, ask: Ask) -> (r: Reply)
    requires
        answers(*env),
    ensures
        r.deep_view() == oracle(*env)(ask.deep_view()),
        fits(ask.deep_view(), r.deep_view()),
{
    let ghost q = ask.deep_view();
    let r = env(ask);
    proof {
        assert(gives(*env, q, r.deep_view()));
        let a = choose|a: Answer| gives(*env, q, a);
        assert(gives(*env, q, a));
    }
    r
}

/// An operation on two doubles.
pub fn float2<E: Fn(Ask) -> Reply>(env: &E, op: FloatOp, x: F64, y: F64) -> (r: F64)
    requires
        answers(*env),
    ensures
        r.bits == arith2(oracle(*env), op, x.bits, y.bits),
{
    match put(env, Ask::Arith(op, x, y)) {
        Reply::Number(z) => z,
        _ => x,
    }
}

/// An operation on one double.
pub fn float1<E: Fn(Ask) -> Reply>(env: &E, op: FloatOp, x: F64) -> (r: F64)
    requires
        answers(*env),
    ensures
        r.bits == arith1(oracle(*env), op, x.bits),
{
    float2(env, op, x, F64 { bits: 0 })
}

/// Ten to an integral power.
pub fn ten_to<E: Fn(Ask) -> Reply>(env: &E, n: i32) -> (r: F64)
    requires
        answers(*env),
    ensures
        r.bits == number(oracle(*env)(Question::TenTo(n))),
{
    match put(env, Ask::TenTo(n)) {
        Reply::Number(z) => z,
        _ => F64 { bits: 0 },
    }
}

/// The decimal texts of integers in brackets.
fn show_ints(xs: &Vec<i64>) -> (r: String)
    ensures
        r@ == "["@ + int_items(Seq::new(xs@.len(), |i: int| xs@[i] as int), xs@.len() as int)
            + "]"@,
{
    let ghost all = Seq::new(xs@.len(), |i: int| xs@[i] as int);
    let mut items = String::new();
    let mut i: usize = 0;
    while i < xs.len()
        invariant
            all == Seq::new(xs@.len(), |i: int| xs@[i] as int),
            i <= xs.len(),
            items@ == int_items(all, i as int),
        decreases xs.len() - i,
    {
        if i > 0 {
            items.push_str(", ");
        }
        items.push_str(i64_text(xs[i]).as_str());
        i += 1;
        assert(items@ =~= int_items(all, i as int));
    }
    join3("[", items.as_str(), "]")
}

/// The text that shows a value without floats.
fn show_plainly(v: &Value) -> (r: Option<String>)
    ensures
        match r {
            Some(s) => plainly_shown(v.deep_view()) == Some(s@),
            None => plainly_shown(v.deep_view()) is None,
        },
{
    match v {
        Value::Null => Some("NULL".to_owned()),
        Value::Boolean(b) => if *b {
            Some("true".to_owned())
        } else {
            Some("false".to_owned())
        },
        Value::Int32(x) => Some(i64_text(*x as i64)),
        Value::Int64(x) => Some(i64_text(*x)),
        Value::Timestamp(x) => Some(i64_text(*x)),
        Value::Varchar(s) => Some(s.clone()),
        Value::Json(s) => Some(s.clone()),
        Value::VectorInt8(x) => {
            let mut xs: Vec<i64> = Vec::new();
            let mut i: usize = 0;
            while i < x.len()
                invariant
                    i <= x.len(),
                    xs.len() == i,
                    forall|k: int| 0 <= k < i ==> xs[k] == x[k],
                decreases x.len() - i,
            {
                xs.push(x[i] as i64);
                i += 1;
            }
            assert(Seq::new(xs@.len(), |i: int| xs@[i] as int) =~= Seq::new(
                x@.len(),
                |i: int| x@[i] as int,
            ));
            Some(show_ints(&xs))
        },
        Value::Blob(x) => {
            let mut xs: Vec<i64> = Vec::new();
            let mut i: usize = 0;
            while i < x.len()
                invariant
                    i <= x.len(),
                    xs.len() == i,
                    forall|k: int| 0 <= k < i ==> xs[k] == x[k],
                decreases x.len() - i,
            {
                xs.push(x[i] as i64);
                i += 1;
            }
            assert(Seq::new(xs@.len(), |i: int| xs@[i] as int) =~= Seq::new(
                x@.len(),
                |i: int| x@[i] as int,
            ));
            Some(show_ints(&xs))
        },
        Value::Float32(_) | Value::Float64(_) | Value::Vector(_) => None,
    }
}

/// The text that shows a value. Only that of floats is asked for.
pub fn show<E: Fn(Ask) -> Reply>(env: &E, v: &Value) -> (r: String)
    requires
        answers(*env),
    ensures
        r@ == shown(oracle(*env), v.deep_view()),
{
    if let Some(s) = show_plainly(v) {
        return s;
    }
    match put(env, Ask::Show(v.clone())) {
        Reply::Text(s) => s,
        _ => String::new(),
    }
}

/// The number that a text denotes, where it denotes one.
pub fn parse_float<E: Fn(Ask) -> Reply>(env: &E, s: &str) -> (r: Option<F64>)
    requires
        answers(*env),
    ensures
        match r {
            Some(x) => parsed(oracle(*env), s@) == Some(x.bits),
            None => parsed(oracle(*env), s@) is None,
        },
{
    match put(env, Ask::ParseFloat(s.to_owned())) {
        Reply::Number(z) => Some(z),
        _ => None,
    }
}

/// The JSON text of a finite double.
pub fn number_text<E: Fn(Ask) -> Reply>(env: &E, x: F64) -> (r: String)
    requires
        answers(*env),
    ensures
        r@ == json_number(oracle(*env), x.bits),
{
    match put(env, Ask::JsonNumber(x)) {
        Reply::Text(s) => s,
        _ => String::new(),
    }
}

/// The time in Unix milliseconds.
pub fn now_ms<E: Fn(Ask) -> Reply>(env: &E) -> (r: i64)
    requires
        answers(*env),
    ensures
        r == moment(oracle(*env)),
{
    match put(env, Ask::Now) {
        Reply::Moment(t) => t,
        _ => 0,
    }
}

/// The text of an answer.
pub open spec fn text_in(a: Answer) -> Seq<char> {
    a->Text_0
}

/// Puts a question that a text answers.
pub fn put_text<E: Fn(Ask) -> Reply>(env: &E, ask: Ask) -> (r: String)
    requires
        answers(*env),
        fits(ask.deep_view(), Answer::Text(Seq::empty())),
        !fits(ask.deep_view(), Answer::Nothing),
    ensures
        r@ == text_in(oracle(*env)(ask.deep_view())),
{
    match put(env, ask) {
        Reply::Text(s) => s,
        _ => String::new(),
    }
}

/// The time in microseconds that the execution of a plan has taken.
pub fn elapsed_us<E: Fn(Ask) -> Reply>(env: &E) -> (r: i64)
    requires
        answers(*env),
    ensures
        r == oracle(*env)(Question::Elapsed)->Moment_0,
{
    match put(env, Ask::Elapsed) {
        Reply::Moment(t) => t,
        _ => 0,
    }
}

} // verus!
