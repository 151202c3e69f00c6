//! The evaluator: an expression over a batch gives a column.
use vstd::prelude::*;

use crate::common::error::{EngramDbError, Fault};
use crate::executor::env::{answers, oracle, Answer, Ask, Question, Reply};
use crate::executor::expression::draws::{
    can_give, can_give_arms, can_give_list, lemma_arms, lemma_binary, lemma_call, lemma_case,
    lemma_cast, lemma_in_list, lemma_json_object, lemma_like, lemma_list, lemma_null, lemma_own,
    lemma_own_arms, lemma_own_list, lemma_random, lemma_round, lemma_unary, told, told_list,
};
use crate::executor::expression::functions::{
    applied, apply_function, find_func, func_of, gives_column, takes, takes_args, takes_message,
    takes_text, Func,
};
use crate::executor::expression::json_fn::{eval_json_object, json_object_column};
use crate::executor::expression::numeric::{eval_round, round_datum};
use crate::executor::expression::ops::{
    binary_column, cast, eval_binary_vectorized, eval_cast, eval_in_list, eval_is_null, eval_like,
    eval_unary_vectorized, in_list, like_datum, null_test, unary,
};
use crate::executor::expression::rowwise::{map_column, zip_columns};
use crate::executor::expression::strings::all_long;
use crate::executor::vector::{
    aligned, col_at, col_len, Chunk, Column, DataChunk, Vector,
};
use crate::float::{i64_widen, int_to_f64, lemma_positive_int_bits, F64};
use crate::sql::ast::{Expr, Expression};
use crate::text::{join2, same_text, to_upper, upper_text};
use crate::value::Datum;
use crate::Value;

verus! {

/// The first position from `i` on of a name in a list.
pub open spec fn name_at(names: Seq<Seq<char>>, name: Seq<char>, i: int) -> Option<int>
    decreases names.len() - i,
{
    if i < 0 || i >= names.len() {
        None
    } else if names[i] == name {
        Some(i)
    } else {
        name_at(names, name, i + 1)
    }
}

/// Finds the first position of a name in a list.
pub fn find_name(names: &Vec<String>, name: &str) -> (r: Option<usize>)
    ensures
        match r {
            Some(i) => i < names.len() && name_at(names.deep_view(), name@, 0) == Some(i as int),
            None => name_at(names.deep_view(), name@, 0) is None,
        },
{
    let ghost view = names.deep_view();
    let mut i: usize = 0;
    while i < names.len()
        invariant
            view == names.deep_view(),
            i <= names.len(),
            name_at(view, name@, 0) == name_at(view, name@, i as int),
        decreases names.len() - i,
    {
        assert(view[i as int] == names[i as int]@);
        if same_text(names[i].as_str(), name) {
            return Some(i);
        }
        i += 1;
    }
    None
}

/// The number of decimals that ROUND is asked for: an integer literal, else 0.
pub open spec fn decimals_of(args: Seq<Expr>) -> i32 {
    if args.len() == 2 {
        match args[1] {
            Expr::Literal(Datum::Int32(n)) => n,
            Expr::Literal(Datum::Int64(n)) => n as i32,
            _ => 0,
        }
    } else {
        0
    }
}

/// The value of row `i` of a CASE: the result of the first condition from `k`
/// on that is true, else that of ELSE.
pub open spec fn case_at(arms: Seq<(Column, Column)>, other: Column, i: int, k: int) -> Datum
    decreases arms.len() - k,
{
    if k < 0 || k >= arms.len() {
        col_at(other, i)
    } else if col_at(arms[k].0, i) == Datum::Boolean(true) {
        col_at(arms[k].1, i)
    } else {
        case_at(arms, other, i, k + 1)
    }
}

/// What an expression is over a batch whose columns have the given names.
/// Errors come from the leftmost part that has one. A call of RANDOM counts as
/// 0 here: what the calls give stands in their place where it matters.
pub open spec fn eval(
    o: spec_fn(Question) -> Answer,
    e: Expr,
    c: Chunk,
    names: Seq<Seq<char>>,
) -> Result<Column, Fault>
    decreases e, 0int,
{
    match e {
        Expr::Literal(v) => Ok(Column::Constant(v, c.count)),
        Expr::ColumnRef(_, column) => match name_at(names, column, 0) {
            None => Err(Fault::ColumnNotFound(column)),
            Some(i) => if i >= c.columns.len() {
                Ok(Column::Constant(Datum::Null, c.count))
            } else {
                Ok(c.columns[i])
            },
        },
        Expr::Binary(l, op, r) => match (eval(o, *l, c, names), eval(o, *r, c, names)) {
            (Err(x), _) => Err(x),
            (_, Err(x)) => Err(x),
            (Ok(a), Ok(b)) => Ok(binary_column(o, a, op, b)),
        },
        Expr::Unary(op, x) => match eval(o, *x, c, names) {
            Ok(a) => Ok(map_column(a, |d: Datum| unary(d, op))),
            Err(x) => Err(x),
        },
        Expr::IsNull(x) => match eval(o, *x, c, names) {
            Ok(a) => Ok(map_column(a, |d: Datum| null_test(d, false))),
            Err(x) => Err(x),
        },
        Expr::IsNotNull(x) => match eval(o, *x, c, names) {
            Ok(a) => Ok(map_column(a, |d: Datum| null_test(d, true))),
            Err(x) => Err(x),
        },
        Expr::Cast(x, t) => match eval(o, *x, c, names) {
            Ok(a) => Ok(map_column(a, |d: Datum| cast(o, d, t))),
            Err(x) => Err(x),
        },
        Expr::InList(x, list) => match (eval(o, *x, c, names), eval_list(o, list, 0, 1, c, names)) {
            (Err(x), _) => Err(x),
            (_, Err(x)) => Err(x),
            (Ok(a), Ok(bs)) => Ok(in_list(a, bs)),
        },
        Expr::Like(x, p) => match (eval(o, *x, c, names), eval(o, *p, c, names)) {
            (Err(x), _) => Err(x),
            (_, Err(x)) => Err(x),
            (Ok(a), Ok(b)) => Ok(zip_columns(a, b, |v: Datum, p: Datum| like_datum(v, p))),
        },
        Expr::Case(arms, other) => match eval_arms(o, arms, 0, c, names) {
            Err(x) => Err(x),
            Ok(cols) => {
                let rest = match other {
                    Some(x) => eval(o, *x, c, names),
                    None => Ok(Column::Constant(Datum::Null, c.count)),
                };
                match rest {
                    Err(x) => Err(x),
                    Ok(z) => Ok(
                        Column::Flat(Seq::new(c.count, |i: int| case_at(cols, z, i, 0))),
                    ),
                }
            },
        },
        Expr::Function(name, args, _, _, _) => match func_of(upper_text(name)) {
            None => Err(Fault::Parse("Unknown function: "@ + name)),
            Some(f) => if !takes(f, args.len()) {
                Err(Fault::Parse(takes_text(f)))
            } else {
                match f {
                    Func::Random => Ok(Column::Constant(Datum::Float64(0), c.count)),
                    Func::Round => if args.len() == 0 {
                        arbitrary()
                    } else {
                        match eval(o, args[0], c, names) {
                            Ok(a) => Ok(
                                map_column(a, |d: Datum| round_datum(o, d, decimals_of(args))),
                            ),
                            Err(x) => Err(x),
                        }
                    },
                    Func::JsonObject => match (
                        eval_list(o, args, 0, 2, c, names),
                        eval_list(o, args, 1, 2, c, names),
                    ) {
                        (Err(x), _) => Err(x),
                        (_, Err(x)) => Err(x),
                        (Ok(keys), Ok(vals)) => Ok(json_object_column(o, keys, vals, c.count)),
                    },
                    _ => match eval_list(o, args, 0, 1, c, names) {
                        Ok(cols) => applied(o, f, cols, c.count),
                        Err(x) => Err(x),
                    },
                }
            },
        },
        Expr::Placeholder(_) => Err(
            Fault::Internal("Placeholder should be resolved before execution"@),
        ),
        Expr::Subquery(_) | Expr::Exists(_, _) | Expr::InSubquery(_, _, _) => Err(
            Fault::Internal("Subquery should be resolved before expression evaluation"@),
        ),
    }
}

/// The columns of every `step`-th expression of a list from `i` on.
pub open spec fn eval_list(
    o: spec_fn(Question) -> Answer,
    list: Seq<Expr>,
    i: int,
    step: int,
    c: Chunk,
    names: Seq<Seq<char>>,
) -> Result<Seq<Column>, Fault>
    decreases list, if i < list.len() { list.len() - i } else { 0 },
{
    if i < 0 || i >= list.len() || step <= 0 {
        Ok(Seq::empty())
    } else {
        match (eval(o, list[i], c, names), eval_list(o, list, i + step, step, c, names)) {
            (Err(x), _) => Err(x),
            (_, Err(x)) => Err(x),
            (Ok(a), Ok(r)) => Ok(seq![a] + r),
        }
    }
}

/// The columns of the arms of a CASE from `i` on.
pub open spec fn eval_arms(
    o: spec_fn(Question) -> Answer,
    arms: Seq<(Expr, Expr)>,
    i: int,
    c: Chunk,
    names: Seq<Seq<char>>,
) -> Result<Seq<(Column, Column)>, Fault>
    decreases arms, arms.len() - i,
{
    if i < 0 || i >= arms.len() {
        Ok(Seq::empty())
    } else {
        match (
            eval(o, arms[i].0, c, names),
            eval(o, arms[i].1, c, names),
            eval_arms(o, arms, i + 1, c, names),
        ) {
            (Err(x), _, _) => Err(x),
            (_, Err(x), _) => Err(x),
            (_, _, Err(x)) => Err(x),
            (Ok(a), Ok(b), Ok(r)) => Ok(seq![(a, b)] + r),
        }
    }
}

/// Whether an expression calls RANDOM nowhere, so that it has a value that
/// does not change from one evaluation to the next.
pub open spec fn calm(e: Expr) -> bool
    decreases e,
{
    match e {
        Expr::Binary(l, _, r) => calm(*l) && calm(*r),
        Expr::Unary(_, x) => calm(*x),
        Expr::IsNull(x) => calm(*x),
        Expr::IsNotNull(x) => calm(*x),
        Expr::Cast(x, _) => calm(*x),
        Expr::InList(x, list) => calm(*x) && forall|i: int|
            #![trigger list[i]]
            0 <= i < list.len() ==> calm(list[i]),
        Expr::Like(x, p) => calm(*x) && calm(*p),
        Expr::Case(arms, other) => (match other {
            Some(x) => calm(*x),
            None => true,
        }) && forall|i: int|
            #![trigger arms[i]]
            0 <= i < arms.len() ==> calm(arms[i].0) && calm(arms[i].1),
        Expr::Function(name, args, _, _, _) => func_of(upper_text(name)) != Some(Func::Random)
            && forall|i: int| #![trigger args[i]] 0 <= i < args.len() ==> calm(args[i]),
        Expr::InSubquery(x, _, _) => calm(*x),
        _ => true,
    }
}

/// Whether all expressions of a list are calm.
pub open spec fn all_calm(list: Seq<Expr>) -> bool {
    forall|i: int| #![trigger list[i]] 0 <= i < list.len() ==> calm(list[i])
}

/// `rand::RngCore::next_u64` of `rand::thread_rng`: any word can come.
#[verifier::external_body]
fn random_word() -> (r: u64) {
    rand::RngCore::next_u64(&mut rand::thread_rng())
}

/// The bits of the double `k / 2^53`.
pub open spec fn unit_double(k: u64) -> u64 {
    if k == 0 {
        0
    } else {
        (int_to_f64(k as int) - 53 * 0x10_0000_0000_0000) as u64
    }
}

/// The double in [0, 1) that the upper 53 bits of a random word give.
pub fn unit_from_word(word: u64) -> (r: F64)
    ensures
        r.bits == unit_double((word / 2048) as u64),
{
    let k: u64 = word / 2048;
    if k == 0 {
        return F64 { bits: 0 };
    }
    let f = i64_widen(k as i64);
    proof {
        lemma_positive_int_bits(k as int);
    }
    F64 { bits: f.bits - 53 * 0x10_0000_0000_0000 }
}

/// RANDOM: one number for the whole batch.
pub fn random_vector(word: u64, count: usize) -> (r: Vector)
    ensures
        r.wf(),
        r.deep_view() == Column::Constant(
            Datum::Float64(unit_double((word / 2048) as u64)),
            count as nat,
        ),
{
    Vector::Constant(Value::Float64(unit_from_word(word)), count)
}

/// Whether a result is a column of the batch's length.
pub open spec fn fits_chunk(r: Result<Vector, EngramDbError>, n: nat) -> bool {
    r matches Ok(v) ==> v.wf() && col_len(v.deep_view()) == n
}

/// Whether a list of results is what the model says.
pub open spec fn gives_list(
    r: Result<Vec<Vector>, EngramDbError>,
    m: Result<Seq<Column>, Fault>,
) -> bool {
    match r {
        Ok(v) => m == Ok::<Seq<Column>, Fault>(v.deep_view()),
        Err(e) => m == Err::<Seq<Column>, Fault>(e.deep_view()),
    }
}

/// Evaluates every `step`-th expression of a list from `from` on.
pub fn eval_every<E: Fn(Ask) -> Reply>(
    list: &Vec<Expression>,
    from: usize,
    step: usize,
    chunk: &DataChunk,
    names: &Vec<String>,
    env: &E,
) -> (r: Result<Vec<Vector>, EngramDbError>)
    requires
        answers(*env),
        chunk.wf(),
        aligned(chunk.deep_view()),
        step == 1 || step == 2,
    ensures
        r matches Ok(v) ==> all_long(v@, chunk.count as nat) && v.len() == (if from >= list.len() {
            0
        } else {
            (list.len() - from + step - 1) / step as int
        }),
        all_calm(list.deep_view()) ==> gives_list(
            r,
            eval_list(
                oracle(*env),
                list.deep_view(),
                from as int,
                step as int,
                chunk.deep_view(),
                names.deep_view(),
            ),
        ),
        can_give_list(
            oracle(*env),
            list.deep_view(),
            from as int,
            step as int,
            chunk.deep_view(),
            names.deep_view(),
            told_list(r),
        ),
    decreases list, list.len() - from,
{
    let ghost view = list.deep_view();
    let ghost (o, c, all) = (oracle(*env), chunk.deep_view(), names.deep_view());
    if from >= list.len() {
        let out: Vec<Vector> = Vec::new();
        assert(out.deep_view() =~= Seq::<Column>::empty());
        proof {
            lemma_own_list(o, view, from as int, step as int, c, all);
        }
        return Ok(out);
    }
    proof {
        lemma_own_list(o, view, from + step, step as int, c, all);
    }
    let ghost own = eval_list(o, view, from + step, step as int, c, all);
    assert(view[from as int] == list[from as int].deep_view());
    let first = match eval_vectorized(&list[from], chunk, names, env) {
        Ok(v) => v,
        Err(e) => {
            proof {
                lemma_list(o, view, from as int, step as int, c, all, Err(e.deep_view()), own);
            }
            return Err(e);
        },
    };
    let ghost f = first.deep_view();
    let mut out: Vec<Vector> = Vec::new();
    out.push(first);
    if list.len() - from <= step {
        assert(out.deep_view() =~= seq![f] + Seq::<Column>::empty());
        assert(eval_list(
            oracle(*env),
            view,
            from + step,
            step as int,
            chunk.deep_view(),
            names.deep_view(),
        ) == Ok::<Seq<Column>, Fault>(Seq::empty()));
        proof {
            lemma_list(o, view, from as int, step as int, c, all, Ok(f), own);
        }
        return Ok(out);
    }
    let mut rest = match eval_every(list, from + step, step, chunk, names, env) {
        Ok(v) => v,
        Err(e) => {
            proof {
                lemma_list(
                    o,
                    view,
                    from as int,
                    step as int,
                    c,
                    all,
                    Ok(f),
                    Err(e.deep_view()),
                );
            }
            return Err(e);
        },
    };
    let ghost (a, b) = (out@, rest@);
    let ghost rd = rest.deep_view();
    out.append(&mut rest);
    proof {
        assert(out@ == a + b);
        assert(out.deep_view() =~= seq![f] + rd);
        lemma_list(o, view, from as int, step as int, c, all, Ok(f), Ok(rd));
        assert forall|k: int| #![trigger out@[k]] 0 <= k < out@.len() implies out@[k].wf()
            && col_len(out@[k].deep_view()) == chunk.count by {
            if k > 0 {
                assert(out@[k] == b[k - 1]);
            }
        }
    }
    Ok(out)
}

/// The model of the columns of CASE arms.
pub open spec fn arms_of(v: Seq<(Vector, Vector)>) -> Seq<(Column, Column)> {
    Seq::new(v.len(), |i: int| (v[i].0.deep_view(), v[i].1.deep_view()))
}

/// Whether all columns of CASE arms have `n` rows.
pub open spec fn arms_long(v: Seq<(Vector, Vector)>, n: nat) -> bool {
    forall|k: int|
        #![trigger v[k]]
        0 <= k < v.len() ==> v[k].0.wf() && v[k].1.wf() && col_len(v[k].0.deep_view()) == n
            && col_len(v[k].1.deep_view()) == n
}

/// Whether evaluated CASE arms are what the model says.
pub open spec fn gives_arms(
    r: Result<Vec<(Vector, Vector)>, EngramDbError>,
    m: Result<Seq<(Column, Column)>, Fault>,
) -> bool {
    match r {
        Ok(v) => m == Ok::<Seq<(Column, Column)>, Fault>(arms_of(v@)),
        Err(e) => m == Err::<Seq<(Column, Column)>, Fault>(e.deep_view()),
    }
}

/// The model of evaluated CASE arms.
pub open spec fn told_arms(r: Result<Vec<(Vector, Vector)>, EngramDbError>) -> Result<
    Seq<(Column, Column)>,
    Fault,
> {
    match r {
        Ok(v) => Ok(arms_of(v@)),
        Err(e) => Err(e.deep_view()),
    }
}

/// The models of the arms of a CASE.
pub open spec fn arm_models(arms: Seq<(Expression, Expression)>) -> Seq<(Expr, Expr)> {
    Seq::new(arms.len(), |i: int| (arms[i].0.deep_view(), arms[i].1.deep_view()))
}

/// Whether the arms of a CASE are calm.
pub open spec fn arms_calm(arms: Seq<(Expr, Expr)>) -> bool {
    forall|i: int|
        #![trigger arms[i]]
        0 <= i < arms.len() ==> calm(arms[i].0) && calm(arms[i].1)
}

/// Evaluates the arms of a CASE from `from` on.
fn eval_case_arms<E: Fn(Ask) -> Reply>(
    arms: &Vec<(Expression, Expression)>,
    from: usize,
    chunk: &DataChunk,
    names: &Vec<String>,
    env: &E,
) -> (r: Result<Vec<(Vector, Vector)>, EngramDbError>)
    requires
        answers(*env),
        chunk.wf(),
        aligned(chunk.deep_view()),
    ensures
        r matches Ok(v) ==> arms_long(v@, chunk.count as nat),
        arms_calm(arm_models(arms@)) ==> gives_arms(
            r,
            eval_arms(
                oracle(*env),
                arm_models(arms@),
                from as int,
                chunk.deep_view(),
                names.deep_view(),
            ),
        ),
        can_give_arms(
            oracle(*env),
            arm_models(arms@),
            from as int,
            chunk.deep_view(),
            names.deep_view(),
            told_arms(r),
        ),
    decreases arms, arms.len() - from,
{
    let ghost view = arm_models(arms@);
    let ghost (o, c, all) = (oracle(*env), chunk.deep_view(), names.deep_view());
    if from >= arms.len() {
        let out: Vec<(Vector, Vector)> = Vec::new();
        assert(arms_of(out@) =~= Seq::<(Column, Column)>::empty());
        proof {
            lemma_own_arms(o, view, from as int, c, all);
        }
        return Ok(out);
    }
    proof {
        lemma_own_arms(o, view, from + 1, c, all);
        lemma_own(o, view[from as int].1, c, all);
    }
    let ghost own = eval_arms(o, view, from + 1, c, all);
    assert(view[from as int] == (arms[from as int].0.deep_view(), arms[from as int].1.deep_view()));
    let when = match eval_vectorized(&arms[from].0, chunk, names, env) {
        Ok(v) => v,
        Err(e) => {
            proof {
                let then = eval(o, view[from as int].1, c, all);
                lemma_arms(o, view, from as int, c, all, Err(e.deep_view()), then, own);
            }
            return Err(e);
        },
    };
    let ghost w = when.deep_view();
    let then = match eval_vectorized(&arms[from].1, chunk, names, env) {
        Ok(v) => v,
        Err(e) => {
            proof {
                lemma_arms(o, view, from as int, c, all, Ok(w), Err(e.deep_view()), own);
            }
            return Err(e);
        },
    };
    let ghost one = (when.deep_view(), then.deep_view());
    let mut rest = match eval_case_arms(arms, from + 1, chunk, names, env) {
        Ok(v) => v,
        Err(e) => {
            proof {
                lemma_arms(o, view, from as int, c, all, Ok(w), Ok(one.1), Err(e.deep_view()));
            }
            return Err(e);
        },
    };
    let ghost rd = arms_of(rest@);
    let mut out: Vec<(Vector, Vector)> = Vec::new();
    out.push((when, then));
    let ghost (a, b) = (out@, rest@);
    out.append(&mut rest);
    proof {
        assert(out@ == a + b);
        assert(arms_of(out@) =~= seq![one] + rd);
        lemma_arms(o, view, from as int, c, all, Ok(one.0), Ok(one.1), Ok(rd));
        assert forall|k: int| #![trigger out@[k]] 0 <= k < out@.len() implies out@[k].0.wf()
            && out@[k].1.wf() && col_len(out@[k].0.deep_view()) == chunk.count && col_len(
            out@[k].1.deep_view(),
        ) == chunk.count by {
            if k > 0 {
                assert(out@[k] == b[k - 1]);
            }
        }
    }
    Ok(out)
}

/// Picks, row by row, the result of the first true condition.
pub fn pick_case(arms: &Vec<(Vector, Vector)>, other: &Vector, count: usize) -> (r: Vector)
    requires
        arms_long(arms@, count as nat),
        other.wf(),
        col_len(other.deep_view()) == count,
    ensures
        r.wf(),
        r.deep_view() == Column::Flat(
            Seq::new(count as nat, |i: int| case_at(arms_of(arms@), other.deep_view(), i, 0)),
        ),
{
    let ghost (m, z) = (arms_of(arms@), other.deep_view());
    let mut out: Vec<Value> = Vec::new();
    let mut i: usize = 0;
    while i < count
        invariant
            arms_long(arms@, count as nat),
            other.wf(),
            col_len(z) == count,
            m == arms_of(arms@),
            z == other.deep_view(),
            i <= count,
            out.len() == i,
            forall|k: int| 0 <= k < i ==> (#[trigger] out[k]).deep_view() == case_at(m, z, k, 0),
        decreases count - i,
    {
        let mut k: usize = 0;
        let mut hit = false;
        while k < arms.len() && !hit
            invariant
                arms_long(arms@, count as nat),
                m == arms_of(arms@),
                i < count,
                k <= arms.len(),
                case_at(m, z, i as int, 0) == case_at(m, z, i as int, k as int),
                hit ==> k < arms.len() && col_at(m[k as int].0, i as int) == Datum::Boolean(true),
            decreases arms.len() - k, if hit { 0int } else { 1 },
        {
            assert(arms[k as int].0.wf());
            assert(m[k as int].0 == arms[k as int].0.deep_view());
            let w = arms[k].0.get(i);
            if matches!(w, Value::Boolean(true)) {
                hit = true;
            } else {
                k += 1;
            }
        }
        let v = if hit {
            assert(arms[k as int].1.wf());
            assert(m[k as int].1 == arms[k as int].1.deep_view());
            arms[k].1.get(i)
        } else {
            other.get(i)
        };
        out.push(v);
        i += 1;
    }
    assert(out.deep_view() =~= Seq::new(count as nat, |i: int| case_at(m, z, i, 0)));
    Vector::Flat(out)
}

/// Evaluates a CASE.
pub fn eval_case_vectorized<E: Fn(Ask) -> Reply>(
    expr: &Expression,
    chunk: &DataChunk,
    names: &Vec<String>,
    env: &E,
) -> (r: Result<Vector, EngramDbError>)
    requires
        answers(*env),
        chunk.wf(),
        aligned(chunk.deep_view()),
        expr is Case,
    ensures
        fits_chunk(r, chunk.count as nat),
        calm(expr.deep_view()) ==> gives_column(
            r,
            eval(oracle(*env), expr.deep_view(), chunk.deep_view(), names.deep_view()),
        ),
        can_give(
            oracle(*env),
            expr.deep_view(),
            chunk.deep_view(),
            names.deep_view(),
            told(r),
        ),
    decreases expr, 1int,
{
    match expr {
        Expression::Case { when_then, else_expr } => {
            let ghost m = expr.deep_view();
            let ghost (o, c, all) = (oracle(*env), chunk.deep_view(), names.deep_view());
            let ghost ms = arm_models(when_then@);
            let ghost rest = m->Case_1;
            assert(m->Case_0 =~= ms);
            let arms = match eval_case_arms(when_then, 0, chunk, names, env) {
                Ok(v) => v,
                Err(e) => {
                    proof {
                        let z = match rest {
                            Some(x) => eval(o, *x, c, all),
                            None => Ok(Column::Constant(Datum::Null, c.count)),
                        };
                        if let Some(x) = rest {
                            lemma_own(o, *x, c, all);
                        }
                        lemma_case(o, ms, rest, c, all, Err(e.deep_view()), z);
                    }
                    return Err(e);
                },
            };
            let ghost cols = arms_of(arms@);
            let other = match else_expr {
                Some(x) => match eval_vectorized(x, chunk, names, env) {
                    Ok(v) => v,
                    Err(e) => {
                        proof {
                            lemma_case(o, ms, rest, c, all, Ok(cols), Err(e.deep_view()));
                        }
                        return Err(e);
                    },
                },
                None => Vector::Constant(Value::Null, chunk.count),
            };
            proof {
                lemma_case(o, ms, rest, c, all, Ok(cols), Ok(other.deep_view()));
            }
            Ok(pick_case(&arms, &other, chunk.count))
        },
        _ => Ok(Vector::Constant(Value::Null, chunk.count)),
    }
}

fn read_decimals(args: &Vec<Expression>) -> (r: i32)
    ensures
        r == decimals_of(args.deep_view()),
{
    if args.len() == 2 {
        assert(args.deep_view()[1] == args[1].deep_view());
        match &args[1] {
            Expression::Literal(Value::Int32(n)) => *n,
            Expression::Literal(Value::Int64(n)) => *n as i32,
            _ => 0,
        }
    } else {
        0
    }
}

/// Evaluates a call of a built-in function.
pub fn eval_function<E: Fn(Ask) -> Reply>(
    expr: &Expression,
    chunk: &DataChunk,
    names: &Vec<String>,
    env: &E,
) -> (r: Result<Vector, EngramDbError>)
    requires
        answers(*env),
        chunk.wf(),
        aligned(chunk.deep_view()),
        expr is Function,
    ensures
        fits_chunk(r, chunk.count as nat),
        calm(expr.deep_view()) ==> gives_column(
            r,
            eval(oracle(*env), expr.deep_view(), chunk.deep_view(), names.deep_view()),
        ),
        can_give(
            oracle(*env),
            expr.deep_view(),
            chunk.deep_view(),
            names.deep_view(),
            told(r),
        ),
    decreases expr, 1int,
{
    match expr {
        Expression::Function { name, args, distinct, count_star, over } => {
            let ghost m = expr.deep_view();
            assert(m->Function_1 =~= args.deep_view());
            let ghost (o, c, all) = (oracle(*env), chunk.deep_view(), names.deep_view());
            let ghost ms = args.deep_view();
            proof {
                lemma_own(o, m, c, all);
            }
            let upper = to_upper(name.as_str());
            let f = match find_func(upper.as_str()) {
                Some(f) => f,
                None => {
                    return Err(EngramDbError::Parse(join2("Unknown function: ", name.as_str())));
                },
            };
            if !takes_args(f, args.len()) {
                return Err(EngramDbError::Parse(takes_message(f)));
            }
            match f {
                Func::Random => {
                    let word: u64 = random_word();
                    proof {
                        lemma_random(o, m, c, all, word);
                    }
                    Ok(random_vector(word, chunk.count))
                },
                Func::Round => {
                    assert(ms[0] == args[0].deep_view());
                    match eval_vectorized(&args[0], chunk, names, env) {
                        Ok(v) => {
                            proof {
                                lemma_round(o, m, c, all, Ok(v.deep_view()));
                            }
                            let decimals: i32 = read_decimals(args);
                            Ok(eval_round(&v, decimals, env))
                        },
                        Err(e) => {
                            proof {
                                lemma_round(o, m, c, all, Err(e.deep_view()));
                            }
                            Err(e)
                        },
                    }
                },
                Func::JsonObject => {
                    proof {
                        lemma_own_list(o, ms, 1, 2, c, all);
                    }
                    let keys = match eval_every(args, 0, 2, chunk, names, env) {
                        Ok(v) => v,
                        Err(e) => {
                            proof {
                                let vals = eval_list(o, ms, 1, 2, c, all);
                                lemma_json_object(o, m, c, all, Err(e.deep_view()), vals);
                            }
                            return Err(e);
                        },
                    };
                    let ghost ks = keys.deep_view();
                    let vals = match eval_every(args, 1, 2, chunk, names, env) {
                        Ok(v) => v,
                        Err(e) => {
                            proof {
                                lemma_json_object(o, m, c, all, Ok(ks), Err(e.deep_view()));
                            }
                            return Err(e);
                        },
                    };
                    proof {
                        lemma_json_object(o, m, c, all, Ok(ks), Ok(vals.deep_view()));
                    }
                    Ok(eval_json_object(&keys, &vals, chunk.count, env))
                },
                _ => match eval_every(args, 0, 1, chunk, names, env) {
                    Ok(vecs) => {
                        proof {
                            lemma_call(o, m, c, all, Ok(vecs.deep_view()));
                        }
                        apply_function(f, &vecs, chunk.count, env)
                    },
                    Err(e) => {
                        proof {
                            lemma_call(o, m, c, all, Err(e.deep_view()));
                        }
                        Err(e)
                    },
                },
            }
        },
        _ => Ok(Vector::Constant(Value::Null, chunk.count)),
    }
}

/// Evaluates an expression over a batch whose columns have the given names.
pub fn eval_vectorized<E: Fn(Ask) -> Reply>(
    expr: &Expression,
    chunk: &DataChunk,
    column_names: &Vec<String>,
    env: &E,
) -> (r: Result<Vector, EngramDbError>)
    requires
        answers(*env),
        chunk.wf(),
        aligned(chunk.deep_view()),
    ensures
        fits_chunk(r, chunk.count as nat),
        calm(expr.deep_view()) ==> gives_column(
            r,
            eval(oracle(*env), expr.deep_view(), chunk.deep_view(), column_names.deep_view()),
        ),
        can_give(
            oracle(*env),
            expr.deep_view(),
            chunk.deep_view(),
            column_names.deep_view(),
            told(r),
        ),
    decreases expr, 2int,
{
    let ghost (o, c, all) = (oracle(*env), chunk.deep_view(), column_names.deep_view());
    proof {
        lemma_own(o, expr.deep_view(), c, all);
    }
    match expr {
        Expression::Literal(v) => Ok(Vector::Constant(v.clone(), chunk.count)),
        Expression::ColumnRef { table: _, column } => match find_name(
            column_names,
            column.as_str(),
        ) {
            None => Err(EngramDbError::ColumnNotFound(column.clone())),
            Some(i) => if i >= chunk.columns.len() {
                Ok(Vector::Constant(Value::Null, chunk.count))
            } else {
                assert(chunk.deep_view().columns[i as int] == chunk.columns[i as int].deep_view());
                Ok(chunk.columns[i].clone())
            },
        },
        Expression::BinaryOp { left, op, right } => {
            let ghost (x, y) = (left.deep_view(), right.deep_view());
            let l = match eval_vectorized(left, chunk, column_names, env) {
                Ok(v) => v,
                Err(e) => {
                    proof {
                        lemma_own(o, y, c, all);
                        let b = eval(o, y, c, all);
                        lemma_binary(o, x, *op, y, c, all, Err(e.deep_view()), b);
                    }
                    return Err(e);
                },
            };
            let ghost a = l.deep_view();
            let r = match eval_vectorized(right, chunk, column_names, env) {
                Ok(v) => v,
                Err(e) => {
                    proof {
                        lemma_binary(o, x, *op, y, c, all, Ok(a), Err(e.deep_view()));
                    }
                    return Err(e);
                },
            };
            proof {
                lemma_binary(o, x, *op, y, c, all, Ok(a), Ok(r.deep_view()));
            }
            Ok(eval_binary_vectorized(&l, *op, &r, env))
        },
        Expression::UnaryOp { op, expr: x } => {
            let v = eval_vectorized(x, chunk, column_names, env);
            proof {
                lemma_unary(o, *op, x.deep_view(), c, all, told(v));
            }
            match v {
                Ok(v) => Ok(eval_unary_vectorized(&v, *op)),
                Err(e) => Err(e),
            }
        },
        Expression::IsNull(x) => {
            let v = eval_vectorized(x, chunk, column_names, env);
            proof {
                lemma_null(o, x.deep_view(), false, c, all, told(v));
            }
            match v {
                Ok(v) => Ok(eval_is_null(&v, false)),
                Err(e) => Err(e),
            }
        },
        Expression::IsNotNull(x) => {
            let v = eval_vectorized(x, chunk, column_names, env);
            proof {
                lemma_null(o, x.deep_view(), true, c, all, told(v));
            }
            match v {
                Ok(v) => Ok(eval_is_null(&v, true)),
                Err(e) => Err(e),
            }
        },
        Expression::Cast { expr: x, data_type } => {
            let v = eval_vectorized(x, chunk, column_names, env);
            proof {
                lemma_cast(o, x.deep_view(), *data_type, c, all, told(v));
            }
            match v {
                Ok(v) => Ok(eval_cast(&v, *data_type, env)),
                Err(e) => Err(e),
            }
        },
        Expression::InList { expr: x, list } => {
            let ghost m = expr.deep_view();
            let ghost (xm, ms) = (x.deep_view(), list.deep_view());
            assert(m->InList_1 =~= ms);
            let v = match eval_vectorized(x, chunk, column_names, env) {
                Ok(v) => v,
                Err(e) => {
                    proof {
                        lemma_own_list(o, ms, 0, 1, c, all);
                        let b = eval_list(o, ms, 0, 1, c, all);
                        lemma_in_list(o, xm, ms, c, all, Err(e.deep_view()), b);
                    }
                    return Err(e);
                },
            };
            let others = eval_every(list, 0, 1, chunk, column_names, env);
            proof {
                lemma_in_list(o, xm, ms, c, all, Ok(v.deep_view()), told_list(others));
            }
            match others {
                Ok(vecs) => Ok(eval_in_list(&v, &vecs)),
                Err(e) => Err(e),
            }
        },
        Expression::Like { expr: x, pattern } => {
            let ghost (xm, ym) = (x.deep_view(), pattern.deep_view());
            let v = match eval_vectorized(x, chunk, column_names, env) {
                Ok(v) => v,
                Err(e) => {
                    proof {
                        lemma_own(o, ym, c, all);
                        let b = eval(o, ym, c, all);
                        lemma_like(o, xm, ym, c, all, Err(e.deep_view()), b);
                    }
                    return Err(e);
                },
            };
            let p = eval_vectorized(pattern, chunk, column_names, env);
            proof {
                lemma_like(o, xm, ym, c, all, Ok(v.deep_view()), told(p));
            }
            match p {
                Ok(p) => Ok(eval_like(&v, &p)),
                Err(e) => Err(e),
            }
        },
        Expression::Case { .. } => eval_case_vectorized(expr, chunk, column_names, env),
        Expression::Function { .. } => eval_function(expr, chunk, column_names, env),
        Expression::Placeholder(_) => Err(
            EngramDbError::Internal("Placeholder should be resolved before execution".to_owned()),
        ),
        Expression::Subquery(_)
        | Expression::Exists { .. }
        | Expression::InSubquery { .. } => Err(
            EngramDbError::Internal(
                "Subquery should be resolved before expression evaluation".to_owned(),
            ),
        ),
    }
}

/// The rows in which a column is true, in order.
pub open spec fn true_rows(c: Column, n: nat) -> Seq<usize>
    decreases n,
{
    if n == 0 {
        Seq::empty()
    } else if col_at(c, n - 1) == Datum::Boolean(true) {
        true_rows(c, (n - 1) as nat).push((n - 1) as usize)
    } else {
        true_rows(c, (n - 1) as nat)
    }
}

/// The rows in which a vector is true, in order.
pub fn boolean_to_selection(bool_vec: &Vector) -> (r: Vec<usize>)
    requires
        bool_vec.wf(),
    ensures
        r@ == true_rows(bool_vec.deep_view(), col_len(bool_vec.deep_view())),
{
    let ghost c = bool_vec.deep_view();
    let n: usize = bool_vec.len();
    let mut out: Vec<usize> = Vec::new();
    let mut i: usize = 0;
    while i < n
        invariant
            bool_vec.wf(),
            c == bool_vec.deep_view(),
            n == col_len(c),
            i <= n,
            out@ == true_rows(c, i as nat),
        decreases n - i,
    {
        let v = bool_vec.get(i);
        if matches!(v, Value::Boolean(true)) {
            out.push(i);
        }
        i += 1;
    }
    out
}

/// The selected rows are rows of the column, ascend, and are just those in
/// which the column is true.
pub proof fn law_selection(c: Column, n: nat)
    requires
        n <= usize::MAX,
    ensures
        forall|k: int|
            0 <= k < true_rows(c, n).len() ==> (#[trigger] true_rows(c, n)[k]) < n && col_at(
                c,
                true_rows(c, n)[k] as int,
            ) == Datum::Boolean(true),
        forall|i: int, j: int|
            0 <= i < j < true_rows(c, n).len() ==> true_rows(c, n)[i] < true_rows(c, n)[j],
        forall|i: int|
            #![trigger col_at(c, i)]
            0 <= i < n && col_at(c, i) == Datum::Boolean(true) ==> true_rows(c, n).contains(
                i as usize,
            ),
    decreases n,
{
    if n > 0 {
        law_selection(c, (n - 1) as nat);
        let before = true_rows(c, (n - 1) as nat);
        let after = true_rows(c, n);
        assert forall|i: int|
            #![trigger col_at(c, i)]
            0 <= i < n && col_at(c, i) == Datum::Boolean(true) implies after.contains(
            i as usize,
        ) by {
            if i == n - 1 {
                assert(after[after.len() - 1] == i as usize);
            } else {
                assert(before.contains(i as usize));
                let k = choose|k: int| 0 <= k < before.len() && before[k] == i as usize;
                assert(after[k] == i as usize);
            }
        }
    }
}

} // verus!
