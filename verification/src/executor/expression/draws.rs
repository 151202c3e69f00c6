//! What an expression that calls RANDOM can give: the value of the expression
//! with numbers in place of the calls.
use vstd::prelude::*;

use crate::common::error::{EngramDbError, Fault};
use crate::executor::env::{Answer, Question};
use crate::executor::expression::eval::{
    calm, case_at, decimals_of, eval, eval_arms, eval_list, unit_double,
};
use crate::executor::expression::functions::{applied, func_of, takes, Func};
use crate::executor::expression::json_fn::json_object_column;
use crate::executor::expression::numeric::round_datum;
use crate::executor::expression::ops::{
    binary_column, cast, in_list, like_datum, null_test, unary,
};
use crate::executor::expression::rowwise::{map_column, zip_columns};
use crate::executor::vector::{Chunk, Column, Vector};
use crate::common::types::DataType;
use crate::sql::ast::{BinaryOperator, Expr, UnaryOperator};
use crate::text::upper_text;
use crate::value::Datum;

verus! {

/// Whether an expression is a call of RANDOM that gives a number.
pub open spec fn is_random(e: Expr) -> bool {
    e matches Expr::Function(name, args, _, _, _) && func_of(upper_text(name)) == Some(Func::Random)
        && args.len() == 0
}

/// The literal of the number that a random word gives.
pub open spec fn draw(word: u64) -> Expr {
    Expr::Literal(Datum::Float64(unit_double((word / 2048) as u64)))
}

/// Whether `p` is `e` with numbers that RANDOM can give in place of calls of
/// RANDOM. A call that is left stands for 0, which is one of them.
pub open spec fn drawn(e: Expr, p: Expr) -> bool
    decreases e,
{
    ||| e == p
    ||| is_random(e) && exists|word: u64| p == #[trigger] draw(word)
    ||| match (e, p) {
        (Expr::Binary(l, op, r), Expr::Binary(a, q, b)) => op == q && drawn(*l, *a) && drawn(
            *r,
            *b,
        ),
        (Expr::Unary(op, x), Expr::Unary(q, a)) => op == q && drawn(*x, *a),
        (Expr::IsNull(x), Expr::IsNull(a)) => drawn(*x, *a),
        (Expr::IsNotNull(x), Expr::IsNotNull(a)) => drawn(*x, *a),
        (Expr::Cast(x, t), Expr::Cast(a, u)) => t == u && drawn(*x, *a),
        (Expr::InList(x, list), Expr::InList(a, other)) => drawn(*x, *a) && list.len()
            == other.len() && forall|i: int|
            #![trigger list[i]]
            0 <= i < list.len() ==> drawn(list[i], other[i]),
        (Expr::Like(x, y), Expr::Like(a, b)) => drawn(*x, *a) && drawn(*y, *b),
        (Expr::Case(arms, x), Expr::Case(others, a)) => arms.len() == others.len() && (match (
            x,
            a,
        ) {
            (Some(x), Some(a)) => drawn(*x, *a),
            (None, None) => true,
            _ => false,
        }) && forall|i: int|
            #![trigger arms[i]]
            0 <= i < arms.len() ==> drawn(arms[i].0, others[i].0) && drawn(arms[i].1, others[i].1),
        (Expr::Function(f, args, a1, a2, a3), Expr::Function(g, others, b1, b2, b3)) => f == g && a1
            == b1 && a2 == b2 && a3 == b3 && args.len() == others.len() && forall|i: int|
            #![trigger args[i]]
            0 <= i < args.len() ==> drawn(args[i], others[i]),
        _ => false,
    }
}

/// Whether the expressions of a list are drawn one by one.
pub open spec fn all_drawn(list: Seq<Expr>, other: Seq<Expr>) -> bool {
    list.len() == other.len() && forall|i: int|
        #![trigger list[i]]
        0 <= i < list.len() ==> drawn(list[i], other[i])
}

/// Whether the arms of a CASE are drawn one by one.
pub open spec fn arms_drawn(arms: Seq<(Expr, Expr)>, others: Seq<(Expr, Expr)>) -> bool {
    arms.len() == others.len() && forall|i: int|
        #![trigger arms[i]]
        0 <= i < arms.len() ==> drawn(arms[i].0, others[i].0) && drawn(arms[i].1, others[i].1)
}

/// The model of an evaluated expression.
pub open spec fn told(r: Result<Vector, EngramDbError>) -> Result<Column, Fault> {
    match r {
        Ok(v) => Ok(v.deep_view()),
        Err(e) => Err(e.deep_view()),
    }
}

/// The model of an evaluated list.
pub open spec fn told_list(r: Result<Vec<Vector>, EngramDbError>) -> Result<Seq<Column>, Fault> {
    match r {
        Ok(v) => Ok(v.deep_view()),
        Err(e) => Err(e.deep_view()),
    }
}

/// Whether an expression can give a result: its value with some numbers in
/// place of the calls of RANDOM.
pub open spec fn can_give(
    o: spec_fn(Question) -> Answer,
    e: Expr,
    c: Chunk,
    names: Seq<Seq<char>>,
    r: Result<Column, Fault>,
) -> bool {
    exists|p: Expr| #[trigger] drawn(e, p) && eval(o, p, c, names) == r
}

/// Whether every `step`-th expression of a list from `i` on can give columns.
pub open spec fn can_give_list(
    o: spec_fn(Question) -> Answer,
    list: Seq<Expr>,
    i: int,
    step: int,
    c: Chunk,
    names: Seq<Seq<char>>,
    r: Result<Seq<Column>, Fault>,
) -> bool {
    exists|ps: Seq<Expr>| #[trigger]
        all_drawn(list, ps) && eval_list(o, ps, i, step, c, names) == r
}

/// Whether the arms of a CASE from `i` on can give columns.
pub open spec fn can_give_arms(
    o: spec_fn(Question) -> Answer,
    arms: Seq<(Expr, Expr)>,
    i: int,
    c: Chunk,
    names: Seq<Seq<char>>,
    r: Result<Seq<(Column, Column)>, Fault>,
) -> bool {
    exists|ps: Seq<(Expr, Expr)>| #[trigger]
        arms_drawn(arms, ps) && eval_arms(o, ps, i, c, names) == r
}

/// A draw of an expression.
spec fn witness(
    o: spec_fn(Question) -> Answer,
    e: Expr,
    c: Chunk,
    names: Seq<Seq<char>>,
    r: Result<Column, Fault>,
) -> Expr {
    choose|p: Expr| #[trigger] drawn(e, p) && eval(o, p, c, names) == r
}

/// An expression can give its own value.
pub proof fn lemma_own(o: spec_fn(Question) -> Answer, e: Expr, c: Chunk, names: Seq<Seq<char>>)
    ensures
        can_give(o, e, c, names, eval(o, e, c, names)),
{
    assert(drawn(e, e));
}

/// An expression that calls RANDOM nowhere gives nothing else than its value.
pub proof fn law_calm_gives_one(
    o: spec_fn(Question) -> Answer,
    e: Expr,
    c: Chunk,
    names: Seq<Seq<char>>,
    r: Result<Column, Fault>,
)
    requires
        calm(e),
        can_give(o, e, c, names, r),
    ensures
        r == eval(o, e, c, names),
{
    lemma_calm_drawn(e, witness(o, e, c, names, r));
}

/// Nothing is drawn in an expression without RANDOM.
pub proof fn lemma_calm_drawn(e: Expr, p: Expr)
    requires
        calm(e),
        drawn(e, p),
    ensures
        p == e,
    decreases e,
{
    if e != p {
        match (e, p) {
            (Expr::Binary(l, _, r), Expr::Binary(a, _, b)) => {
                lemma_calm_drawn(*l, *a);
                lemma_calm_drawn(*r, *b);
            },
            (Expr::Unary(_, x), Expr::Unary(_, a)) => lemma_calm_drawn(*x, *a),
            (Expr::IsNull(x), Expr::IsNull(a)) => lemma_calm_drawn(*x, *a),
            (Expr::IsNotNull(x), Expr::IsNotNull(a)) => lemma_calm_drawn(*x, *a),
            (Expr::Cast(x, _), Expr::Cast(a, _)) => lemma_calm_drawn(*x, *a),
            (Expr::InList(x, list), Expr::InList(a, other)) => {
                lemma_calm_drawn(*x, *a);
                assert forall|i: int| 0 <= i < list.len() implies list[i] == other[i] by {
                    lemma_calm_drawn(list[i], other[i]);
                }
                assert(list =~= other);
            },
            (Expr::Like(x, y), Expr::Like(a, b)) => {
                lemma_calm_drawn(*x, *a);
                lemma_calm_drawn(*y, *b);
            },
            (Expr::Case(arms, x), Expr::Case(others, a)) => {
                match (x, a) {
                    (Some(x), Some(a)) => lemma_calm_drawn(*x, *a),
                    _ => {},
                }
                assert forall|i: int| 0 <= i < arms.len() implies arms[i] == others[i] by {
                    assert(decreases_to!(arms => arms[i]));
                    lemma_calm_drawn(arms[i].0, others[i].0);
                    lemma_calm_drawn(arms[i].1, others[i].1);
                }
                assert(arms =~= others);
            },
            (Expr::Function(_, args, _, _, _), Expr::Function(_, others, _, _, _)) => {
                assert forall|i: int| 0 <= i < args.len() implies args[i] == others[i] by {
                    lemma_calm_drawn(args[i], others[i]);
                }
                assert(args =~= others);
            },
            _ => {},
        }
    }
}

/// What a call of RANDOM gives.
pub proof fn lemma_random(
    o: spec_fn(Question) -> Answer,
    e: Expr,
    c: Chunk,
    names: Seq<Seq<char>>,
    word: u64,
)
    requires
        is_random(e),
    ensures
        can_give(
            o,
            e,
            c,
            names,
            Ok(Column::Constant(Datum::Float64(unit_double((word / 2048) as u64)), c.count)),
        ),
{
    assert(drawn(e, draw(word)));
}

/// Draws of two operands make one of an operation.
pub proof fn lemma_binary(
    o: spec_fn(Question) -> Answer,
    l: Expr,
    op: BinaryOperator,
    r: Expr,
    c: Chunk,
    names: Seq<Seq<char>>,
    a: Result<Column, Fault>,
    b: Result<Column, Fault>,
)
    requires
        can_give(o, l, c, names, a),
        can_give(o, r, c, names, b),
    ensures
        can_give(
            o,
            Expr::Binary(Box::new(l), op, Box::new(r)),
            c,
            names,
            match (a, b) {
                (Err(x), _) => Err(x),
                (_, Err(x)) => Err(x),
                (Ok(a), Ok(b)) => Ok(binary_column(o, a, op, b)),
            },
        ),
{
    let (p, q) = (witness(o, l, c, names, a), witness(o, r, c, names, b));
    assert(drawn(
        Expr::Binary(Box::new(l), op, Box::new(r)),
        Expr::Binary(Box::new(p), op, Box::new(q)),
    ));
}

/// A draw of an operand makes one of an operation.
pub proof fn lemma_unary(
    o: spec_fn(Question) -> Answer,
    op: UnaryOperator,
    x: Expr,
    c: Chunk,
    names: Seq<Seq<char>>,
    a: Result<Column, Fault>,
)
    requires
        can_give(o, x, c, names, a),
    ensures
        can_give(
            o,
            Expr::Unary(op, Box::new(x)),
            c,
            names,
            match a {
                Ok(a) => Ok(map_column(a, |d: Datum| unary(d, op))),
                Err(x) => Err(x),
            },
        ),
{
    let p = witness(o, x, c, names, a);
    assert(drawn(Expr::Unary(op, Box::new(x)), Expr::Unary(op, Box::new(p))));
}

/// A draw of an operand makes one of a test for NULL.
pub proof fn lemma_null(
    o: spec_fn(Question) -> Answer,
    x: Expr,
    negated: bool,
    c: Chunk,
    names: Seq<Seq<char>>,
    a: Result<Column, Fault>,
)
    requires
        can_give(o, x, c, names, a),
    ensures
        can_give(
            o,
            if negated {
                Expr::IsNotNull(Box::new(x))
            } else {
                Expr::IsNull(Box::new(x))
            },
            c,
            names,
            match a {
                Ok(a) => Ok(map_column(a, |d: Datum| null_test(d, negated))),
                Err(x) => Err(x),
            },
        ),
{
    let p = witness(o, x, c, names, a);
    if negated {
        assert(drawn(Expr::IsNotNull(Box::new(x)), Expr::IsNotNull(Box::new(p))));
        if a is Ok {
            assert((|d: Datum| null_test(d, negated)) =~= (|d: Datum| null_test(d, true)));
        }
    } else {
        assert(drawn(Expr::IsNull(Box::new(x)), Expr::IsNull(Box::new(p))));
        if a is Ok {
            assert((|d: Datum| null_test(d, negated)) =~= (|d: Datum| null_test(d, false)));
        }
    }
}

/// A draw of an operand makes one of a cast.
pub proof fn lemma_cast(
    o: spec_fn(Question) -> Answer,
    x: Expr,
    t: DataType,
    c: Chunk,
    names: Seq<Seq<char>>,
    a: Result<Column, Fault>,
)
    requires
        can_give(o, x, c, names, a),
    ensures
        can_give(
            o,
            Expr::Cast(Box::new(x), t),
            c,
            names,
            match a {
                Ok(a) => Ok(map_column(a, |d: Datum| cast(o, d, t))),
                Err(x) => Err(x),
            },
        ),
{
    let p = witness(o, x, c, names, a);
    assert(drawn(Expr::Cast(Box::new(x), t), Expr::Cast(Box::new(p), t)));
}

/// Draws of a text and a pattern make one of a match.
pub proof fn lemma_like(
    o: spec_fn(Question) -> Answer,
    x: Expr,
    y: Expr,
    c: Chunk,
    names: Seq<Seq<char>>,
    a: Result<Column, Fault>,
    b: Result<Column, Fault>,
)
    requires
        can_give(o, x, c, names, a),
        can_give(o, y, c, names, b),
    ensures
        can_give(
            o,
            Expr::Like(Box::new(x), Box::new(y)),
            c,
            names,
            match (a, b) {
                (Err(x), _) => Err(x),
                (_, Err(x)) => Err(x),
                (Ok(a), Ok(b)) => Ok(zip_columns(a, b, |v: Datum, p: Datum| like_datum(v, p))),
            },
        ),
{
    let (p, q) = (witness(o, x, c, names, a), witness(o, y, c, names, b));
    assert(drawn(
        Expr::Like(Box::new(x), Box::new(y)),
        Expr::Like(Box::new(p), Box::new(q)),
    ));
}

/// The columns of a list are those of the expressions that the steps reach.
proof fn lemma_list_reaches(
    o: spec_fn(Question) -> Answer,
    ps: Seq<Expr>,
    qs: Seq<Expr>,
    i: int,
    step: int,
    c: Chunk,
    names: Seq<Seq<char>>,
)
    requires
        0 <= i,
        step == 1 || step == 2,
        ps.len() == qs.len(),
        forall|k: int|
            #![trigger ps[k]]
            i <= k < ps.len() && (k - i) % step == 0 ==> ps[k] == qs[k],
    ensures
        eval_list(o, ps, i, step, c, names) == eval_list(o, qs, i, step, c, names),
    decreases
        if i < ps.len() {
            ps.len() - i
        } else {
            0
        },
{
    if i < ps.len() {
        assert((i - i) % step == 0);
        assert forall|k: int|
            #![trigger ps[k]]
            i + step <= k < ps.len() && (k - (i + step)) % step == 0 implies ps[k] == qs[k] by {
            assert((k - i) % step == 0);
        }
        lemma_list_reaches(o, ps, qs, i + step, step, c, names);
    }
}

/// Draws of the first and of the others make one of a list.
pub proof fn lemma_list(
    o: spec_fn(Question) -> Answer,
    list: Seq<Expr>,
    i: int,
    step: int,
    c: Chunk,
    names: Seq<Seq<char>>,
    a: Result<Column, Fault>,
    rest: Result<Seq<Column>, Fault>,
)
    requires
        0 <= i < list.len(),
        step == 1 || step == 2,
        can_give(o, list[i], c, names, a),
        can_give_list(o, list, i + step, step, c, names, rest),
    ensures
        can_give_list(
            o,
            list,
            i,
            step,
            c,
            names,
            match (a, rest) {
                (Err(x), _) => Err(x),
                (_, Err(x)) => Err(x),
                (Ok(a), Ok(r)) => Ok(seq![a] + r),
            },
        ),
{
    let p = witness(o, list[i], c, names, a);
    let ps = choose|ps: Seq<Expr>| #[trigger]
        all_drawn(list, ps) && eval_list(o, ps, i + step, step, c, names) == rest;
    let qs = ps.update(i, p);
    assert(all_drawn(list, qs));
    lemma_list_reaches(o, ps, qs, i + step, step, c, names);
    assert(qs[i] == p);
}

/// A list can give what its own expressions give.
pub proof fn lemma_own_list(
    o: spec_fn(Question) -> Answer,
    list: Seq<Expr>,
    i: int,
    step: int,
    c: Chunk,
    names: Seq<Seq<char>>,
)
    ensures
        can_give_list(o, list, i, step, c, names, eval_list(o, list, i, step, c, names)),
{
    assert(all_drawn(list, list));
}

/// Draws of an operand and of a list make one of a membership test.
pub proof fn lemma_in_list(
    o: spec_fn(Question) -> Answer,
    x: Expr,
    list: Seq<Expr>,
    c: Chunk,
    names: Seq<Seq<char>>,
    a: Result<Column, Fault>,
    b: Result<Seq<Column>, Fault>,
)
    requires
        can_give(o, x, c, names, a),
        can_give_list(o, list, 0, 1, c, names, b),
    ensures
        can_give(
            o,
            Expr::InList(Box::new(x), list),
            c,
            names,
            match (a, b) {
                (Err(x), _) => Err(x),
                (_, Err(x)) => Err(x),
                (Ok(a), Ok(bs)) => Ok(in_list(a, bs)),
            },
        ),
{
    let p = witness(o, x, c, names, a);
    let ps = choose|ps: Seq<Expr>| #[trigger]
        all_drawn(list, ps) && eval_list(o, ps, 0, 1, c, names) == b;
    assert(drawn(Expr::InList(Box::new(x), list), Expr::InList(Box::new(p), ps)));
}

/// The columns of arms are those of the arms from there on.
proof fn lemma_arms_reach(
    o: spec_fn(Question) -> Answer,
    ps: Seq<(Expr, Expr)>,
    qs: Seq<(Expr, Expr)>,
    i: int,
    c: Chunk,
    names: Seq<Seq<char>>,
)
    requires
        0 <= i,
        ps.len() == qs.len(),
        forall|k: int| #![trigger ps[k]] i <= k < ps.len() ==> ps[k] == qs[k],
    ensures
        eval_arms(o, ps, i, c, names) == eval_arms(o, qs, i, c, names),
    decreases ps.len() - i,
{
    if i < ps.len() {
        lemma_arms_reach(o, ps, qs, i + 1, c, names);
    }
}

/// Draws of an arm and of the others make one of the arms.
pub proof fn lemma_arms(
    o: spec_fn(Question) -> Answer,
    arms: Seq<(Expr, Expr)>,
    i: int,
    c: Chunk,
    names: Seq<Seq<char>>,
    a: Result<Column, Fault>,
    b: Result<Column, Fault>,
    rest: Result<Seq<(Column, Column)>, Fault>,
)
    requires
        0 <= i < arms.len(),
        can_give(o, arms[i].0, c, names, a),
        can_give(o, arms[i].1, c, names, b),
        can_give_arms(o, arms, i + 1, c, names, rest),
    ensures
        can_give_arms(
            o,
            arms,
            i,
            c,
            names,
            match (a, b, rest) {
                (Err(x), _, _) => Err(x),
                (_, Err(x), _) => Err(x),
                (_, _, Err(x)) => Err(x),
                (Ok(a), Ok(b), Ok(r)) => Ok(seq![(a, b)] + r),
            },
        ),
{
    let (p, q) = (witness(o, arms[i].0, c, names, a), witness(o, arms[i].1, c, names, b));
    let ps = choose|ps: Seq<(Expr, Expr)>| #[trigger]
        arms_drawn(arms, ps) && eval_arms(o, ps, i + 1, c, names) == rest;
    let qs = ps.update(i, (p, q));
    assert(arms_drawn(arms, qs));
    lemma_arms_reach(o, ps, qs, i + 1, c, names);
    assert(qs[i] == (p, q));
}

/// Arms can give what their own expressions give.
pub proof fn lemma_own_arms(
    o: spec_fn(Question) -> Answer,
    arms: Seq<(Expr, Expr)>,
    i: int,
    c: Chunk,
    names: Seq<Seq<char>>,
)
    ensures
        can_give_arms(o, arms, i, c, names, eval_arms(o, arms, i, c, names)),
{
    assert(arms_drawn(arms, arms));
}

/// Draws of arms and of ELSE make one of a CASE.
pub proof fn lemma_case(
    o: spec_fn(Question) -> Answer,
    arms: Seq<(Expr, Expr)>,
    other: Option<Box<Expr>>,
    c: Chunk,
    names: Seq<Seq<char>>,
    a: Result<Seq<(Column, Column)>, Fault>,
    z: Result<Column, Fault>,
)
    requires
        can_give_arms(o, arms, 0, c, names, a),
        match other {
            Some(x) => can_give(o, *x, c, names, z),
            None => z == Ok::<Column, Fault>(Column::Constant(Datum::Null, c.count)),
        },
    ensures
        can_give(
            o,
            Expr::Case(arms, other),
            c,
            names,
            match (a, z) {
                (Err(x), _) => Err(x),
                (_, Err(x)) => Err(x),
                (Ok(cols), Ok(z)) => Ok(
                    Column::Flat(Seq::new(c.count, |i: int| case_at(cols, z, i, 0))),
                ),
            },
        ),
{
    let ps = choose|ps: Seq<(Expr, Expr)>| #[trigger]
        arms_drawn(arms, ps) && eval_arms(o, ps, 0, c, names) == a;
    let rest = match other {
        Some(x) => Some(Box::new(witness(o, *x, c, names, z))),
        None => None,
    };
    assert(drawn(Expr::Case(arms, other), Expr::Case(ps, rest)));
}

/// A draw of the arguments makes one of a call.
pub proof fn lemma_call(
    o: spec_fn(Question) -> Answer,
    e: Expr,
    c: Chunk,
    names: Seq<Seq<char>>,
    a: Result<Seq<Column>, Fault>,
)
    requires
        e matches Expr::Function(name, args, _, _, _) && can_give_list(o, args, 0, 1, c, names, a)
            && (func_of(upper_text(name)) matches Some(f) && takes(f, args.len()) && !(f is Random)
            && !(f is Round) && !(f is JsonObject)),
    ensures
        can_give(
            o,
            e,
            c,
            names,
            match a {
                Ok(cols) => applied(
                    o,
                    func_of(upper_text(e->Function_0))->0,
                    cols,
                    c.count,
                ),
                Err(x) => Err(x),
            },
        ),
{
    let args = e->Function_1;
    let ps = choose|ps: Seq<Expr>| #[trigger]
        all_drawn(args, ps) && eval_list(o, ps, 0, 1, c, names) == a;
    assert(drawn(
        e,
        Expr::Function(e->Function_0, ps, e->Function_2, e->Function_3, e->Function_4),
    ));
}

/// A draw of the number makes one of ROUND.
pub proof fn lemma_round(
    o: spec_fn(Question) -> Answer,
    e: Expr,
    c: Chunk,
    names: Seq<Seq<char>>,
    a: Result<Column, Fault>,
)
    requires
        e matches Expr::Function(name, args, _, _, _) && args.len() > 0 && can_give(
            o,
            args[0],
            c,
            names,
            a,
        ) && func_of(upper_text(name)) == Some(Func::Round) && takes(Func::Round, args.len()),
    ensures
        can_give(
            o,
            e,
            c,
            names,
            match a {
                Ok(a) => Ok(
                    map_column(a, |d: Datum| round_datum(o, d, decimals_of(e->Function_1))),
                ),
                Err(x) => Err(x),
            },
        ),
{
    let args = e->Function_1;
    let p = witness(o, args[0], c, names, a);
    let ps = args.update(0, p);
    assert(decimals_of(ps) == decimals_of(args));
    let q = Expr::Function(e->Function_0, ps, e->Function_2, e->Function_3, e->Function_4);
    assert(all_drawn(args, ps));
    assert(drawn(e, q));
    assert(ps[0] == p);
    if a is Ok {
        assert((|d: Datum| round_datum(o, d, decimals_of(ps))) =~= (|d: Datum|
            round_datum(o, d, decimals_of(args))));
    }
}

/// Draws of the keys and of the values make one of JSON_OBJECT.
pub proof fn lemma_json_object(
    o: spec_fn(Question) -> Answer,
    e: Expr,
    c: Chunk,
    names: Seq<Seq<char>>,
    a: Result<Seq<Column>, Fault>,
    b: Result<Seq<Column>, Fault>,
)
    requires
        e matches Expr::Function(name, args, _, _, _) && can_give_list(o, args, 0, 2, c, names, a)
            && can_give_list(o, args, 1, 2, c, names, b) && func_of(upper_text(name)) == Some(
            Func::JsonObject,
        ) && takes(Func::JsonObject, args.len()),
    ensures
        can_give(
            o,
            e,
            c,
            names,
            match (a, b) {
                (Err(x), _) => Err(x),
                (_, Err(x)) => Err(x),
                (Ok(keys), Ok(vals)) => Ok(json_object_column(o, keys, vals, c.count)),
            },
        ),
{
    let args = e->Function_1;
    let ps = choose|ps: Seq<Expr>| #[trigger]
        all_drawn(args, ps) && eval_list(o, ps, 0, 2, c, names) == a;
    let qs = choose|ps: Seq<Expr>| #[trigger]
        all_drawn(args, ps) && eval_list(o, ps, 1, 2, c, names) == b;
    let both = Seq::new(
        args.len(),
        |k: int|
            if k % 2 == 0 {
                ps[k]
            } else {
                qs[k]
            },
    );
    assert(all_drawn(args, both));
    lemma_list_reaches(o, ps, both, 0, 2, c, names);
    lemma_list_reaches(o, qs, both, 1, 2, c, names);
    assert(drawn(
        e,
        Expr::Function(e->Function_0, both, e->Function_2, e->Function_3, e->Function_4),
    ));
}

} // verus!
