//! The subqueries of a plan, replaced by what they gave.
//!
//! A subquery that does not depend on the rows around it is executed before
//! the plan that it stands in; one that does, before each of the rows is read.
//! Expressions refer to it by its number.
use vstd::prelude::*;

use crate::executor::expression::eval::calm;
use crate::executor::physical_plan::{PhysicalPlan, Plan};
use crate::query::{Query, QueryResult};
use crate::sql::ast::{expr_model, Expr, Expression, UnaryOperator};
use crate::value::Datum;
use crate::Value;

verus! {

/// The rows that a subquery gave. One that was not executed gave none.
pub open spec fn rows_given(answers: Seq<Query>, n: usize) -> Seq<Seq<Datum>> {
    if n < answers.len() {
        answers[n as int].rows
    } else {
        Seq::empty()
    }
}

/// The value of a subquery: the first cell of its first row, or NULL.
pub open spec fn first_cell(rows: Seq<Seq<Datum>>) -> Datum {
    if rows.len() > 0 && rows[0].len() > 0 {
        rows[0][0]
    } else {
        Datum::Null
    }
}

/// The first cells of the first `n` rows that have one, as literals.
pub open spec fn first_cells(rows: Seq<Seq<Datum>>, n: nat) -> Seq<Expr>
    decreases n,
{
    if n == 0 {
        Seq::empty()
    } else if rows[n - 1].len() > 0 {
        first_cells(rows, (n - 1) as nat).push(Expr::Literal(rows[n - 1][0]))
    } else {
        first_cells(rows, (n - 1) as nat)
    }
}

/// An expression without subqueries.
pub open spec fn resolved_expr(answers: Seq<Query>, e: Expr) -> Expr
    decreases e,
{
    match e {
        Expr::Subquery(n) => Expr::Literal(first_cell(rows_given(answers, n))),
        Expr::Exists(n, negated) => Expr::Literal(
            Datum::Boolean((rows_given(answers, n).len() > 0) != negated),
        ),
        Expr::InSubquery(x, n, negated) => {
            let rows = rows_given(answers, n);
            let list = Expr::InList(
                Box::new(resolved_expr(answers, *x)),
                first_cells(rows, rows.len()),
            );
            if negated {
                Expr::Unary(UnaryOperator::Not, Box::new(list))
            } else {
                list
            }
        },
        Expr::Binary(l, op, r) => Expr::Binary(
            Box::new(resolved_expr(answers, *l)),
            op,
            Box::new(resolved_expr(answers, *r)),
        ),
        Expr::Unary(op, x) => Expr::Unary(op, Box::new(resolved_expr(answers, *x))),
        Expr::IsNull(x) => Expr::IsNull(Box::new(resolved_expr(answers, *x))),
        Expr::IsNotNull(x) => Expr::IsNotNull(Box::new(resolved_expr(answers, *x))),
        Expr::Cast(x, t) => Expr::Cast(Box::new(resolved_expr(answers, *x)), t),
        Expr::InList(x, list) => Expr::InList(
            Box::new(resolved_expr(answers, *x)),
            Seq::new(
                list.len(),
                |i: int|
                    if 0 <= i < list.len() {
                        resolved_expr(answers, list[i])
                    } else {
                        arbitrary()
                    },
            ),
        ),
        Expr::Like(x, p) => Expr::Like(
            Box::new(resolved_expr(answers, *x)),
            Box::new(resolved_expr(answers, *p)),
        ),
        Expr::Case(arms, other) => Expr::Case(
            Seq::new(
                arms.len(),
                |i: int|
                    if 0 <= i < arms.len() {
                        (resolved_expr(answers, arms[i].0), resolved_expr(answers, arms[i].1))
                    } else {
                        arbitrary()
                    },
            ),
            match other {
                Some(x) => Some(Box::new(resolved_expr(answers, *x))),
                None => None,
            },
        ),
        Expr::Function(name, args, distinct, star, over) => Expr::Function(
            name,
            Seq::new(
                args.len(),
                |i: int|
                    if 0 <= i < args.len() {
                        resolved_expr(answers, args[i])
                    } else {
                        arbitrary()
                    },
            ),
            distinct,
            star,
            over,
        ),
        _ => e,
    }
}

/// A plan without subqueries in its expressions.
pub open spec fn resolved(answers: Seq<Query>, p: Plan) -> Plan
    decreases p,
{
    match p {
        Plan::Leaf(_) => p,
        Plan::Filter(x, e) => Plan::Filter(
            Box::new(resolved(answers, *x)),
            resolved_expr(answers, e),
        ),
        Plan::Projection(x, es, names) => Plan::Projection(
            Box::new(resolved(answers, *x)),
            Seq::new(es.len(), |i: int| resolved_expr(answers, es[i])),
            names,
        ),
        Plan::Aggregate(x, g, a) => Plan::Aggregate(Box::new(resolved(answers, *x)), g, a),
        Plan::Sort(x, k, l) => Plan::Sort(Box::new(resolved(answers, *x)), k, l),
        Plan::Limit(x, l) => Plan::Limit(Box::new(resolved(answers, *x)), l),
        Plan::Window(x, f, n) => Plan::Window(Box::new(resolved(answers, *x)), f, n),
        Plan::Distinct(x) => Plan::Distinct(Box::new(resolved(answers, *x))),
        Plan::SubqueryScan(x) => Plan::SubqueryScan(Box::new(resolved(answers, *x))),
        Plan::HashJoin(l, r, t, a, b) => Plan::HashJoin(
            Box::new(resolved(answers, *l)),
            Box::new(resolved(answers, *r)),
            t,
            a,
            b,
        ),
        Plan::CrossJoin(l, r) => Plan::CrossJoin(
            Box::new(resolved(answers, *l)),
            Box::new(resolved(answers, *r)),
        ),
        Plan::SetUnion(op, l, r) => Plan::SetUnion(
            op,
            Box::new(resolved(answers, *l)),
            Box::new(resolved(answers, *r)),
        ),
        Plan::CreateTableAs(t, x) => Plan::CreateTableAs(t, Box::new(resolved(answers, *x))),
        Plan::InsertSelect(t, c, x) => Plan::InsertSelect(t, c, Box::new(resolved(answers, *x))),
        Plan::Explain(a, x) => Plan::Explain(a, Box::new(resolved(answers, *x))),
    }
}

/// Whether an expression has no subquery.
pub open spec fn plain(e: Expr) -> bool
    decreases e,
{
    match e {
        Expr::Subquery(_) | Expr::Exists(_, _) | Expr::InSubquery(_, _, _) => false,
        Expr::Binary(l, _, r) => plain(*l) && plain(*r),
        Expr::Unary(_, x) => plain(*x),
        Expr::IsNull(x) => plain(*x),
        Expr::IsNotNull(x) => plain(*x),
        Expr::Cast(x, _) => plain(*x),
        Expr::InList(x, list) => plain(*x) && forall|i: int|
            0 <= i < list.len() ==> plain(#[trigger] list[i]),
        Expr::Like(x, p) => plain(*x) && plain(*p),
        Expr::Case(arms, other) => (forall|i: int|
            0 <= i < arms.len() ==> plain((#[trigger] arms[i]).0) && plain(arms[i].1)) && (
        other matches Some(x) ==> plain(*x)),
        Expr::Function(_, args, _, _, _) => forall|i: int|
            0 <= i < args.len() ==> plain(#[trigger] args[i]),
        _ => true,
    }
}

/// The literals of first cells have no subquery.
proof fn lemma_first_cells(rows: Seq<Seq<Datum>>, n: nat)
    requires
        n <= rows.len(),
    ensures
        forall|i: int|
            0 <= i < first_cells(rows, n).len() ==> #[trigger] first_cells(rows, n)[i] is Literal,
    decreases n,
{
    if n > 0 {
        lemma_first_cells(rows, (n - 1) as nat);
    }
}

/// After resolution no subquery is left, at any depth.
pub proof fn law_resolved_is_plain(answers: Seq<Query>, e: Expr)
    ensures
        plain(resolved_expr(answers, e)),
    decreases e,
{
    let r = resolved_expr(answers, e);
    match e {
        Expr::InSubquery(x, n, negated) => {
            let rows = rows_given(answers, n);
            law_resolved_is_plain(answers, *x);
            lemma_first_cells(rows, rows.len());
            let list = Expr::InList(
                Box::new(resolved_expr(answers, *x)),
                first_cells(rows, rows.len()),
            );
            let cells = first_cells(rows, rows.len());
            assert forall|i: int| 0 <= i < cells.len() implies plain(#[trigger] cells[i]) by {
                assert(cells[i] is Literal);
            }
            assert(plain(list));
        },
        Expr::Binary(a, _, b) => {
            law_resolved_is_plain(answers, *a);
            law_resolved_is_plain(answers, *b);
        },
        Expr::Unary(_, x) => {
            law_resolved_is_plain(answers, *x);
        },
        Expr::IsNull(x) => {
            law_resolved_is_plain(answers, *x);
        },
        Expr::IsNotNull(x) => {
            law_resolved_is_plain(answers, *x);
        },
        Expr::Cast(x, _) => {
            law_resolved_is_plain(answers, *x);
        },
        Expr::InList(x, list) => {
            law_resolved_is_plain(answers, *x);
            assert forall|i: int| 0 <= i < list.len() implies plain(
                resolved_expr(answers, #[trigger] list[i]),
            ) by {
                law_resolved_is_plain(answers, list[i]);
            }
        },
        Expr::Like(x, p) => {
            law_resolved_is_plain(answers, *x);
            law_resolved_is_plain(answers, *p);
        },
        Expr::Case(arms, other) => {
            assert forall|i: int| 0 <= i < arms.len() implies plain(
                resolved_expr(answers, (#[trigger] arms[i]).0),
            ) && plain(resolved_expr(answers, arms[i].1)) by {
                law_resolved_is_plain(answers, arms[i].0);
                law_resolved_is_plain(answers, arms[i].1);
            }
            if let Some(x) = other {
                law_resolved_is_plain(answers, *x);
            }
        },
        Expr::Function(_, args, _, _, _) => {
            assert forall|i: int| 0 <= i < args.len() implies plain(
                resolved_expr(answers, #[trigger] args[i]),
            ) by {
                law_resolved_is_plain(answers, args[i]);
            }
        },
        _ => {},
    }
}

/// An expression that calls RANDOM nowhere does not after resolution.
pub proof fn lemma_resolved_calm(answers: Seq<Query>, e: Expr)
    requires
        calm(e),
    ensures
        calm(resolved_expr(answers, e)),
    decreases e,
{
    let r = resolved_expr(answers, e);
    match e {
        Expr::InSubquery(x, n, negated) => {
            let rows = rows_given(answers, n);
            lemma_resolved_calm(answers, *x);
            lemma_first_cells(rows, rows.len());
            let list = Expr::InList(
                Box::new(resolved_expr(answers, *x)),
                first_cells(rows, rows.len()),
            );
            let cells = first_cells(rows, rows.len());
            assert forall|i: int| 0 <= i < cells.len() implies calm(#[trigger] cells[i]) by {
                assert(cells[i] is Literal);
            }
            assert(calm(list));
        },
        Expr::Binary(a, _, b) => {
            lemma_resolved_calm(answers, *a);
            lemma_resolved_calm(answers, *b);
        },
        Expr::Unary(_, x) => {
            lemma_resolved_calm(answers, *x);
        },
        Expr::IsNull(x) => {
            lemma_resolved_calm(answers, *x);
        },
        Expr::IsNotNull(x) => {
            lemma_resolved_calm(answers, *x);
        },
        Expr::Cast(x, _) => {
            lemma_resolved_calm(answers, *x);
        },
        Expr::InList(x, list) => {
            lemma_resolved_calm(answers, *x);
            assert forall|i: int| 0 <= i < list.len() implies calm(
                resolved_expr(answers, #[trigger] list[i]),
            ) by {
                lemma_resolved_calm(answers, list[i]);
            }
        },
        Expr::Like(x, p) => {
            lemma_resolved_calm(answers, *x);
            lemma_resolved_calm(answers, *p);
        },
        Expr::Case(arms, other) => {
            assert forall|i: int| 0 <= i < arms.len() implies calm(
                resolved_expr(answers, (#[trigger] arms[i]).0),
            ) && calm(resolved_expr(answers, arms[i].1)) by {
                lemma_resolved_calm(answers, arms[i].0);
                lemma_resolved_calm(answers, arms[i].1);
            }
            if let Some(x) = other {
                lemma_resolved_calm(answers, *x);
            }
        },
        Expr::Function(_, args, _, _, _) => {
            assert forall|i: int| 0 <= i < args.len() implies calm(
                resolved_expr(answers, #[trigger] args[i]),
            ) by {
                lemma_resolved_calm(answers, args[i]);
            }
        },
        _ => {},
    }
}

/// The value of a subquery.
fn scalar(answers: &Vec<QueryResult>, n: usize) -> (r: Value)
    ensures
        r.deep_view() == first_cell(rows_given(answers.deep_view(), n)),
{
    if n < answers.len() {
        assert(answers.deep_view()[n as int] == answers[n as int].deep_view());
        let rows = &answers[n].rows;
        if rows.len() > 0 {
            assert(rows.deep_view()[0] == rows[0].deep_view());
            if rows[0].len() > 0 {
                assert(rows.deep_view()[0][0] == rows[0][0].deep_view());
                return rows[0][0].clone();
            }
        }
    }
    Value::Null
}

/// Whether a subquery gave a row.
fn gave_rows(answers: &Vec<QueryResult>, n: usize) -> (r: bool)
    ensures
        r == (rows_given(answers.deep_view(), n).len() > 0),
{
    if n < answers.len() {
        assert(answers.deep_view()[n as int] == answers[n as int].deep_view());
        answers[n].rows.len() > 0
    } else {
        false
    }
}

/// The first cells of the rows of a subquery, as literals.
fn literals(answers: &Vec<QueryResult>, n: usize) -> (r: Vec<Expression>)
    ensures
        ({
            let rows = rows_given(answers.deep_view(), n);
            r.deep_view() == first_cells(rows, rows.len())
        }),
{
    let mut out: Vec<Expression> = Vec::new();
    assert(out.deep_view() =~= Seq::empty());
    if n >= answers.len() {
        return out;
    }
    assert(answers.deep_view()[n as int] == answers[n as int].deep_view());
    let rows = &answers[n].rows;
    let ghost all = rows.deep_view();
    let mut i: usize = 0;
    while i < rows.len()
        invariant
            i <= rows.len(),
            all == rows.deep_view(),
            out.deep_view() == first_cells(all, i as nat),
        decreases rows.len() - i,
    {
        assert(all[i as int] == rows[i as int].deep_view());
        if rows[i].len() > 0 {
            let v = rows[i][0].clone();
            assert(all[i as int][0] == rows[i as int][0].deep_view());
            let ghost before = out.deep_view();
            let e = Expression::Literal(v);
            out.push(e);
            assert(out.deep_view() =~= before.push(e.deep_view()));
        }
        i += 1;
    }
    out
}

/// Resolves a list of expressions.
pub fn resolve_list(list: &Vec<Expression>, answers: &Vec<QueryResult>) -> (r: Vec<Expression>)
    ensures
        r.deep_view() == Seq::new(
            list.deep_view().len(),
            |i: int| resolved_expr(answers.deep_view(), list.deep_view()[i]),
        ),
    decreases list,
{
    let ghost a = answers.deep_view();
    let mut out: Vec<Expression> = Vec::new();
    let mut i: usize = 0;
    while i < list.len()
        invariant
            a == answers.deep_view(),
            i <= list.len(),
            out.len() == i,
            forall|k: int|
                0 <= k < i ==> (#[trigger] out[k]).deep_view() == resolved_expr(
                    a,
                    list[k].deep_view(),
                ),
        decreases list.len() - i,
    {
        let e = resolve_subqueries_in_expr(&list[i], answers);
        out.push(e);
        i += 1;
    }
    assert(out.deep_view() =~= Seq::new(
        list.deep_view().len(),
        |i: int| resolved_expr(answers.deep_view(), list.deep_view()[i]),
    ));
    out
}

/// Whether an expression has a subquery.
pub fn contains_subquery(expr: &Expression) -> (r: bool)
    ensures
        r == !plain(expr.deep_view()),
    decreases expr,
{
    match expr {
        Expression::Subquery(_) => true,
        Expression::Exists { subquery: _, negated: _ } => true,
        Expression::InSubquery { expr: _, subquery: _, negated: _ } => true,
        Expression::BinaryOp { left, op: _, right } => contains_subquery(left)
            || contains_subquery(right),
        Expression::UnaryOp { op: _, expr: x } => contains_subquery(x),
        Expression::IsNull(x) => contains_subquery(x),
        Expression::IsNotNull(x) => contains_subquery(x),
        Expression::Cast { expr: x, data_type: _ } => contains_subquery(x),
        Expression::InList { expr: x, list } => {
            assert(expr.deep_view()->InList_1 =~= list.deep_view());
            contains_subquery(x) || any_subquery(list)
        },
        Expression::Like { expr: x, pattern } => contains_subquery(x) || contains_subquery(pattern),
        Expression::Case { when_then, else_expr } => {
            let ghost arms = expr.deep_view()->Case_0;
            let mut i: usize = 0;
            while i < when_then.len()
                invariant
                    i <= when_then.len(),
                    arms == expr.deep_view()->Case_0,
                    arms.len() == when_then.len(),
                    *expr matches Expression::Case { when_then: w, else_expr: _ } && w
                        == *when_then,
                    forall|k: int|
                        0 <= k < when_then.len() ==> (#[trigger] arms[k]) == (
                            expr_model(when_then[k].0),
                            expr_model(when_then[k].1),
                        ),
                    forall|k: int|
                        0 <= k < i ==> plain((#[trigger] arms[k]).0) && plain(arms[k].1),
                decreases when_then.len() - i,
            {
                assert(arms[i as int] == (
                    expr_model(when_then[i as int].0),
                    expr_model(when_then[i as int].1),
                ));
                if contains_subquery(&when_then[i].0) || contains_subquery(&when_then[i].1) {
                    return true;
                }
                i += 1;
            }
            match else_expr {
                Some(x) => contains_subquery(x),
                None => false,
            }
        },
        Expression::Function { name: _, args, distinct: _, count_star: _, over: _ } => {
            assert(expr.deep_view()->Function_1 =~= args.deep_view());
            any_subquery(args)
        },
        _ => false,
    }
}

/// Whether an expression of a list has a subquery.
pub fn any_subquery(list: &Vec<Expression>) -> (r: bool)
    ensures
        r == exists|i: int|
            0 <= i < list.deep_view().len() && !plain(#[trigger] list.deep_view()[i]),
    decreases list,
{
    let ghost all = list.deep_view();
    let mut i: usize = 0;
    while i < list.len()
        invariant
            all == list.deep_view(),
            i <= list.len(),
            forall|k: int| 0 <= k < i ==> plain(#[trigger] all[k]),
        decreases list.len() - i,
    {
        assert(all[i as int] == list[i as int].deep_view());
        if contains_subquery(&list[i]) {
            return true;
        }
        i += 1;
    }
    false
}

/// Replaces the subqueries of an expression by what they gave.
pub fn resolve_subqueries_in_expr(expr: &Expression, answers: &Vec<QueryResult>) -> (r: Expression)
    ensures
        r.deep_view() == resolved_expr(answers.deep_view(), expr.deep_view()),
    decreases expr,
{
    let ghost a = answers.deep_view();
    match expr {
        Expression::Subquery(n) => Expression::Literal(scalar(answers, *n)),
        Expression::Exists { subquery, negated } => Expression::Literal(
            Value::Boolean(gave_rows(answers, *subquery) != *negated),
        ),
        Expression::InSubquery { expr: x, subquery, negated } => {
            let inner = resolve_subqueries_in_expr(x, answers);
            let values = literals(answers, *subquery);
            let list = Expression::InList { expr: Box::new(inner), list: values };
            assert(list.deep_view()->InList_1 =~= values.deep_view());
            if *negated {
                Expression::UnaryOp { op: UnaryOperator::Not, expr: Box::new(list) }
            } else {
                list
            }
        },
        Expression::BinaryOp { left, op, right } => Expression::BinaryOp {
            left: Box::new(resolve_subqueries_in_expr(left, answers)),
            op: *op,
            right: Box::new(resolve_subqueries_in_expr(right, answers)),
        },
        Expression::UnaryOp { op, expr: x } => Expression::UnaryOp {
            op: *op,
            expr: Box::new(resolve_subqueries_in_expr(x, answers)),
        },
        Expression::IsNull(x) => Expression::IsNull(
            Box::new(resolve_subqueries_in_expr(x, answers)),
        ),
        Expression::IsNotNull(x) => Expression::IsNotNull(
            Box::new(resolve_subqueries_in_expr(x, answers)),
        ),
        Expression::Cast { expr: x, data_type } => Expression::Cast {
            expr: Box::new(resolve_subqueries_in_expr(x, answers)),
            data_type: *data_type,
        },
        Expression::InList { expr: x, list } => {
            let l = resolve_list(list, answers);
            let r = Expression::InList {
                expr: Box::new(resolve_subqueries_in_expr(x, answers)),
                list: l,
            };
            assert(expr.deep_view()->InList_1 =~= list.deep_view());
            assert(r.deep_view()->InList_1 =~= l.deep_view());
            assert(r.deep_view()->InList_1 =~= resolved_expr(a, expr.deep_view())->InList_1);
            r
        },
        Expression::Like { expr: x, pattern } => Expression::Like {
            expr: Box::new(resolve_subqueries_in_expr(x, answers)),
            pattern: Box::new(resolve_subqueries_in_expr(pattern, answers)),
        },
        Expression::Case { when_then, else_expr } => {
            let mut out: Vec<(Expression, Expression)> = Vec::new();
            let mut i: usize = 0;
            while i < when_then.len()
                invariant
                    a == answers.deep_view(),
                    i <= when_then.len(),
                    out.len() == i,
                    forall|k: int|
                        0 <= k < i ==> (#[trigger] out[k]).0.deep_view() == resolved_expr(
                            a,
                            when_then[k].0.deep_view(),
                        ) && out[k].1.deep_view() == resolved_expr(
                            a,
                            when_then[k].1.deep_view(),
                        ),
                    decreases_to!(expr => when_then),
                decreases when_then.len() - i,
            {
                assert(decreases_to!(when_then => when_then@[i as int]));
                let w = resolve_subqueries_in_expr(&when_then[i].0, answers);
                let t = resolve_subqueries_in_expr(&when_then[i].1, answers);
                out.push((w, t));
                i += 1;
            }
            let other: Option<Box<Expression>> = match else_expr {
                Some(x) => Some(Box::new(resolve_subqueries_in_expr(x, answers))),
                None => None,
            };
            let r = Expression::Case { when_then: out, else_expr: other };
            assert(r.deep_view()->Case_0 =~= resolved_expr(a, expr.deep_view())->Case_0);
            r
        },
        Expression::Function { name, args, distinct, count_star, over } => {
            let l = resolve_list(args, answers);
            let r = Expression::Function {
                name: name.clone(),
                args: l,
                distinct: *distinct,
                count_star: *count_star,
                over: *over,
            };
            assert(expr.deep_view()->Function_1 =~= args.deep_view());
            assert(r.deep_view()->Function_1 =~= l.deep_view());
            assert(r.deep_view()->Function_1 =~= resolved_expr(
                a,
                expr.deep_view(),
            )->Function_1);
            r
        },
        _ => expr.clone(),
    }
}

/// Replaces the subqueries in the expressions of a plan by what they gave.
pub fn resolve_subqueries_in_plan(plan: PhysicalPlan, answers: &Vec<QueryResult>) -> (r:
    PhysicalPlan)
    ensures
        r.deep_view() == resolved(answers.deep_view(), plan.deep_view()),
    decreases plan,
{
    match plan {
        PhysicalPlan::Filter { input, condition } => PhysicalPlan::Filter {
            input: Box::new(resolve_subqueries_in_plan(*input, answers)),
            condition: resolve_subqueries_in_expr(&condition, answers),
        },
        PhysicalPlan::Projection { input, expressions, column_names } => PhysicalPlan::Projection {
            input: Box::new(resolve_subqueries_in_plan(*input, answers)),
            expressions: resolve_list(&expressions, answers),
            column_names,
        },
        PhysicalPlan::Aggregate { input, group_by, aggregates } => PhysicalPlan::Aggregate {
            input: Box::new(resolve_subqueries_in_plan(*input, answers)),
            group_by,
            aggregates,
        },
        PhysicalPlan::Sort { input, sort_keys, limit } => PhysicalPlan::Sort {
            input: Box::new(resolve_subqueries_in_plan(*input, answers)),
            sort_keys,
            limit,
        },
        PhysicalPlan::Limit { input, limit } => PhysicalPlan::Limit {
            input: Box::new(resolve_subqueries_in_plan(*input, answers)),
            limit,
        },
        PhysicalPlan::Window { input, window_functions, column_names } => PhysicalPlan::Window {
            input: Box::new(resolve_subqueries_in_plan(*input, answers)),
            window_functions,
            column_names,
        },
        PhysicalPlan::Distinct { input } => PhysicalPlan::Distinct {
            input: Box::new(resolve_subqueries_in_plan(*input, answers)),
        },
        PhysicalPlan::SubqueryScan { plan } => PhysicalPlan::SubqueryScan {
            plan: Box::new(resolve_subqueries_in_plan(*plan, answers)),
        },
        PhysicalPlan::HashJoin { left, right, join_type, left_keys, right_keys } => {
            PhysicalPlan::HashJoin {
                left: Box::new(resolve_subqueries_in_plan(*left, answers)),
                right: Box::new(resolve_subqueries_in_plan(*right, answers)),
                join_type,
                left_keys,
                right_keys,
            }
        },
        PhysicalPlan::CrossJoin { left, right } => PhysicalPlan::CrossJoin {
            left: Box::new(resolve_subqueries_in_plan(*left, answers)),
            right: Box::new(resolve_subqueries_in_plan(*right, answers)),
        },
        PhysicalPlan::SetUnion { op, left, right } => PhysicalPlan::SetUnion {
            op,
            left: Box::new(resolve_subqueries_in_plan(*left, answers)),
            right: Box::new(resolve_subqueries_in_plan(*right, answers)),
        },
        PhysicalPlan::CreateTableAs { table_def, source } => PhysicalPlan::CreateTableAs {
            table_def,
            source: Box::new(resolve_subqueries_in_plan(*source, answers)),
        },
        PhysicalPlan::InsertSelect { table_name, columns, source } => PhysicalPlan::InsertSelect {
            table_name,
            columns,
            source: Box::new(resolve_subqueries_in_plan(*source, answers)),
        },
        PhysicalPlan::Explain { analyze, plan } => PhysicalPlan::Explain {
            analyze,
            plan: Box::new(resolve_subqueries_in_plan(*plan, answers)),
        },
        other => other,
    }
}

} // verus!
