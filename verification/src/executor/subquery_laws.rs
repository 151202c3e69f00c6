//! What subqueries are in an expression.
use vstd::prelude::*;

use crate::common::value_cmp::value_order;
use crate::executor::env::{Answer, Question};
use crate::executor::expression::call_laws::lemma_args;
use crate::executor::expression::eval::eval;
use crate::executor::expression::operator_laws::{cell, law_in, listed_in};
use crate::executor::subquery::{first_cells, plain, resolved_expr};
use crate::executor::vector::Chunk;
use crate::query::Query;
use crate::sql::ast::Expr;
use crate::value::Datum;

verus! {

/// The value of a subquery is the first cell of its first row, and NULL where it gave no
/// row. EXISTS is true where it gave a row, and NOT EXISTS where it gave none.
pub proof fn law_subquery(
    o: spec_fn(Question) -> Answer,
    answers: Seq<Query>,
    n: usize,
    c: Chunk,
    names: Seq<Seq<char>>,
    i: int,
)
    requires
        0 <= i < c.count,
        n < answers.len(),
    ensures
        ({
            let rows = answers[n as int].rows;
            let v = cell(o, resolved_expr(answers, Expr::Subquery(n)), c, names, i);
            &&& rows.len() > 0 && rows[0].len() > 0 ==> v == Some(rows[0][0])
            &&& rows.len() == 0 ==> v == Some(Datum::Null)
            &&& cell(o, resolved_expr(answers, Expr::Exists(n, false)), c, names, i) == Some(
                Datum::Boolean(rows.len() != 0),
            )
            &&& cell(o, resolved_expr(answers, Expr::Exists(n, true)), c, names, i) == Some(
                Datum::Boolean(rows.len() == 0),
            )
        }),
{
}

/// The literals are the first cells of the rows.
proof fn lemma_cells(rows: Seq<Seq<Datum>>, n: nat)
    requires
        n <= rows.len(),
    ensures
        forall|k: int|
            0 <= k < first_cells(rows, n).len() ==> given_first(
                rows,
                n as int,
                #[trigger] first_cells(rows, n)[k],
            ),
        forall|j: int|
            0 <= j < n && (#[trigger] rows[j]).len() > 0 ==> first_cells(rows, n).contains(
                Expr::Literal(rows[j][0]),
            ),
    decreases n,
{
    if n > 0 {
        let m = (n - 1) as nat;
        lemma_cells(rows, m);
        let (before, all) = (first_cells(rows, m), first_cells(rows, n));
        assert forall|k: int| 0 <= k < all.len() implies given_first(
            rows,
            n as int,
            #[trigger] all[k],
        ) by {
            if k < before.len() {
                assert(all[k] == before[k]);
                assert(given_first(rows, m as int, before[k]));
                let j = choose|j: int|
                    0 <= j < m && (#[trigger] rows[j]).len() > 0 && before[k] == Expr::Literal(
                        rows[j][0],
                    );
                assert(rows[j].len() > 0);
            } else {
                assert(rows[n - 1].len() > 0);
            }
        }
        assert forall|j: int| 0 <= j < n && (#[trigger] rows[j]).len() > 0 implies all.contains(
            Expr::Literal(rows[j][0]),
        ) by {
            let e = Expr::Literal(rows[j][0]);
            if j < m {
                let k = before.index_of(e);
                assert(all[k] == before[k]);
            } else {
                assert(all[all.len() - 1] == e);
            }
        }
    }
}

/// Whether an expression is the first cell of one of the first `n` rows.
pub open spec fn given_first(rows: Seq<Seq<Datum>>, n: int, e: Expr) -> bool {
    exists|j: int| 0 <= j < n && (#[trigger] rows[j]).len() > 0 && e == Expr::Literal(rows[j][0])
}

/// Whether one of the rows has a value, in the order of values, in its first cell.
pub open spec fn gave(rows: Seq<Seq<Datum>>, d: Datum) -> bool {
    exists|j: int|
        0 <= j < rows.len() && (#[trigger] rows[j]).len() > 0 && value_order(d, rows[j][0]) == 0
}

/// IN with a subquery is true where one of its rows has the value in its first cell, and
/// NOT IN where none has.
pub proof fn law_in_subquery(
    o: spec_fn(Question) -> Answer,
    answers: Seq<Query>,
    e: Expr,
    n: usize,
    d: Datum,
    c: Chunk,
    names: Seq<Seq<char>>,
    i: int,
)
    requires
        0 <= i < c.count,
        n < answers.len(),
        cell(o, resolved_expr(answers, e), c, names, i) == Some(d),
    ensures
        cell(o, resolved_expr(answers, Expr::InSubquery(Box::new(e), n, false)), c, names, i)
            == Some(Datum::Boolean(gave(answers[n as int].rows, d))),
        cell(o, resolved_expr(answers, Expr::InSubquery(Box::new(e), n, true)), c, names, i) == Some(
            Datum::Boolean(!gave(answers[n as int].rows, d)),
        ),
{
    let rows = answers[n as int].rows;
    let list = first_cells(rows, rows.len());
    let x = resolved_expr(answers, e);
    lemma_cells(rows, rows.len());
    assert forall|k: int| 0 <= k < list.len() implies eval(o, #[trigger] list[k], c, names) is Ok
        && cell(o, list[k], c, names, i) is Some by {
        assert(given_first(rows, rows.len() as int, list[k]));
    }
    lemma_args(o, list, 0, c, names);
    law_in(o, x, list, c, names, i, d);
    assert(listed_in(o, d, list, c, names, i) == gave(rows, d)) by {
        if listed_in(o, d, list, c, names, i) {
            let k = choose|k: int|
                0 <= k < list.len() && (cell(o, #[trigger] list[k], c, names, i) matches Some(v)
                    && value_order(d, v) == 0);
            assert(given_first(rows, rows.len() as int, list[k]));
            let j = choose|j: int|
                0 <= j < rows.len() && (#[trigger] rows[j]).len() > 0 && list[k] == Expr::Literal(
                    rows[j][0],
                );
            assert(rows[j].len() > 0 && value_order(d, rows[j][0]) == 0);
        }
        if gave(rows, d) {
            let j = choose|j: int|
                0 <= j < rows.len() && (#[trigger] rows[j]).len() > 0 && value_order(d, rows[j][0])
                    == 0;
            let lit = Expr::Literal(rows[j][0]);
            let k = list.index_of(lit);
            assert(list[k] == lit);
            assert(cell(o, list[k], c, names, i) == Some(rows[j][0]));
        }
    }
}

/// An expression without subqueries stays as it is.
pub proof fn law_plain_stays(answers: Seq<Query>, e: Expr)
    requires
        plain(e),
    ensures
        resolved_expr(answers, e) == e,
    decreases e,
{
    match e {
        Expr::Binary(a, _, b) => {
            law_plain_stays(answers, *a);
            law_plain_stays(answers, *b);
        },
        Expr::Unary(_, x) => law_plain_stays(answers, *x),
        Expr::IsNull(x) => law_plain_stays(answers, *x),
        Expr::IsNotNull(x) => law_plain_stays(answers, *x),
        Expr::Cast(x, _) => law_plain_stays(answers, *x),
        Expr::InList(x, list) => {
            law_plain_stays(answers, *x);
            let r = resolved_expr(answers, e)->InList_1;
            assert forall|i: int| 0 <= i < list.len() implies #[trigger] r[i] == list[i] by {
                law_plain_stays(answers, list[i]);
            }
            assert(r =~= list);
        },
        Expr::Like(x, p) => {
            law_plain_stays(answers, *x);
            law_plain_stays(answers, *p);
        },
        Expr::Case(arms, other) => {
            let r = resolved_expr(answers, e)->Case_0;
            assert forall|i: int| 0 <= i < arms.len() implies #[trigger] r[i] == arms[i] by {
                assert(plain(arms[i].0) && plain(arms[i].1));
                law_plain_stays(answers, arms[i].0);
                law_plain_stays(answers, arms[i].1);
            }
            assert(r =~= arms);
            if let Some(x) = other {
                law_plain_stays(answers, *x);
            }
        },
        Expr::Function(_, args, _, _, _) => {
            let r = resolved_expr(answers, e)->Function_1;
            assert forall|i: int| 0 <= i < args.len() implies #[trigger] r[i] == args[i] by {
                law_plain_stays(answers, args[i]);
            }
            assert(r =~= args);
        },
        _ => {},
    }
}

} // verus!
