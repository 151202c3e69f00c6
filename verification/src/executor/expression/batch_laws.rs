//! Evaluation looks at one row at a time.
use vstd::prelude::*;

use crate::common::error::Fault;
use crate::common::value_cmp::value_order;
use crate::executor::env::{Answer, Question};
use crate::executor::expression::eval::{case_at, eval, eval_arms, eval_list, name_at};
use crate::executor::expression::functions::{
    applied, first_present, func_of, takes, Func,
};
use crate::executor::expression::json_fn::{
    json_array_column, json_object_column, row_members, value_doc,
};
use crate::executor::expression::ops::{all_constant, found, in_list};
use crate::executor::expression::strings::concat_row;
use crate::executor::vector::{col_at, Chunk, Column};
use crate::sql::ast::Expr;
use crate::text::upper_text;
use crate::value::Datum;

verus! {

/// Row `i` of a batch of `n` rows, and row `j` of a batch of `m` rows.
pub struct RowPair {
    pub n: nat,
    pub i: int,
    pub m: nat,
    pub j: int,
}

/// Whether columns of two batches are alike at a pair of rows: constants of one
/// value, or columns that have the same value there, where the batches have the
/// rows.
pub open spec fn alike(a: Column, b: Column, p: RowPair) -> bool {
    match (a, b) {
        (Column::Constant(x, k), Column::Constant(y, l)) => x == y && k == p.n && l == p.m,
        (Column::Flat(s), Column::Flat(t)) => {
            &&& s.len() == p.n
            &&& t.len() == p.m
            &&& 0 <= p.i < p.n && 0 <= p.j < p.m ==> s[p.i] == t[p.j]
        },
        _ => false,
    }
}

/// Whether columns are alike one by one.
pub open spec fn all_alike(a: Seq<Column>, b: Seq<Column>, p: RowPair) -> bool {
    a.len() == b.len() && forall|k: int|
        #![trigger a[k]]
        #![trigger b[k]]
        0 <= k < a.len() ==> alike(a[k], b[k], p)
}

/// Whether results are alike columns, or one error.
pub open spec fn results_alike(
    a: Result<Column, Fault>,
    b: Result<Column, Fault>,
    p: RowPair,
) -> bool {
    match (a, b) {
        (Ok(x), Ok(y)) => alike(x, y, p),
        (Err(x), Err(y)) => x == y,
        _ => false,
    }
}

/// Whether batches have alike columns.
pub open spec fn batches_alike(c: Chunk, d: Chunk, p: RowPair) -> bool {
    c.count == p.n && d.count == p.m && all_alike(c.columns, d.columns, p)
}

/// Whether the rows are there.
spec fn both(p: RowPair) -> bool {
    0 <= p.i < p.n && 0 <= p.j < p.m
}

proof fn lemma_present(a: Seq<Column>, b: Seq<Column>, p: RowPair, k: int)
    requires
        all_alike(a, b, p),
        both(p),
        0 <= k,
    ensures
        first_present(a, p.i, k) == first_present(b, p.j, k),
    decreases a.len() - k,
{
    if k < a.len() {
        assert(alike(a[k], b[k], p));
        lemma_present(a, b, p, k + 1);
    }
}

proof fn lemma_concat(
    o: spec_fn(Question) -> Answer,
    a: Seq<Column>,
    b: Seq<Column>,
    p: RowPair,
    k: int,
)
    requires
        all_alike(a, b, p),
        both(p),
        k <= a.len(),
    ensures
        concat_row(o, a, p.i, k) == concat_row(o, b, p.j, k),
    decreases k,
{
    if k > 0 {
        assert(alike(a[k - 1], b[k - 1], p));
        lemma_concat(o, a, b, p, k - 1);
    }
}

proof fn lemma_members(
    o: spec_fn(Question) -> Answer,
    a: Seq<Column>,
    x: Seq<Column>,
    b: Seq<Column>,
    y: Seq<Column>,
    p: RowPair,
    k: int,
)
    requires
        all_alike(a, b, p),
        all_alike(x, y, p),
        both(p),
        k <= a.len(),
        k <= x.len(),
    ensures
        row_members(o, a, x, p.i, k) == row_members(o, b, y, p.j, k),
    decreases k,
{
    if k > 0 {
        assert(alike(a[k - 1], b[k - 1], p));
        assert(alike(x[k - 1], y[k - 1], p));
        lemma_members(o, a, x, b, y, p, k - 1);
    }
}

proof fn lemma_array(
    o: spec_fn(Question) -> Answer,
    a: Seq<Column>,
    b: Seq<Column>,
    p: RowPair,
)
    requires
        all_alike(a, b, p),
    ensures
        alike(json_array_column(o, a, p.n), json_array_column(o, b, p.m), p),
{
    if both(p) {
        let x = Seq::new(a.len(), |k: int| value_doc(o, col_at(a[k], p.i)));
        let y = Seq::new(b.len(), |k: int| value_doc(o, col_at(b[k], p.j)));
        assert forall|k: int| 0 <= k < x.len() implies x[k] == y[k] by {
            assert(alike(a[k], b[k], p));
        }
        assert(x =~= y);
    }
}

proof fn lemma_found(d: Datum, a: Seq<Column>, b: Seq<Column>, p: RowPair)
    requires
        all_alike(a, b, p),
        both(p),
    ensures
        found(d, a, p.i) == found(d, b, p.j),
{
    if found(d, a, p.i) {
        let k = choose|k: int| 0 <= k < a.len() && value_order(d, #[trigger] col_at(a[k], p.i)) == 0;
        assert(alike(a[k], b[k], p));
        assert(value_order(d, col_at(b[k], p.j)) == 0);
    }
    if found(d, b, p.j) {
        let k = choose|k: int| 0 <= k < b.len() && value_order(d, #[trigger] col_at(b[k], p.j)) == 0;
        assert(alike(a[k], b[k], p));
        assert(value_order(d, col_at(a[k], p.i)) == 0);
    }
}

proof fn lemma_constant_found(d: Datum, a: Seq<Column>, b: Seq<Column>, p: RowPair)
    requires
        all_alike(a, b, p),
        all_constant(a),
    ensures
        found(d, a, 0) == found(d, b, 0),
{
    if found(d, a, 0) {
        let k = choose|k: int| 0 <= k < a.len() && value_order(d, #[trigger] col_at(a[k], 0)) == 0;
        assert(alike(a[k], b[k], p) && a[k] is Constant);
        assert(value_order(d, col_at(b[k], 0)) == 0);
    }
    if found(d, b, 0) {
        let k = choose|k: int| 0 <= k < b.len() && value_order(d, #[trigger] col_at(b[k], 0)) == 0;
        assert(alike(a[k], b[k], p) && a[k] is Constant);
        assert(value_order(d, col_at(a[k], 0)) == 0);
    }
}

/// Membership is alike.
proof fn lemma_in_list(x: Column, y: Column, a: Seq<Column>, b: Seq<Column>, p: RowPair)
    requires
        alike(x, y, p),
        all_alike(a, b, p),
    ensures
        alike(in_list(x, a), in_list(y, b), p),
{
    assert(all_constant(a) == all_constant(b)) by {
        assert forall|k: int| 0 <= k < a.len() implies #[trigger] a[k] is Constant
            == b[k] is Constant by {
            assert(alike(a[k], b[k], p));
        }
        if all_constant(a) {
            assert forall|k: int| 0 <= k < b.len() implies #[trigger] b[k] is Constant by {
                assert(a[k] is Constant);
                assert(alike(a[k], b[k], p));
            }
        }
    }
    if all_constant(a) && x is Constant {
        lemma_constant_found(x->Constant_0, a, b, p);
    }
    if both(p) {
        lemma_found(col_at(x, p.i), a, b, p);
    }
}

/// What a function computes is alike.
#[verifier::spinoff_prover]
#[verifier::rlimit(60)]
proof fn lemma_applied(
    o: spec_fn(Question) -> Answer,
    f: Func,
    a: Seq<Column>,
    b: Seq<Column>,
    p: RowPair,
)
    requires
        all_alike(a, b, p),
        takes(f, a.len()),
        !(f is Random || f is Round || f is JsonObject),
    ensures
        results_alike(applied(o, f, a, p.n), applied(o, f, b, p.m), p),
{
    if a.len() > 0 {
        assert(alike(a[0], b[0], p));
    }
    if a.len() > 1 {
        assert(alike(a[1], b[1], p));
    }
    if a.len() > 2 {
        assert(alike(a[2], b[2], p));
    }
    if both(p) {
        lemma_present(a, b, p, 0);
        lemma_concat(o, a, b, p, a.len() as int);
    }
    lemma_array(o, a, b, p);
}

/// Whether lists of columns are alike, or one error.
spec fn lists_alike(
    a: Result<Seq<Column>, Fault>,
    b: Result<Seq<Column>, Fault>,
    p: RowPair,
) -> bool {
    match (a, b) {
        (Ok(x), Ok(y)) => all_alike(x, y, p),
        (Err(x), Err(y)) => x == y,
        _ => false,
    }
}

/// Whether arms are alike one by one.
spec fn arms_alike(a: Seq<(Column, Column)>, b: Seq<(Column, Column)>, p: RowPair) -> bool {
    a.len() == b.len() && forall|k: int|
        #![trigger a[k]]
        #![trigger b[k]]
        0 <= k < a.len() ==> alike(a[k].0, b[k].0, p) && alike(a[k].1, b[k].1, p)
}

/// Whether lists of arms are alike, or one error.
spec fn arm_lists_alike(
    a: Result<Seq<(Column, Column)>, Fault>,
    b: Result<Seq<(Column, Column)>, Fault>,
    p: RowPair,
) -> bool {
    match (a, b) {
        (Ok(x), Ok(y)) => arms_alike(x, y, p),
        (Err(x), Err(y)) => x == y,
        _ => false,
    }
}

proof fn lemma_case(
    a: Seq<(Column, Column)>,
    x: Column,
    b: Seq<(Column, Column)>,
    y: Column,
    p: RowPair,
    k: int,
)
    requires
        arms_alike(a, b, p),
        alike(x, y, p),
        both(p),
        0 <= k,
    ensures
        case_at(a, x, p.i, k) == case_at(b, y, p.j, k),
    decreases a.len() - k,
{
    if k < a.len() {
        assert(alike(a[k].0, b[k].0, p) && alike(a[k].1, b[k].1, p));
        lemma_case(a, x, b, y, p, k + 1);
    }
}

/// What an expression is in a row depends on the values in that row, and not on
/// the batch that the row stands in. Whether it has a value depends on neither.
#[verifier::spinoff_prover]
#[verifier::rlimit(60)]
pub proof fn law_eval_by_rows(
    o: spec_fn(Question) -> Answer,
    e: Expr,
    c: Chunk,
    d: Chunk,
    names: Seq<Seq<char>>,
    p: RowPair,
)
    requires
        batches_alike(c, d, p),
    ensures
        results_alike(eval(o, e, c, names), eval(o, e, d, names), p),
    decreases e, 0int,
{
    match e {
        Expr::ColumnRef(_, column) => {
            if let Some(k) = name_at(names, column, 0) {
                lemma_name_place(names, column, 0);
                if k < c.columns.len() {
                    assert(alike(c.columns[k], d.columns[k], p));
                }
            }
        },
        Expr::Binary(l, op, r) => {
            law_eval_by_rows(o, *l, c, d, names, p);
            law_eval_by_rows(o, *r, c, d, names, p);
        },
        Expr::Unary(_, x) => law_eval_by_rows(o, *x, c, d, names, p),
        Expr::IsNull(x) => law_eval_by_rows(o, *x, c, d, names, p),
        Expr::IsNotNull(x) => law_eval_by_rows(o, *x, c, d, names, p),
        Expr::Cast(x, _) => law_eval_by_rows(o, *x, c, d, names, p),
        Expr::InList(x, list) => {
            law_eval_by_rows(o, *x, c, d, names, p);
            lemma_list(o, list, 0, 1, c, d, names, p);
            if let (Ok(a), Ok(bs)) = (eval(o, *x, c, names), eval_list(o, list, 0, 1, c, names)) {
                lemma_in_list(
                    a,
                    eval(o, *x, d, names)->Ok_0,
                    bs,
                    eval_list(o, list, 0, 1, d, names)->Ok_0,
                    p,
                );
            }
        },
        Expr::Like(x, q) => {
            law_eval_by_rows(o, *x, c, d, names, p);
            law_eval_by_rows(o, *q, c, d, names, p);
        },
        Expr::Case(arms, other) => {
            lemma_arms(o, arms, 0, c, d, names, p);
            if let Some(x) = other {
                law_eval_by_rows(o, *x, c, d, names, p);
            }
            if let Ok(a) = eval_arms(o, arms, 0, c, names) {
                let b = eval_arms(o, arms, 0, d, names)->Ok_0;
                let (u, v) = match other {
                    Some(x) => (eval(o, *x, c, names), eval(o, *x, d, names)),
                    None => (
                        Ok(Column::Constant(Datum::Null, c.count)),
                        Ok(Column::Constant(Datum::Null, d.count)),
                    ),
                };
                if let Ok(x) = u {
                    if both(p) {
                        lemma_case(a, x, b, v->Ok_0, p, 0);
                    }
                }
            }
        },
        Expr::Function(name, args, _, _, _) => {
            if let Some(f) = func_of(upper_text(name)) {
                if takes(f, args.len()) {
                    lemma_call(o, f, args, c, d, names, p);
                    if f is Round && args.len() > 0 {
                        law_eval_by_rows(o, args[0], c, d, names, p);
                    }
                }
            }
        },
        _ => {},
    }
}

/// The call of a function is alike.
proof fn lemma_call(
    o: spec_fn(Question) -> Answer,
    f: Func,
    args: Seq<Expr>,
    c: Chunk,
    d: Chunk,
    names: Seq<Seq<char>>,
    p: RowPair,
)
    requires
        batches_alike(c, d, p),
        takes(f, args.len()),
    ensures
        f is JsonObject ==> {
            let (a, x) = (
                eval_list(o, args, 0, 2, c, names),
                eval_list(o, args, 1, 2, c, names),
            );
            let (b, y) = (
                eval_list(o, args, 0, 2, d, names),
                eval_list(o, args, 1, 2, d, names),
            );
            &&& lists_alike(a, b, p)
            &&& lists_alike(x, y, p)
            &&& a is Ok && x is Ok ==> alike(
                json_object_column(o, a->Ok_0, x->Ok_0, p.n),
                json_object_column(o, b->Ok_0, y->Ok_0, p.m),
                p,
            )
        },
        !(f is JsonObject || f is Random || f is Round) ==> {
            let a = eval_list(o, args, 0, 1, c, names);
            let b = eval_list(o, args, 0, 1, d, names);
            &&& lists_alike(a, b, p)
            &&& a is Ok ==> results_alike(
                applied(o, f, a->Ok_0, p.n),
                applied(o, f, b->Ok_0, p.m),
                p,
            )
        },
    decreases args, args.len() + 1,
{
    if f is JsonObject {
        lemma_list(o, args, 0, 2, c, d, names, p);
        lemma_list(o, args, 1, 2, c, d, names, p);
        let (a, x) = (eval_list(o, args, 0, 2, c, names), eval_list(o, args, 1, 2, c, names));
        let (b, y) = (eval_list(o, args, 0, 2, d, names), eval_list(o, args, 1, 2, d, names));
        if a is Ok && x is Ok && both(p) {
            lemma_list_len(o, args, 0, 2, c, names);
            lemma_list_len(o, args, 1, 2, c, names);
            lemma_members(
                o,
                a->Ok_0,
                x->Ok_0,
                b->Ok_0,
                y->Ok_0,
                p,
                a->Ok_0.len() as int,
            );
        }
    } else if !(f is Random || f is Round) {
        lemma_list(o, args, 0, 1, c, d, names, p);
        if let Ok(a) = eval_list(o, args, 0, 1, c, names) {
            lemma_list_len(o, args, 0, 1, c, names);
            lemma_applied(o, f, a, eval_list(o, args, 0, 1, d, names)->Ok_0, p);
        }
    }
}

/// How many columns a list gives.
pub proof fn lemma_list_len(
    o: spec_fn(Question) -> Answer,
    list: Seq<Expr>,
    i: int,
    step: int,
    c: Chunk,
    names: Seq<Seq<char>>,
)
    requires
        0 <= i,
        step == 1 || step == 2,
    ensures
        eval_list(o, list, i, step, c, names) matches Ok(a) ==> a.len() == if i >= list.len() {
            0
        } else {
            (list.len() - i + step - 1) / step
        },
    decreases if i < list.len() { list.len() - i } else { 0 },
{
    if i < list.len() {
        lemma_list_len(o, list, i + step, step, c, names);
    }
}

/// Lists are alike.
proof fn lemma_list(
    o: spec_fn(Question) -> Answer,
    list: Seq<Expr>,
    i: int,
    step: int,
    c: Chunk,
    d: Chunk,
    names: Seq<Seq<char>>,
    p: RowPair,
)
    requires
        batches_alike(c, d, p),
    ensures
        lists_alike(
            eval_list(o, list, i, step, c, names),
            eval_list(o, list, i, step, d, names),
            p,
        ),
    decreases list, if i < list.len() { list.len() - i } else { 0 },
{
    if 0 <= i < list.len() && step > 0 {
        law_eval_by_rows(o, list[i], c, d, names, p);
        lemma_list(o, list, i + step, step, c, d, names, p);
        let (a, b) = (
            eval_list(o, list, i, step, c, names),
            eval_list(o, list, i, step, d, names),
        );
        if let (Ok(x), Ok(y)) = (a, b) {
            let (u, v) = (
                eval_list(o, list, i + step, step, c, names)->Ok_0,
                eval_list(o, list, i + step, step, d, names)->Ok_0,
            );
            assert forall|k: int|
                #![trigger x[k]]
                #![trigger y[k]]
                0 <= k < x.len() implies alike(x[k], y[k], p) by {
                if k > 0 {
                    assert(x[k] == u[k - 1] && y[k] == v[k - 1]);
                }
            }
        }
    }
}

/// Arms are alike.
proof fn lemma_arms(
    o: spec_fn(Question) -> Answer,
    arms: Seq<(Expr, Expr)>,
    i: int,
    c: Chunk,
    d: Chunk,
    names: Seq<Seq<char>>,
    p: RowPair,
)
    requires
        batches_alike(c, d, p),
    ensures
        arm_lists_alike(
            eval_arms(o, arms, i, c, names),
            eval_arms(o, arms, i, d, names),
            p,
        ),
    decreases arms, arms.len() - i,
{
    if 0 <= i < arms.len() {
        law_eval_by_rows(o, arms[i].0, c, d, names, p);
        law_eval_by_rows(o, arms[i].1, c, d, names, p);
        lemma_arms(o, arms, i + 1, c, d, names, p);
        let (a, b) = (eval_arms(o, arms, i, c, names), eval_arms(o, arms, i, d, names));
        if let (Ok(x), Ok(y)) = (a, b) {
            let (u, v) = (
                eval_arms(o, arms, i + 1, c, names)->Ok_0,
                eval_arms(o, arms, i + 1, d, names)->Ok_0,
            );
            assert forall|k: int|
                #![trigger x[k]]
                #![trigger y[k]]
                0 <= k < x.len() implies alike(x[k].0, y[k].0, p) && alike(x[k].1, y[k].1, p) by {
                if k > 0 {
                    assert(x[k] == u[k - 1] && y[k] == v[k - 1]);
                }
            }
        }
    }
}

/// A name is found at or behind the place where the search starts.
pub proof fn lemma_name_place(names: Seq<Seq<char>>, name: Seq<char>, i: int)
    requires
        0 <= i,
    ensures
        name_at(names, name, i) matches Some(k) ==> i <= k < names.len(),
    decreases names.len() - i,
{
    if i < names.len() {
        lemma_name_place(names, name, i + 1);
    }
}

} // verus!
