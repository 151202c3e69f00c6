//! Evaluation looks at the cells of columns.
use vstd::prelude::*;

use crate::common::error::Fault;
use crate::common::value_cmp::value_order;
use crate::executor::env::{Answer, Question};
use crate::executor::expression::batch_laws::{
    law_eval_by_rows, lemma_list_len, lemma_name_place, RowPair,
};
use crate::executor::expression::eval::{case_at, eval, eval_arms, eval_list, name_at};
use crate::executor::expression::functions::{
    applied, constant_text, first_present, func_of, takes, Func,
};
use crate::executor::expression::json_fn::{
    json_array_column, json_object_column, row_members, value_doc,
};
use crate::executor::expression::ops::{all_constant, found, in_list};
use crate::executor::expression::rowwise::{map_column, zip_columns};
use crate::executor::expression::strings::concat_row;
use crate::executor::vector::{col_at, col_len, Chunk, Column};
use crate::sql::ast::Expr;
use crate::text::upper_text;
use crate::value::Datum;

verus! {

/// Whether an expression reads no column.
pub open spec fn reads_none(e: Expr) -> bool
    decreases e,
{
    match e {
        Expr::ColumnRef(_, _) => false,
        Expr::Binary(l, _, r) => reads_none(*l) && reads_none(*r),
        Expr::Unary(_, x) => reads_none(*x),
        Expr::IsNull(x) => reads_none(*x),
        Expr::IsNotNull(x) => reads_none(*x),
        Expr::Cast(x, _) => reads_none(*x),
        Expr::InList(x, list) => reads_none(*x) && forall|i: int|
            #![trigger list[i]]
            0 <= i < list.len() ==> reads_none(list[i]),
        Expr::Like(x, p) => reads_none(*x) && reads_none(*p),
        Expr::Case(arms, other) => (match other {
            Some(x) => reads_none(*x),
            None => true,
        }) && forall|i: int|
            #![trigger arms[i]]
            0 <= i < arms.len() ==> reads_none(arms[i].0) && reads_none(arms[i].1),
        Expr::Function(_, args, _, _, _) => forall|i: int|
            #![trigger args[i]]
            0 <= i < args.len() ==> reads_none(args[i]),
        Expr::InSubquery(x, _, _) => reads_none(*x),
        _ => true,
    }
}

/// The position of the argument of a function that has to be a constant text.
pub open spec fn text_place(f: Func) -> Option<int> {
    match f {
        Func::StrfTime | Func::StrpTime | Func::DateTrunc => Some(0),
        Func::Match => Some(1),
        Func::DateAdd | Func::DateSub | Func::DateDiff => Some(2),
        _ => None,
    }
}

/// Whether an expression does not tell constant columns from others: where a
/// function wants a constant text, the text is made without columns.
pub open spec fn tells_no_constants(e: Expr) -> bool
    decreases e,
{
    match e {
        Expr::Binary(l, _, r) => tells_no_constants(*l) && tells_no_constants(*r),
        Expr::Unary(_, x) => tells_no_constants(*x),
        Expr::IsNull(x) => tells_no_constants(*x),
        Expr::IsNotNull(x) => tells_no_constants(*x),
        Expr::Cast(x, _) => tells_no_constants(*x),
        Expr::InList(x, list) => tells_no_constants(*x) && forall|i: int|
            #![trigger list[i]]
            0 <= i < list.len() ==> tells_no_constants(list[i]),
        Expr::Like(x, p) => tells_no_constants(*x) && tells_no_constants(*p),
        Expr::Case(arms, other) => (match other {
            Some(x) => tells_no_constants(*x),
            None => true,
        }) && forall|i: int|
            #![trigger arms[i]]
            0 <= i < arms.len() ==> tells_no_constants(arms[i].0) && tells_no_constants(arms[i].1),
        Expr::Function(name, args, _, _, _) => {
            &&& forall|i: int|
                #![trigger args[i]]
                0 <= i < args.len() ==> tells_no_constants(args[i])
            &&& func_of(upper_text(name)) matches Some(f) ==> (text_place(f) matches Some(k) ==> (k
                < args.len() ==> reads_none(args[k])))
        },
        _ => true,
    }
}

/// Whether no expression of a list tells constant columns from others.
pub open spec fn none_tells(list: Seq<Expr>) -> bool {
    forall|i: int| #![trigger list[i]] 0 <= i < list.len() ==> tells_no_constants(list[i])
}

/// Whether no arm of a CASE tells constant columns from others.
pub open spec fn no_arm_tells(arms: Seq<(Expr, Expr)>) -> bool {
    forall|i: int|
        #![trigger arms[i]]
        0 <= i < arms.len() ==> tells_no_constants(arms[i].0) && tells_no_constants(arms[i].1)
}

/// Whether columns of two batches have the same value at a pair of rows, where
/// the batches have the rows.
pub open spec fn same_cells(a: Column, b: Column, p: RowPair) -> bool {
    &&& col_len(a) == p.n
    &&& col_len(b) == p.m
    &&& 0 <= p.i < p.n && 0 <= p.j < p.m ==> col_at(a, p.i) == col_at(b, p.j)
}

/// Whether columns have the same values one by one.
pub open spec fn all_same(a: Seq<Column>, b: Seq<Column>, p: RowPair) -> bool {
    a.len() == b.len() && forall|k: int|
        #![trigger a[k]]
        #![trigger b[k]]
        0 <= k < a.len() ==> same_cells(a[k], b[k], p)
}

/// Whether results have the same value where both are columns, and are both
/// columns or one error where they are told to be.
pub open spec fn results_same(
    a: Result<Column, Fault>,
    b: Result<Column, Fault>,
    p: RowPair,
    told: bool,
) -> bool {
    match (a, b) {
        (Ok(x), Ok(y)) => same_cells(x, y, p),
        (Err(x), Err(y)) => told ==> x == y,
        _ => !told,
    }
}

/// Whether batches have columns with the same values.
pub open spec fn batches_same(c: Chunk, d: Chunk, p: RowPair) -> bool {
    c.count == p.n && d.count == p.m && all_same(c.columns, d.columns, p)
}

/// Whether the rows are there.
spec fn both(p: RowPair) -> bool {
    0 <= p.i < p.n && 0 <= p.j < p.m
}

proof fn lemma_present(a: Seq<Column>, b: Seq<Column>, p: RowPair, k: int)
    requires
        all_same(a, b, p),
        both(p),
        0 <= k,
    ensures
        first_present(a, p.i, k) == first_present(b, p.j, k),
    decreases a.len() - k,
{
    if k < a.len() {
        assert(same_cells(a[k], b[k], p));
        lemma_present(a, b, p, k + 1);
    }
}

proof fn lemma_concat(
    o: spec_fn(Question) -> Answer,
    a: Seq<Column>,
    b: Seq<Column>,
    p: RowPair,
    k: int,
)
    requires
        all_same(a, b, p),
        both(p),
        k <= a.len(),
    ensures
        concat_row(o, a, p.i, k) == concat_row(o, b, p.j, k),
    decreases k,
{
    if k > 0 {
        assert(same_cells(a[k - 1], b[k - 1], p));
        lemma_concat(o, a, b, p, k - 1);
    }
}

proof fn lemma_members(
    o: spec_fn(Question) -> Answer,
    a: Seq<Column>,
    x: Seq<Column>,
    b: Seq<Column>,
    y: Seq<Column>,
    p: RowPair,
    k: int,
)
    requires
        all_same(a, b, p),
        all_same(x, y, p),
        both(p),
        k <= a.len(),
        k <= x.len(),
    ensures
        row_members(o, a, x, p.i, k) == row_members(o, b, y, p.j, k),
    decreases k,
{
    if k > 0 {
        assert(same_cells(a[k - 1], b[k - 1], p));
        assert(same_cells(x[k - 1], y[k - 1], p));
        lemma_members(o, a, x, b, y, p, k - 1);
    }
}

proof fn lemma_array(
    o: spec_fn(Question) -> Answer,
    a: Seq<Column>,
    b: Seq<Column>,
    p: RowPair,
)
    requires
        all_same(a, b, p),
    ensures
        same_cells(json_array_column(o, a, p.n), json_array_column(o, b, p.m), p),
{
    if both(p) {
        let x = Seq::new(a.len(), |k: int| value_doc(o, col_at(a[k], p.i)));
        let y = Seq::new(b.len(), |k: int| value_doc(o, col_at(b[k], p.j)));
        assert forall|k: int| 0 <= k < x.len() implies x[k] == y[k] by {
            assert(same_cells(a[k], b[k], p));
        }
        assert(x =~= y);
    }
}

proof fn lemma_found(d: Datum, a: Seq<Column>, b: Seq<Column>, p: RowPair)
    requires
        all_same(a, b, p),
        both(p),
    ensures
        found(d, a, p.i) == found(d, b, p.j),
{
    if found(d, a, p.i) {
        let k = choose|k: int| 0 <= k < a.len() && value_order(d, #[trigger] col_at(a[k], p.i)) == 0;
        assert(same_cells(a[k], b[k], p));
        assert(value_order(d, col_at(b[k], p.j)) == 0);
    }
    if found(d, b, p.j) {
        let k = choose|k: int| 0 <= k < b.len() && value_order(d, #[trigger] col_at(b[k], p.j)) == 0;
        assert(same_cells(a[k], b[k], p));
        assert(value_order(d, col_at(a[k], p.i)) == 0);
    }
}

/// Columns that are constant hold in each row what they hold in the first.
proof fn lemma_constant_found(d: Datum, a: Seq<Column>, i: int)
    requires
        all_constant(a),
    ensures
        found(d, a, 0) == found(d, a, i),
{
    assert forall|k: int| 0 <= k < a.len() implies #[trigger] col_at(a[k], 0) == col_at(a[k], i) by {
        assert(a[k] is Constant);
    }
    if found(d, a, i) {
        let k = choose|k: int| 0 <= k < a.len() && value_order(d, #[trigger] col_at(a[k], i)) == 0;
        assert(value_order(d, col_at(a[k], 0)) == 0);
    }
}

/// The value of membership in a row.
pub proof fn lemma_in_list_at(x: Column, a: Seq<Column>, i: int)
    requires
        0 <= i < col_len(x),
    ensures
        col_at(in_list(x, a), i) == Datum::Boolean(found(col_at(x, i), a, i)),
{
    if a.len() > 0 && x is Constant && all_constant(a) {
        lemma_constant_found(x->Constant_0, a, i);
    }
}

/// Membership has the same value.
proof fn lemma_in_list(x: Column, y: Column, a: Seq<Column>, b: Seq<Column>, p: RowPair)
    requires
        same_cells(x, y, p),
        all_same(a, b, p),
    ensures
        same_cells(in_list(x, a), in_list(y, b), p),
{
    if both(p) {
        lemma_in_list_at(x, a, p.i);
        lemma_in_list_at(y, b, p.j);
        lemma_found(col_at(x, p.i), a, b, p);
    }
}

/// A function of one column has the same value.
proof fn lemma_map(a: Column, b: Column, p: RowPair)
    requires
        same_cells(a, b, p),
    ensures
        forall|f: spec_fn(Datum) -> Datum|
            #![trigger map_column(a, f)]
            #![trigger map_column(b, f)]
            same_cells(map_column(a, f), map_column(b, f), p),
{
}

/// A function of two columns has the same value.
proof fn lemma_zip(a: Column, x: Column, b: Column, y: Column, p: RowPair)
    requires
        same_cells(a, b, p),
        same_cells(x, y, p),
    ensures
        forall|f: spec_fn(Datum, Datum) -> Datum|
            #![trigger zip_columns(a, x, f)]
            #![trigger zip_columns(b, y, f)]
            same_cells(zip_columns(a, x, f), zip_columns(b, y, f), p),
{
}

/// What a function computes has the same value.
#[verifier::spinoff_prover]
#[verifier::rlimit(60)]
proof fn lemma_applied(
    o: spec_fn(Question) -> Answer,
    f: Func,
    a: Seq<Column>,
    b: Seq<Column>,
    p: RowPair,
)
    requires
        all_same(a, b, p),
        takes(f, a.len()),
        !(f is Random || f is Round || f is JsonObject),
    ensures
        results_same(
            applied(o, f, a, p.n),
            applied(o, f, b, p.m),
            p,
            text_place(f) matches Some(k) ==> constant_text(a[k]) == constant_text(b[k]),
        ),
{
    if a.len() > 0 {
        assert(same_cells(a[0], b[0], p));
        lemma_map(a[0], b[0], p);
    }
    if a.len() > 1 {
        assert(same_cells(a[1], b[1], p));
        lemma_map(a[1], b[1], p);
        lemma_zip(a[0], a[1], b[0], b[1], p);
    }
    if a.len() > 2 {
        assert(same_cells(a[2], b[2], p));
    }
    if both(p) {
        lemma_present(a, b, p, 0);
        lemma_concat(o, a, b, p, a.len() as int);
    }
    lemma_array(o, a, b, p);
}

/// As [`results_same`], of lists of columns.
spec fn lists_same(
    a: Result<Seq<Column>, Fault>,
    b: Result<Seq<Column>, Fault>,
    p: RowPair,
    told: bool,
) -> bool {
    match (a, b) {
        (Ok(x), Ok(y)) => all_same(x, y, p),
        (Err(x), Err(y)) => told ==> x == y,
        _ => !told,
    }
}

/// Whether arms have the same values one by one.
spec fn arms_same(a: Seq<(Column, Column)>, b: Seq<(Column, Column)>, p: RowPair) -> bool {
    a.len() == b.len() && forall|k: int|
        #![trigger a[k]]
        #![trigger b[k]]
        0 <= k < a.len() ==> same_cells(a[k].0, b[k].0, p) && same_cells(a[k].1, b[k].1, p)
}

/// As [`results_same`], of lists of arms.
spec fn arm_lists_same(
    a: Result<Seq<(Column, Column)>, Fault>,
    b: Result<Seq<(Column, Column)>, Fault>,
    p: RowPair,
    told: bool,
) -> bool {
    match (a, b) {
        (Ok(x), Ok(y)) => arms_same(x, y, p),
        (Err(x), Err(y)) => told ==> x == y,
        _ => !told,
    }
}

proof fn lemma_case(
    a: Seq<(Column, Column)>,
    x: Column,
    b: Seq<(Column, Column)>,
    y: Column,
    p: RowPair,
    k: int,
)
    requires
        arms_same(a, b, p),
        same_cells(x, y, p),
        both(p),
        0 <= k,
    ensures
        case_at(a, x, p.i, k) == case_at(b, y, p.j, k),
    decreases a.len() - k,
{
    if k < a.len() {
        assert(same_cells(a[k].0, b[k].0, p) && same_cells(a[k].1, b[k].1, p));
        lemma_case(a, x, b, y, p, k + 1);
    }
}

/// A column of a list is that of its expression.
proof fn lemma_listed(
    o: spec_fn(Question) -> Answer,
    list: Seq<Expr>,
    i: int,
    k: int,
    c: Chunk,
    names: Seq<Seq<char>>,
)
    requires
        0 <= i <= k < list.len(),
    ensures
        eval_list(o, list, i, 1, c, names) matches Ok(a) ==> k - i < a.len() && eval(
            o,
            list[k],
            c,
            names,
        ) == Ok::<Column, Fault>(a[k - i]),
    decreases k - i,
{
    lemma_list_len(o, list, i, 1, c, names);
    if i < k {
        lemma_listed(o, list, i + 1, k, c, names);
    }
}

/// A batch without its columns.
spec fn bare(c: Chunk) -> Chunk {
    Chunk { columns: Seq::empty(), count: c.count }
}

/// An expression that reads no column has its value without columns.
proof fn lemma_bare(o: spec_fn(Question) -> Answer, e: Expr, c: Chunk, names: Seq<Seq<char>>)
    requires
        reads_none(e),
    ensures
        eval(o, e, c, names) == eval(o, e, bare(c), names),
    decreases e, 0int,
{
    match e {
        Expr::Binary(l, _, r) => {
            lemma_bare(o, *l, c, names);
            lemma_bare(o, *r, c, names);
        },
        Expr::Unary(_, x)
        | Expr::IsNull(x)
        | Expr::IsNotNull(x)
        | Expr::Cast(x, _) => lemma_bare(o, *x, c, names),
        Expr::InList(x, list) => {
            lemma_bare(o, *x, c, names);
            lemma_bare_list(o, list, 0, 1, c, names);
        },
        Expr::Like(x, q) => {
            lemma_bare(o, *x, c, names);
            lemma_bare(o, *q, c, names);
        },
        Expr::Case(arms, other) => {
            lemma_bare_arms(o, arms, 0, c, names);
            if let Some(x) = other {
                lemma_bare(o, *x, c, names);
            }
        },
        Expr::Function(name, args, _, _, _) => {
            lemma_bare_list(o, args, 0, 1, c, names);
            lemma_bare_list(o, args, 0, 2, c, names);
            lemma_bare_list(o, args, 1, 2, c, names);
            if args.len() > 0 {
                lemma_bare(o, args[0], c, names);
            }
        },
        _ => {},
    }
}

proof fn lemma_bare_list(
    o: spec_fn(Question) -> Answer,
    list: Seq<Expr>,
    i: int,
    step: int,
    c: Chunk,
    names: Seq<Seq<char>>,
)
    requires
        forall|k: int| #![trigger list[k]] 0 <= k < list.len() ==> reads_none(list[k]),
    ensures
        eval_list(o, list, i, step, c, names) == eval_list(o, list, i, step, bare(c), names),
    decreases list, if i < list.len() { list.len() - i } else { 0 },
{
    if 0 <= i < list.len() && step > 0 {
        lemma_bare(o, list[i], c, names);
        lemma_bare_list(o, list, i + step, step, c, names);
    }
}

proof fn lemma_bare_arms(
    o: spec_fn(Question) -> Answer,
    arms: Seq<(Expr, Expr)>,
    i: int,
    c: Chunk,
    names: Seq<Seq<char>>,
)
    requires
        forall|k: int|
            #![trigger arms[k]]
            0 <= k < arms.len() ==> reads_none(arms[k].0) && reads_none(arms[k].1),
    ensures
        eval_arms(o, arms, i, c, names) == eval_arms(o, arms, i, bare(c), names),
    decreases arms, arms.len() - i,
{
    if 0 <= i < arms.len() {
        lemma_bare(o, arms[i].0, c, names);
        lemma_bare(o, arms[i].1, c, names);
        lemma_bare_arms(o, arms, i + 1, c, names);
    }
}

/// An expression that reads no column is a constant text in all batches, or in
/// none.
proof fn lemma_constant_kept(
    o: spec_fn(Question) -> Answer,
    e: Expr,
    c: Chunk,
    d: Chunk,
    names: Seq<Seq<char>>,
    p: RowPair,
)
    requires
        reads_none(e),
        c.count == p.n,
        d.count == p.m,
        eval(o, e, c, names) is Ok,
        eval(o, e, d, names) is Ok,
    ensures
        constant_text(eval(o, e, c, names)->Ok_0) == constant_text(eval(o, e, d, names)->Ok_0),
{
    lemma_bare(o, e, c, names);
    lemma_bare(o, e, d, names);
    law_eval_by_rows(o, e, bare(c), bare(d), names, p);
}

/// What an expression is in a row depends on the values in that row, and not on
/// which columns are constant. Whether it has a value does not depend on that
/// either, where the expression does not tell constants apart.
#[verifier::spinoff_prover]
#[verifier::rlimit(60)]
pub proof fn law_eval_by_cells(
    o: spec_fn(Question) -> Answer,
    e: Expr,
    c: Chunk,
    d: Chunk,
    names: Seq<Seq<char>>,
    p: RowPair,
)
    requires
        batches_same(c, d, p),
    ensures
        results_same(eval(o, e, c, names), eval(o, e, d, names), p, tells_no_constants(e)),
    decreases e, 0int,
{
    match e {
        Expr::ColumnRef(_, column) => {
            if let Some(k) = name_at(names, column, 0) {
                lemma_name_place(names, column, 0);
                if k < c.columns.len() {
                    assert(same_cells(c.columns[k], d.columns[k], p));
                }
            }
        },
        Expr::Binary(l, op, r) => {
            law_eval_by_cells(o, *l, c, d, names, p);
            law_eval_by_cells(o, *r, c, d, names, p);
        },
        Expr::Unary(_, x)
        | Expr::IsNull(x)
        | Expr::IsNotNull(x)
        | Expr::Cast(x, _) => {
            law_eval_by_cells(o, *x, c, d, names, p);
            if let (Ok(a), Ok(b)) = (eval(o, *x, c, names), eval(o, *x, d, names)) {
                lemma_map(a, b, p);
            }
        },
        Expr::InList(x, list) => {
            law_eval_by_cells(o, *x, c, d, names, p);
            lemma_list(o, list, 0, 1, c, d, names, p);
            let (a, b) = (eval(o, *x, c, names), eval(o, *x, d, names));
            let (u, v) = (
                eval_list(o, list, 0, 1, c, names),
                eval_list(o, list, 0, 1, d, names),
            );
            if a is Ok && b is Ok && u is Ok && v is Ok {
                lemma_in_list(a->Ok_0, b->Ok_0, u->Ok_0, v->Ok_0, p);
            }
        },
        Expr::Like(x, q) => {
            law_eval_by_cells(o, *x, c, d, names, p);
            law_eval_by_cells(o, *q, c, d, names, p);
        },
        Expr::Case(arms, other) => {
            lemma_arms(o, arms, 0, c, d, names, p);
            if let Some(x) = other {
                law_eval_by_cells(o, *x, c, d, names, p);
            }
            if let (Ok(a), Ok(b)) = (
                eval_arms(o, arms, 0, c, names),
                eval_arms(o, arms, 0, d, names),
            ) {
                let (u, v) = match other {
                    Some(x) => (eval(o, *x, c, names), eval(o, *x, d, names)),
                    None => (
                        Ok(Column::Constant(Datum::Null, c.count)),
                        Ok(Column::Constant(Datum::Null, d.count)),
                    ),
                };
                if u is Ok && v is Ok && both(p) {
                    lemma_case(a, u->Ok_0, b, v->Ok_0, p, 0);
                }
            }
        },
        Expr::Function(name, args, _, _, _) => {
            if let Some(f) = func_of(upper_text(name)) {
                if takes(f, args.len()) {
                    lemma_call(o, f, args, c, d, names, p);
                    if f is Round && args.len() > 0 {
                        law_eval_by_cells(o, args[0], c, d, names, p);
                        if let (Ok(a), Ok(b)) = (
                            eval(o, args[0], c, names),
                            eval(o, args[0], d, names),
                        ) {
                            lemma_map(a, b, p);
                        }
                    }
                }
            }
        },
        _ => {},
    }
}

/// The call of a function has the same value.
proof fn lemma_call(
    o: spec_fn(Question) -> Answer,
    f: Func,
    args: Seq<Expr>,
    c: Chunk,
    d: Chunk,
    names: Seq<Seq<char>>,
    p: RowPair,
)
    requires
        batches_same(c, d, p),
        takes(f, args.len()),
    ensures
        f is JsonObject ==> {
            let (a, x) = (
                eval_list(o, args, 0, 2, c, names),
                eval_list(o, args, 1, 2, c, names),
            );
            let (b, y) = (
                eval_list(o, args, 0, 2, d, names),
                eval_list(o, args, 1, 2, d, names),
            );
            &&& lists_same(a, b, p, none_tells(args))
            &&& lists_same(x, y, p, none_tells(args))
            &&& a is Ok && x is Ok && b is Ok && y is Ok ==> same_cells(
                json_object_column(o, a->Ok_0, x->Ok_0, p.n),
                json_object_column(o, b->Ok_0, y->Ok_0, p.m),
                p,
            )
        },
        !(f is JsonObject || f is Random || f is Round) ==> {
            let a = eval_list(o, args, 0, 1, c, names);
            let b = eval_list(o, args, 0, 1, d, names);
            &&& lists_same(a, b, p, none_tells(args))
            &&& a is Ok && b is Ok ==> results_same(
                applied(o, f, a->Ok_0, p.n),
                applied(o, f, b->Ok_0, p.m),
                p,
                text_place(f) matches Some(k) ==> reads_none(args[k]),
            )
        },
    decreases args, args.len() + 1,
{
    if f is JsonObject {
        lemma_list(o, args, 0, 2, c, d, names, p);
        lemma_list(o, args, 1, 2, c, d, names, p);
        let (a, x) = (eval_list(o, args, 0, 2, c, names), eval_list(o, args, 1, 2, c, names));
        let (b, y) = (eval_list(o, args, 0, 2, d, names), eval_list(o, args, 1, 2, d, names));
        if a is Ok && x is Ok && b is Ok && y is Ok && both(p) {
            lemma_list_len(o, args, 0, 2, c, names);
            lemma_list_len(o, args, 1, 2, c, names);
            lemma_members(
                o,
                a->Ok_0,
                x->Ok_0,
                b->Ok_0,
                y->Ok_0,
                p,
                a->Ok_0.len() as int,
            );
        }
    } else if !(f is Random || f is Round) {
        lemma_list(o, args, 0, 1, c, d, names, p);
        if let (Ok(a), Ok(b)) = (
            eval_list(o, args, 0, 1, c, names),
            eval_list(o, args, 0, 1, d, names),
        ) {
            lemma_list_len(o, args, 0, 1, c, names);
            if let Some(k) = text_place(f) {
                lemma_listed(o, args, 0, k, c, names);
                lemma_listed(o, args, 0, k, d, names);
                if reads_none(args[k]) {
                    lemma_constant_kept(o, args[k], c, d, names, p);
                }
            }
            lemma_applied(o, f, a, b, p);
        }
    }
}

/// Lists have the same values.
proof fn lemma_list(
    o: spec_fn(Question) -> Answer,
    list: Seq<Expr>,
    i: int,
    step: int,
    c: Chunk,
    d: Chunk,
    names: Seq<Seq<char>>,
    p: RowPair,
)
    requires
        batches_same(c, d, p),
    ensures
        lists_same(
            eval_list(o, list, i, step, c, names),
            eval_list(o, list, i, step, d, names),
            p,
            none_tells(list),
        ),
    decreases list, if i < list.len() { list.len() - i } else { 0 },
{
    if 0 <= i < list.len() && step > 0 {
        law_eval_by_cells(o, list[i], c, d, names, p);
        lemma_list(o, list, i + step, step, c, d, names, p);
        let (a, b) = (
            eval_list(o, list, i, step, c, names),
            eval_list(o, list, i, step, d, names),
        );
        if let (Ok(x), Ok(y)) = (a, b) {
            let (u, v) = (
                eval_list(o, list, i + step, step, c, names)->Ok_0,
                eval_list(o, list, i + step, step, d, names)->Ok_0,
            );
            assert forall|k: int|
                #![trigger x[k]]
                #![trigger y[k]]
                0 <= k < x.len() implies same_cells(x[k], y[k], p) by {
                if k > 0 {
                    assert(x[k] == u[k - 1] && y[k] == v[k - 1]);
                }
            }
        }
    }
}

/// Arms have the same values.
proof fn lemma_arms(
    o: spec_fn(Question) -> Answer,
    arms: Seq<(Expr, Expr)>,
    i: int,
    c: Chunk,
    d: Chunk,
    names: Seq<Seq<char>>,
    p: RowPair,
)
    requires
        batches_same(c, d, p),
    ensures
        arm_lists_same(
            eval_arms(o, arms, i, c, names),
            eval_arms(o, arms, i, d, names),
            p,
            no_arm_tells(arms),
        ),
    decreases arms, arms.len() - i,
{
    if 0 <= i < arms.len() {
        law_eval_by_cells(o, arms[i].0, c, d, names, p);
        law_eval_by_cells(o, arms[i].1, c, d, names, p);
        lemma_arms(o, arms, i + 1, c, d, names, p);
        let (a, b) = (eval_arms(o, arms, i, c, names), eval_arms(o, arms, i, d, names));
        if let (Ok(x), Ok(y)) = (a, b) {
            let (u, v) = (
                eval_arms(o, arms, i + 1, c, names)->Ok_0,
                eval_arms(o, arms, i + 1, d, names)->Ok_0,
            );
            assert forall|k: int|
                #![trigger x[k]]
                #![trigger y[k]]
                0 <= k < x.len() implies same_cells(x[k].0, y[k].0, p) && same_cells(x[k].1, y[k].1, p) by {
                if k > 0 {
                    assert(x[k] == u[k - 1] && y[k] == v[k - 1]);
                }
            }
        }
    }
}

} // verus!
