//! What operators give of the values in a row.
use vstd::prelude::*;

use crate::common::error::Fault;
use crate::common::value_cmp::{text_order, value_order};
use crate::executor::env::{Answer, Question};
use crate::executor::exact::{amounts, denotes, exact, finite64, fits64, held, stands};
use crate::executor::expression::batch_laws::lemma_list_len;
use crate::executor::expression::cell_laws::lemma_in_list_at;
use crate::executor::expression::eval::{case_at, eval, eval_arms, eval_list, name_at};
use crate::executor::expression::ops::{found, law_like_any, like};
use crate::executor::vector::{col_at, col_len, Chunk, Column};
use crate::float::{is_nan64, SIGN64};
use crate::sql::ast::{BinaryOperator, Expr, UnaryOperator};
use crate::value::Datum;

verus! {

/// What an expression is in a row of a batch, where it has a value there.
pub open spec fn cell(
    o: spec_fn(Question) -> Answer,
    e: Expr,
    c: Chunk,
    names: Seq<Seq<char>>,
    i: int,
) -> Option<Datum> {
    match eval(o, e, c, names) {
        Ok(a) => if 0 <= i < col_len(a) {
            Some(col_at(a, i))
        } else {
            None
        },
        Err(_) => None,
    }
}

/// Two operands with an operator between them.
pub open spec fn of_two(l: Expr, op: BinaryOperator, r: Expr) -> Expr {
    Expr::Binary(Box::new(l), op, Box::new(r))
}

/// A quotient toward zero, and its remainder.
pub open spec fn quotient(x: int, y: int, q: int, m: int) -> bool {
    &&& x == q * y + m
    &&& -(if y < 0 { -y } else { y }) < m < (if y < 0 { -y } else { y })
    &&& x >= 0 ==> m >= 0
    &&& x <= 0 ==> m <= 0
}

/// The quotient toward zero that there is.
proof fn lemma_quotient(x: i64, y: i64)
    requires
        y != 0,
        !(x == i64::MIN && y == -1),
    ensures
        x.checked_div(y) is Some,
        x.checked_rem(y) is Some,
        quotient(x as int, y as int, x.checked_div(y)->0 as int, x.checked_rem(y)->0 as int),
{
    let a: int = if x < 0 {
        -(x as int)
    } else {
        x as int
    };
    let b: int = if y < 0 {
        -(y as int)
    } else {
        y as int
    };
    let (q, m) = (a / b, a % b);
    assert(a == q * b + m && 0 <= m < b && 0 <= q <= a && (b > 1 && a > 0 ==> q < a)) by (nonlinear_arith)
        requires
            b > 0,
            a >= 0,
            q == a / b,
            m == a % b,
    ;
    let s: int = if (x < 0) == (y < 0) {
        q
    } else {
        -q
    };
    let t: int = if x < 0 {
        -m
    } else {
        m
    };
    assert(x as int == s * (y as int) + t) by (nonlinear_arith)
        requires
            a == q * b + m,
            a == (if x < 0 { -(x as int) } else { x as int }),
            b == (if y < 0 { -(y as int) } else { y as int }),
            s == (if (x < 0) == (y < 0) { q } else { -q }),
            t == (if x < 0 { -m } else { m }),
    ;
    assert((-1int) * (x as int) == -(x as int));
    assert(a == 0 ==> q == 0 && m == 0) by (nonlinear_arith)
        requires
            b > 0,
            q == a / b,
            m == a % b,
    ;
}

/// Arithmetic on whole numbers. A sum, a difference and a product are those of the
/// integers: a difference and what was taken off give back the first. A quotient is
/// the one toward zero, and goes with its remainder. What 64 bits do not hold, and
/// what a division by zero would give, is NULL.
pub proof fn law_arithmetic(
    o: spec_fn(Question) -> Answer,
    l: Expr,
    r: Expr,
    c: Chunk,
    names: Seq<Seq<char>>,
    i: int,
    x: int,
    y: int,
)
    requires
        cell(o, l, c, names, i) matches Some(a) && denotes(a, x),
        cell(o, r, c, names, i) matches Some(b) && denotes(b, y),
    ensures
        ({
            let sum = cell(o, of_two(l, BinaryOperator::Plus, r), c, names, i);
            let less = cell(o, of_two(l, BinaryOperator::Minus, r), c, names, i);
            let times = cell(o, of_two(l, BinaryOperator::Multiply, r), c, names, i);
            &&& fits64(x + y) ==> (sum matches Some(Datum::Int64(v)) && v == x + y)
            &&& !fits64(x + y) ==> sum == Some(Datum::Null)
            &&& fits64(x - y) ==> (less matches Some(Datum::Int64(v)) && v + y == x)
            &&& !fits64(x - y) ==> less == Some(Datum::Null)
            &&& fits64(x * y) ==> (times matches Some(Datum::Int64(v)) && v == x * y)
            &&& !fits64(x * y) ==> times == Some(Datum::Null)
        }),
        ({
            let over = cell(o, of_two(l, BinaryOperator::Divide, r), c, names, i);
            let rest = cell(o, of_two(l, BinaryOperator::Modulo, r), c, names, i);
            if y == 0 || x == i64::MIN && y == -1 {
                over == Some(Datum::Null) && rest == Some(Datum::Null)
            } else {
                over matches Some(Datum::Int64(q)) && rest matches Some(Datum::Int64(m))
                    && quotient(x, y, q as int, m as int)
            }
        }),
{
    if y != 0 && !(x == i64::MIN && y == -1) {
        lemma_quotient(x as i64, y as i64);
    }
}

/// Arithmetic where a float takes part, in an environment that is exact: the
/// result stands for that of the numbers, wherever a double does. A division by
/// zero gives a NaN.
pub proof fn law_arithmetic_exact(
    o: spec_fn(Question) -> Answer,
    val: spec_fn(u64) -> real,
    l: Expr,
    r: Expr,
    c: Chunk,
    names: Seq<Seq<char>>,
    i: int,
    x: real,
    y: real,
)
    requires
        exact(o, val),
        forall|b: u64| #[trigger] val(b) == 0 as real && finite64(b) ==> b == 0 || b == SIGN64,
        val(SIGN64) == 0 as real,
        cell(o, l, c, names, i) matches Some(a) && amounts(val, a, x) && (
        cell(o, r, c, names, i) matches Some(b) && amounts(val, b, y) && (is_float(a) || is_float(
            b,
        ))),
    ensures
        held(val, x + y) ==> (cell(o, of_two(l, BinaryOperator::Plus, r), c, names, i) matches Some(
            Datum::Float64(z),
        ) && stands(val, z, x + y)),
        held(val, x - y) ==> (cell(o, of_two(l, BinaryOperator::Minus, r), c, names, i) matches Some(
            Datum::Float64(z),
        ) && stands(val, z, x - y)),
        held(val, x * y) ==> (cell(
            o,
            of_two(l, BinaryOperator::Multiply, r),
            c,
            names,
            i,
        ) matches Some(Datum::Float64(z)) && stands(val, z, x * y)),
        forall|q: real|
            y != 0 as real && #[trigger] held(val, q) && q * y == x ==> (cell(
                o,
                of_two(l, BinaryOperator::Divide, r),
                c,
                names,
                i,
            ) matches Some(Datum::Float64(z)) && stands(val, z, q)),
        y == 0 as real ==> (cell(o, of_two(l, BinaryOperator::Divide, r), c, names, i) matches Some(
            Datum::Float64(z),
        ) && is_nan64(z)),
        y == 0 as real ==> (cell(o, of_two(l, BinaryOperator::Modulo, r), c, names, i) matches Some(
            Datum::Float64(z),
        ) && is_nan64(z)),
{
    assert forall|q: real| y != 0 as real && #[trigger] held(val, q) && q * y == x implies (cell(
        o,
        of_two(l, BinaryOperator::Divide, r),
        c,
        names,
        i,
    ) matches Some(Datum::Float64(z)) && stands(val, z, q)) by {
        let b = choose|b: u64| #[trigger] stands(val, b, q);
        assert(val(b) == q);
    }
}

/// Whether a value is a float.
pub open spec fn is_float(d: Datum) -> bool {
    d is Float32 || d is Float64
}

/// NULL on either side makes arithmetic, comparisons and joined texts NULL. AND and
/// OR are decided by the other side where that suffices.
pub proof fn law_null_operand(
    o: spec_fn(Question) -> Answer,
    l: Expr,
    op: BinaryOperator,
    r: Expr,
    c: Chunk,
    names: Seq<Seq<char>>,
    i: int,
)
    requires
        cell(o, l, c, names, i) is Some,
        cell(o, r, c, names, i) is Some,
        cell(o, l, c, names, i) == Some(Datum::Null) || cell(o, r, c, names, i) == Some(Datum::Null),
    ensures
        !(op is And || op is Or) ==> cell(o, of_two(l, op, r), c, names, i) == Some(Datum::Null),
        op is And ==> (cell(o, of_two(l, op, r), c, names, i) == Some(Datum::Boolean(false)) <==> (
        cell(o, l, c, names, i) == Some(Datum::Boolean(false)) || cell(o, r, c, names, i) == Some(
            Datum::Boolean(false),
        ))),
        op is Or ==> (cell(o, of_two(l, op, r), c, names, i) == Some(Datum::Boolean(true)) <==> (
        cell(o, l, c, names, i) == Some(Datum::Boolean(true)) || cell(o, r, c, names, i) == Some(
            Datum::Boolean(true),
        ))),
{
}

/// AND, OR and NOT of truth values.
pub proof fn law_truth_values(
    o: spec_fn(Question) -> Answer,
    l: Expr,
    r: Expr,
    c: Chunk,
    names: Seq<Seq<char>>,
    i: int,
    a: bool,
    b: bool,
)
    requires
        cell(o, l, c, names, i) == Some(Datum::Boolean(a)),
        cell(o, r, c, names, i) == Some(Datum::Boolean(b)),
    ensures
        cell(o, of_two(l, BinaryOperator::And, r), c, names, i) == Some(Datum::Boolean(a && b)),
        cell(o, of_two(l, BinaryOperator::Or, r), c, names, i) == Some(Datum::Boolean(a || b)),
        cell(o, Expr::Unary(UnaryOperator::Not, Box::new(l)), c, names, i) == Some(
            Datum::Boolean(!a),
        ),
{
}

/// The truth of a comparison in a row.
pub open spec fn says(
    o: spec_fn(Question) -> Answer,
    l: Expr,
    op: BinaryOperator,
    r: Expr,
    c: Chunk,
    names: Seq<Seq<char>>,
    i: int,
    b: bool,
) -> bool {
    cell(o, of_two(l, op, r), c, names, i) == Some(Datum::Boolean(b))
}

/// Whole numbers compare as integers.
pub proof fn law_compare_numbers(
    o: spec_fn(Question) -> Answer,
    l: Expr,
    r: Expr,
    c: Chunk,
    names: Seq<Seq<char>>,
    i: int,
    x: int,
    y: int,
)
    requires
        cell(o, l, c, names, i) matches Some(a) && denotes(a, x),
        cell(o, r, c, names, i) matches Some(b) && denotes(b, y),
    ensures
        says(o, l, BinaryOperator::Eq, r, c, names, i, x == y),
        says(o, l, BinaryOperator::NotEq, r, c, names, i, x != y),
        says(o, l, BinaryOperator::Lt, r, c, names, i, x < y),
        says(o, l, BinaryOperator::LtEq, r, c, names, i, x <= y),
        says(o, l, BinaryOperator::Gt, r, c, names, i, x > y),
        says(o, l, BinaryOperator::GtEq, r, c, names, i, x >= y),
{
}

/// Whether a text goes before another: where they first differ it has the smaller
/// character, or it ends there.
pub open spec fn before_text(s: Seq<char>, t: Seq<char>) -> bool {
    exists|k: int|
        0 <= k <= s.len() && k < t.len() && #[trigger] s.subrange(0, k) == t.subrange(0, k) && (k
            == s.len() || s[k] < t[k])
}

/// Texts compare character by character, and a text goes before those that it begins.
pub proof fn law_compare_texts(
    o: spec_fn(Question) -> Answer,
    l: Expr,
    r: Expr,
    c: Chunk,
    names: Seq<Seq<char>>,
    i: int,
    s: Seq<char>,
    t: Seq<char>,
)
    requires
        cell(o, l, c, names, i) == Some(Datum::Varchar(s)),
        cell(o, r, c, names, i) == Some(Datum::Varchar(t)),
    ensures
        says(o, l, BinaryOperator::Eq, r, c, names, i, s == t),
        says(o, l, BinaryOperator::NotEq, r, c, names, i, s != t),
        says(o, l, BinaryOperator::Lt, r, c, names, i, before_text(s, t)),
        says(o, l, BinaryOperator::LtEq, r, c, names, i, before_text(s, t) || s == t),
        says(o, l, BinaryOperator::Gt, r, c, names, i, before_text(t, s)),
        says(o, l, BinaryOperator::GtEq, r, c, names, i, before_text(t, s) || s == t),
{
    law_text_order(s, t);
}

/// Truth values compare as false before true.
pub proof fn law_compare_truth(
    o: spec_fn(Question) -> Answer,
    l: Expr,
    r: Expr,
    c: Chunk,
    names: Seq<Seq<char>>,
    i: int,
    a: bool,
    b: bool,
)
    requires
        cell(o, l, c, names, i) == Some(Datum::Boolean(a)),
        cell(o, r, c, names, i) == Some(Datum::Boolean(b)),
    ensures
        says(o, l, BinaryOperator::Eq, r, c, names, i, a == b),
        says(o, l, BinaryOperator::Lt, r, c, names, i, !a && b),
        says(o, l, BinaryOperator::Gt, r, c, names, i, a && !b),
{
}

/// The order of texts: before, behind or equal.
pub proof fn law_text_order(s: Seq<char>, t: Seq<char>)
    ensures
        value_order(Datum::Varchar(s), Datum::Varchar(t)) < 0 <==> before_text(s, t),
        value_order(Datum::Varchar(s), Datum::Varchar(t)) > 0 <==> before_text(t, s),
        value_order(Datum::Varchar(s), Datum::Varchar(t)) == 0 <==> s == t,
        value_order(Datum::Json(s), Datum::Json(t)) < 0 <==> before_text(s, t),
        value_order(Datum::Json(s), Datum::Json(t)) == 0 <==> s == t,
{
    assert(s.subrange(0, 0) =~= t.subrange(0, 0));
    lemma_text_order(s, t, 0);
    lemma_before_once(s, t);
}

proof fn lemma_text_order(s: Seq<char>, t: Seq<char>, k: int)
    requires
        0 <= k <= s.len(),
        k <= t.len(),
        s.subrange(0, k) == t.subrange(0, k),
    ensures
        text_order(s, t, k) < 0 ==> before_text(s, t),
        text_order(s, t, k) > 0 ==> before_text(t, s),
        text_order(s, t, k) == 0 ==> s == t,
    decreases s.len() - k,
{
    if k >= s.len() || k >= t.len() {
        if s.len() == t.len() {
            assert(s.subrange(0, k) =~= s && t.subrange(0, k) =~= t);
        }
    } else if s[k] == t[k] {
        let (a, b) = (s.subrange(0, k + 1), t.subrange(0, k + 1));
        assert forall|j: int| 0 <= j < k + 1 implies #[trigger] a[j] == b[j] by {
            if j < k {
                assert(s.subrange(0, k)[j] == t.subrange(0, k)[j]);
            }
        }
        assert(a =~= b);
        lemma_text_order(s, t, k + 1);
    }
}

/// No text goes before and behind another, nor before itself.
proof fn lemma_before_once(s: Seq<char>, t: Seq<char>)
    ensures
        before_text(s, t) ==> !before_text(t, s) && s != t,
        before_text(t, s) ==> s != t,
{
    if before_text(s, t) {
        let k = choose|k: int|
            0 <= k <= s.len() && k < t.len() && #[trigger] s.subrange(0, k) == t.subrange(0, k) && (k
                == s.len() || s[k] < t[k]);
        if before_text(t, s) {
            let j = choose|j: int|
                0 <= j <= t.len() && j < s.len() && #[trigger] t.subrange(0, j) == s.subrange(0, j)
                    && (j == t.len() || t[j] < s[j]);
            if j < k {
                assert(s.subrange(0, k)[j] == t.subrange(0, k)[j]);
            } else if k < j {
                assert(t.subrange(0, j)[k] == s.subrange(0, j)[k]);
            }
        }
    }
    if before_text(t, s) {
        let j = choose|j: int|
            0 <= j <= t.len() && j < s.len() && #[trigger] t.subrange(0, j) == s.subrange(0, j) && (j
                == t.len() || t[j] < s[j]);
    }
}

/// A minus sign gives the number that makes zero with the operand; it flips the sign
/// of a float and nothing else. NULL stays NULL.
pub proof fn law_negate(
    o: spec_fn(Question) -> Answer,
    e: Expr,
    c: Chunk,
    names: Seq<Seq<char>>,
    i: int,
    x: int,
    b: u64,
)
    ensures
        ({
            let n = cell(o, Expr::Unary(UnaryOperator::Negate, Box::new(e)), c, names, i);
            &&& (cell(o, e, c, names, i) matches Some(a) && denotes(a, x)) && fits64(-x) ==> (
            n matches Some(Datum::Int64(v)) && v + x == 0)
            &&& cell(o, e, c, names, i) == Some(Datum::Float64(b)) ==> (n matches Some(
                Datum::Float64(z),
            ) && (z < SIGN64) != (b < SIGN64) && (z as int - b as int == SIGN64 || b as int
                - z as int == SIGN64))
            &&& cell(o, e, c, names, i) == Some(Datum::Null) ==> n == Some(Datum::Null)
        }),
        ({
            let n = cell(o, Expr::Unary(UnaryOperator::Not, Box::new(e)), c, names, i);
            cell(o, e, c, names, i) == Some(Datum::Null) ==> n == Some(Datum::Null)
        }),
{
}

/// IS NULL is true of NULL and of nothing else, and IS NOT NULL is its opposite.
pub proof fn law_null_test(
    o: spec_fn(Question) -> Answer,
    e: Expr,
    c: Chunk,
    names: Seq<Seq<char>>,
    i: int,
)
    requires
        cell(o, e, c, names, i) is Some,
    ensures
        cell(o, Expr::IsNull(Box::new(e)), c, names, i) == Some(
            Datum::Boolean(cell(o, e, c, names, i) == Some(Datum::Null)),
        ),
        cell(o, Expr::IsNotNull(Box::new(e)), c, names, i) == Some(
            Datum::Boolean(cell(o, e, c, names, i) != Some(Datum::Null)),
        ),
{
}

/// A literal has its value in each row, and a reference that of the first column of
/// its name.
pub proof fn law_leaves(
    o: spec_fn(Question) -> Answer,
    v: Datum,
    table: Option<Seq<char>>,
    name: Seq<char>,
    k: int,
    c: Chunk,
    names: Seq<Seq<char>>,
    i: int,
)
    requires
        0 <= i < c.count,
        0 <= k < names.len() <= c.columns.len(),
        names[k] == name,
        forall|j: int| 0 <= j < k ==> #[trigger] names[j] != name,
        col_len(c.columns[k]) == c.count,
    ensures
        cell(o, Expr::Literal(v), c, names, i) == Some(v),
        cell(o, Expr::ColumnRef(table, name), c, names, i) == Some(col_at(c.columns[k], i)),
{
    lemma_name_at(names, name, 0, k);
}

proof fn lemma_name_at(names: Seq<Seq<char>>, name: Seq<char>, i: int, k: int)
    requires
        0 <= i <= k < names.len(),
        names[k] == name,
        forall|j: int| 0 <= j < k ==> #[trigger] names[j] != name,
    ensures
        name_at(names, name, i) == Some(k),
    decreases k - i,
{
    if i < k {
        lemma_name_at(names, name, i + 1, k);
    }
}

proof fn lemma_arm(
    o: spec_fn(Question) -> Answer,
    arms: Seq<(Expr, Expr)>,
    i: int,
    k: int,
    c: Chunk,
    names: Seq<Seq<char>>,
)
    requires
        0 <= i <= k < arms.len(),
    ensures
        eval_arms(o, arms, i, c, names) matches Ok(a) ==> {
            &&& a.len() == arms.len() - i
            &&& eval(o, arms[k].0, c, names) == Ok::<Column, Fault>(a[k - i].0)
            &&& eval(o, arms[k].1, c, names) == Ok::<Column, Fault>(a[k - i].1)
        },
    decreases k - i, arms.len() - i,
{
    lemma_arms_len(o, arms, i, c, names);
    if i < k {
        lemma_arm(o, arms, i + 1, k, c, names);
    }
}

proof fn lemma_arms_len(
    o: spec_fn(Question) -> Answer,
    arms: Seq<(Expr, Expr)>,
    i: int,
    c: Chunk,
    names: Seq<Seq<char>>,
)
    requires
        0 <= i <= arms.len(),
    ensures
        eval_arms(o, arms, i, c, names) matches Ok(a) ==> a.len() == arms.len() - i,
    decreases arms.len() - i,
{
    if i < arms.len() {
        lemma_arms_len(o, arms, i + 1, c, names);
    }
}

/// The truth of the condition of an arm of a CASE in a row.
pub open spec fn chosen(
    o: spec_fn(Question) -> Answer,
    arms: Seq<(Expr, Expr)>,
    k: int,
    c: Chunk,
    names: Seq<Seq<char>>,
    i: int,
) -> bool {
    cell(o, arms[k].0, c, names, i) == Some(Datum::Boolean(true))
}

/// CASE is in a row the result of the first arm whose condition is true there, and
/// without one that of ELSE, or NULL.
pub proof fn law_case(
    o: spec_fn(Question) -> Answer,
    arms: Seq<(Expr, Expr)>,
    other: Option<Box<Expr>>,
    c: Chunk,
    names: Seq<Seq<char>>,
    i: int,
    k: int,
)
    requires
        0 <= i < c.count,
        eval(o, Expr::Case(arms, other), c, names) is Ok,
        0 <= k <= arms.len(),
        forall|j: int|
            0 <= j < arms.len() ==> cell(o, (#[trigger] arms[j]).0, c, names, i) is Some && cell(
                o,
                arms[j].1,
                c,
                names,
                i,
            ) is Some,
        forall|j: int| 0 <= j < k ==> !#[trigger] chosen(o, arms, j, c, names, i),
    ensures
        k < arms.len() && chosen(o, arms, k, c, names, i) ==> cell(
            o,
            Expr::Case(arms, other),
            c,
            names,
            i,
        ) == cell(o, arms[k].1, c, names, i),
        k == arms.len() ==> match other {
            Some(x) => cell(o, *x, c, names, i) is Some ==> cell(
                o,
                Expr::Case(arms, other),
                c,
                names,
                i,
            ) == cell(o, *x, c, names, i),
            None => cell(o, Expr::Case(arms, other), c, names, i) == Some(Datum::Null),
        },
{
    let a = eval_arms(o, arms, 0, c, names)->Ok_0;
    let z = match other {
        Some(x) => eval(o, *x, c, names)->Ok_0,
        None => Column::Constant(Datum::Null, c.count),
    };
    lemma_arms_len(o, arms, 0, c, names);
    lemma_case_at(o, arms, a, z, c, names, i, 0, k);
    if k < arms.len() {
        lemma_arm(o, arms, 0, k, c, names);
        assert(cell(o, arms[k].0, c, names, i) is Some);
    }
}

proof fn lemma_case_at(
    o: spec_fn(Question) -> Answer,
    arms: Seq<(Expr, Expr)>,
    a: Seq<(Column, Column)>,
    z: Column,
    c: Chunk,
    names: Seq<Seq<char>>,
    i: int,
    j: int,
    k: int,
)
    requires
        eval_arms(o, arms, 0, c, names) == Ok::<Seq<(Column, Column)>, Fault>(a),
        a.len() == arms.len(),
        0 <= j <= k <= arms.len(),
        forall|l: int|
            0 <= l < arms.len() ==> cell(o, (#[trigger] arms[l]).0, c, names, i) is Some && cell(
                o,
                arms[l].1,
                c,
                names,
                i,
            ) is Some,
        forall|l: int| 0 <= l < k ==> !#[trigger] chosen(o, arms, l, c, names, i),
    ensures
        case_at(a, z, i, j) == case_at(a, z, i, k),
    decreases k - j,
{
    if j < k {
        lemma_arm(o, arms, 0, j, c, names);
        assert(cell(o, arms[j].0, c, names, i) is Some);
        assert(!chosen(o, arms, j, c, names, i));
        lemma_case_at(o, arms, a, z, c, names, i, j + 1, k);
    }
}

proof fn lemma_item(
    o: spec_fn(Question) -> Answer,
    list: Seq<Expr>,
    i: int,
    k: int,
    c: Chunk,
    names: Seq<Seq<char>>,
)
    requires
        0 <= i <= k < list.len(),
    ensures
        eval_list(o, list, i, 1, c, names) matches Ok(a) ==> a.len() == list.len() - i && eval(
            o,
            list[k],
            c,
            names,
        ) == Ok::<Column, Fault>(a[k - i]),
    decreases k - i,
{
    lemma_list_len(o, list, i, 1, c, names);
    if i < k {
        lemma_item(o, list, i + 1, k, c, names);
    }
}

/// Whether a list has an item that is in a row equal to a value in the order of
/// values.
pub open spec fn listed_in(
    o: spec_fn(Question) -> Answer,
    d: Datum,
    list: Seq<Expr>,
    c: Chunk,
    names: Seq<Seq<char>>,
    i: int,
) -> bool {
    exists|k: int|
        0 <= k < list.len() && (cell(o, #[trigger] list[k], c, names, i) matches Some(v)
            && value_order(d, v) == 0)
}

/// IN is true of a value that is equal to an item of the list, and else false.
pub proof fn law_in(
    o: spec_fn(Question) -> Answer,
    e: Expr,
    list: Seq<Expr>,
    c: Chunk,
    names: Seq<Seq<char>>,
    i: int,
    d: Datum,
)
    requires
        cell(o, e, c, names, i) == Some(d),
        forall|k: int|
            0 <= k < list.len() ==> cell(o, #[trigger] list[k], c, names, i) is Some,
        eval(o, Expr::InList(Box::new(e), list), c, names) is Ok,
    ensures
        cell(o, Expr::InList(Box::new(e), list), c, names, i) == Some(
            Datum::Boolean(listed_in(o, d, list, c, names, i)),
        ),
{
    let a = eval(o, e, c, names)->Ok_0;
    let bs = eval_list(o, list, 0, 1, c, names)->Ok_0;
    lemma_list_len(o, list, 0, 1, c, names);
    assert(found(d, bs, i) == listed_in(o, d, list, c, names, i)) by {
        if found(d, bs, i) {
            let k = choose|k: int| 0 <= k < bs.len() && value_order(d, #[trigger] col_at(bs[k], i)) == 0;
            lemma_item(o, list, 0, k, c, names);
            assert(cell(o, list[k], c, names, i) == Some(col_at(bs[k], i)));
        }
        if listed_in(o, d, list, c, names, i) {
            let k = choose|k: int|
                0 <= k < list.len() && (cell(o, #[trigger] list[k], c, names, i) matches Some(v)
                    && value_order(d, v) == 0);
            lemma_item(o, list, 0, k, c, names);
            assert(value_order(d, col_at(bs[k], i)) == 0);
        }
    }
    lemma_in_list_at(a, bs, i);
}

/// A text matches a pattern in two parts where it falls into two parts that match
/// them. A percent sign matches every text, an underscore every character, and any
/// other character itself.
pub proof fn law_like(s: Seq<char>, p: Seq<char>, q: Seq<char>, c: char)
    ensures
        like(s, p + q) <==> exists|k: int|
            0 <= k <= s.len() && like(#[trigger] s.subrange(0, k), p) && like(
                s.subrange(k, s.len() as int),
                q,
            ),
        like(s, Seq::empty()) <==> s.len() == 0,
        like(s, seq!['%']),
        like(s, seq!['_']) <==> s.len() == 1,
        c != '%' && c != '_' ==> (like(s, seq![c]) <==> s == seq![c]),
{
    lemma_like_parts(s, p, q);
    law_like_any(s);
    lemma_like_one(s, '_');
    if c != '%' {
        lemma_like_one(s, c);
    }
}

proof fn lemma_like_one(s: Seq<char>, c: char)
    requires
        c != '%',
    ensures
        like(s, seq![c]) <==> s.len() == 1 && (c == '_' || s[0] == c),
        c != '_' ==> (like(s, seq![c]) <==> s == seq![c]),
{
    let p = seq![c];
    assert(p.drop_last() =~= Seq::<char>::empty());
    assert(p.last() == c);
    if s.len() > 0 {
        assert(like(s.drop_last(), p.drop_last()) == (s.drop_last().len() == 0));
        if s.len() == 1 {
            assert(s.last() == s[0]);
            if s[0] == c {
                assert(s =~= p);
            }
        }
    }
}

proof fn lemma_like_parts(s: Seq<char>, p: Seq<char>, q: Seq<char>)
    ensures
        like(s, p + q) <==> exists|k: int|
            0 <= k <= s.len() && like(#[trigger] s.subrange(0, k), p) && like(
                s.subrange(k, s.len() as int),
                q,
            ),
    decreases q.len(), s.len(),
{
    let n = s.len() as int;
    let all = p + q;
    if q.len() == 0 {
        assert(all =~= p);
        assert(s.subrange(0, n) =~= s);
        assert forall|k: int| 0 <= k <= n && #[trigger] like(s.subrange(0, k), p) && like(
            s.subrange(k, n),
            q,
        ) implies like(s, all) by {
            assert(s.subrange(0, k) =~= s);
        }
        if like(s, all) {
            assert(like(s.subrange(0, n), p) && like(s.subrange(n, n), q));
        }
    } else {
        let r = q.drop_last();
        assert(all.drop_last() =~= p + r);
        assert(all.last() == q.last());
        if q.last() == '%' {
            lemma_like_parts(s, p, r);
            if n > 0 {
                lemma_like_parts(s.drop_last(), p, q);
            }
            if like(s, all) {
                if like(s, p + r) {
                    let k = choose|k: int|
                        0 <= k <= n && like(#[trigger] s.subrange(0, k), p) && like(
                            s.subrange(k, n),
                            r,
                        );
                    assert(like(s.subrange(k, n), q));
                    assert(like(s.subrange(0, k), p));
                } else {
                    let t = s.drop_last();
                    let k = choose|k: int|
                        0 <= k <= t.len() && like(#[trigger] t.subrange(0, k), p) && like(
                            t.subrange(k, t.len() as int),
                            q,
                        );
                    assert(t.subrange(0, k) =~= s.subrange(0, k));
                    assert(s.subrange(k, n).drop_last() =~= t.subrange(k, t.len() as int));
                    assert(like(s.subrange(k, n), q));
                    assert(like(s.subrange(0, k), p));
                }
            }
            assert forall|k: int| 0 <= k <= n && like(#[trigger] s.subrange(0, k), p) && like(
                s.subrange(k, n),
                q,
            ) implies like(s, all) by {
                let tail = s.subrange(k, n);
                if like(tail, r) {
                    assert(like(s, p + r));
                } else {
                    assert(tail.len() > 0 && like(tail.drop_last(), q));
                    let t = s.drop_last();
                    assert(t.subrange(0, k) =~= s.subrange(0, k));
                    assert(tail.drop_last() =~= t.subrange(k, t.len() as int));
                    assert(like(t, all));
                }
            }
        } else if n > 0 {
            let t = s.drop_last();
            lemma_like_parts(t, p, r);
            if like(s, all) {
                let k = choose|k: int|
                    0 <= k <= t.len() && like(#[trigger] t.subrange(0, k), p) && like(
                        t.subrange(k, t.len() as int),
                        r,
                    );
                assert(t.subrange(0, k) =~= s.subrange(0, k));
                assert(s.subrange(k, n).drop_last() =~= t.subrange(k, t.len() as int));
                assert(s.subrange(k, n).last() == s.last());
                assert(like(s.subrange(k, n), q));
                assert(like(s.subrange(0, k), p));
            }
            assert forall|k: int| 0 <= k <= n && like(#[trigger] s.subrange(0, k), p) && like(
                s.subrange(k, n),
                q,
            ) implies like(s, all) by {
                let tail = s.subrange(k, n);
                assert(tail.len() > 0);
                assert(t.subrange(0, k) =~= s.subrange(0, k));
                assert(tail.drop_last() =~= t.subrange(k, t.len() as int));
                assert(tail.last() == s.last());
                assert(like(t, p + r));
            }
        } else {
            assert forall|k: int| 0 <= k <= n && like(#[trigger] s.subrange(0, k), p) && like(
                s.subrange(k, n),
                q,
            ) implies like(s, all) by {
                assert(s.subrange(k, n).len() == 0);
            }
        }
    }
}

/// LIKE is in a row whether the text matches the pattern there; NULL where either is
/// NULL.
pub proof fn law_like_rows(
    o: spec_fn(Question) -> Answer,
    l: Expr,
    r: Expr,
    c: Chunk,
    names: Seq<Seq<char>>,
    i: int,
    s: Seq<char>,
    p: Seq<char>,
)
    requires
        cell(o, l, c, names, i) is Some,
        cell(o, r, c, names, i) is Some,
    ensures
        ({
            let d = cell(o, Expr::Like(Box::new(l), Box::new(r)), c, names, i);
            &&& cell(o, l, c, names, i) == Some(Datum::Varchar(s)) && cell(o, r, c, names, i)
                == Some(Datum::Varchar(p)) ==> d == Some(Datum::Boolean(like(s, p)))
            &&& cell(o, l, c, names, i) == Some(Datum::Null) || cell(o, r, c, names, i) == Some(
                Datum::Null,
            ) ==> d == Some(Datum::Null)
        }),
{
}

/// The operator of concatenation puts two texts together.
pub proof fn law_joined_texts(
    o: spec_fn(Question) -> Answer,
    l: Expr,
    r: Expr,
    c: Chunk,
    names: Seq<Seq<char>>,
    i: int,
    s: Seq<char>,
    t: Seq<char>,
)
    requires
        cell(o, l, c, names, i) == Some(Datum::Varchar(s)),
        cell(o, r, c, names, i) == Some(Datum::Varchar(t)),
    ensures
        cell(o, of_two(l, BinaryOperator::Concat, r), c, names, i) == Some(Datum::Varchar(s + t)),
{
}

} // verus!
