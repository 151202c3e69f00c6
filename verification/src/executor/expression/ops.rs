//! Operators: arithmetic, comparison, logic, casts, IN and LIKE.
use vstd::prelude::*;

use crate::common::types::DataType;
use crate::common::value_cmp::{
    order_values, total_eq, value_order, whole, widened,
};
use crate::executor::env::{
    answers, arith2, float2, oracle, parse_float, parsed, show, shown, Answer, Ask, FloatOp,
    Question, Reply,
};
use crate::executor::expression::rowwise::{
    apply_map, apply_zip, map_column, zip_columns,
};
use crate::executor::vector::{col_at, col_len, Column, Vector};
use crate::float::{f64_saturate, saturated, F64, SIGN64};
use crate::sql::ast::{BinaryOperator, UnaryOperator};
use crate::text::{int_text, join2, lower_text, parse_int, same_text, to_chars, to_lower};
use crate::value::{text_of, Datum};
use crate::Value;

verus! {

/// The bits of the NaN that a division by zero gives.
pub const QUIET_NAN: u64 = 0x7ff8_0000_0000_0000;

/// An integer where it fits 64 bits, else NULL.
pub open spec fn int_or_null(x: Option<i64>) -> Datum {
    match x {
        Some(v) => Datum::Int64(v),
        None => Datum::Null,
    }
}

/// Whether a double is a zero of either sign.
pub open spec fn is_zero64(b: u64) -> bool {
    b == 0 || b == SIGN64
}

/// Arithmetic on two values. NULL gives NULL. Integers compute in 64 bits,
/// and overflow or division by zero gives NULL; other numbers compute as
/// doubles, and division by zero gives a NaN. Anything else gives NULL.
pub open spec fn arith(
    o: spec_fn(Question) -> Answer,
    l: Datum,
    op: BinaryOperator,
    r: Datum,
) -> Datum {
    if l == Datum::Null || r == Datum::Null {
        Datum::Null
    } else if whole(l) is Some && whole(r) is Some {
        let x = whole(l)->0 as i64;
        let y = whole(r)->0 as i64;
        match op {
            BinaryOperator::Plus => int_or_null(x.checked_add(y)),
            BinaryOperator::Minus => int_or_null(x.checked_sub(y)),
            BinaryOperator::Multiply => int_or_null(x.checked_mul(y)),
            BinaryOperator::Divide => int_or_null(x.checked_div(y)),
            _ => int_or_null(x.checked_rem(y)),
        }
    } else if widened(l) is Some && widened(r) is Some {
        let x = widened(l)->0;
        let y = widened(r)->0;
        match op {
            BinaryOperator::Plus => Datum::Float64(arith2(o, FloatOp::Add, x, y)),
            BinaryOperator::Minus => Datum::Float64(arith2(o, FloatOp::Sub, x, y)),
            BinaryOperator::Multiply => Datum::Float64(arith2(o, FloatOp::Mul, x, y)),
            BinaryOperator::Divide => Datum::Float64(
                if is_zero64(y) {
                    QUIET_NAN
                } else {
                    arith2(o, FloatOp::Div, x, y)
                },
            ),
            _ => Datum::Float64(
                if is_zero64(y) {
                    QUIET_NAN
                } else {
                    arith2(o, FloatOp::Rem, x, y)
                },
            ),
        }
    } else {
        Datum::Null
    }
}

fn int_value(x: Option<i64>) -> (r: Value)
    ensures
        r.deep_view() == int_or_null(x),
{
    match x {
        Some(v) => Value::Int64(v),
        None => Value::Null,
    }
}

/// Arithmetic on two values.
pub fn eval_arith<E: Fn(Ask) -> Reply>(
    left: &Value,
    op: BinaryOperator,
    right: &Value,
    env: &E,
) -> (r: Value)
    requires
        answers(*env),
    ensures
        r.deep_view() == arith(oracle(*env), left.deep_view(), op, right.deep_view()),
{
    if left.is_null() || right.is_null() {
        return Value::Null;
    }
    if let (Some(l), Some(r)) = (left.as_i64(), right.as_i64()) {
        return int_value(
            match op {
                BinaryOperator::Plus => l.checked_add(r),
                BinaryOperator::Minus => l.checked_sub(r),
                BinaryOperator::Multiply => l.checked_mul(r),
                BinaryOperator::Divide => l.checked_div(r),
                _ => l.checked_rem(r),
            },
        );
    }
    if let (Some(l), Some(r)) = (left.as_f64(), right.as_f64()) {
        let zero = r.bits == 0 || r.bits == SIGN64;
        let result: F64 = match op {
            BinaryOperator::Plus => float2(env, FloatOp::Add, l, r),
            BinaryOperator::Minus => float2(env, FloatOp::Sub, l, r),
            BinaryOperator::Multiply => float2(env, FloatOp::Mul, l, r),
            BinaryOperator::Divide => if zero {
                F64 { bits: QUIET_NAN }
            } else {
                float2(env, FloatOp::Div, l, r)
            },
            _ => if zero {
                F64 { bits: QUIET_NAN }
            } else {
                float2(env, FloatOp::Rem, l, r)
            },
        };
        return Value::Float64(result);
    }
    Value::Null
}

/// Whether an order (-1, 0 or 1) satisfies a comparison operator.
pub open spec fn satisfies(order: int, op: BinaryOperator) -> bool {
    match op {
        BinaryOperator::Eq => order == 0,
        BinaryOperator::NotEq => order != 0,
        BinaryOperator::Lt => order < 0,
        BinaryOperator::LtEq => order <= 0,
        BinaryOperator::Gt => order > 0,
        _ => order >= 0,
    }
}

/// Comparison of two values: NULL where either side is NULL.
pub open spec fn compared(l: Datum, op: BinaryOperator, r: Datum) -> Datum {
    if l == Datum::Null || r == Datum::Null {
        Datum::Null
    } else {
        Datum::Boolean(satisfies(value_order(l, r), op))
    }
}

/// Compares two values.
pub fn eval_compare(left: &Value, op: BinaryOperator, right: &Value) -> (r: Value)
    ensures
        r.deep_view() == compared(left.deep_view(), op, right.deep_view()),
{
    if left.is_null() || right.is_null() {
        return Value::Null;
    }
    let o: i8 = order_values(left, right);
    let result = match op {
        BinaryOperator::Eq => o == 0,
        BinaryOperator::NotEq => o != 0,
        BinaryOperator::Lt => o < 0,
        BinaryOperator::LtEq => o <= 0,
        BinaryOperator::Gt => o > 0,
        _ => o >= 0,
    };
    Value::Boolean(result)
}

/// Three-valued AND: false wins over everything; otherwise both must be true.
pub open spec fn logic_and(l: Datum, r: Datum) -> Datum {
    if l == Datum::Boolean(false) || r == Datum::Boolean(false) {
        Datum::Boolean(false)
    } else if l == Datum::Boolean(true) && r == Datum::Boolean(true) {
        Datum::Boolean(true)
    } else {
        Datum::Null
    }
}

/// Three-valued OR: true wins over everything; otherwise both must be false.
pub open spec fn logic_or(l: Datum, r: Datum) -> Datum {
    if l == Datum::Boolean(true) || r == Datum::Boolean(true) {
        Datum::Boolean(true)
    } else if l == Datum::Boolean(false) && r == Datum::Boolean(false) {
        Datum::Boolean(false)
    } else {
        Datum::Null
    }
}

/// Three-valued AND.
pub fn eval_logic_and(left: &Value, right: &Value) -> (r: Value)
    ensures
        r.deep_view() == logic_and(left.deep_view(), right.deep_view()),
{
    match (left, right) {
        (Value::Boolean(false), _) => Value::Boolean(false),
        (_, Value::Boolean(false)) => Value::Boolean(false),
        (Value::Boolean(true), Value::Boolean(true)) => Value::Boolean(true),
        _ => Value::Null,
    }
}

/// Three-valued OR.
pub fn eval_logic_or(left: &Value, right: &Value) -> (r: Value)
    ensures
        r.deep_view() == logic_or(left.deep_view(), right.deep_view()),
{
    match (left, right) {
        (Value::Boolean(true), _) => Value::Boolean(true),
        (_, Value::Boolean(true)) => Value::Boolean(true),
        (Value::Boolean(false), Value::Boolean(false)) => Value::Boolean(false),
        _ => Value::Null,
    }
}

/// AND and OR do not depend on the order of their operands, and NOT carries
/// one into the other.
pub proof fn law_three_valued_logic(a: Datum, b: Datum)
    ensures
        logic_and(a, b) == logic_and(b, a),
        logic_or(a, b) == logic_or(b, a),
        negated(logic_and(a, b)) == logic_or(negated(a), negated(b)),
        negated(logic_or(a, b)) == logic_and(negated(a), negated(b)),
{
}

/// The text of a value for concatenation: its own text, or the text that
/// shows it.
pub open spec fn text_or_shown(o: spec_fn(Question) -> Answer, d: Datum) -> Seq<char> {
    match text_of(d) {
        Some(s) => s,
        None => shown(o, d),
    }
}

/// Concatenation; NULL gives NULL.
pub open spec fn concatenated(o: spec_fn(Question) -> Answer, l: Datum, r: Datum) -> Datum {
    if l == Datum::Null || r == Datum::Null {
        Datum::Null
    } else {
        Datum::Varchar(text_or_shown(o, l) + text_or_shown(o, r))
    }
}

/// The text of a value for concatenation.
pub fn display_text<E: Fn(Ask) -> Reply>(v: &Value, env: &E) -> (r: String)
    requires
        answers(*env),
    ensures
        r@ == text_or_shown(oracle(*env), v.deep_view()),
{
    match v.as_str() {
        Some(s) => s.to_owned(),
        None => show(env, v),
    }
}

/// Concatenates two values.
pub fn eval_concat<E: Fn(Ask) -> Reply>(left: &Value, right: &Value, env: &E) -> (r: Value)
    requires
        answers(*env),
    ensures
        r.deep_view() == concatenated(oracle(*env), left.deep_view(), right.deep_view()),
{
    if left.is_null() || right.is_null() {
        return Value::Null;
    }
    let l = display_text(left, env);
    let r = display_text(right, env);
    Value::Varchar(join2(l.as_str(), r.as_str()))
}

/// The result of an operator on two values.
pub open spec fn binary(
    o: spec_fn(Question) -> Answer,
    l: Datum,
    op: BinaryOperator,
    r: Datum,
) -> Datum {
    match op {
        BinaryOperator::Plus
        | BinaryOperator::Minus
        | BinaryOperator::Multiply
        | BinaryOperator::Divide
        | BinaryOperator::Modulo => arith(o, l, op, r),
        BinaryOperator::Eq
        | BinaryOperator::NotEq
        | BinaryOperator::Lt
        | BinaryOperator::LtEq
        | BinaryOperator::Gt
        | BinaryOperator::GtEq => compared(l, op, r),
        BinaryOperator::And => logic_and(l, r),
        BinaryOperator::Or => logic_or(l, r),
        BinaryOperator::Concat => concatenated(o, l, r),
    }
}

/// Applies an operator to two values.
pub fn eval_binary_value<E: Fn(Ask) -> Reply>(
    left: &Value,
    op: BinaryOperator,
    right: &Value,
    env: &E,
) -> (r: Value)
    requires
        answers(*env),
    ensures
        r.deep_view() == binary(oracle(*env), left.deep_view(), op, right.deep_view()),
{
    match op {
        BinaryOperator::Plus
        | BinaryOperator::Minus
        | BinaryOperator::Multiply
        | BinaryOperator::Divide
        | BinaryOperator::Modulo => eval_arith(left, op, right, env),
        BinaryOperator::Eq
        | BinaryOperator::NotEq
        | BinaryOperator::Lt
        | BinaryOperator::LtEq
        | BinaryOperator::Gt
        | BinaryOperator::GtEq => eval_compare(left, op, right),
        BinaryOperator::And => eval_logic_and(left, right),
        BinaryOperator::Or => eval_logic_or(left, right),
        BinaryOperator::Concat => eval_concat(left, right, env),
    }
}

/// The result of an operator on two columns.
pub open spec fn binary_column(
    o: spec_fn(Question) -> Answer,
    a: Column,
    op: BinaryOperator,
    b: Column,
) -> Column {
    zip_columns(a, b, |x: Datum, y: Datum| binary(o, x, op, y))
}

/// Applies an operator to two vectors.
pub fn eval_binary_vectorized<E: Fn(Ask) -> Reply>(
    left: &Vector,
    op: BinaryOperator,
    right: &Vector,
    env: &E,
) -> (r: Vector)
    requires
        answers(*env),
        left.wf(),
        right.wf(),
        col_len(left.deep_view()) == col_len(right.deep_view()),
    ensures
        r.wf(),
        r.deep_view() == binary_column(oracle(*env), left.deep_view(), op, right.deep_view()),
{
    let ghost o = oracle(*env);
    let g = |x: &Value, y: &Value| -> (z: Value)
        ensures
            z.deep_view() == binary(oracle(*env), x.deep_view(), op, y.deep_view()),
    { eval_binary_value(x, op, y, env) };
    apply_zip(left, right, g, Ghost(|x: Datum, y: Datum| binary(o, x, op, y)))
}

/// The bits of a double with the opposite sign.
pub open spec fn flip_sign(b: u64) -> u64 {
    if b < SIGN64 {
        (b + SIGN64) as u64
    } else {
        (b - SIGN64) as u64
    }
}

/// NOT of a truth value; anything else gives NULL.
pub open spec fn negated(d: Datum) -> Datum {
    match d {
        Datum::Boolean(b) => Datum::Boolean(!b),
        _ => Datum::Null,
    }
}

/// The result of an operator on one value. Negation of the smallest integer
/// wraps around to itself.
pub open spec fn unary(d: Datum, op: UnaryOperator) -> Datum {
    match op {
        UnaryOperator::Not => negated(d),
        UnaryOperator::Negate => if whole(d) is Some {
            Datum::Int64(0i64.wrapping_sub(whole(d)->0 as i64))
        } else if widened(d) is Some {
            Datum::Float64(flip_sign(widened(d)->0))
        } else {
            Datum::Null
        },
    }
}

/// Applies an operator to one value.
pub fn eval_unary_value(v: &Value, op: UnaryOperator) -> (r: Value)
    ensures
        r.deep_view() == unary(v.deep_view(), op),
{
    match op {
        UnaryOperator::Not => match v {
            Value::Boolean(b) => Value::Boolean(!*b),
            _ => Value::Null,
        },
        UnaryOperator::Negate => {
            if let Some(i) = v.as_i64() {
                Value::Int64(0i64.wrapping_sub(i))
            } else if let Some(f) = v.as_f64() {
                let bits: u64 = if f.bits < SIGN64 {
                    f.bits + SIGN64
                } else {
                    f.bits - SIGN64
                };
                Value::Float64(F64 { bits })
            } else {
                Value::Null
            }
        },
    }
}

/// Applies an operator to a vector.
pub fn eval_unary_vectorized(vec: &Vector, op: UnaryOperator) -> (r: Vector)
    requires
        vec.wf(),
    ensures
        r.wf(),
        r.deep_view() == map_column(vec.deep_view(), |d: Datum| unary(d, op)),
{
    let g = |x: &Value| -> (z: Value)
        ensures
            z.deep_view() == unary(x.deep_view(), op),
    { eval_unary_value(x, op) };
    apply_map(vec, g, Ghost(|d: Datum| unary(d, op)))
}

/// Whether a value is NULL, or is not.
pub open spec fn null_test(d: Datum, negate: bool) -> Datum {
    Datum::Boolean((d == Datum::Null) != negate)
}

/// Tests each row for NULL, or for not being NULL.
pub fn eval_is_null(vec: &Vector, negate: bool) -> (r: Vector)
    requires
        vec.wf(),
    ensures
        r.wf(),
        r.deep_view() == map_column(vec.deep_view(), |d: Datum| null_test(d, negate)),
{
    let g = |x: &Value| -> (z: Value)
        ensures
            z.deep_view() == null_test(x.deep_view(), negate),
    { Value::Boolean(x.is_null() != negate) };
    apply_map(vec, g, Ghost(|d: Datum| null_test(d, negate)))
}

/// A value converted to a type; NULL where there is no conversion.
pub open spec fn cast(o: spec_fn(Question) -> Answer, d: Datum, t: DataType) -> Datum {
    if d == Datum::Null {
        Datum::Null
    } else {
        match t {
            DataType::Boolean => match d {
                Datum::Boolean(b) => Datum::Boolean(b),
                Datum::Int32(n) => Datum::Boolean(n != 0),
                Datum::Int64(n) => Datum::Boolean(n != 0),
                Datum::Float64(b) => Datum::Boolean(!is_zero64(b)),
                Datum::Varchar(s) => Datum::Boolean(lower_text(s) == "true"@),
                _ => Datum::Null,
            },
            DataType::Int32 => if whole(d) is Some {
                Datum::Int32((whole(d)->0 as i64) as i32)
            } else if widened(d) is Some {
                Datum::Int32(saturated(widened(d)->0, i32::MIN as int, i32::MAX as int) as i32)
            } else {
                match d {
                    Datum::Varchar(s) => match int_text(s, i32::MIN as int, i32::MAX as int) {
                        Some(v) => Datum::Int32(v as i32),
                        None => Datum::Null,
                    },
                    _ => Datum::Null,
                }
            },
            DataType::Int64 => if whole(d) is Some {
                Datum::Int64(whole(d)->0 as i64)
            } else if widened(d) is Some {
                Datum::Int64(saturated(widened(d)->0, i64::MIN as int, i64::MAX as int) as i64)
            } else {
                match d {
                    Datum::Varchar(s) => match int_text(s, i64::MIN as int, i64::MAX as int) {
                        Some(v) => Datum::Int64(v as i64),
                        None => Datum::Null,
                    },
                    _ => Datum::Null,
                }
            },
            DataType::Float64 => if widened(d) is Some {
                Datum::Float64(widened(d)->0)
            } else {
                match d {
                    Datum::Varchar(s) => match parsed(o, s) {
                        Some(b) => Datum::Float64(b),
                        None => Datum::Null,
                    },
                    _ => Datum::Null,
                }
            },
            DataType::Varchar => Datum::Varchar(shown(o, d)),
            _ => Datum::Null,
        }
    }
}

/// Converts a value to a type.
pub fn cast_value<E: Fn(Ask) -> Reply>(v: &Value, target: DataType, env: &E) -> (r: Value)
    requires
        answers(*env),
    ensures
        r.deep_view() == cast(oracle(*env), v.deep_view(), target),
{
    if v.is_null() {
        return Value::Null;
    }
    match target {
        DataType::Boolean => match v {
            Value::Boolean(b) => Value::Boolean(*b),
            Value::Int32(n) => Value::Boolean(*n != 0),
            Value::Int64(n) => Value::Boolean(*n != 0),
            Value::Float64(f) => Value::Boolean(!(f.bits == 0 || f.bits == SIGN64)),
            Value::Varchar(s) => {
                let l = to_lower(s.as_str());
                Value::Boolean(same_text(l.as_str(), "true"))
            },
            _ => Value::Null,
        },
        DataType::Int32 => {
            if let Some(i) = v.as_i64() {
                Value::Int32(
                    #[verifier::truncate]
                    (i as i32),
                )
            } else if let Some(f) = v.as_f64() {
                Value::Int32(f64_saturate(f, i32::MIN as i64, i32::MAX as i64) as i32)
            } else if let Value::Varchar(s) = v {
                match parse_int(s.as_str(), i32::MIN as i128, i32::MAX as i128) {
                    Some(x) => Value::Int32(x as i32),
                    None => Value::Null,
                }
            } else {
                Value::Null
            }
        },
        DataType::Int64 => {
            if let Some(i) = v.as_i64() {
                Value::Int64(i)
            } else if let Some(f) = v.as_f64() {
                Value::Int64(f64_saturate(f, i64::MIN, i64::MAX))
            } else if let Value::Varchar(s) = v {
                match parse_int(s.as_str(), i64::MIN as i128, i64::MAX as i128) {
                    Some(x) => Value::Int64(x as i64),
                    None => Value::Null,
                }
            } else {
                Value::Null
            }
        },
        DataType::Float64 => {
            if let Some(f) = v.as_f64() {
                Value::Float64(f)
            } else if let Value::Varchar(s) = v {
                match parse_float(env, s.as_str()) {
                    Some(x) => Value::Float64(x),
                    None => Value::Null,
                }
            } else {
                Value::Null
            }
        },
        DataType::Varchar => Value::Varchar(show(env, v)),
        _ => Value::Null,
    }
}

/// Converts each row to a type.
pub fn eval_cast<E: Fn(Ask) -> Reply>(vec: &Vector, target: DataType, env: &E) -> (r: Vector)
    requires
        answers(*env),
        vec.wf(),
    ensures
        r.wf(),
        r.deep_view() == map_column(vec.deep_view(), |d: Datum| cast(oracle(*env), d, target)),
{
    let ghost o = oracle(*env);
    let g = |x: &Value| -> (z: Value)
        ensures
            z.deep_view() == cast(oracle(*env), x.deep_view(), target),
    { cast_value(x, target, env) };
    let r = apply_map(vec, g, Ghost(|d: Datum| cast(o, d, target)));
    assert(map_column(vec.deep_view(), |d: Datum| cast(o, d, target)) =~= map_column(
        vec.deep_view(),
        |d: Datum| cast(oracle(*env), d, target),
    ));
    r
}

/// Whether `d` is equal to row `i` of one of the columns from `k` on.
pub open spec fn found(d: Datum, list: Seq<Column>, i: int) -> bool {
    exists|k: int| 0 <= k < list.len() && value_order(d, #[trigger] col_at(list[k], i)) == 0
}

/// Whether all columns are constant.
pub open spec fn all_constant(list: Seq<Column>) -> bool {
    forall|k: int| 0 <= k < list.len() ==> #[trigger] list[k] is Constant
}

/// Membership of each row in a list. NULL is a member of a list that holds
/// NULL. Constants make a constant, and nothing is a member of an empty list.
pub open spec fn in_list(c: Column, list: Seq<Column>) -> Column {
    if list.len() == 0 {
        Column::Constant(Datum::Boolean(false), col_len(c))
    } else if c is Constant && all_constant(list) {
        Column::Constant(Datum::Boolean(found(c->Constant_0, list, 0)), col_len(c))
    } else {
        Column::Flat(Seq::new(col_len(c), |i: int| Datum::Boolean(found(col_at(c, i), list, i))))
    }
}

fn value_found(v: &Value, list: &Vec<Vector>, i: usize) -> (r: bool)
    requires
        forall|k: int|
            0 <= k < list.len() ==> (#[trigger] list[k]).wf() && crate::executor::vector::col_has(
                list[k].deep_view(),
                i as int,
            ),
    ensures
        r == found(v.deep_view(), list.deep_view(), i as int),
{
    let ghost cols = list.deep_view();
    let mut k: usize = 0;
    while k < list.len()
        invariant
            cols == list.deep_view(),
            k <= list.len(),
            forall|j: int|
                0 <= j < list.len() ==> (#[trigger] list[j]).wf()
                    && crate::executor::vector::col_has(list[j].deep_view(), i as int),
            forall|j: int|
                0 <= j < k ==> value_order(v.deep_view(), #[trigger] col_at(cols[j], i as int))
                    != 0,
        decreases list.len() - k,
    {
        assert(cols[k as int] == list[k as int].deep_view());
        let x = list[k].get(i);
        if total_eq(v, &x) {
            assert(value_order(v.deep_view(), col_at(cols[k as int], i as int)) == 0);
            return true;
        }
        k += 1;
    }
    false
}

/// Tests each row for membership in a list.
pub fn eval_in_list(expr_vec: &Vector, list_vecs: &Vec<Vector>) -> (r: Vector)
    requires
        expr_vec.wf(),
        forall|k: int|
            0 <= k < list_vecs.len() ==> (#[trigger] list_vecs[k]).wf() && col_len(
                list_vecs[k].deep_view(),
            ) == col_len(expr_vec.deep_view()),
    ensures
        r.wf(),
        r.deep_view() == in_list(expr_vec.deep_view(), list_vecs.deep_view()),
{
    let ghost cols = list_vecs.deep_view();
    let ghost c = expr_vec.deep_view();
    if list_vecs.len() == 0 {
        return Vector::Constant(Value::Boolean(false), expr_vec.len());
    }
    if let Vector::Constant(val, n) = expr_vec {
        let mut all = true;
        let mut k: usize = 0;
        while k < list_vecs.len()
            invariant
                cols == list_vecs.deep_view(),
                k <= list_vecs.len(),
                all <==> forall|j: int| 0 <= j < k ==> #[trigger] cols[j] is Constant,
            decreases list_vecs.len() - k,
        {
            assert(cols[k as int] == list_vecs[k as int].deep_view());
            if !matches!(&list_vecs[k], Vector::Constant(_, _)) {
                all = false;
            }
            k += 1;
        }
        if all {
            assert forall|k: int| 0 <= k < list_vecs.len() implies (
            #[trigger] list_vecs[k]).wf() && crate::executor::vector::col_has(
                list_vecs[k].deep_view(),
                0,
            ) by {
                assert(cols[k] == list_vecs[k].deep_view());
            }
            let hit = value_found(val, list_vecs, 0);
            return Vector::Constant(Value::Boolean(hit), *n);
        }
    }
    let n: usize = expr_vec.len();
    let mut out: Vec<Value> = Vec::new();
    let mut i: usize = 0;
    while i < n
        invariant
            expr_vec.wf(),
            c == expr_vec.deep_view(),
            cols == list_vecs.deep_view(),
            n == col_len(c),
            i <= n,
            out.len() == i,
            forall|k: int|
                0 <= k < list_vecs.len() ==> (#[trigger] list_vecs[k]).wf() && col_len(
                    list_vecs[k].deep_view(),
                ) == n,
            forall|k: int|
                0 <= k < i ==> (#[trigger] out[k]).deep_view() == Datum::Boolean(
                    found(col_at(c, k), cols, k),
                ),
        decreases n - i,
    {
        let v = expr_vec.get(i);
        out.push(Value::Boolean(value_found(&v, list_vecs, i)));
        i += 1;
    }
    assert(out.deep_view() =~= Seq::new(
        col_len(c),
        |i: int| Datum::Boolean(found(col_at(c, i), cols, i)),
    ));
    Vector::Flat(out)
}

/// Whether a text matches a pattern, in which `%` stands for any characters
/// and `_` for any one.
pub open spec fn like(s: Seq<char>, p: Seq<char>) -> bool
    decreases s.len() + p.len(),
{
    if p.len() == 0 {
        s.len() == 0
    } else if p.last() == '%' {
        like(s, p.drop_last()) || (s.len() > 0 && like(s.drop_last(), p))
    } else {
        s.len() > 0 && (p.last() == '_' || p.last() == s.last()) && like(
            s.drop_last(),
            p.drop_last(),
        )
    }
}

/// Tests a text against a pattern. Row by row, `row[j]` says whether the
/// characters read so far match the first `j` characters of the pattern.
pub fn like_pattern_match(s: &str, pattern: &str) -> (r: bool)
    ensures
        r == like(s@, pattern@),
{
    let sc = to_chars(s);
    let pc = to_chars(pattern);
    let ghost p = pc@;
    let mut row: Vec<bool> = Vec::new();
    let mut j: usize = 0;
    row.push(true);
    assert(sc@.subrange(0, 0) =~= Seq::empty());
    assert(p.subrange(0, 0) =~= Seq::empty());
    while j < pc.len()
        invariant
            p == pc@,
            j <= pc.len(),
            row.len() == j + 1,
            forall|k: int|
                0 <= k <= j ==> #[trigger] row[k] == like(Seq::<char>::empty(), p.subrange(0, k)),
        decreases pc.len() - j,
    {
        proof {
            let q = p.subrange(0, j as int + 1);
            assert(q.drop_last() =~= p.subrange(0, j as int));
            assert(q.last() == p[j as int]);
        }
        let v = pc[j] == '%' && row[j];
        row.push(v);
        j += 1;
    }
    let mut i: usize = 0;
    while i < sc.len()
        invariant
            p == pc@,
            i <= sc.len(),
            row.len() == pc.len() + 1,
            forall|k: int|
                0 <= k <= pc.len() ==> #[trigger] row[k] == like(
                    sc@.subrange(0, i as int),
                    p.subrange(0, k),
                ),
        decreases sc.len() - i,
    {
        let ghost t = sc@.subrange(0, i as int + 1);
        proof {
            assert(t.drop_last() =~= sc@.subrange(0, i as int));
            assert(t.last() == sc[i as int]);
        }
        let mut next: Vec<bool> = Vec::new();
        next.push(false);
        assert(p.subrange(0, 0) =~= Seq::empty());
        let mut j: usize = 0;
        while j < pc.len()
            invariant
                p == pc@,
                i < sc.len(),
                t == sc@.subrange(0, i as int + 1),
                t.drop_last() == sc@.subrange(0, i as int),
                t.last() == sc[i as int],
                t.len() == i + 1,
                j <= pc.len(),
                row.len() == pc.len() + 1,
                next.len() == j + 1,
                forall|k: int|
                    0 <= k <= pc.len() ==> #[trigger] row[k] == like(
                        sc@.subrange(0, i as int),
                        p.subrange(0, k),
                    ),
                forall|k: int| 0 <= k <= j ==> #[trigger] next[k] == like(t, p.subrange(0, k)),
            decreases pc.len() - j,
        {
            proof {
                let q = p.subrange(0, j as int + 1);
                assert(q.drop_last() =~= p.subrange(0, j as int));
                assert(q.last() == p[j as int]);
                assert(row[j as int + 1] == like(t.drop_last(), q));
                assert(row[j as int] == like(t.drop_last(), q.drop_last()));
                assert(next[j as int] == like(t, q.drop_last()));
            }
            let c = pc[j];
            let v = if c == '%' {
                next[j] || row[j + 1]
            } else {
                (c == '_' || c == sc[i]) && row[j]
            };
            next.push(v);
            j += 1;
        }
        row = next;
        i += 1;
    }
    assert(sc@.subrange(0, i as int) =~= sc@);
    assert(p.subrange(0, pc.len() as int) =~= p);
    row[pc.len()]
}

/// A pattern without wildcards matches only itself.
pub proof fn law_like_plain(s: Seq<char>, p: Seq<char>)
    requires
        forall|i: int| 0 <= i < p.len() ==> #[trigger] p[i] != '%' && p[i] != '_',
    ensures
        like(s, p) <==> s == p,
    decreases p.len(),
{
    if p.len() == 0 {
        assert(s.len() == 0 ==> s =~= p);
    } else {
        let q = p.drop_last();
        assert forall|i: int| 0 <= i < q.len() implies #[trigger] q[i] != '%' && q[i] != '_' by {
            assert(q[i] == p[i]);
        }
        assert(p.last() == p[p.len() - 1]);
        if s.len() > 0 {
            law_like_plain(s.drop_last(), q);
            if s.last() == p.last() && s.drop_last() == q {
                assert(s =~= s.drop_last().push(s.last()));
                assert(p =~= q.push(p.last()));
            }
        }
    }
}

/// A single `%` matches every text.
pub proof fn law_like_any(s: Seq<char>)
    ensures
        like(s, seq!['%']),
    decreases s.len(),
{
    assert(seq!['%'].drop_last() =~= Seq::<char>::empty());
    assert(like(s, Seq::<char>::empty()) == (s.len() == 0));
    if s.len() > 0 {
        law_like_any(s.drop_last());
    }
}

/// LIKE on two values: NULL gives NULL, and only texts match.
pub open spec fn like_datum(v: Datum, p: Datum) -> Datum {
    if v == Datum::Null || p == Datum::Null {
        Datum::Null
    } else {
        match (text_of(v), text_of(p)) {
            (Some(s), Some(t)) => Datum::Boolean(like(s, t)),
            _ => Datum::Boolean(false),
        }
    }
}

/// LIKE on two values.
pub fn like_match(value: &Value, pattern: &Value) -> (r: Value)
    ensures
        r.deep_view() == like_datum(value.deep_view(), pattern.deep_view()),
{
    if value.is_null() || pattern.is_null() {
        return Value::Null;
    }
    match (value.as_str(), pattern.as_str()) {
        (Some(s), Some(p)) => Value::Boolean(like_pattern_match(s, p)),
        _ => Value::Boolean(false),
    }
}

/// LIKE on two vectors.
pub fn eval_like(expr_vec: &Vector, pattern_vec: &Vector) -> (r: Vector)
    requires
        expr_vec.wf(),
        pattern_vec.wf(),
        col_len(expr_vec.deep_view()) == col_len(pattern_vec.deep_view()),
    ensures
        r.wf(),
        r.deep_view() == zip_columns(
            expr_vec.deep_view(),
            pattern_vec.deep_view(),
            |x: Datum, y: Datum| like_datum(x, y),
        ),
{
    let g = |x: &Value, y: &Value| -> (z: Value)
        ensures
            z.deep_view() == like_datum(x.deep_view(), y.deep_view()),
    { like_match(x, y) };
    apply_zip(expr_vec, pattern_vec, g, Ghost(|x: Datum, y: Datum| like_datum(x, y)))
}

} // verus!
