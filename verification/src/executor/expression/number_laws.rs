//! What choices, the functions of numbers and conversions give in a row.
use vstd::arithmetic::power::pow;
use vstd::prelude::*;

use crate::common::error::Fault;
use crate::common::types::DataType;
use crate::common::value_cmp::widened;
use crate::executor::env::{arith1, arith2, number, parsed, Answer, FloatOp, Question};
use crate::executor::exact::{amounts, denotes, exact, finite64, fits64, held, stands};
use crate::executor::expression::call_laws::{called, lemma_args, lemma_names};
use crate::executor::expression::date_laws::lemma_dec_reads;
use crate::executor::expression::eval::{eval, eval_list};
use crate::executor::expression::functions::first_present;
use crate::executor::expression::numeric::{narrowed, plain_number};
use crate::executor::expression::operator_laws::cell;
use crate::executor::vector::{Chunk, Column};
use crate::float::{lemma_two_mono, saturated, two, INF32, SIGN32, SIGN64};
use crate::float_laws::{
    law_integer_kept, law_order_doubles, law_single_kept, law_toward_zero, law_whole, one,
    stands_whole, units, units32, units_above,
};
use crate::sql::ast::Expr;
use crate::text::{dec, dec_int, digit_value, int_text, lower_text, upper_text};
use crate::value::Datum;

verus! {

/// COALESCE and IFNULL are the first argument that is not NULL in the row, and NULL
/// where all are.
pub proof fn law_coalesce(
    o: spec_fn(Question) -> Answer,
    name: Seq<char>,
    args: Seq<Expr>,
    k: int,
    c: Chunk,
    names: Seq<Seq<char>>,
    i: int,
)
    requires
        upper_text(name) == "COALESCE"@ || upper_text(name) == "IFNULL"@ && args.len() == 2,
        0 < args.len(),
        0 <= k <= args.len(),
        forall|j: int| 0 <= j < args.len() ==> cell(o, #[trigger] args[j], c, names, i) is Some,
        forall|j: int|
            0 <= j < k ==> cell(o, #[trigger] args[j], c, names, i) == Some(Datum::Null),
    ensures
        k < args.len() && cell(o, args[k], c, names, i) != Some(Datum::Null) ==> cell(
            o,
            called(name, args),
            c,
            names,
            i,
        ) == cell(o, args[k], c, names, i),
        k == args.len() ==> cell(o, called(name, args), c, names, i) == Some(Datum::Null),
{
    lemma_names();
    assert forall|j: int| 0 <= j < args.len() implies eval(o, #[trigger] args[j], c, names) is Ok by {
        assert(cell(o, args[j], c, names, i) is Some);
    }
    lemma_args(o, args, 0, c, names);
    let cols = eval_list(o, args, 0, 1, c, names)->Ok_0;
    assert(cell(o, args[0], c, names, i) is Some);
    lemma_present(o, args, cols, c, names, i, 0, k);
    if k < args.len() {
        assert(cell(o, args[k], c, names, i) is Some);
        assert(eval(o, args[k], c, names) == Ok::<Column, Fault>(cols[k]));
    }
}

proof fn lemma_present(
    o: spec_fn(Question) -> Answer,
    args: Seq<Expr>,
    cols: Seq<Column>,
    c: Chunk,
    names: Seq<Seq<char>>,
    i: int,
    j: int,
    k: int,
)
    requires
        0 <= j <= k <= args.len(),
        cols.len() == args.len(),
        forall|l: int|
            0 <= l < args.len() ==> eval(o, #[trigger] args[l], c, names) == Ok::<Column, Fault>(
                cols[l],
            ),
        forall|l: int|
            0 <= l < k ==> cell(o, #[trigger] args[l], c, names, i) == Some(Datum::Null),
    ensures
        first_present(cols, i, j) == first_present(cols, i, k),
    decreases k - j,
{
    if j < k {
        assert(cell(o, args[j], c, names, i) == Some(Datum::Null));
        lemma_present(o, args, cols, c, names, i, j + 1, k);
    }
}

/// NULLIF is NULL where both values are the same, and else the first. IF is its second
/// value where the first is true, and else the third.
pub proof fn law_choices(
    o: spec_fn(Question) -> Answer,
    name: Seq<char>,
    d: Expr,
    e: Expr,
    f: Expr,
    x: Datum,
    y: Datum,
    z: Datum,
    c: Chunk,
    names: Seq<Seq<char>>,
    i: int,
)
    requires
        cell(o, d, c, names, i) == Some(x),
        cell(o, e, c, names, i) == Some(y),
        cell(o, f, c, names, i) == Some(z),
    ensures
        upper_text(name) == "NULLIF"@ ==> {
            let r = cell(o, called(name, seq![d, e]), c, names, i);
            (x == y ==> r == Some(Datum::Null)) && (x != y ==> r == Some(x))
        },
        upper_text(name) == "IF"@ ==> {
            let r = cell(o, called(name, seq![d, e, f]), c, names, i);
            (x == Datum::Boolean(true) ==> r == Some(y)) && (x != Datum::Boolean(true) ==> r
                == Some(z))
        },
{
    lemma_names();
    lemma_two_args(o, d, e, c, names);
    let args = seq![d, e, f];
    assert(args[0] == d && args[1] == e && args[2] == f);
    assert forall|k: int| 0 <= k < args.len() implies eval(o, #[trigger] args[k], c, names) is Ok by {
        assert(k == 0 || k == 1 || k == 2);
    }
    lemma_args(o, args, 0, c, names);
    assert(eval(o, args[0], c, names) == eval(o, d, c, names));
    assert(eval(o, args[1], c, names) == eval(o, e, c, names));
    assert(eval(o, args[2], c, names) == eval(o, f, c, names));
}

proof fn lemma_one_arg(o: spec_fn(Question) -> Answer, e: Expr, c: Chunk, names: Seq<Seq<char>>)
    requires
        eval(o, e, c, names) is Ok,
    ensures
        eval_list(o, seq![e], 0, 1, c, names) matches Ok(a)
            && a.len() == 1 && eval(o, e, c, names) == Ok::<Column, Fault>(a[0]),
{
    let args = seq![e];
    assert(args[0] == e);
    assert forall|k: int| 0 <= k < args.len() implies eval(o, #[trigger] args[k], c, names) is Ok by {
        assert(k == 0);
    }
    lemma_args(o, args, 0, c, names);
    assert(eval(o, args[0], c, names) == eval(o, e, c, names));
}

proof fn lemma_two_args(
    o: spec_fn(Question) -> Answer,
    d: Expr,
    e: Expr,
    c: Chunk,
    names: Seq<Seq<char>>,
)
    requires
        eval(o, d, c, names) is Ok,
        eval(o, e, c, names) is Ok,
    ensures
        eval_list(o, seq![d, e], 0, 1, c, names) matches Ok(a)
            && a.len() == 2 && eval(o, d, c, names) == Ok::<Column, Fault>(a[0]) && eval(
            o,
            e,
            c,
            names,
        ) == Ok::<Column, Fault>(a[1]),
{
    let args = seq![d, e];
    assert(args[0] == d && args[1] == e);
    assert forall|k: int| 0 <= k < args.len() implies eval(o, #[trigger] args[k], c, names) is Ok by {
        assert(k == 0 || k == 1);
    }
    lemma_args(o, args, 0, c, names);
    assert(eval(o, args[0], c, names) == eval(o, d, c, names));
    assert(eval(o, args[1], c, names) == eval(o, e, c, names));
}

/// ABS is the number or its negative, whichever is not below zero; of a float it clears
/// the sign and nothing else. UPPER and LOWER turn a text into its upper or lower case.
pub proof fn law_absolute(
    o: spec_fn(Question) -> Answer,
    name: Seq<char>,
    e: Expr,
    x: int,
    b: u64,
    s: Seq<char>,
    c: Chunk,
    names: Seq<Seq<char>>,
    i: int,
)
    requires
        cell(o, e, c, names, i) is Some,
    ensures
        ({
            let n = upper_text(name);
            let r = cell(o, called(name, seq![e]), c, names, i);
            &&& n == "ABS"@ && (cell(o, e, c, names, i) matches Some(a) && denotes(a, x)) && fits64(
                -x,
            ) ==> (r matches Some(Datum::Int64(v)) && v >= 0 && (v == x || v + x == 0))
            &&& n == "ABS"@ && cell(o, e, c, names, i) == Some(Datum::Float64(b)) ==> (r matches Some(
                Datum::Float64(z),
            ) && z < SIGN64 && (z == b || z + SIGN64 == b))
            &&& (n == "UPPER"@ || n == "UCASE"@) && cell(o, e, c, names, i) == Some(
                Datum::Varchar(s),
            ) ==> r == Some(Datum::Varchar(upper_text(s)))
            &&& (n == "LOWER"@ || n == "LCASE"@) && cell(o, e, c, names, i) == Some(
                Datum::Varchar(s),
            ) ==> r == Some(Datum::Varchar(lower_text(s)))
        }),
{
    lemma_names();
    lemma_one_arg(o, e, c, names);
}

/// MOD of two integers is away from the first by a multiple of the second, not below
/// zero and nearer to it than the second. It is NULL for a divisor of zero.
pub proof fn law_mod(
    o: spec_fn(Question) -> Answer,
    name: Seq<char>,
    d: Expr,
    e: Expr,
    x: i64,
    y: i64,
    c: Chunk,
    names: Seq<Seq<char>>,
    i: int,
)
    requires
        upper_text(name) == "MOD"@,
        cell(o, d, c, names, i) == Some(Datum::Int64(x)),
        cell(o, e, c, names, i) == Some(Datum::Int64(y)),
    ensures
        y != 0 ==> (cell(o, called(name, seq![d, e]), c, names, i) matches Some(Datum::Int64(r))
            && 0 <= r && (r < y || r < -y) && (exists|q: int| x == #[trigger] (q * y) + r)),
        y == 0 ==> cell(o, called(name, seq![d, e]), c, names, i) == Some(Datum::Null),
{
    lemma_names();
    lemma_two_args(o, d, e, c, names);
    if y != 0 {
        let (a, b) = (x as int, y as int);
        let (q, r) = (a / b, a % b);
        assert(a == q * b + r && 0 <= r && (r < b || r < -b)) by (nonlinear_arith)
            requires
                b != 0,
                q == a / b,
                r == a % b,
        ;
        assert(x == (q * y) + r);
    }
}

/// Whether a value is a number worth `u`, in units of the smallest double above zero.
pub open spec fn worth(d: Datum, u: int) -> bool {
    match d {
        Datum::Int32(x) => u == x * one(),
        Datum::Int64(x) => u == x * one() && -0x20_0000_0000_0000 <= x <= 0x20_0000_0000_0000,
        Datum::Float32(b) => u == units32(b) * two(925) && (b as int) % (SIGN32 as int) < INF32,
        Datum::Float64(b) => u == units(b) && finite64(b),
        _ => false,
    }
}

/// Whether a double stands for an integer.
pub open spec fn integer(b: u64, n: int) -> bool {
    finite64(b) && units(b) == n * one()
}

/// Whether the operations of an environment that round give the integer below, the
/// integer above and the integer toward zero.
pub open spec fn rounds(o: spec_fn(Question) -> Answer) -> bool {
    &&& forall|x: u64, n: int|
        finite64(x) && n * one() <= units(x) < (n + 1) * one() ==> #[trigger] integer(
            arith1(o, FloatOp::Floor, x),
            n,
        )
    &&& forall|x: u64, n: int|
        finite64(x) && (n - 1) * one() < units(x) <= n * one() ==> #[trigger] integer(
            arith1(o, FloatOp::Ceil, x),
            n,
        )
    &&& forall|x: u64, n: int|
        finite64(x) && 0 <= n * one() <= units(x) < (n + 1) * one() ==> #[trigger] integer(
            arith1(o, FloatOp::Trunc, x),
            n,
        )
    &&& forall|x: u64, n: int|
        finite64(x) && (n - 1) * one() < units(x) <= n * one() <= 0 ==> #[trigger] integer(
            arith1(o, FloatOp::Trunc, x),
            n,
        )
}

/// The double of a number is worth as much.
proof fn lemma_worth(d: Datum, u: int)
    requires
        worth(d, u),
    ensures
        plain_number(d) matches Some(b) && finite64(b) && units(b) == u,
{
    match d {
        Datum::Int32(x) => law_integer_kept(x as int),
        Datum::Int64(x) => law_integer_kept(x as int),
        Datum::Float32(b) => law_single_kept(b),
        _ => {},
    }
}

/// A double that stands for an integer of 64 bits is shown as that integer, and one that
/// stands for none as it is.
pub proof fn law_narrowed(b: u64, n: int)
    requires
        finite64(b),
    ensures
        integer(b, n) && fits64(n) ==> narrowed(b) == Datum::Int64(n as i64),
        (forall|k: int| !#[trigger] integer(b, k)) ==> narrowed(b) == Datum::Float64(b),
{
    law_whole(b);
    let o = one();
    lemma_two_mono(0, 1074);
    if integer(b, n) && fits64(n) {
        assert(stands_whole(b, n));
        let r = saturated(b, i64::MIN as int, i64::MAX as int);
        law_toward_zero(b, i64::MIN as int, i64::MAX as int);
        if b < SIGN64 {
            assert(r <= n && (n < r + 1 || r == i64::MAX)) by (nonlinear_arith)
                requires
                    r * o <= n * o,
                    n * o < (r + 1) * o || r == i64::MAX,
                    o > 0,
            ;
        } else {
            assert(n <= r && (r - 1 < n || r == i64::MIN)) by (nonlinear_arith)
                requires
                    n * o <= r * o,
                    (r - 1) * o < n * o || r == i64::MIN,
                    o > 0,
            ;
        }
    }
    if forall|k: int| !#[trigger] integer(b, k) {
        if is_whole(b) {
            let k = choose|k: int| #[trigger] stands_whole(b, k);
            assert(integer(b, k));
        }
    }
}

spec fn is_whole(b: u64) -> bool {
    exists|k: int| #[trigger] stands_whole(b, k)
}

/// FLOOR is the integer below a number, CEIL the one above and TRUNC the one toward
/// zero.
pub proof fn law_round_to_integer(
    o: spec_fn(Question) -> Answer,
    name: Seq<char>,
    e: Expr,
    a: Datum,
    u: int,
    n: int,
    c: Chunk,
    names: Seq<Seq<char>>,
    i: int,
)
    requires
        rounds(o),
        cell(o, e, c, names, i) == Some(a),
        worth(a, u),
        fits64(n),
    ensures
        ({
            let w = upper_text(name);
            let r = cell(o, called(name, seq![e]), c, names, i);
            let below = n * one() <= u && u < (n + 1) * one();
            let above = (n - 1) * one() < u && u <= n * one();
            &&& w == "FLOOR"@ && below ==> r == Some(Datum::Int64(n as i64))
            &&& (w == "CEIL"@ || w == "CEILING"@) && above ==> r == Some(Datum::Int64(n as i64))
            &&& (w == "TRUNC"@ || w == "TRUNCATE"@) && (below && n >= 0 || above && n <= 0) ==> r
                == Some(Datum::Int64(n as i64))
        }),
{
    lemma_names();
    lemma_one_arg(o, e, c, names);
    lemma_worth(a, u);
    lemma_two_mono(0, 1074);
    let b = plain_number(a)->0;
    let (f, g, h) = (
        arith1(o, FloatOp::Floor, b),
        arith1(o, FloatOp::Ceil, b),
        arith1(o, FloatOp::Trunc, b),
    );
    assert(n >= 0 ==> 0 <= n * one()) by (nonlinear_arith)
        requires
            one() > 0,
    ;
    assert(n <= 0 ==> n * one() <= 0) by (nonlinear_arith)
        requires
            one() > 0,
    ;
    if n * one() <= u && u < (n + 1) * one() {
        assert(integer(f, n));
        law_narrowed(f, n);
        if n >= 0 {
            assert(integer(h, n));
            law_narrowed(h, n);
        }
    }
    if (n - 1) * one() < u && u <= n * one() {
        assert(integer(g, n));
        law_narrowed(g, n);
        if n <= 0 {
            assert(integer(h, n));
            law_narrowed(h, n);
        }
    }
}

/// Whether the roots, powers and logarithms of an environment are those of integers,
/// where doubles hold them.
pub open spec fn powers(o: spec_fn(Question) -> Answer) -> bool {
    &&& forall|x: u64, n: int|
        n >= 0 && integer(x, n * n) ==> #[trigger] integer(arith1(o, FloatOp::Sqrt, x), n)
    &&& forall|x: u64, y: u64, n: int, k: nat|
        integer(x, n) && integer(y, k as int) && -0x20_0000_0000_0000 <= pow(n, k)
            <= 0x20_0000_0000_0000 ==> integer(
            #[trigger] arith2(o, FloatOp::Pow, x, y),
            #[trigger] pow(n, k),
        )
    &&& forall|x: u64, k: nat|
        integer(x, pow(2, k)) ==> #[trigger] integer(arith1(o, FloatOp::Log2, x), k as int)
    &&& forall|x: u64, k: nat|
        integer(x, pow(10, k)) ==> #[trigger] integer(arith1(o, FloatOp::Log10, x), k as int)
}

/// SQRT of a square is its root, POWER the first number taken as often as the second
/// says, and the logarithms are the exponents.
pub proof fn law_powers(
    o: spec_fn(Question) -> Answer,
    name: Seq<char>,
    d: Expr,
    e: Expr,
    a: Datum,
    b: Datum,
    n: int,
    k: nat,
    c: Chunk,
    names: Seq<Seq<char>>,
    i: int,
)
    requires
        powers(o),
        cell(o, d, c, names, i) == Some(a),
        cell(o, e, c, names, i) == Some(b),
        fits64(n),
        k <= i64::MAX,
    ensures
        ({
            let w = upper_text(name);
            let r = cell(o, called(name, seq![d]), c, names, i);
            let p = cell(o, called(name, seq![d, e]), c, names, i);
            &&& w == "SQRT"@ && n >= 0 && worth(a, (n * n) * one()) ==> r == Some(
                Datum::Int64(n as i64),
            )
            &&& (w == "POWER"@ || w == "POW"@) && worth(a, n * one()) && worth(b, k * one())
                && -0x20_0000_0000_0000 <= pow(n, k) <= 0x20_0000_0000_0000 ==> p == Some(
                Datum::Int64(pow(n, k) as i64),
            )
            &&& w == "LOG2"@ && worth(a, pow(2, k) * one()) ==> r == Some(Datum::Int64(k as i64))
            &&& (w == "LOG"@ || w == "LOG10"@) && worth(a, pow(10, k) * one()) ==> r == Some(
                Datum::Int64(k as i64),
            )
            &&& w == "LN"@ && (a matches Datum::Float64(x)) ==> r == Some(
                narrowed(arith1(o, FloatOp::Ln, a->Float64_0)),
            )
        }),
{
    lemma_names();
    lemma_one_arg(o, d, c, names);
    lemma_two_args(o, d, e, c, names);
    if n >= 0 && worth(a, (n * n) * one()) {
        lemma_worth(a, (n * n) * one());
        let z = arith1(o, FloatOp::Sqrt, plain_number(a)->0);
        assert(integer(plain_number(a)->0, n * n));
        assert(integer(z, n));
        law_narrowed(z, n);
    }
    if worth(a, n * one()) && worth(b, k * one()) && -0x20_0000_0000_0000 <= pow(n, k)
        <= 0x20_0000_0000_0000 {
        lemma_worth(a, n * one());
        lemma_worth(b, k * one());
        let z = arith2(o, FloatOp::Pow, plain_number(a)->0, plain_number(b)->0);
        assert(integer(plain_number(a)->0, n) && integer(plain_number(b)->0, k as int));
        assert(integer(z, pow(n, k)));
        law_narrowed(z, pow(n, k));
    }
    if worth(a, pow(2, k) * one()) {
        lemma_worth(a, pow(2, k) * one());
        let z = arith1(o, FloatOp::Log2, plain_number(a)->0);
        assert(integer(plain_number(a)->0, pow(2, k)));
        assert(integer(z, k as int));
        law_narrowed(z, k as int);
    }
    if worth(a, pow(10, k) * one()) {
        lemma_worth(a, pow(10, k) * one());
        let z = arith1(o, FloatOp::Log10, plain_number(a)->0);
        assert(integer(plain_number(a)->0, pow(10, k)));
        assert(integer(z, k as int));
        law_narrowed(z, k as int);
    }
}

/// Whether rounding in an environment gives the nearest integer, and of two the one
/// away from zero.
pub open spec fn rounds_half(o: spec_fn(Question) -> Answer, val: spec_fn(u64) -> real) -> bool {
    forall|x: u64, n: int|
        finite64(x) && nearest(val(x), n) ==> #[trigger] stands(
            val,
            arith1(o, FloatOp::Round, x),
            n as real,
        )
}

/// Whether an integer is the nearest to a number, and of two the one away from zero.
pub open spec fn nearest(x: real, n: int) -> bool {
    let gap = (x - n as real) + (x - n as real);
    &&& -(1 as real) <= gap <= 1 as real
    &&& gap == 1 as real ==> x < 0 as real
    &&& gap == -(1 as real) ==> x > 0 as real
}

/// ROUND to a number of decimals is the multiple of the last place that is nearest to a
/// number, in an environment that is exact where doubles hold the results.
pub proof fn law_round(
    o: spec_fn(Question) -> Answer,
    val: spec_fn(u64) -> real,
    name: Seq<char>,
    e: Expr,
    a: Datum,
    decimals: i32,
    x: real,
    n: int,
    q: u64,
    c: Chunk,
    names: Seq<Seq<char>>,
    i: int,
)
    requires
        upper_text(name) == "ROUND"@,
        exact(o, val),
        rounds_half(o, val),
        cell(o, e, c, names, i) == Some(a),
        amounts(val, a, x),
        ({
            let ten = val(number(o(Question::TenTo(decimals))));
            &&& finite64(number(o(Question::TenTo(decimals))))
            &&& ten != 0 as real
            &&& held(val, x * ten)
            &&& nearest(x * ten, n)
            &&& finite64(q) && val(q) * ten == n as real
        }),
    ensures
        cell(
            o,
            called(name, seq![e, Expr::Literal(Datum::Int32(decimals))]),
            c,
            names,
            i,
        ) matches Some(Datum::Float64(z)) && val(z) * val(number(o(Question::TenTo(decimals))))
            == n as real,
        decimals == 0 ==> (cell(o, called(name, seq![e]), c, names, i) matches Some(
            Datum::Float64(z),
        ) && val(z) * val(number(o(Question::TenTo(0)))) == n as real),
{
    lemma_names();
    let f = number(o(Question::TenTo(decimals)));
    let b = widened(a)->0;
    assert(finite64(b) && val(b) == x);
    let s = arith2(o, FloatOp::Mul, b, f);
    assert(stands(val, s, x * val(f)));
    let m = arith1(o, FloatOp::Round, s);
    assert(stands(val, m, n as real));
    let z = arith2(o, FloatOp::Div, m, f);
    assert(stands(val, z, val(q)));
    let two_args = seq![e, Expr::Literal(Datum::Int32(decimals))];
    assert(two_args[0] == e && two_args[1] == Expr::Literal(Datum::Int32(decimals)));
    let one_arg = seq![e];
    assert(one_arg[0] == e);
}

/// CAST of a whole number to an integer keeps it; to 32 bits it keeps the number up to
/// a multiple of their range. Of a finite double it is the integer next to it toward
/// zero, or the bound that is passed.
pub proof fn law_cast_to_integer(
    o: spec_fn(Question) -> Answer,
    e: Expr,
    a: Datum,
    x: int,
    b: u64,
    c: Chunk,
    names: Seq<Seq<char>>,
    i: int,
)
    requires
        cell(o, e, c, names, i) == Some(a),
    ensures
        ({
            let long = cell(o, Expr::Cast(Box::new(e), DataType::Int64), c, names, i);
            let short = cell(o, Expr::Cast(Box::new(e), DataType::Int32), c, names, i);
            &&& denotes(a, x) ==> long == Some(Datum::Int64(x as i64))
            &&& denotes(a, x) ==> (short matches Some(Datum::Int32(r)) && (x - r) % 0x1_0000_0000
                == 0)
            &&& a == Datum::Float64(b) && finite64(b) ==> (long matches Some(Datum::Int64(r))
                && toward_zero(b, r as int, i64::MIN as int, i64::MAX as int))
            &&& a == Datum::Float64(b) && finite64(b) ==> (short matches Some(Datum::Int32(r))
                && toward_zero(b, r as int, i32::MIN as int, i32::MAX as int))
            &&& a == Datum::Null ==> long == Some(Datum::Null) && short == Some(Datum::Null)
        }),
{
    if denotes(a, x) {
        let y = x as i64;
        let z = y as i32;
        assert((y as int - z as int) % 0x1_0000_0000 == 0) by {
            assert(y - (y as i32) as i64 == ((y - (y as i32) as i64) / 0x1_0000_0000)
                * 0x1_0000_0000) by (bit_vector);
        }
    }
    if finite64(b) {
        law_toward_zero(b, i64::MIN as int, i64::MAX as int);
        law_toward_zero(b, i32::MIN as int, i32::MAX as int);
    }
}

/// Whether an integer is next to a double toward zero, or a bound that is passed.
pub open spec fn toward_zero(b: u64, r: int, lo: int, hi: int) -> bool {
    &&& b < SIGN64 ==> r * one() <= units(b) && (units(b) < (r + 1) * one() || r == hi)
    &&& b >= SIGN64 ==> units(b) <= r * one() && ((r - 1) * one() < units(b) || r == lo)
}

/// CAST of an integer to a text and back gives the integer, and a text that CAST reads as
/// an integer has no other characters than digits behind its sign.
pub proof fn law_cast_text_and_back(
    o: spec_fn(Question) -> Answer,
    e: Expr,
    x: i64,
    s: Seq<char>,
    c: Chunk,
    names: Seq<Seq<char>>,
    i: int,
)
    requires
        cell(o, e, c, names, i) is Some,
    ensures
        cell(o, e, c, names, i) == Some(Datum::Int64(x)) ==> cell(
            o,
            Expr::Cast(Box::new(Expr::Cast(Box::new(e), DataType::Varchar)), DataType::Int64),
            c,
            names,
            i,
        ) == Some(Datum::Int64(x)),
        cell(o, e, c, names, i) == Some(Datum::Varchar(s)) ==> cell(
            o,
            Expr::Cast(Box::new(e), DataType::Varchar),
            c,
            names,
            i,
        ) == Some(Datum::Varchar(s)),
        cell(o, e, c, names, i) == Some(Datum::Varchar(s)) ==> (cell(
            o,
            Expr::Cast(Box::new(e), DataType::Int64),
            c,
            names,
            i,
        ) matches Some(Datum::Int64(_)) ==> s.len() > 0 && digit_value(s.last()) is Some && forall|
            k: int,
        |
            1 <= k < s.len() ==> digit_value(#[trigger] s[k]) is Some),
{
    law_integer_read(x as int, i64::MIN as int, i64::MAX as int);
    if int_text(s, i64::MIN as int, i64::MAX as int) is Some {
        let signed = s[0] == '+' || s[0] == '-';
        if signed {
            let body = s.subrange(1, s.len() as int);
            assert(s.last() == body.last());
            assert forall|k: int| 1 <= k < s.len() implies digit_value(#[trigger] s[k]) is Some by {
                assert(s[k] == body[k - 1]);
            }
        }
    }
}

/// The decimal text of an integer within bounds is read as that integer.
pub proof fn law_integer_read(x: int, lo: int, hi: int)
    requires
        lo <= 0 <= hi,
        lo <= x <= hi,
    ensures
        int_text(dec_int(x), lo, hi) == Some(x),
{
    let s = dec_int(x);
    if x < 0 {
        lemma_dec_reads((-x) as nat);
        assert(s.subrange(1, s.len() as int) =~= dec((-x) as nat));
        assert(s[0] == '-');
    } else {
        lemma_dec_reads(x as nat);
        assert(digit_value(s[0]) is Some);
    }
}

/// CAST to a truth value is false of zero and true of every other number; a text is true
/// where it says so in any case of letters. CAST to a double keeps what a number is
/// worth, and reads a text as the environment does.
pub proof fn law_cast_to_others(
    o: spec_fn(Question) -> Answer,
    e: Expr,
    a: Datum,
    x: int,
    u: int,
    s: Seq<char>,
    c: Chunk,
    names: Seq<Seq<char>>,
    i: int,
)
    requires
        cell(o, e, c, names, i) == Some(a),
    ensures
        ({
            let truth = cell(o, Expr::Cast(Box::new(e), DataType::Boolean), c, names, i);
            let float = cell(o, Expr::Cast(Box::new(e), DataType::Float64), c, names, i);
            &&& a == Datum::Int64(x as i64) && fits64(x) ==> truth == Some(Datum::Boolean(x != 0))
            &&& (a matches Datum::Float64(b) && worth(a, u)) ==> truth == Some(Datum::Boolean(u != 0))
            &&& a == Datum::Varchar(s) ==> truth == Some(Datum::Boolean(lower_text(s) == "true"@))
            &&& a == Datum::Boolean(x > 0) ==> truth == Some(a)
            &&& worth(a, u) ==> (float matches Some(Datum::Float64(b)) && finite64(b) && units(b)
                == u)
            &&& a == Datum::Varchar(s) ==> match parsed(o, s) {
                Some(b) => float == Some(Datum::Float64(b)),
                None => float == Some(Datum::Null),
            }
        }),
{
    if worth(a, u) {
        lemma_worth(a, u);
        if a is Float64 {
            lemma_zero(a->Float64_0);
        }
    }
}

/// Only the two zeros stand for zero.
proof fn lemma_zero(b: u64)
    requires
        finite64(b),
    ensures
        units(b) == 0 <==> b == 0 || b == SIGN64,
{
    law_order_doubles(b, 0);
    assert(units_above(0) == 0);
}

} // verus!
