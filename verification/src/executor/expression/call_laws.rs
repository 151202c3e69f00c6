//! What a call of a function by its name gives in a row.
use vstd::prelude::*;

use crate::common::error::Fault;
use crate::executor::env::{Answer, Question};
use crate::executor::expression::dates::{
    date_add, date_datum, date_diff, date_sub, date_trunc, datetime_datum, strftime_datum,
    strptime_datum, time_datum,
};
use crate::executor::expression::eval::{eval, eval_list};
use crate::executor::expression::functions::{func_of, Func};
use crate::executor::expression::json_fn::{
    json_array_length_datum, json_contains_datum, json_extract_datum, json_remove_datum,
    json_replace_datum, json_set_datum,
};
use crate::executor::expression::numeric::{cosine, l2_distance, norm};
use crate::executor::expression::operator_laws::cell;
use crate::executor::expression::strings::{
    instr_datum, length_datum, replace_datum, split_part_datum, substring_datum, trim_datum,
    typeof_text, TrimMode,
};
use crate::executor::vector::{Chunk, Column};
use crate::sql::ast::Expr;
use crate::text::{lower_text, upper_text};
use crate::value::Datum;

verus! {

/// The names of the functions.
pub proof fn lemma_names()
    ensures
        func_of("ABS"@) == Some(Func::Abs),
        func_of("LENGTH"@) == Some(Func::Length),
        func_of("LEN"@) == Some(Func::Length),
        func_of("UPPER"@) == Some(Func::Upper),
        func_of("UCASE"@) == Some(Func::Upper),
        func_of("LOWER"@) == Some(Func::Lower),
        func_of("LCASE"@) == Some(Func::Lower),
        func_of("ROUND"@) == Some(Func::Round),
        func_of("COALESCE"@) == Some(Func::Coalesce),
        func_of("SUBSTRING"@) == Some(Func::Substring),
        func_of("SUBSTR"@) == Some(Func::Substring),
        func_of("CONCAT"@) == Some(Func::Concat),
        func_of("IFNULL"@) == Some(Func::IfNull),
        func_of("NULLIF"@) == Some(Func::NullIf),
        func_of("IF"@) == Some(Func::If),
        func_of("TRIM"@) == Some(Func::Trim),
        func_of("LTRIM"@) == Some(Func::LeftTrim),
        func_of("RTRIM"@) == Some(Func::RightTrim),
        func_of("INSTR"@) == Some(Func::Instr),
        func_of("POSITION"@) == Some(Func::Instr),
        func_of("SPLIT_PART"@) == Some(Func::SplitPart),
        func_of("CEIL"@) == Some(Func::Ceil),
        func_of("CEILING"@) == Some(Func::Ceil),
        func_of("FLOOR"@) == Some(Func::Floor),
        func_of("TRUNC"@) == Some(Func::Trunc),
        func_of("TRUNCATE"@) == Some(Func::Trunc),
        func_of("POWER"@) == Some(Func::Power),
        func_of("POW"@) == Some(Func::Power),
        func_of("SQRT"@) == Some(Func::Sqrt),
        func_of("LN"@) == Some(Func::Ln),
        func_of("LOG"@) == Some(Func::Log),
        func_of("LOG10"@) == Some(Func::Log),
        func_of("LOG2"@) == Some(Func::Log2),
        func_of("RANDOM"@) == Some(Func::Random),
        func_of("RAND"@) == Some(Func::Random),
        func_of("TYPEOF"@) == Some(Func::TypeOf),
        func_of("REPLACE"@) == Some(Func::Replace),
        func_of("MOD"@) == Some(Func::Mod),
        func_of("JSON_EXTRACT"@) == Some(Func::JsonExtract),
        func_of("JSON_CONTAINS"@) == Some(Func::JsonContains),
        func_of("JSON_ARRAY_LENGTH"@) == Some(Func::JsonArrayLength),
        func_of("JSON_OBJECT"@) == Some(Func::JsonObject),
        func_of("JSON_ARRAY"@) == Some(Func::JsonArray),
        func_of("JSON_SET"@) == Some(Func::JsonSet),
        func_of("JSON_INSERT"@) == Some(Func::JsonInsert),
        func_of("JSON_REPLACE"@) == Some(Func::JsonReplace),
        func_of("JSON_REMOVE"@) == Some(Func::JsonRemove),
        func_of("VECTOR_DISTANCE"@) == Some(Func::VectorDistance),
        func_of("VEC_DISTANCE"@) == Some(Func::VectorDistance),
        func_of("VECTOR_L2_DISTANCE"@) == Some(Func::VectorL2Distance),
        func_of("VECTOR_COSINE_SIMILARITY"@) == Some(Func::VectorCosine),
        func_of("VECTOR_NORM"@) == Some(Func::VectorNorm),
        func_of("NOW"@) == Some(Func::Now),
        func_of("CURRENT_TIMESTAMP"@) == Some(Func::Now),
        func_of("DATE"@) == Some(Func::Date),
        func_of("STRFTIME"@) == Some(Func::StrfTime),
        func_of("TIME"@) == Some(Func::Time),
        func_of("DATETIME"@) == Some(Func::DateTime),
        func_of("DATE_ADD"@) == Some(Func::DateAdd),
        func_of("DATE_SUB"@) == Some(Func::DateSub),
        func_of("DATE_DIFF"@) == Some(Func::DateDiff),
        func_of("DATE_TRUNC"@) == Some(Func::DateTrunc),
        func_of("DATE_BIN"@) == Some(Func::DateTrunc),
        func_of("STRPTIME"@) == Some(Func::StrpTime),
        func_of("MATCH"@) == Some(Func::Match),
{
    reveal_strlit("ABS");
    reveal_strlit("LENGTH");
    reveal_strlit("LEN");
    reveal_strlit("UPPER");
    reveal_strlit("UCASE");
    reveal_strlit("LOWER");
    reveal_strlit("LCASE");
    reveal_strlit("ROUND");
    reveal_strlit("COALESCE");
    reveal_strlit("SUBSTRING");
    reveal_strlit("SUBSTR");
    reveal_strlit("CONCAT");
    reveal_strlit("IFNULL");
    reveal_strlit("NULLIF");
    reveal_strlit("IF");
    reveal_strlit("TRIM");
    reveal_strlit("LTRIM");
    reveal_strlit("RTRIM");
    reveal_strlit("INSTR");
    reveal_strlit("POSITION");
    reveal_strlit("SPLIT_PART");
    reveal_strlit("CEIL");
    reveal_strlit("CEILING");
    reveal_strlit("FLOOR");
    reveal_strlit("TRUNC");
    reveal_strlit("TRUNCATE");
    reveal_strlit("POWER");
    reveal_strlit("POW");
    reveal_strlit("SQRT");
    reveal_strlit("LN");
    reveal_strlit("LOG");
    reveal_strlit("LOG10");
    reveal_strlit("LOG2");
    reveal_strlit("RANDOM");
    reveal_strlit("RAND");
    reveal_strlit("TYPEOF");
    reveal_strlit("REPLACE");
    reveal_strlit("MOD");
    reveal_strlit("JSON_EXTRACT");
    reveal_strlit("JSON_CONTAINS");
    reveal_strlit("JSON_ARRAY_LENGTH");
    reveal_strlit("JSON_OBJECT");
    reveal_strlit("JSON_ARRAY");
    reveal_strlit("JSON_SET");
    reveal_strlit("JSON_INSERT");
    reveal_strlit("JSON_REPLACE");
    reveal_strlit("JSON_REMOVE");
    reveal_strlit("VECTOR_DISTANCE");
    reveal_strlit("VEC_DISTANCE");
    reveal_strlit("VECTOR_L2_DISTANCE");
    reveal_strlit("VECTOR_COSINE_SIMILARITY");
    reveal_strlit("VECTOR_NORM");
    reveal_strlit("NOW");
    reveal_strlit("CURRENT_TIMESTAMP");
    reveal_strlit("DATE");
    reveal_strlit("STRFTIME");
    reveal_strlit("TIME");
    reveal_strlit("DATETIME");
    reveal_strlit("DATE_ADD");
    reveal_strlit("DATE_SUB");
    reveal_strlit("DATE_DIFF");
    reveal_strlit("DATE_TRUNC");
    reveal_strlit("DATE_BIN");
    reveal_strlit("STRPTIME");
    reveal_strlit("MATCH");
    assert("IF"@.len() == 2 && "IF"@[0] == 'I');
    assert("LN"@.len() == 2 && "LN"@[0] == 'L');
    assert("ABS"@.len() == 3 && "ABS"@[0] == 'A' && "ABS"@[1] == 'B');
    assert("LEN"@.len() == 3 && "LEN"@[0] == 'L' && "LEN"@[1] == 'E');
    assert("POW"@.len() == 3 && "POW"@[0] == 'P' && "POW"@[1] == 'O');
    assert("LOG"@.len() == 3 && "LOG"@[0] == 'L' && "LOG"@[1] == 'O');
    assert("MOD"@.len() == 3 && "MOD"@[0] == 'M' && "MOD"@[1] == 'O');
    assert("NOW"@.len() == 3 && "NOW"@[0] == 'N' && "NOW"@[1] == 'O');
    assert("TRIM"@.len() == 4 && "TRIM"@[0] == 'T' && "TRIM"@[1] == 'R');
    assert("CEIL"@.len() == 4 && "CEIL"@[0] == 'C' && "CEIL"@[1] == 'E');
    assert("SQRT"@.len() == 4 && "SQRT"@[0] == 'S' && "SQRT"@[1] == 'Q');
    assert("LOG2"@.len() == 4 && "LOG2"@[0] == 'L' && "LOG2"@[1] == 'O');
    assert("RAND"@.len() == 4 && "RAND"@[0] == 'R' && "RAND"@[1] == 'A');
    assert("DATE"@.len() == 4 && "DATE"@[0] == 'D' && "DATE"@[1] == 'A');
    assert("TIME"@.len() == 4 && "TIME"@[0] == 'T' && "TIME"@[1] == 'I');
    assert("UPPER"@.len() == 5 && "UPPER"@[0] == 'U' && "UPPER"@[1] == 'P' && "UPPER"@[2] == 'P');
    assert("UCASE"@.len() == 5 && "UCASE"@[0] == 'U' && "UCASE"@[1] == 'C' && "UCASE"@[2] == 'A');
    assert("LOWER"@.len() == 5 && "LOWER"@[0] == 'L' && "LOWER"@[1] == 'O' && "LOWER"@[2] == 'W');
    assert("LCASE"@.len() == 5 && "LCASE"@[0] == 'L' && "LCASE"@[1] == 'C' && "LCASE"@[2] == 'A');
    assert("ROUND"@.len() == 5 && "ROUND"@[0] == 'R' && "ROUND"@[1] == 'O' && "ROUND"@[2] == 'U');
    assert("LTRIM"@.len() == 5 && "LTRIM"@[0] == 'L' && "LTRIM"@[1] == 'T' && "LTRIM"@[2] == 'R');
    assert("RTRIM"@.len() == 5 && "RTRIM"@[0] == 'R' && "RTRIM"@[1] == 'T' && "RTRIM"@[2] == 'R');
    assert("INSTR"@.len() == 5 && "INSTR"@[0] == 'I' && "INSTR"@[1] == 'N' && "INSTR"@[2] == 'S');
    assert("FLOOR"@.len() == 5 && "FLOOR"@[0] == 'F' && "FLOOR"@[1] == 'L' && "FLOOR"@[2] == 'O');
    assert("TRUNC"@.len() == 5 && "TRUNC"@[0] == 'T' && "TRUNC"@[1] == 'R' && "TRUNC"@[2] == 'U');
    assert("POWER"@.len() == 5 && "POWER"@[0] == 'P' && "POWER"@[1] == 'O' && "POWER"@[2] == 'W');
    assert("LOG10"@.len() == 5 && "LOG10"@[0] == 'L' && "LOG10"@[1] == 'O' && "LOG10"@[2] == 'G');
    assert("MATCH"@.len() == 5 && "MATCH"@[0] == 'M' && "MATCH"@[1] == 'A' && "MATCH"@[2] == 'T');
    assert("LENGTH"@.len() == 6 && "LENGTH"@[0] == 'L');
    assert("SUBSTR"@.len() == 6 && "SUBSTR"@[0] == 'S');
    assert("CONCAT"@.len() == 6 && "CONCAT"@[0] == 'C');
    assert("IFNULL"@.len() == 6 && "IFNULL"@[0] == 'I');
    assert("NULLIF"@.len() == 6 && "NULLIF"@[0] == 'N');
    assert("RANDOM"@.len() == 6 && "RANDOM"@[0] == 'R');
    assert("TYPEOF"@.len() == 6 && "TYPEOF"@[0] == 'T');
    assert("CEILING"@.len() == 7 && "CEILING"@[0] == 'C');
    assert("REPLACE"@.len() == 7 && "REPLACE"@[0] == 'R');
    assert("COALESCE"@.len() == 8);
    assert("COALESCE"@[0] == 'C' && "COALESCE"@[3] == 'L');
    assert("COALESCE"@[4] == 'E' && "COALESCE"@[5] == 'S');
    assert("POSITION"@.len() == 8);
    assert("POSITION"@[0] == 'P' && "POSITION"@[3] == 'I');
    assert("POSITION"@[4] == 'T' && "POSITION"@[5] == 'I');
    assert("TRUNCATE"@.len() == 8);
    assert("TRUNCATE"@[0] == 'T' && "TRUNCATE"@[3] == 'N');
    assert("TRUNCATE"@[4] == 'C' && "TRUNCATE"@[5] == 'A');
    assert("JSON_SET"@.len() == 8);
    assert("JSON_SET"@[0] == 'J' && "JSON_SET"@[3] == 'N');
    assert("JSON_SET"@[4] == '_' && "JSON_SET"@[5] == 'S');
    assert("STRFTIME"@.len() == 8);
    assert("STRFTIME"@[0] == 'S' && "STRFTIME"@[3] == 'F');
    assert("STRFTIME"@[4] == 'T' && "STRFTIME"@[5] == 'I');
    assert("DATETIME"@.len() == 8);
    assert("DATETIME"@[0] == 'D' && "DATETIME"@[3] == 'E');
    assert("DATETIME"@[4] == 'T' && "DATETIME"@[5] == 'I');
    assert("DATE_ADD"@.len() == 8);
    assert("DATE_ADD"@[0] == 'D' && "DATE_ADD"@[3] == 'E');
    assert("DATE_ADD"@[4] == '_' && "DATE_ADD"@[5] == 'A');
    assert("DATE_SUB"@.len() == 8);
    assert("DATE_SUB"@[0] == 'D' && "DATE_SUB"@[3] == 'E');
    assert("DATE_SUB"@[4] == '_' && "DATE_SUB"@[5] == 'S');
    assert("DATE_BIN"@.len() == 8);
    assert("DATE_BIN"@[0] == 'D' && "DATE_BIN"@[3] == 'E');
    assert("DATE_BIN"@[4] == '_' && "DATE_BIN"@[5] == 'B');
    assert("STRPTIME"@.len() == 8);
    assert("STRPTIME"@[0] == 'S' && "STRPTIME"@[3] == 'P');
    assert("STRPTIME"@[4] == 'T' && "STRPTIME"@[5] == 'I');
    assert("SUBSTRING"@.len() == 9 && "SUBSTRING"@[0] == 'S');
    assert("DATE_DIFF"@.len() == 9 && "DATE_DIFF"@[0] == 'D');
    assert("SPLIT_PART"@.len() == 10 && "SPLIT_PART"@[0] == 'S');
    assert("JSON_ARRAY"@.len() == 10 && "JSON_ARRAY"@[0] == 'J');
    assert("DATE_TRUNC"@.len() == 10 && "DATE_TRUNC"@[0] == 'D');
    assert("JSON_OBJECT"@.len() == 11 && "JSON_OBJECT"@[0] == 'J' && "JSON_OBJECT"@[5] == 'O');
    assert("JSON_INSERT"@.len() == 11 && "JSON_INSERT"@[0] == 'J' && "JSON_INSERT"@[5] == 'I');
    assert("JSON_REMOVE"@.len() == 11 && "JSON_REMOVE"@[0] == 'J' && "JSON_REMOVE"@[5] == 'R');
    assert("VECTOR_NORM"@.len() == 11 && "VECTOR_NORM"@[0] == 'V' && "VECTOR_NORM"@[5] == 'R');
    assert("JSON_EXTRACT"@.len() == 12 && "JSON_EXTRACT"@[5] == 'E');
    assert("JSON_REPLACE"@.len() == 12 && "JSON_REPLACE"@[5] == 'R');
    assert("VEC_DISTANCE"@.len() == 12 && "VEC_DISTANCE"@[5] == 'I');
    assert("JSON_CONTAINS"@.len() == 13);
    assert("VECTOR_DISTANCE"@.len() == 15);
    assert("JSON_ARRAY_LENGTH"@.len() == 17 && "JSON_ARRAY_LENGTH"@[0] == 'J');
    assert("CURRENT_TIMESTAMP"@.len() == 17 && "CURRENT_TIMESTAMP"@[0] == 'C');
    assert("VECTOR_L2_DISTANCE"@.len() == 18);
    assert("VECTOR_COSINE_SIMILARITY"@.len() == 24);
}

/// A call of a function by its name.
pub open spec fn called(name: Seq<char>, args: Seq<Expr>) -> Expr {
    Expr::Function(name, args, false, false, None)
}

/// Expressions that have columns make a list of these columns.
pub proof fn lemma_args(
    o: spec_fn(Question) -> Answer,
    args: Seq<Expr>,
    i: int,
    c: Chunk,
    names: Seq<Seq<char>>,
)
    requires
        0 <= i <= args.len(),
        forall|k: int| 0 <= k < args.len() ==> eval(o, #[trigger] args[k], c, names) is Ok,
    ensures
        eval_list(o, args, i, 1, c, names) matches Ok(a) && a.len() == args.len() - i && forall|
            k: int,
        |
            i <= k < args.len() ==> eval(o, #[trigger] args[k], c, names) == Ok::<Column, Fault>(
                a[k - i],
            ),
    decreases args.len() - i,
{
    if i < args.len() {
        lemma_args(o, args, i + 1, c, names);
        let a = eval_list(o, args, i, 1, c, names)->Ok_0;
        let r = eval_list(o, args, i + 1, 1, c, names)->Ok_0;
        assert(eval(o, args[i], c, names) is Ok);
        assert(a == seq![eval(o, args[i], c, names)->Ok_0] + r);
        assert forall|k: int| i <= k < args.len() implies eval(o, #[trigger] args[k], c, names)
            == Ok::<Column, Fault>(a[k - i]) by {
            if k > i {
                assert(a[k - i] == r[k - i - 1]);
            }
        }
    }
}

/// A call with one argument: each name with what it gives of the value in the row.
pub proof fn law_calls_of_one(
    o: spec_fn(Question) -> Answer,
    name: Seq<char>,
    e: Expr,
    a: Datum,
    c: Chunk,
    names: Seq<Seq<char>>,
    i: int,
)
    requires
        cell(o, e, c, names, i) == Some(a),
    ensures
        ({
            let r = cell(o, called(name, seq![e]), c, names, i);
            let n = upper_text(name);
            &&& n == "LENGTH"@ || n == "LEN"@ ==> r == Some(length_datum(a))
            &&& n == "TRIM"@ ==> r == Some(trim_datum(a, None, TrimMode::Both))
            &&& n == "LTRIM"@ ==> r == Some(trim_datum(a, None, TrimMode::Left))
            &&& n == "RTRIM"@ ==> r == Some(trim_datum(a, None, TrimMode::Right))
            &&& n == "TYPEOF"@ ==> r == Some(Datum::Varchar(typeof_text(a)))
            &&& n == "VECTOR_NORM"@ ==> r == Some(norm(o, a))
            &&& n == "DATE"@ ==> r == Some(date_datum(a))
            &&& n == "TIME"@ ==> r == Some(time_datum(a))
            &&& n == "DATETIME"@ ==> r == Some(datetime_datum(a))
            &&& n == "JSON_ARRAY_LENGTH"@ ==> r == Some(json_array_length_datum(a, None))
        }),
{
    lemma_names();
    let args = seq![e];
    assert forall|k: int| 0 <= k < args.len() implies eval(o, #[trigger] args[k], c, names) is Ok by {
        assert(k == 0 && args[k] == e);
    }
    lemma_args(o, args, 0, c, names);
    assert(eval(o, args[0], c, names) == eval(o, e, c, names));
}

/// A call with two arguments: each name with what it gives of the values in the row.
pub proof fn law_calls_of_two(
    o: spec_fn(Question) -> Answer,
    name: Seq<char>,
    d: Expr,
    e: Expr,
    a: Datum,
    b: Datum,
    c: Chunk,
    names: Seq<Seq<char>>,
    i: int,
)
    requires
        cell(o, d, c, names, i) == Some(a),
        cell(o, e, c, names, i) == Some(b),
    ensures
        ({
            let r = cell(o, called(name, seq![d, e]), c, names, i);
            let n = upper_text(name);
            &&& n == "INSTR"@ || n == "POSITION"@ ==> r == Some(instr_datum(a, b))
            &&& n == "SUBSTRING"@ || n == "SUBSTR"@ ==> r == Some(substring_datum(a, b, None))
            &&& n == "TRIM"@ ==> r == Some(trim_datum(a, Some(b), TrimMode::Both))
            &&& n == "LTRIM"@ ==> r == Some(trim_datum(a, Some(b), TrimMode::Left))
            &&& n == "RTRIM"@ ==> r == Some(trim_datum(a, Some(b), TrimMode::Right))
            &&& n == "JSON_EXTRACT"@ ==> r == Some(json_extract_datum(a, b))
            &&& n == "JSON_CONTAINS"@ ==> r == Some(json_contains_datum(a, b, None))
            &&& n == "JSON_ARRAY_LENGTH"@ ==> r == Some(json_array_length_datum(a, Some(b)))
            &&& n == "JSON_REMOVE"@ ==> r == Some(json_remove_datum(a, b))
            &&& n == "VECTOR_DISTANCE"@ || n == "VEC_DISTANCE"@ || n == "VECTOR_L2_DISTANCE"@ ==> r == Some(l2_distance(o, a, b))
            &&& n == "VECTOR_COSINE_SIMILARITY"@ ==> r == Some(cosine(o, a, b))
        }),
{
    lemma_names();
    let args = seq![d, e];
    assert forall|k: int| 0 <= k < args.len() implies eval(o, #[trigger] args[k], c, names) is Ok by {
        assert(args[0] == d && args[1] == e && (k == 0 || k == 1));
    }
    lemma_args(o, args, 0, c, names);
    assert(eval(o, args[0], c, names) == eval(o, d, c, names));
    assert(eval(o, args[1], c, names) == eval(o, e, c, names));
}

/// A call with three arguments: each name with what it gives of the values in the row.
pub proof fn law_calls_of_three(
    o: spec_fn(Question) -> Answer,
    name: Seq<char>,
    d: Expr,
    e: Expr,
    f: Expr,
    x: Datum,
    y: Datum,
    z: Datum,
    c: Chunk,
    names: Seq<Seq<char>>,
    i: int,
)
    requires
        cell(o, d, c, names, i) == Some(x),
        cell(o, e, c, names, i) == Some(y),
        cell(o, f, c, names, i) == Some(z),
    ensures
        ({
            let r = cell(o, called(name, seq![d, e, f]), c, names, i);
            let n = upper_text(name);
            &&& n == "SUBSTRING"@ || n == "SUBSTR"@ ==> r == Some(substring_datum(x, y, Some(z)))
            &&& n == "SPLIT_PART"@ ==> r == Some(split_part_datum(x, y, z))
            &&& n == "REPLACE"@ ==> r == Some(replace_datum(x, y, z))
            &&& n == "JSON_CONTAINS"@ ==> r == Some(json_contains_datum(x, y, Some(z)))
            &&& n == "JSON_SET"@ ==> r == Some(json_set_datum(o, x, y, z, false))
            &&& n == "JSON_INSERT"@ ==> r == Some(json_set_datum(o, x, y, z, true))
            &&& n == "JSON_REPLACE"@ ==> r == Some(json_replace_datum(o, x, y, z))
        }),
{
    lemma_names();
    let args = seq![d, e, f];
    assert forall|k: int| 0 <= k < args.len() implies eval(o, #[trigger] args[k], c, names) is Ok by {
        assert(args[0] == d && args[1] == e && args[2] == f && (k == 0 || k == 1 || k == 2));
    }
    lemma_args(o, args, 0, c, names);
    assert(eval(o, args[0], c, names) == eval(o, d, c, names));
    assert(eval(o, args[1], c, names) == eval(o, e, c, names));
    assert(eval(o, args[2], c, names) == eval(o, f, c, names));
}

/// A call that moves or compares times takes the unit, in any case of letters, behind
/// the two values.
pub proof fn law_calls_with_unit(
    o: spec_fn(Question) -> Answer,
    name: Seq<char>,
    d: Expr,
    e: Expr,
    unit: Seq<char>,
    a: Datum,
    b: Datum,
    c: Chunk,
    names: Seq<Seq<char>>,
    i: int,
)
    requires
        cell(o, d, c, names, i) == Some(a),
        cell(o, e, c, names, i) == Some(b),
    ensures
        ({
            let r = cell(o, called(name, seq![d, e, Expr::Literal(Datum::Varchar(unit))]), c, names, i);
            let n = upper_text(name);
            &&& n == "DATE_ADD"@ ==> r == Some(date_add(a, b, lower_text(unit)))
            &&& n == "DATE_SUB"@ ==> r == Some(date_sub(a, b, lower_text(unit)))
            &&& n == "DATE_DIFF"@ ==> r == Some(date_diff(a, b, lower_text(unit)))
        }),
{
    lemma_names();
    let args = seq![d, e, Expr::Literal(Datum::Varchar(unit))];
    assert forall|k: int| 0 <= k < args.len() implies eval(o, #[trigger] args[k], c, names) is Ok by {
        assert(args[0] == d && args[1] == e && (k == 0 || k == 1 || k == 2));
    }
    lemma_args(o, args, 0, c, names);
    assert(eval(o, args[0], c, names) == eval(o, d, c, names));
    assert(eval(o, args[1], c, names) == eval(o, e, c, names));
    assert(eval(o, args[2], c, names) == Ok::<Column, Fault>(
        Column::Constant(Datum::Varchar(unit), c.count),
    ));
}

/// A call that shortens, shows or reads a time takes the unit or the format before the
/// value.
pub proof fn law_calls_with_format(
    o: spec_fn(Question) -> Answer,
    name: Seq<char>,
    text: Seq<char>,
    e: Expr,
    a: Datum,
    c: Chunk,
    names: Seq<Seq<char>>,
    i: int,
)
    requires
        cell(o, e, c, names, i) == Some(a),
    ensures
        ({
            let r = cell(o, called(name, seq![Expr::Literal(Datum::Varchar(text)), e]), c, names, i);
            let n = upper_text(name);
            &&& n == "DATE_TRUNC"@ || n == "DATE_BIN"@ ==> r == Some(date_trunc(a, lower_text(text)))
            &&& n == "STRFTIME"@ ==> r == Some(strftime_datum(text, a))
            &&& n == "STRPTIME"@ ==> r == Some(strptime_datum(text, a))
        }),
{
    lemma_names();
    let args = seq![Expr::Literal(Datum::Varchar(text)), e];
    assert forall|k: int| 0 <= k < args.len() implies eval(o, #[trigger] args[k], c, names) is Ok by {
        assert(args[1] == e && (k == 0 || k == 1));
    }
    lemma_args(o, args, 0, c, names);
    assert(eval(o, args[1], c, names) == eval(o, e, c, names));
    assert(eval(o, args[0], c, names) == Ok::<Column, Fault>(
        Column::Constant(Datum::Varchar(text), c.count),
    ));
}

} // verus!
