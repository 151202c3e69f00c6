//! The built-in functions: their names, how many arguments they take, and
//! what they compute.
use vstd::prelude::*;

use crate::common::error::{EngramDbError, Fault};
use crate::executor::env::{answers, moment, now_ms, oracle, Answer, Ask, FloatOp, Question, Reply};
use crate::executor::expression::dates::{
    date_add, date_add_value, date_datum, date_diff, date_diff_value, date_sub, date_sub_value,
    date_trunc, date_trunc_value, date_value, datetime_datum, datetime_value, strftime_datum,
    strftime_value, strptime_datum, strptime_value, time_datum, time_value,
};
use crate::executor::expression::json_fn::{
    eval_json_array, eval_json_array_length, eval_json_contains, eval_json_extract,
    eval_json_remove, eval_json_replace, eval_json_set, json_array_column,
    json_array_length_column, json_contains_column, json_extract_datum, json_remove_datum,
    json_replace_datum, json_set_datum,
};
use crate::executor::expression::numeric::{
    abs_datum, cosine, eval_abs, eval_binary_numeric, eval_mod, eval_unary_numeric,
    eval_vector_cosine_similarity, eval_vector_distance, eval_vector_norm, l2_distance, mod_datum,
    norm, numeric1, numeric2,
};
use crate::executor::expression::rowwise::{
    apply_each2, apply_each3, apply_map, apply_zip, each1, each2, each3, map_column, zip_columns,
};
use crate::executor::expression::strings::{
    all_long, concat_column, eval_concat_func, eval_instr, eval_length, eval_lower, eval_match,
    eval_replace, eval_split_part, eval_substring, eval_trim, eval_typeof, eval_upper, instr_datum,
    length_datum, lower_datum, match_column, replace_datum, split_part_datum, substring_column,
    trim_column, typeof_text, upper_datum, TrimMode,
};
use crate::executor::vector::{col_at, col_len, Column, Vector};
use crate::text::{lower_text, same_text, to_lower};
use crate::value::{same_value, Datum};
use crate::Value;

verus! {

/// The built-in functions.
#[derive(Debug, Clone, Copy, PartialEq, Eq, Structural)]
pub enum Func {
    Abs,
    Length,
    Upper,
    Lower,
    Round,
    Coalesce,
    Substring,
    Concat,
    IfNull,
    NullIf,
    If,
    Trim,
    LeftTrim,
    RightTrim,
    Instr,
    SplitPart,
    Ceil,
    Floor,
    Trunc,
    Power,
    Sqrt,
    Ln,
    Log,
    Log2,
    Random,
    TypeOf,
    Replace,
    Mod,
    JsonExtract,
    JsonContains,
    JsonArrayLength,
    JsonObject,
    JsonArray,
    JsonSet,
    JsonInsert,
    JsonReplace,
    JsonRemove,
    VectorDistance,
    VectorL2Distance,
    VectorCosine,
    VectorNorm,
    Now,
    Date,
    StrfTime,
    Time,
    DateTime,
    DateAdd,
    DateSub,
    DateDiff,
    DateTrunc,
    StrpTime,
    Match,
}

/// The function of a name in upper case.
pub open spec fn func_of(name: Seq<char>) -> Option<Func> {
    if name == "ABS"@ {
        Some(Func::Abs)
    } else if name == "LENGTH"@ || name == "LEN"@ {
        Some(Func::Length)
    } else if name == "UPPER"@ || name == "UCASE"@ {
        Some(Func::Upper)
    } else if name == "LOWER"@ || name == "LCASE"@ {
        Some(Func::Lower)
    } else if name == "ROUND"@ {
        Some(Func::Round)
    } else if name == "COALESCE"@ {
        Some(Func::Coalesce)
    } else if name == "SUBSTRING"@ || name == "SUBSTR"@ {
        Some(Func::Substring)
    } else if name == "CONCAT"@ {
        Some(Func::Concat)
    } else if name == "IFNULL"@ {
        Some(Func::IfNull)
    } else if name == "NULLIF"@ {
        Some(Func::NullIf)
    } else if name == "IF"@ {
        Some(Func::If)
    } else if name == "TRIM"@ {
        Some(Func::Trim)
    } else if name == "LTRIM"@ {
        Some(Func::LeftTrim)
    } else if name == "RTRIM"@ {
        Some(Func::RightTrim)
    } else if name == "INSTR"@ || name == "POSITION"@ {
        Some(Func::Instr)
    } else if name == "SPLIT_PART"@ {
        Some(Func::SplitPart)
    } else if name == "CEIL"@ || name == "CEILING"@ {
        Some(Func::Ceil)
    } else if name == "FLOOR"@ {
        Some(Func::Floor)
    } else if name == "TRUNC"@ || name == "TRUNCATE"@ {
        Some(Func::Trunc)
    } else if name == "POWER"@ || name == "POW"@ {
        Some(Func::Power)
    } else if name == "SQRT"@ {
        Some(Func::Sqrt)
    } else if name == "LN"@ {
        Some(Func::Ln)
    } else if name == "LOG"@ || name == "LOG10"@ {
        Some(Func::Log)
    } else if name == "LOG2"@ {
        Some(Func::Log2)
    } else if name == "RANDOM"@ || name == "RAND"@ {
        Some(Func::Random)
    } else if name == "TYPEOF"@ {
        Some(Func::TypeOf)
    } else if name == "REPLACE"@ {
        Some(Func::Replace)
    } else if name == "MOD"@ {
        Some(Func::Mod)
    } else if name == "JSON_EXTRACT"@ {
        Some(Func::JsonExtract)
    } else if name == "JSON_CONTAINS"@ {
        Some(Func::JsonContains)
    } else if name == "JSON_ARRAY_LENGTH"@ {
        Some(Func::JsonArrayLength)
    } else if name == "JSON_OBJECT"@ {
        Some(Func::JsonObject)
    } else if name == "JSON_ARRAY"@ {
        Some(Func::JsonArray)
    } else if name == "JSON_SET"@ {
        Some(Func::JsonSet)
    } else if name == "JSON_INSERT"@ {
        Some(Func::JsonInsert)
    } else if name == "JSON_REPLACE"@ {
        Some(Func::JsonReplace)
    } else if name == "JSON_REMOVE"@ {
        Some(Func::JsonRemove)
    } else if name == "VECTOR_DISTANCE"@ || name == "VEC_DISTANCE"@ {
        Some(Func::VectorDistance)
    } else if name == "VECTOR_L2_DISTANCE"@ {
        Some(Func::VectorL2Distance)
    } else if name == "VECTOR_COSINE_SIMILARITY"@ {
        Some(Func::VectorCosine)
    } else if name == "VECTOR_NORM"@ {
        Some(Func::VectorNorm)
    } else if name == "NOW"@ || name == "CURRENT_TIMESTAMP"@ {
        Some(Func::Now)
    } else if name == "DATE"@ {
        Some(Func::Date)
    } else if name == "STRFTIME"@ {
        Some(Func::StrfTime)
    } else if name == "TIME"@ {
        Some(Func::Time)
    } else if name == "DATETIME"@ {
        Some(Func::DateTime)
    } else if name == "DATE_ADD"@ {
        Some(Func::DateAdd)
    } else if name == "DATE_SUB"@ {
        Some(Func::DateSub)
    } else if name == "DATE_DIFF"@ {
        Some(Func::DateDiff)
    } else if name == "DATE_TRUNC"@ || name == "DATE_BIN"@ {
        Some(Func::DateTrunc)
    } else if name == "STRPTIME"@ {
        Some(Func::StrpTime)
    } else if name == "MATCH"@ {
        Some(Func::Match)
    } else {
        None
    }
}

/// Finds the function of a name in upper case.
pub fn find_func(name: &str) -> (r: Option<Func>)
    ensures
        r == func_of(name@),
{
    if same_text(name, "ABS") {
        Some(Func::Abs)
    } else if same_text(name, "LENGTH") || same_text(name, "LEN") {
        Some(Func::Length)
    } else if same_text(name, "UPPER") || same_text(name, "UCASE") {
        Some(Func::Upper)
    } else if same_text(name, "LOWER") || same_text(name, "LCASE") {
        Some(Func::Lower)
    } else if same_text(name, "ROUND") {
        Some(Func::Round)
    } else if same_text(name, "COALESCE") {
        Some(Func::Coalesce)
    } else if same_text(name, "SUBSTRING") || same_text(name, "SUBSTR") {
        Some(Func::Substring)
    } else if same_text(name, "CONCAT") {
        Some(Func::Concat)
    } else if same_text(name, "IFNULL") {
        Some(Func::IfNull)
    } else if same_text(name, "NULLIF") {
        Some(Func::NullIf)
    } else if same_text(name, "IF") {
        Some(Func::If)
    } else if same_text(name, "TRIM") {
        Some(Func::Trim)
    } else if same_text(name, "LTRIM") {
        Some(Func::LeftTrim)
    } else if same_text(name, "RTRIM") {
        Some(Func::RightTrim)
    } else if same_text(name, "INSTR") || same_text(name, "POSITION") {
        Some(Func::Instr)
    } else if same_text(name, "SPLIT_PART") {
        Some(Func::SplitPart)
    } else if same_text(name, "CEIL") || same_text(name, "CEILING") {
        Some(Func::Ceil)
    } else if same_text(name, "FLOOR") {
        Some(Func::Floor)
    } else if same_text(name, "TRUNC") || same_text(name, "TRUNCATE") {
        Some(Func::Trunc)
    } else if same_text(name, "POWER") || same_text(name, "POW") {
        Some(Func::Power)
    } else if same_text(name, "SQRT") {
        Some(Func::Sqrt)
    } else if same_text(name, "LN") {
        Some(Func::Ln)
    } else if same_text(name, "LOG") || same_text(name, "LOG10") {
        Some(Func::Log)
    } else if same_text(name, "LOG2") {
        Some(Func::Log2)
    } else if same_text(name, "RANDOM") || same_text(name, "RAND") {
        Some(Func::Random)
    } else if same_text(name, "TYPEOF") {
        Some(Func::TypeOf)
    } else if same_text(name, "REPLACE") {
        Some(Func::Replace)
    } else if same_text(name, "MOD") {
        Some(Func::Mod)
    } else if same_text(name, "JSON_EXTRACT") {
        Some(Func::JsonExtract)
    } else if same_text(name, "JSON_CONTAINS") {
        Some(Func::JsonContains)
    } else if same_text(name, "JSON_ARRAY_LENGTH") {
        Some(Func::JsonArrayLength)
    } else if same_text(name, "JSON_OBJECT") {
        Some(Func::JsonObject)
    } else if same_text(name, "JSON_ARRAY") {
        Some(Func::JsonArray)
    } else if same_text(name, "JSON_SET") {
        Some(Func::JsonSet)
    } else if same_text(name, "JSON_INSERT") {
        Some(Func::JsonInsert)
    } else if same_text(name, "JSON_REPLACE") {
        Some(Func::JsonReplace)
    } else if same_text(name, "JSON_REMOVE") {
        Some(Func::JsonRemove)
    } else if same_text(name, "VECTOR_DISTANCE") || same_text(name, "VEC_DISTANCE") {
        Some(Func::VectorDistance)
    } else if same_text(name, "VECTOR_L2_DISTANCE") {
        Some(Func::VectorL2Distance)
    } else if same_text(name, "VECTOR_COSINE_SIMILARITY") {
        Some(Func::VectorCosine)
    } else if same_text(name, "VECTOR_NORM") {
        Some(Func::VectorNorm)
    } else if same_text(name, "NOW") || same_text(name, "CURRENT_TIMESTAMP") {
        Some(Func::Now)
    } else if same_text(name, "DATE") {
        Some(Func::Date)
    } else if same_text(name, "STRFTIME") {
        Some(Func::StrfTime)
    } else if same_text(name, "TIME") {
        Some(Func::Time)
    } else if same_text(name, "DATETIME") {
        Some(Func::DateTime)
    } else if same_text(name, "DATE_ADD") {
        Some(Func::DateAdd)
    } else if same_text(name, "DATE_SUB") {
        Some(Func::DateSub)
    } else if same_text(name, "DATE_DIFF") {
        Some(Func::DateDiff)
    } else if same_text(name, "DATE_TRUNC") || same_text(name, "DATE_BIN") {
        Some(Func::DateTrunc)
    } else if same_text(name, "STRPTIME") {
        Some(Func::StrpTime)
    } else if same_text(name, "MATCH") {
        Some(Func::Match)
    } else {
        None
    }
}

/// Whether a function takes `n` arguments.
pub open spec fn takes(f: Func, n: nat) -> bool {
    match f {
        Func::Abs
        | Func::Length
        | Func::Upper
        | Func::Lower
        | Func::Ceil
        | Func::Floor
        | Func::Trunc
        | Func::Sqrt
        | Func::Ln
        | Func::Log
        | Func::Log2
        | Func::TypeOf
        | Func::VectorNorm
        | Func::Date
        | Func::Time
        | Func::DateTime => n == 1,
        Func::Round
        | Func::Trim
        | Func::LeftTrim
        | Func::RightTrim
        | Func::JsonArrayLength => n >= 1 && n <= 2,
        Func::Coalesce => n >= 1,
        Func::Substring
        | Func::JsonContains => n >= 2 && n <= 3,
        Func::Concat => n >= 2,
        Func::IfNull
        | Func::NullIf
        | Func::Instr
        | Func::Power
        | Func::Mod
        | Func::JsonExtract
        | Func::JsonRemove
        | Func::VectorDistance
        | Func::VectorL2Distance
        | Func::VectorCosine
        | Func::StrfTime
        | Func::DateTrunc
        | Func::StrpTime
        | Func::Match => n == 2,
        Func::If
        | Func::SplitPart
        | Func::Replace
        | Func::JsonSet
        | Func::JsonInsert
        | Func::JsonReplace
        | Func::DateAdd
        | Func::DateSub
        | Func::DateDiff => n == 3,
        Func::Random
        | Func::Now => n == 0,
        Func::JsonObject => n % 2 == 0,
        Func::JsonArray => true,
    }
}

/// Whether a function takes `n` arguments.
pub fn takes_args(f: Func, n: usize) -> (r: bool)
    ensures
        r == takes(f, n as nat),
{
    match f {
        Func::Abs
        | Func::Length
        | Func::Upper
        | Func::Lower
        | Func::Ceil
        | Func::Floor
        | Func::Trunc
        | Func::Sqrt
        | Func::Ln
        | Func::Log
        | Func::Log2
        | Func::TypeOf
        | Func::VectorNorm
        | Func::Date
        | Func::Time
        | Func::DateTime => n == 1,
        Func::Round
        | Func::Trim
        | Func::LeftTrim
        | Func::RightTrim
        | Func::JsonArrayLength => n >= 1 && n <= 2,
        Func::Coalesce => n >= 1,
        Func::Substring
        | Func::JsonContains => n >= 2 && n <= 3,
        Func::Concat => n >= 2,
        Func::IfNull
        | Func::NullIf
        | Func::Instr
        | Func::Power
        | Func::Mod
        | Func::JsonExtract
        | Func::JsonRemove
        | Func::VectorDistance
        | Func::VectorL2Distance
        | Func::VectorCosine
        | Func::StrfTime
        | Func::DateTrunc
        | Func::StrpTime
        | Func::Match => n == 2,
        Func::If
        | Func::SplitPart
        | Func::Replace
        | Func::JsonSet
        | Func::JsonInsert
        | Func::JsonReplace
        | Func::DateAdd
        | Func::DateSub
        | Func::DateDiff => n == 3,
        Func::Random
        | Func::Now => n == 0,
        Func::JsonObject => n % 2 == 0,
        Func::JsonArray => true,
    }
}

/// What is said of a call with the wrong number of arguments.
pub open spec fn takes_text(f: Func) -> Seq<char> {
    match f {
        Func::Abs => "ABS requires 1 argument"@,
        Func::Length => "LENGTH requires 1 argument"@,
        Func::Upper => "UPPER requires 1 argument"@,
        Func::Lower => "LOWER requires 1 argument"@,
        Func::Round => "ROUND requires 1-2 arguments"@,
        Func::Coalesce => "COALESCE requires at least 1 argument"@,
        Func::Substring => "SUBSTRING requires 2-3 arguments"@,
        Func::Concat => "CONCAT requires at least 2 arguments"@,
        Func::IfNull => "IFNULL requires 2 arguments"@,
        Func::NullIf => "NULLIF requires 2 arguments"@,
        Func::If => "IF requires 3 arguments"@,
        Func::Trim => "TRIM requires 1 or 2 arguments"@,
        Func::LeftTrim => "LTRIM requires 1 or 2 arguments"@,
        Func::RightTrim => "RTRIM requires 1 or 2 arguments"@,
        Func::Instr => "INSTR requires 2 arguments"@,
        Func::SplitPart => "SPLIT_PART requires 3 arguments"@,
        Func::Ceil => "CEIL requires 1 argument"@,
        Func::Floor => "FLOOR requires 1 argument"@,
        Func::Trunc => "TRUNC requires 1 argument"@,
        Func::Power => "POWER requires 2 arguments"@,
        Func::Sqrt => "SQRT requires 1 argument"@,
        Func::Ln => "LN requires 1 argument"@,
        Func::Log => "LOG/LOG10 requires 1 argument"@,
        Func::Log2 => "LOG2 requires 1 argument"@,
        Func::Random => "RANDOM/RAND takes 0 arguments"@,
        Func::TypeOf => "TYPEOF requires 1 argument"@,
        Func::Replace => "REPLACE requires 3 arguments"@,
        Func::Mod => "MOD requires 2 arguments"@,
        Func::JsonExtract => "JSON_EXTRACT requires 2 arguments"@,
        Func::JsonContains => "JSON_CONTAINS requires 2-3 arguments"@,
        Func::JsonArrayLength => "JSON_ARRAY_LENGTH requires 1-2 arguments"@,
        Func::JsonObject => "JSON_OBJECT requires even number of arguments (key, value pairs)"@,
        Func::JsonArray => ""@,
        Func::JsonSet => "JSON_SET requires 3 arguments"@,
        Func::JsonInsert => "JSON_INSERT requires 3 arguments"@,
        Func::JsonReplace => "JSON_REPLACE requires 3 arguments"@,
        Func::JsonRemove => "JSON_REMOVE requires 2 arguments"@,
        Func::VectorDistance => "VECTOR_DISTANCE requires 2 arguments"@,
        Func::VectorL2Distance => "VECTOR_L2_DISTANCE requires 2 arguments"@,
        Func::VectorCosine => "VECTOR_COSINE_SIMILARITY requires 2 arguments"@,
        Func::VectorNorm => "VECTOR_NORM requires 1 argument"@,
        Func::Now => "NOW/CURRENT_TIMESTAMP takes 0 arguments"@,
        Func::Date => "DATE requires 1 argument"@,
        Func::StrfTime => "STRFTIME requires 2 arguments (format, timestamp)"@,
        Func::Time => "TIME requires 1 argument"@,
        Func::DateTime => "DATETIME requires 1 argument"@,
        Func::DateAdd => "DATE_ADD requires 3 arguments (timestamp, number, unit)"@,
        Func::DateSub => "DATE_SUB requires 3 arguments (timestamp, number, unit)"@,
        Func::DateDiff => "DATE_DIFF requires 3 arguments (timestamp1, timestamp2, unit)"@,
        Func::DateTrunc => "DATE_TRUNC requires 2 arguments (unit, timestamp)"@,
        Func::StrpTime => "STRPTIME requires 2 arguments (format, string)"@,
        Func::Match => "MATCH requires 2 arguments (column, query)"@,
    }
}

/// What is said of a call with the wrong number of arguments.
pub fn takes_message(f: Func) -> (r: String)
    ensures
        r@ == takes_text(f),
{
    let s = match f {
        Func::Abs => "ABS requires 1 argument",
        Func::Length => "LENGTH requires 1 argument",
        Func::Upper => "UPPER requires 1 argument",
        Func::Lower => "LOWER requires 1 argument",
        Func::Round => "ROUND requires 1-2 arguments",
        Func::Coalesce => "COALESCE requires at least 1 argument",
        Func::Substring => "SUBSTRING requires 2-3 arguments",
        Func::Concat => "CONCAT requires at least 2 arguments",
        Func::IfNull => "IFNULL requires 2 arguments",
        Func::NullIf => "NULLIF requires 2 arguments",
        Func::If => "IF requires 3 arguments",
        Func::Trim => "TRIM requires 1 or 2 arguments",
        Func::LeftTrim => "LTRIM requires 1 or 2 arguments",
        Func::RightTrim => "RTRIM requires 1 or 2 arguments",
        Func::Instr => "INSTR requires 2 arguments",
        Func::SplitPart => "SPLIT_PART requires 3 arguments",
        Func::Ceil => "CEIL requires 1 argument",
        Func::Floor => "FLOOR requires 1 argument",
        Func::Trunc => "TRUNC requires 1 argument",
        Func::Power => "POWER requires 2 arguments",
        Func::Sqrt => "SQRT requires 1 argument",
        Func::Ln => "LN requires 1 argument",
        Func::Log => "LOG/LOG10 requires 1 argument",
        Func::Log2 => "LOG2 requires 1 argument",
        Func::Random => "RANDOM/RAND takes 0 arguments",
        Func::TypeOf => "TYPEOF requires 1 argument",
        Func::Replace => "REPLACE requires 3 arguments",
        Func::Mod => "MOD requires 2 arguments",
        Func::JsonExtract => "JSON_EXTRACT requires 2 arguments",
        Func::JsonContains => "JSON_CONTAINS requires 2-3 arguments",
        Func::JsonArrayLength => "JSON_ARRAY_LENGTH requires 1-2 arguments",
        Func::JsonObject => "JSON_OBJECT requires even number of arguments (key, value pairs)",
        Func::JsonArray => "",
        Func::JsonSet => "JSON_SET requires 3 arguments",
        Func::JsonInsert => "JSON_INSERT requires 3 arguments",
        Func::JsonReplace => "JSON_REPLACE requires 3 arguments",
        Func::JsonRemove => "JSON_REMOVE requires 2 arguments",
        Func::VectorDistance => "VECTOR_DISTANCE requires 2 arguments",
        Func::VectorL2Distance => "VECTOR_L2_DISTANCE requires 2 arguments",
        Func::VectorCosine => "VECTOR_COSINE_SIMILARITY requires 2 arguments",
        Func::VectorNorm => "VECTOR_NORM requires 1 argument",
        Func::Now => "NOW/CURRENT_TIMESTAMP takes 0 arguments",
        Func::Date => "DATE requires 1 argument",
        Func::StrfTime => "STRFTIME requires 2 arguments (format, timestamp)",
        Func::Time => "TIME requires 1 argument",
        Func::DateTime => "DATETIME requires 1 argument",
        Func::DateAdd => "DATE_ADD requires 3 arguments (timestamp, number, unit)",
        Func::DateSub => "DATE_SUB requires 3 arguments (timestamp, number, unit)",
        Func::DateDiff => "DATE_DIFF requires 3 arguments (timestamp1, timestamp2, unit)",
        Func::DateTrunc => "DATE_TRUNC requires 2 arguments (unit, timestamp)",
        Func::StrpTime => "STRPTIME requires 2 arguments (format, string)",
        Func::Match => "MATCH requires 2 arguments (column, query)",
    };
    s.to_owned()
}

/// The first value in row `i` of the columns from `k` on that is not NULL.
pub open spec fn first_present(cols: Seq<Column>, i: int, k: int) -> Datum
    decreases cols.len() - k,
{
    if k < 0 || k >= cols.len() {
        Datum::Null
    } else if col_at(cols[k], i) != Datum::Null {
        col_at(cols[k], i)
    } else {
        first_present(cols, i, k + 1)
    }
}

/// COALESCE and IFNULL of columns.
pub open spec fn coalesce_column(cols: Seq<Column>) -> Column {
    Column::Flat(Seq::new(col_len(cols[0]), |i: int| first_present(cols, i, 0)))
}

/// COALESCE and IFNULL of columns.
pub fn eval_coalesce(vecs: &Vec<Vector>) -> (r: Vector)
    requires
        vecs.len() > 0,
        all_long(vecs@, col_len(vecs[0].deep_view())),
    ensures
        r.wf(),
        r.deep_view() == coalesce_column(vecs.deep_view()),
{
    let ghost cols = vecs.deep_view();
    let n: usize = vecs[0].len();
    assert(cols[0] == vecs[0].deep_view());
    let ghost want = coalesce_column(cols)->Flat_0;
    let mut out: Vec<Value> = Vec::new();
    let mut i: usize = 0;
    while i < n
        invariant
            cols == vecs.deep_view(),
            all_long(vecs@, n as nat),
            want == coalesce_column(cols)->Flat_0,
            want.len() == n,
            i <= n,
            out.len() == i,
            forall|k: int| 0 <= k < i ==> (#[trigger] out[k]).deep_view() == want[k],
        decreases n - i,
    {
        let mut val = Value::Null;
        let mut k: usize = 0;
        while k < vecs.len() && val.is_null()
            invariant
                cols == vecs.deep_view(),
                all_long(vecs@, n as nat),
                i < n,
                k <= vecs.len(),
                val.deep_view() == Datum::Null ==> first_present(cols, i as int, 0)
                    == first_present(cols, i as int, k as int),
                val.deep_view() != Datum::Null ==> first_present(cols, i as int, 0)
                    == val.deep_view(),
            decreases vecs.len() - k,
        {
            assert(vecs[k as int].wf());
            assert(cols[k as int] == vecs[k as int].deep_view());
            val = vecs[k].get(i);
            k += 1;
        }
        out.push(val);
        i += 1;
    }
    assert(out.deep_view() =~= want);
    Vector::Flat(out)
}

/// NULLIF: NULL where the second value is equal, else the first.
pub open spec fn nullif_datum(a: Datum, b: Datum) -> Datum {
    if a == b {
        Datum::Null
    } else {
        a
    }
}

/// NULLIF of columns.
pub fn eval_nullif(a_vec: &Vector, b_vec: &Vector) -> (r: Vector)
    requires
        a_vec.wf(),
        b_vec.wf(),
        col_len(a_vec.deep_view()) == col_len(b_vec.deep_view()),
    ensures
        r.wf(),
        r.deep_view() == each2(
            a_vec.deep_view(),
            b_vec.deep_view(),
            |a: Datum, b: Datum| nullif_datum(a, b),
        ),
{
    let g = |x: &Value, y: &Value| -> (z: Value)
        ensures
            z.deep_view() == nullif_datum(x.deep_view(), y.deep_view()),
        {
            if same_value(x, y) {
                Value::Null
            } else {
                x.clone()
            }
        };
    apply_each2(a_vec, b_vec, g, Ghost(|a: Datum, b: Datum| nullif_datum(a, b)))
}

/// IF: the second value where the first is true, else the third.
pub open spec fn if_datum(c: Datum, t: Datum, f: Datum) -> Datum {
    if c == Datum::Boolean(true) {
        t
    } else {
        f
    }
}

/// IF of columns.
pub fn eval_if(cond_vec: &Vector, true_vec: &Vector, false_vec: &Vector) -> (r: Vector)
    requires
        cond_vec.wf(),
        true_vec.wf(),
        false_vec.wf(),
        col_len(cond_vec.deep_view()) == col_len(true_vec.deep_view()),
        col_len(cond_vec.deep_view()) == col_len(false_vec.deep_view()),
    ensures
        r.wf(),
        r.deep_view() == each3(
            cond_vec.deep_view(),
            true_vec.deep_view(),
            false_vec.deep_view(),
            |c: Datum, t: Datum, f: Datum| if_datum(c, t, f),
        ),
{
    let g = |x: &Value, y: &Value, w: &Value| -> (z: Value)
        ensures
            z.deep_view() == if_datum(x.deep_view(), y.deep_view(), w.deep_view()),
        {
            if matches!(x, Value::Boolean(true)) {
                y.clone()
            } else {
                w.clone()
            }
        };
    apply_each3(
        cond_vec,
        true_vec,
        false_vec,
        g,
        Ghost(|c: Datum, t: Datum, f: Datum| if_datum(c, t, f)),
    )
}

/// The text of a column that is a constant text.
pub open spec fn constant_text(c: Column) -> Option<Seq<char>> {
    match c {
        Column::Constant(Datum::Varchar(s), _) => Some(s),
        _ => None,
    }
}

fn read_constant(v: &Vector) -> (r: Option<&String>)
    ensures
        match r {
            Some(s) => constant_text(v.deep_view()) == Some(s@),
            None => constant_text(v.deep_view()) is None,
        },
{
    match v {
        Vector::Constant(Value::Varchar(s), _) => Some(s),
        _ => None,
    }
}

/// A function of a constant text, or the error where the text is not one.
pub open spec fn with_text(
    c: Column,
    message: Seq<char>,
    f: spec_fn(Seq<char>) -> Column,
) -> Result<Column, Fault> {
    match constant_text(c) {
        Some(s) => Ok(f(s)),
        None => Err(Fault::Parse(message)),
    }
}

/// What a function computes of the columns of its arguments, for `n` rows.
/// RANDOM computes no function of them; ROUND and JSON_OBJECT are computed by
/// the evaluator.
pub open spec fn applied(
    o: spec_fn(Question) -> Answer,
    f: Func,
    c: Seq<Column>,
    n: nat,
) -> Result<Column, Fault> {
    match f {
        Func::Abs => Ok(map_column(c[0], |d: Datum| abs_datum(d))),
        Func::Length => Ok(map_column(c[0], |d: Datum| length_datum(d))),
        Func::Upper => Ok(map_column(c[0], |d: Datum| upper_datum(d))),
        Func::Lower => Ok(map_column(c[0], |d: Datum| lower_datum(d))),
        Func::Coalesce | Func::IfNull => Ok(coalesce_column(c)),
        Func::Substring => Ok(
            substring_column(
                c[0],
                c[1],
                if c.len() == 3 {
                    Some(c[2])
                } else {
                    None
                },
            ),
        ),
        Func::Concat => Ok(concat_column(o, c)),
        Func::NullIf => Ok(each2(c[0], c[1], |a: Datum, b: Datum| nullif_datum(a, b))),
        Func::If => Ok(each3(c[0], c[1], c[2], |x: Datum, t: Datum, e: Datum| if_datum(x, t, e))),
        Func::Trim => Ok(trim_column(c[0], second(c), TrimMode::Both)),
        Func::LeftTrim => Ok(trim_column(c[0], second(c), TrimMode::Left)),
        Func::RightTrim => Ok(trim_column(c[0], second(c), TrimMode::Right)),
        Func::Instr => Ok(each2(c[0], c[1], |h: Datum, m: Datum| instr_datum(h, m))),
        Func::SplitPart => Ok(
            each3(c[0], c[1], c[2], |s: Datum, d: Datum, p: Datum| split_part_datum(s, d, p)),
        ),
        Func::Ceil => Ok(each1(c[0], |d: Datum| numeric1(o, FloatOp::Ceil, d))),
        Func::Floor => Ok(each1(c[0], |d: Datum| numeric1(o, FloatOp::Floor, d))),
        Func::Trunc => Ok(each1(c[0], |d: Datum| numeric1(o, FloatOp::Trunc, d))),
        Func::Power => Ok(
            each2(c[0], c[1], |a: Datum, b: Datum| numeric2(o, FloatOp::Pow, a, b)),
        ),
        Func::Sqrt => Ok(each1(c[0], |d: Datum| numeric1(o, FloatOp::Sqrt, d))),
        Func::Ln => Ok(each1(c[0], |d: Datum| numeric1(o, FloatOp::Ln, d))),
        Func::Log => Ok(each1(c[0], |d: Datum| numeric1(o, FloatOp::Log10, d))),
        Func::Log2 => Ok(each1(c[0], |d: Datum| numeric1(o, FloatOp::Log2, d))),
        Func::TypeOf => Ok(each1(c[0], |d: Datum| Datum::Varchar(typeof_text(d)))),
        Func::Replace => Ok(
            each3(c[0], c[1], c[2], |s: Datum, f: Datum, t: Datum| replace_datum(s, f, t)),
        ),
        Func::Mod => Ok(each2(c[0], c[1], |x: Datum, y: Datum| mod_datum(x, y))),
        Func::JsonExtract => Ok(
            zip_columns(c[0], c[1], |j: Datum, p: Datum| json_extract_datum(j, p)),
        ),
        Func::JsonContains => Ok(
            json_contains_column(
                c[0],
                c[1],
                if c.len() == 3 {
                    Some(c[2])
                } else {
                    None
                },
            ),
        ),
        Func::JsonArrayLength => Ok(json_array_length_column(c[0], second(c))),
        Func::JsonArray => Ok(json_array_column(o, c, n)),
        Func::JsonSet => Ok(
            each3(
                c[0],
                c[1],
                c[2],
                |j: Datum, p: Datum, v: Datum| json_set_datum(o, j, p, v, false),
            ),
        ),
        Func::JsonInsert => Ok(
            each3(
                c[0],
                c[1],
                c[2],
                |j: Datum, p: Datum, v: Datum| json_set_datum(o, j, p, v, true),
            ),
        ),
        Func::JsonReplace => Ok(
            each3(c[0], c[1], c[2], |j: Datum, p: Datum, v: Datum| json_replace_datum(o, j, p, v)),
        ),
        Func::JsonRemove => Ok(each2(c[0], c[1], |j: Datum, p: Datum| json_remove_datum(j, p))),
        Func::VectorDistance | Func::VectorL2Distance => Ok(
            zip_columns(c[0], c[1], |a: Datum, b: Datum| l2_distance(o, a, b)),
        ),
        Func::VectorCosine => Ok(
            zip_columns(c[0], c[1], |a: Datum, b: Datum| cosine(o, a, b)),
        ),
        Func::VectorNorm => Ok(map_column(c[0], |d: Datum| norm(o, d))),
        Func::Now => Ok(Column::Constant(Datum::Timestamp(moment(o)), n)),
        Func::Date => Ok(map_column(c[0], |d: Datum| date_datum(d))),
        Func::StrfTime => with_text(
            c[0],
            "STRFTIME format must be a constant string"@,
            |s: Seq<char>| map_column(c[1], |d: Datum| strftime_datum(s, d)),
        ),
        Func::Time => Ok(map_column(c[0], |d: Datum| time_datum(d))),
        Func::DateTime => Ok(map_column(c[0], |d: Datum| datetime_datum(d))),
        Func::DateAdd => with_text(
            c[2],
            "DATE_ADD unit must be a constant string"@,
            |s: Seq<char>|
                zip_columns(c[0], c[1], |a: Datum, b: Datum| date_add(a, b, lower_text(s))),
        ),
        Func::DateSub => with_text(
            c[2],
            "DATE_SUB unit must be a constant string"@,
            |s: Seq<char>|
                zip_columns(c[0], c[1], |a: Datum, b: Datum| date_sub(a, b, lower_text(s))),
        ),
        Func::DateDiff => with_text(
            c[2],
            "DATE_DIFF unit must be a constant string"@,
            |s: Seq<char>|
                zip_columns(c[0], c[1], |a: Datum, b: Datum| date_diff(a, b, lower_text(s))),
        ),
        Func::DateTrunc => with_text(
            c[0],
            "DATE_TRUNC unit must be a constant string"@,
            |s: Seq<char>| map_column(c[1], |d: Datum| date_trunc(d, lower_text(s))),
        ),
        Func::StrpTime => with_text(
            c[0],
            "STRPTIME format must be a constant string"@,
            |s: Seq<char>| map_column(c[1], |d: Datum| strptime_datum(s, d)),
        ),
        Func::Match => with_text(
            c[1],
            "MATCH query must be a string literal"@,
            |s: Seq<char>| match_column(c[0], s),
        ),
        Func::Random | Func::Round | Func::JsonObject => arbitrary(),
    }
}

/// The second column, where there is one.
pub open spec fn second(c: Seq<Column>) -> Option<Column> {
    if c.len() == 2 {
        Some(c[1])
    } else {
        None
    }
}

/// Whether a result is what the model says.
pub open spec fn gives_column(r: Result<Vector, EngramDbError>, m: Result<Column, Fault>) -> bool {
    match r {
        Ok(v) => m == Ok::<Column, Fault>(v.deep_view()),
        Err(e) => m == Err::<Column, Fault>(e.deep_view()),
    }
}

fn apply_text<E: Fn(Ask) -> Reply>(f: Func, v: &Vec<Vector>, n: usize, env: &E) -> (r: Vector)
    requires
        answers(*env),
        f is Length || f is Upper || f is Lower || f is Substring || f is Concat || f is Trim
            || f is LeftTrim || f is RightTrim || f is Instr || f is SplitPart || f is TypeOf
            || f is Replace || f is Coalesce || f is IfNull || f is NullIf || f is If,
        takes(f, v@.len()),
        all_long(v@, n as nat),
    ensures
        r.wf(),
        col_len(r.deep_view()) == n,
        applied(oracle(*env), f, v.deep_view(), n as nat) == Ok::<Column, Fault>(r.deep_view()),
{
    let ghost c = v.deep_view();
    assert(v[0].wf() && c[0] == v[0].deep_view());
    assert(v.len() > 1 ==> v[1].wf() && c[1] == v[1].deep_view());
    assert(v.len() > 2 ==> v[2].wf() && c[2] == v[2].deep_view());
    match f {
        Func::Length => eval_length(&v[0]),
        Func::Upper => eval_upper(&v[0]),
        Func::Lower => eval_lower(&v[0]),
        Func::Substring => if v.len() == 3 {
            eval_substring(&v[0], &v[1], Some(&v[2]))
        } else {
            eval_substring(&v[0], &v[1], None)
        },
        Func::Concat => eval_concat_func(v, env),
        Func::Trim | Func::LeftTrim | Func::RightTrim => {
            let mode = match f {
                Func::Trim => TrimMode::Both,
                Func::LeftTrim => TrimMode::Left,
                _ => TrimMode::Right,
            };
            if v.len() == 2 {
                eval_trim(&v[0], Some(&v[1]), mode)
            } else {
                eval_trim(&v[0], None, mode)
            }
        },
        Func::Instr => eval_instr(&v[0], &v[1]),
        Func::SplitPart => eval_split_part(&v[0], &v[1], &v[2]),
        Func::TypeOf => eval_typeof(&v[0]),
        Func::Replace => eval_replace(&v[0], &v[1], &v[2]),
        Func::NullIf => eval_nullif(&v[0], &v[1]),
        Func::If => eval_if(&v[0], &v[1], &v[2]),
        _ => eval_coalesce(v),
    }
}

fn apply_number<E: Fn(Ask) -> Reply>(f: Func, v: &Vec<Vector>, n: usize, env: &E) -> (r: Vector)
    requires
        answers(*env),
        f is Abs || f is Ceil || f is Floor || f is Trunc || f is Power || f is Sqrt || f is Ln
            || f is Log || f is Log2 || f is Mod || f is VectorDistance || f is VectorL2Distance
            || f is VectorCosine || f is VectorNorm,
        takes(f, v@.len()),
        all_long(v@, n as nat),
    ensures
        r.wf(),
        col_len(r.deep_view()) == n,
        applied(oracle(*env), f, v.deep_view(), n as nat) == Ok::<Column, Fault>(r.deep_view()),
{
    let ghost c = v.deep_view();
    assert(v[0].wf() && c[0] == v[0].deep_view());
    assert(v.len() > 1 ==> v[1].wf() && c[1] == v[1].deep_view());
    match f {
        Func::Abs => eval_abs(&v[0]),
        Func::Ceil => eval_unary_numeric(&v[0], FloatOp::Ceil, env),
        Func::Floor => eval_unary_numeric(&v[0], FloatOp::Floor, env),
        Func::Trunc => eval_unary_numeric(&v[0], FloatOp::Trunc, env),
        Func::Power => eval_binary_numeric(&v[0], &v[1], FloatOp::Pow, env),
        Func::Sqrt => eval_unary_numeric(&v[0], FloatOp::Sqrt, env),
        Func::Ln => eval_unary_numeric(&v[0], FloatOp::Ln, env),
        Func::Log => eval_unary_numeric(&v[0], FloatOp::Log10, env),
        Func::Log2 => eval_unary_numeric(&v[0], FloatOp::Log2, env),
        Func::Mod => eval_mod(&v[0], &v[1]),
        Func::VectorCosine => eval_vector_cosine_similarity(&v[0], &v[1], env),
        Func::VectorNorm => eval_vector_norm(&v[0], env),
        _ => eval_vector_distance(&v[0], &v[1], env),
    }
}

fn apply_json<E: Fn(Ask) -> Reply>(f: Func, v: &Vec<Vector>, n: usize, env: &E) -> (r: Vector)
    requires
        answers(*env),
        f is JsonExtract || f is JsonContains || f is JsonArrayLength || f is JsonArray
            || f is JsonSet || f is JsonInsert || f is JsonReplace || f is JsonRemove,
        takes(f, v@.len()),
        all_long(v@, n as nat),
    ensures
        r.wf(),
        col_len(r.deep_view()) == n,
        applied(oracle(*env), f, v.deep_view(), n as nat) == Ok::<Column, Fault>(r.deep_view()),
{
    let ghost c = v.deep_view();
    assert(v.len() > 0 ==> v[0].wf() && c[0] == v[0].deep_view());
    assert(v.len() > 1 ==> v[1].wf() && c[1] == v[1].deep_view());
    assert(v.len() > 2 ==> v[2].wf() && c[2] == v[2].deep_view());
    match f {
        Func::JsonExtract => eval_json_extract(&v[0], &v[1]),
        Func::JsonContains => if v.len() == 3 {
            eval_json_contains(&v[0], &v[1], Some(&v[2]))
        } else {
            eval_json_contains(&v[0], &v[1], None)
        },
        Func::JsonArrayLength => if v.len() == 2 {
            eval_json_array_length(&v[0], Some(&v[1]))
        } else {
            eval_json_array_length(&v[0], None)
        },
        Func::JsonArray => eval_json_array(v, n, env),
        Func::JsonSet => eval_json_set(&v[0], &v[1], &v[2], false, env),
        Func::JsonInsert => eval_json_set(&v[0], &v[1], &v[2], true, env),
        Func::JsonReplace => eval_json_replace(&v[0], &v[1], &v[2], env),
        _ => eval_json_remove(&v[0], &v[1]),
    }
}

fn apply_time<E: Fn(Ask) -> Reply>(f: Func, v: &Vec<Vector>, n: usize, env: &E) -> (r: Vector)
    requires
        answers(*env),
        f is Now || f is Date || f is Time || f is DateTime,
        takes(f, v@.len()),
        all_long(v@, n as nat),
    ensures
        r.wf(),
        col_len(r.deep_view()) == n,
        applied(oracle(*env), f, v.deep_view(), n as nat) == Ok::<Column, Fault>(r.deep_view()),
{
    let ghost c = v.deep_view();
    assert(v.len() > 0 ==> v[0].wf() && c[0] == v[0].deep_view());
    match f {
        Func::Now => Vector::Constant(Value::Timestamp(now_ms(env)), n),
        Func::Date => {
            let g = |x: &Value| -> (z: Value)
                ensures
                    z.deep_view() == date_datum(x.deep_view()),
                { date_value(x) };
            apply_map(&v[0], g, Ghost(|d: Datum| date_datum(d)))
        },
        Func::Time => {
            let g = |x: &Value| -> (z: Value)
                ensures
                    z.deep_view() == time_datum(x.deep_view()),
                { time_value(x) };
            apply_map(&v[0], g, Ghost(|d: Datum| time_datum(d)))
        },
        _ => {
            let g = |x: &Value| -> (z: Value)
                ensures
                    z.deep_view() == datetime_datum(x.deep_view()),
                { datetime_value(x) };
            apply_map(&v[0], g, Ghost(|d: Datum| datetime_datum(d)))
        },
    }
}

fn parse_error(message: &str) -> (r: Result<Vector, EngramDbError>)
    ensures
        r matches Err(e) && e.deep_view() == Fault::Parse(message@),
{
    Err(EngramDbError::Parse(message.to_owned()))
}

fn apply_format(f: Func, v: &Vec<Vector>, n: usize, Ghost(o): Ghost<spec_fn(Question) -> Answer>) -> (r:
    Result<Vector, EngramDbError>)
    requires
        f is StrfTime || f is StrpTime || f is DateTrunc || f is Match,
        takes(f, v@.len()),
        all_long(v@, n as nat),
    ensures
        r matches Ok(x) ==> x.wf() && col_len(x.deep_view()) == n,
        gives_column(r, applied(o, f, v.deep_view(), n as nat)),
{
    let ghost c = v.deep_view();
    assert(v[0].wf() && c[0] == v[0].deep_view());
    assert(v[1].wf() && c[1] == v[1].deep_view());
    match f {
        Func::StrfTime => match read_constant(&v[0]) {
            Some(s) => {
                let g = |x: &Value| -> (z: Value)
                    ensures
                        z.deep_view() == strftime_datum(s@, x.deep_view()),
                    { strftime_value(s.as_str(), x) };
                Ok(apply_map(&v[1], g, Ghost(|d: Datum| strftime_datum(s@, d))))
            },
            None => parse_error("STRFTIME format must be a constant string"),
        },
        Func::StrpTime => match read_constant(&v[0]) {
            Some(s) => {
                let g = |x: &Value| -> (z: Value)
                    ensures
                        z.deep_view() == strptime_datum(s@, x.deep_view()),
                    { strptime_value(s.as_str(), x) };
                Ok(apply_map(&v[1], g, Ghost(|d: Datum| strptime_datum(s@, d))))
            },
            None => parse_error("STRPTIME format must be a constant string"),
        },
        Func::DateTrunc => match read_constant(&v[0]) {
            Some(s) => {
                let unit = to_lower(s.as_str());
                let g = |x: &Value| -> (z: Value)
                    ensures
                        z.deep_view() == date_trunc(x.deep_view(), unit@),
                    { date_trunc_value(x, unit.as_str()) };
                Ok(apply_map(&v[1], g, Ghost(|d: Datum| date_trunc(d, lower_text(s@)))))
            },
            None => parse_error("DATE_TRUNC unit must be a constant string"),
        },
        _ => match read_constant(&v[1]) {
            Some(s) => Ok(eval_match(&v[0], s.as_str())),
            None => parse_error("MATCH query must be a string literal"),
        },
    }
}

fn apply_shift(f: Func, v: &Vec<Vector>, n: usize, Ghost(o): Ghost<spec_fn(Question) -> Answer>) -> (r:
    Result<Vector, EngramDbError>)
    requires
        f is DateAdd || f is DateSub || f is DateDiff,
        takes(f, v@.len()),
        all_long(v@, n as nat),
    ensures
        r matches Ok(x) ==> x.wf() && col_len(x.deep_view()) == n,
        gives_column(r, applied(o, f, v.deep_view(), n as nat)),
{
    let ghost c = v.deep_view();
    assert(v[0].wf() && c[0] == v[0].deep_view());
    assert(v[1].wf() && c[1] == v[1].deep_view());
    assert(v[2].wf() && c[2] == v[2].deep_view());
    match read_constant(&v[2]) {
        Some(s) => {
            let unit = to_lower(s.as_str());
            match f {
                Func::DateAdd => {
                    let g = |x: &Value, y: &Value| -> (z: Value)
                        ensures
                            z.deep_view() == date_add(x.deep_view(), y.deep_view(), unit@),
                        { date_add_value(x, y, unit.as_str()) };
                    Ok(
                        apply_zip(
                            &v[0],
                            &v[1],
                            g,
                            Ghost(|a: Datum, b: Datum| date_add(a, b, lower_text(s@))),
                        ),
                    )
                },
                Func::DateSub => {
                    let g = |x: &Value, y: &Value| -> (z: Value)
                        ensures
                            z.deep_view() == date_sub(x.deep_view(), y.deep_view(), unit@),
                        { date_sub_value(x, y, unit.as_str()) };
                    Ok(
                        apply_zip(
                            &v[0],
                            &v[1],
                            g,
                            Ghost(|a: Datum, b: Datum| date_sub(a, b, lower_text(s@))),
                        ),
                    )
                },
                _ => {
                    let g = |x: &Value, y: &Value| -> (z: Value)
                        ensures
                            z.deep_view() == date_diff(x.deep_view(), y.deep_view(), unit@),
                        { date_diff_value(x, y, unit.as_str()) };
                    Ok(
                        apply_zip(
                            &v[0],
                            &v[1],
                            g,
                            Ghost(|a: Datum, b: Datum| date_diff(a, b, lower_text(s@))),
                        ),
                    )
                },
            }
        },
        None => match f {
            Func::DateAdd => parse_error("DATE_ADD unit must be a constant string"),
            Func::DateSub => parse_error("DATE_SUB unit must be a constant string"),
            _ => parse_error("DATE_DIFF unit must be a constant string"),
        },
    }
}

/// Computes a function of the columns of its arguments, for `n` rows.
pub fn apply_function<E: Fn(Ask) -> Reply>(f: Func, v: &Vec<Vector>, n: usize, env: &E) -> (r:
    Result<Vector, EngramDbError>)
    requires
        answers(*env),
        !(f is Random || f is Round || f is JsonObject),
        takes(f, v@.len()),
        all_long(v@, n as nat),
    ensures
        r matches Ok(x) ==> x.wf() && col_len(x.deep_view()) == n,
        gives_column(r, applied(oracle(*env), f, v.deep_view(), n as nat)),
{
    match f {
        Func::Length
        | Func::Upper
        | Func::Lower
        | Func::Substring
        | Func::Concat
        | Func::Trim
        | Func::LeftTrim
        | Func::RightTrim
        | Func::Instr
        | Func::SplitPart
        | Func::TypeOf
        | Func::Replace
        | Func::Coalesce
        | Func::IfNull
        | Func::NullIf
        | Func::If => Ok(apply_text(f, v, n, env)),
        Func::Abs
        | Func::Ceil
        | Func::Floor
        | Func::Trunc
        | Func::Power
        | Func::Sqrt
        | Func::Ln
        | Func::Log
        | Func::Log2
        | Func::Mod
        | Func::VectorDistance
        | Func::VectorL2Distance
        | Func::VectorCosine
        | Func::VectorNorm => Ok(apply_number(f, v, n, env)),
        Func::JsonExtract
        | Func::JsonContains
        | Func::JsonArrayLength
        | Func::JsonArray
        | Func::JsonSet
        | Func::JsonInsert
        | Func::JsonReplace
        | Func::JsonRemove => Ok(apply_json(f, v, n, env)),
        Func::Now | Func::Date | Func::Time | Func::DateTime => Ok(apply_time(f, v, n, env)),
        Func::DateAdd | Func::DateSub | Func::DateDiff => apply_shift(f, v, n, Ghost(oracle(*env))),
        _ => apply_format(f, v, n, Ghost(oracle(*env))),
    }
}

} // verus!
