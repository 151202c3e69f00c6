//! The evaluation of expressions.
use engramdb::executor::env::{Ask, FloatOp, Reply};
use engramdb::executor::expression::eval::{boolean_to_selection, eval_vectorized};
use engramdb::executor::expression::json_fn::{
    json_array_length_value, json_contains_value, json_extract_value,
};
use engramdb::executor::expression::numeric::{
    vector_cosine_sim, vector_l2_distance, vector_norm_value,
};
use engramdb::executor::expression::ops::like_pattern_match;
use engramdb::executor::vector::{DataChunk, Vector};
use engramdb::float::{F32, F64};
use engramdb::sql::ast::{BinaryOperator, Expression};
use engramdb::Value;

fn double(x: f64) -> F64 {
    F64 { bits: x.to_bits() }
}

fn shown(v: &Value) -> String {
    match v {
        Value::Null => "NULL".to_string(),
        Value::Boolean(b) => b.to_string(),
        Value::Int32(x) => x.to_string(),
        Value::Int64(x) => x.to_string(),
        Value::Float32(x) => f32::from_bits(x.bits).to_string(),
        Value::Float64(x) => f64::from_bits(x.bits).to_string(),
        Value::Varchar(s) => s.clone(),
        Value::Json(s) => s.clone(),
        Value::Timestamp(x) => x.to_string(),
        other => format!("{:?}", other),
    }
}

fn arith(op: FloatOp, x: f64, y: f64) -> f64 {
    match op {
        FloatOp::Add => x + y,
        FloatOp::Sub => x - y,
        FloatOp::Mul => x * y,
        FloatOp::Div => x / y,
        FloatOp::Rem => x % y,
        FloatOp::Ceil => x.ceil(),
        FloatOp::Floor => x.floor(),
        FloatOp::Trunc => x.trunc(),
        FloatOp::Round => x.round(),
        FloatOp::Sqrt => x.sqrt(),
        FloatOp::Ln => x.ln(),
        FloatOp::Log10 => x.log10(),
        FloatOp::Log2 => x.log2(),
        FloatOp::Pow => x.powf(y),
    }
}

fn env(ask: Ask) -> Reply {
    match ask {
        Ask::Arith(op, x, y) => {
            Reply::Number(double(arith(op, f64::from_bits(x.bits), f64::from_bits(y.bits))))
        }
        Ask::TenTo(n) => Reply::Number(double(10f64.powi(n))),
        Ask::Show(v) => Reply::Text(shown(&v)),
        Ask::ParseFloat(s) => match s.parse::<f64>() {
            Ok(x) => Reply::Number(double(x)),
            Err(_) => Reply::Nothing,
        },
        Ask::JsonNumber(x) => Reply::Text(format!("{:?}", f64::from_bits(x.bits))),
        Ask::Debug(v) => Reply::Text(format!("{:?}", v)),
        Ask::DebugExpr(e) => Reply::Text(format!("{:?}", e)),
        Ask::DebugNames(v) => Reply::Text(format!("{:?}", v)),
        Ask::Now => Reply::Moment(
            std::time::SystemTime::now()
                .duration_since(std::time::UNIX_EPOCH)
                .unwrap_or_default()
                .as_millis() as i64,
        ),
        Ask::Elapsed => Reply::Moment(7),
    }
}

fn single(x: f32) -> F32 {
    F32 { bits: x.to_bits() }
}

fn make_chunk(values: Vec<Value>) -> DataChunk {
    DataChunk {
        columns: vec![Vector::Flat(values)],
        count: 5,
    }
}

#[test]
fn test_literal_eval() {
    let chunk = make_chunk(vec![
        Value::Int64(1), Value::Int64(2), Value::Int64(3),
        Value::Int64(4), Value::Int64(5),
    ]);
    let result = eval_vectorized(
        &Expression::Literal(Value::Int64(42)),
        &chunk,
        &vec!["col1".to_string()], &env).unwrap();
    assert_eq!(result.len(), 5);
    assert!(matches!(result, Vector::Constant(Value::Int64(42), 5)));
}

#[test]
fn test_column_ref_eval() {
    let chunk = make_chunk(vec![
        Value::Int64(1), Value::Int64(2), Value::Int64(3),
        Value::Int64(4), Value::Int64(5),
    ]);
    let result = eval_vectorized(
        &Expression::ColumnRef { table: None, column: "col1".to_string() },
        &chunk,
        &vec!["col1".to_string()], &env).unwrap();
    assert_eq!(result.len(), 5);
}

#[test]
fn test_binary_arith() {
    let chunk = make_chunk(vec![
        Value::Int64(10), Value::Int64(20), Value::Int64(30),
        Value::Int64(40), Value::Int64(50),
    ]);
    let expr = Expression::BinaryOp {
        left: Box::new(Expression::ColumnRef { table: None, column: "col1".to_string() }),
        op: BinaryOperator::Plus,
        right: Box::new(Expression::Literal(Value::Int64(5))),
    };
    let result = eval_vectorized(&expr, &chunk, &vec!["col1".to_string()], &env).unwrap();
    let flat = result.to_flat();
    assert_eq!(flat[0], Value::Int64(15));
    assert_eq!(flat[1], Value::Int64(25));
    assert_eq!(flat[2], Value::Int64(35));
}

#[test]
fn test_binary_compare() {
    let chunk = make_chunk(vec![
        Value::Int64(1), Value::Int64(5), Value::Int64(10),
        Value::Int64(15), Value::Int64(20),
    ]);
    let expr = Expression::BinaryOp {
        left: Box::new(Expression::ColumnRef { table: None, column: "col1".to_string() }),
        op: BinaryOperator::Gt,
        right: Box::new(Expression::Literal(Value::Int64(10))),
    };
    let result = eval_vectorized(&expr, &chunk, &vec!["col1".to_string()], &env).unwrap();
    let flat = result.to_flat();
    assert_eq!(flat[0], Value::Boolean(false));
    assert_eq!(flat[2], Value::Boolean(false));
    assert_eq!(flat[3], Value::Boolean(true));
    assert_eq!(flat[4], Value::Boolean(true));
}

#[test]
fn test_null_propagation() {
    let chunk = DataChunk {
        columns: vec![Vector::Flat(vec![
            Value::Int64(1), Value::Null, Value::Int64(3),
        ])],
        count: 3,
    };
    let expr = Expression::BinaryOp {
        left: Box::new(Expression::ColumnRef { table: None, column: "col1".to_string() }),
        op: BinaryOperator::Plus,
        right: Box::new(Expression::Literal(Value::Int64(10))),
    };
    let result = eval_vectorized(&expr, &chunk, &vec!["col1".to_string()], &env).unwrap();
    let flat = result.to_flat();
    assert_eq!(flat[0], Value::Int64(11));
    assert_eq!(flat[1], Value::Null);
    assert_eq!(flat[2], Value::Int64(13));
}

#[test]
fn test_is_null() {
    let chunk = DataChunk {
        columns: vec![Vector::Flat(vec![
            Value::Int64(1), Value::Null, Value::Varchar("hello".into()),
        ])],
        count: 3,
    };
    let expr = Expression::IsNull(Box::new(
        Expression::ColumnRef { table: None, column: "col1".to_string() }
    ));
    let result = eval_vectorized(&expr, &chunk, &vec!["col1".to_string()], &env).unwrap();
    let flat = result.to_flat();
    assert_eq!(flat[0], Value::Boolean(false));
    assert_eq!(flat[1], Value::Boolean(true));
    assert_eq!(flat[2], Value::Boolean(false));
}

#[test]
fn test_like_pattern() {
    assert!(like_pattern_match("hello", "%ell%"));
    assert!(like_pattern_match("hello", "h%o"));
    assert!(like_pattern_match("hello", "h_ll_"));
    assert!(!like_pattern_match("hello", "h%x"));
    assert!(like_pattern_match("abc", "%%"));
    assert!(like_pattern_match("", "%"));
}

#[test]
fn test_boolean_to_selection() {
    let bool_vec = Vector::Flat(vec![
        Value::Boolean(true),
        Value::Boolean(false),
        Value::Boolean(true),
        Value::Null,
        Value::Boolean(true),
    ]);
    let selection = boolean_to_selection(&bool_vec);
    assert_eq!(selection, vec![0, 2, 4]);
}

#[test]
fn test_json_extract_simple() {
    let json = Value::Json(r#"{"name":"alice","age":30}"#.to_string());
    let path = Value::Varchar("$.name".to_string());
    let result = json_extract_value(&json, &path);
    assert_eq!(result, Value::Json("\"alice\"".to_string()));
}

#[test]
fn test_json_extract_nested() {
    let json = Value::Json(r#"{"user":{"name":"bob","scores":[90,85,95]}}"#.to_string());
    let result = json_extract_value(&json, &Value::Varchar("$.user.name".to_string()));
    assert_eq!(result, Value::Json("\"bob\"".to_string()));
}

#[test]
fn test_json_extract_array_index() {
    let json = Value::Json(r#"{"items":["a","b","c"]}"#.to_string());
    let result = json_extract_value(&json, &Value::Varchar("$.items[1]".to_string()));
    assert_eq!(result, Value::Json("\"b\"".to_string()));
}

#[test]
fn test_json_extract_null() {
    let result = json_extract_value(&Value::Null, &Value::Varchar("$.x".to_string()));
    assert_eq!(result, Value::Null);
    let result = json_extract_value(&Value::Json("{}".to_string()), &Value::Varchar("$.nonexistent".to_string()));
    assert_eq!(result, Value::Null);
}

#[test]
fn test_json_contains_basic() {
    let json = Value::Json(r#"{"a":1,"b":2}"#.to_string());
    let target = Value::Json("1".to_string());
    let result = json_contains_value(&json, &target, None);
    assert_eq!(result, Value::Boolean(true));
}

#[test]
fn test_json_contains_with_path() {
    let json = Value::Json(r#"{"data":{"tags":["rust","db","ai"]}}"#.to_string());
    let target = Value::Json("\"ai\"".to_string());
    let result = json_contains_value(&json, &target, Some(&Value::Varchar("$.data.tags".to_string())));
    assert_eq!(result, Value::Boolean(true));
}

#[test]
fn test_json_array_length() {
    let json = Value::Json(r#"[1,2,3,4,5]"#.to_string());
    let result = json_array_length_value(&json, None);
    assert_eq!(result, Value::Int64(5));
}

#[test]
fn test_json_array_length_with_path() {
    let json = Value::Json(r#"{"items":[10,20,30]}"#.to_string());
    let result = json_array_length_value(&json, Some(&Value::Varchar("$.items".to_string())));
    assert_eq!(result, Value::Int64(3));
}

#[test]
fn test_json_array_length_not_array() {
    let json = Value::Json(r#"{"key":"value"}"#.to_string());
    let result = json_array_length_value(&json, None);
    assert_eq!(result, Value::Null);
}

#[test]
fn test_vector_l2_distance() {
    let v1 = Value::Vector(vec![single(1.0), single(2.0), single(3.0)]);
    let v2 = Value::Vector(vec![single(4.0), single(6.0), single(8.0)]);
    let result = vector_l2_distance(&v1, &v2, &env);

    match result {
        Value::Float64(bits) => { let d = f64::from_bits(bits.bits); assert!((d - 7.0710678).abs() < 0.001); }
        _ => panic!("expected Float64"),
    }
}

#[test]
fn test_vector_l2_distance_same() {
    let v = Value::Vector(vec![single(1.0), single(2.0), single(3.0)]);
    let result = vector_l2_distance(&v, &v, &env);
    match result {
        Value::Float64(bits) => { let d = f64::from_bits(bits.bits); assert_eq!(d, 0.0); }
        _ => panic!("expected Float64"),
    }
}

#[test]
fn test_vector_cosine_similarity() {
    let v1 = Value::Vector(vec![single(1.0), single(0.0)]);
    let v2 = Value::Vector(vec![single(0.0), single(1.0)]);
    let result = vector_cosine_sim(&v1, &v2, &env);
    match result {
        Value::Float64(bits) => { let s = f64::from_bits(bits.bits); assert_eq!(s, 0.0); }
        _ => panic!("expected Float64"),
    }
}

#[test]
fn test_vector_cosine_similarity_same_direction() {
    let v1 = Value::Vector(vec![single(3.0), single(4.0)]);
    let v2 = Value::Vector(vec![single(6.0), single(8.0)]);
    let result = vector_cosine_sim(&v1, &v2, &env);
    match result {
        Value::Float64(bits) => { let s = f64::from_bits(bits.bits); assert!((s - 1.0).abs() < 0.0001); }
        _ => panic!("expected Float64"),
    }
}

#[test]
fn test_vector_norm() {
    let v = Value::Vector(vec![single(3.0), single(4.0)]);
    let result = vector_norm_value(&v, &env);
    match result {
        Value::Float64(bits) => { let n = f64::from_bits(bits.bits); assert_eq!(n, 5.0); }
        _ => panic!("expected Float64"),
    }
}

#[test]
fn test_vector_null_propagation() {
    let v = Value::Vector(vec![single(1.0), single(2.0)]);
    assert_eq!(vector_l2_distance(&Value::Null, &v, &env), Value::Null);
    assert_eq!(vector_l2_distance(&v, &Value::Null, &env), Value::Null);
    assert_eq!(vector_cosine_sim(&Value::Null, &v, &env), Value::Null);
    assert_eq!(vector_norm_value(&Value::Null, &env), Value::Null);
}

#[test]
fn test_vector_dim_mismatch() {
    let v1 = Value::Vector(vec![single(1.0), single(2.0)]);
    let v2 = Value::Vector(vec![single(1.0), single(2.0), single(3.0)]);
    assert_eq!(vector_l2_distance(&v1, &v2, &env), Value::Null);
    assert_eq!(vector_cosine_sim(&v1, &v2, &env), Value::Null);
}

fn func_expr(name: &str, args: Vec<Expression>) -> Expression {
    Expression::Function {
        name: name.to_string(),
        args,
        distinct: false,
        count_star: false,
        over: None,
    }
}

#[test]
fn test_ifnull_first_non_null() {
    let chunk = DataChunk {
        columns: vec![Vector::Flat(vec![
            Value::Int64(1), Value::Null, Value::Int64(3),
        ])],
        count: 3,
    };
    let expr = func_expr("IFNULL", vec![
        Expression::ColumnRef { table: None, column: "c".to_string() },
        Expression::Literal(Value::Int64(99)),
    ]);
    let r = eval_vectorized(&expr, &chunk, &vec!["c".to_string()], &env).unwrap();
    let flat = r.to_flat();
    assert_eq!(flat[0], Value::Int64(1));
    assert_eq!(flat[1], Value::Int64(99));
    assert_eq!(flat[2], Value::Int64(3));
}

#[test]
fn test_replace_basic() {
    let chunk = DataChunk {
        columns: vec![Vector::Flat(vec![
            Value::Varchar("hello world".into()),
            Value::Varchar("foo bar".into()),
        ])],
        count: 2,
    };
    let expr = func_expr("REPLACE", vec![
        Expression::ColumnRef { table: None, column: "c".to_string() },
        Expression::Literal(Value::Varchar("world".into())),
        Expression::Literal(Value::Varchar("there".into())),
    ]);
    let r = eval_vectorized(&expr, &chunk, &vec!["c".to_string()], &env).unwrap();
    let flat = r.to_flat();
    assert_eq!(flat[0], Value::Varchar("hello there".into()));
    assert_eq!(flat[1], Value::Varchar("foo bar".into())); // no match
}

#[test]
fn test_mod_basic() {
    let chunk = DataChunk {
        columns: vec![Vector::Flat(vec![
            Value::Int64(10), Value::Int64(7), Value::Int64(100),
        ])],
        count: 3,
    };
    let expr = func_expr("MOD", vec![
        Expression::ColumnRef { table: None, column: "c".to_string() },
        Expression::Literal(Value::Int64(3)),
    ]);
    let r = eval_vectorized(&expr, &chunk, &vec!["c".to_string()], &env).unwrap();
    let flat = r.to_flat();
    assert_eq!(flat[0], Value::Int64(1));
    assert_eq!(flat[1], Value::Int64(1));
    assert_eq!(flat[2], Value::Int64(1));
}

#[test]
fn test_mod_by_zero_returns_null() {
    let chunk = DataChunk {
        columns: vec![Vector::Flat(vec![Value::Int64(10), Value::Int64(7)])],
        count: 2,
    };
    let expr = func_expr("MOD", vec![
        Expression::ColumnRef { table: None, column: "c".to_string() },
        Expression::Literal(Value::Int64(0)),
    ]);
    let r = eval_vectorized(&expr, &chunk, &vec!["c".to_string()], &env).unwrap();
    let flat = r.to_flat();
    assert_eq!(flat[0], Value::Null);
    assert_eq!(flat[1], Value::Null);
}

#[test]
fn test_now() {
    let chunk = DataChunk { columns: vec![], count: 1 };
    let expr = func_expr("NOW", vec![]);
    let r = eval_vectorized(&expr, &chunk, &vec!["".to_string()], &env).unwrap();
    let flat = r.to_flat();

    if let Value::Timestamp(ts) = flat[0] {
        let now = std::time::SystemTime::now()
            .duration_since(std::time::UNIX_EPOCH)
            .unwrap_or_default()
            .as_millis() as i64;
        assert!((ts - now).abs() < 2000, "NOW should be within 2 seconds of actual time");
    } else {
        panic!("NOW should return Timestamp");
    }
}

#[test]
fn test_current_timestamp_alias() {
    let chunk = DataChunk { columns: vec![], count: 1 };
    let expr = func_expr("CURRENT_TIMESTAMP", vec![]);
    let r = eval_vectorized(&expr, &chunk, &vec!["".to_string()], &env).unwrap();
    let flat = r.to_flat();
    assert!(matches!(flat[0], Value::Timestamp(_)));
}

#[test]
fn test_date() {
    let chunk = DataChunk {
        columns: vec![Vector::Flat(vec![
            Value::Timestamp(0),                           // 1970-01-01
            Value::Timestamp(86400000),                    // 1970-01-02
            Value::Timestamp(1735689600000),               // 2025-01-01
            Value::Timestamp(1759536000000),               // 2025-10-04
            Value::Timestamp(-86400000),                   // 1969-12-31
        ])],
        count: 5,
    };
    let expr = func_expr("DATE", vec![Expression::ColumnRef { table: None, column: "c".to_string() }]);
    let r = eval_vectorized(&expr, &chunk, &vec!["c".to_string()], &env).unwrap();
    let flat = r.to_flat();
    assert_eq!(flat[0], Value::Varchar("1970-01-01".to_string()));
    assert_eq!(flat[1], Value::Varchar("1970-01-02".to_string()));
    assert_eq!(flat[2], Value::Varchar("2025-01-01".to_string()));
    assert_eq!(flat[3], Value::Varchar("2025-10-04".to_string()));
    assert_eq!(flat[4], Value::Varchar("1969-12-31".to_string()));
}

#[test]
fn test_strftime() {
    let chunk = DataChunk {
        columns: vec![Vector::Flat(vec![
            Value::Timestamp(0),
            Value::Timestamp(1735689600000),
            Value::Timestamp(1759536000000),
        ])],
        count: 3,
    };
    let expr = func_expr("STRFTIME", vec![
        Expression::Literal(Value::Varchar("%Y-%m-%d %H:%M:%S".to_string())),
        Expression::ColumnRef { table: None, column: "c".to_string() },
    ]);
    let r = eval_vectorized(&expr, &chunk, &vec!["c".to_string()], &env).unwrap();
    let flat = r.to_flat();
    assert_eq!(flat[0], Value::Varchar("1970-01-01 00:00:00".to_string()));
    assert_eq!(flat[2], Value::Varchar("2025-10-04 00:00:00".to_string()));
}

#[test]
fn test_strftime_format_codes() {
    let ts = 1735689600000i64;
    let chunk = DataChunk {
        columns: vec![Vector::Constant(Value::Timestamp(ts), 1)],
        count: 1,
    };
    let test_cases = vec![
        ("%Y", "2025"),
        ("%y", "25"),
        ("%m", "01"),
        ("%d", "01"),
        ("%H", "00"),
        ("%M", "00"),
        ("%S", "00"),
    ];
    for (fmt, expected) in test_cases {
        let expr = func_expr("STRFTIME", vec![
            Expression::Literal(Value::Varchar(fmt.to_string())),
            Expression::ColumnRef { table: None, column: "c".to_string() },
        ]);
        let r = eval_vectorized(&expr, &chunk, &vec!["c".to_string()], &env).unwrap();
        let flat = r.to_flat();
        assert_eq!(flat[0], Value::Varchar(expected.to_string()), "fmt={}", fmt);
    }
}

#[test]
fn test_time() {
    let chunk = DataChunk {
        columns: vec![Vector::Flat(vec![
            Value::Timestamp(0),                           // 00:00:00
            Value::Timestamp(3723000),                     // 01:02:03
            Value::Timestamp(86399000),                    // 23:59:59
        ])],
        count: 3,
    };
    let expr = func_expr("TIME", vec![Expression::ColumnRef { table: None, column: "c".to_string() }]);
    let r = eval_vectorized(&expr, &chunk, &vec!["c".to_string()], &env).unwrap();
    let flat = r.to_flat();
    assert_eq!(flat[0], Value::Varchar("00:00:00".to_string()));
    assert_eq!(flat[1], Value::Varchar("01:02:03".to_string()));
    assert_eq!(flat[2], Value::Varchar("23:59:59".to_string()));
}

#[test]
fn test_datetime() {
    let chunk = DataChunk {
        columns: vec![Vector::Flat(vec![
            Value::Timestamp(0),
            Value::Timestamp(1735689600000),
            Value::Timestamp(1759536000000),
        ])],
        count: 3,
    };
    let expr = func_expr("DATETIME", vec![Expression::ColumnRef { table: None, column: "c".to_string() }]);
    let r = eval_vectorized(&expr, &chunk, &vec!["c".to_string()], &env).unwrap();
    let flat = r.to_flat();
    assert_eq!(flat[0], Value::Varchar("1970-01-01 00:00:00".to_string()));
    assert_eq!(flat[1], Value::Varchar("2025-01-01 00:00:00".to_string()));
    assert_eq!(flat[2], Value::Varchar("2025-10-04 00:00:00".to_string()));
}

#[test]
fn test_date_add() {
    let chunk = DataChunk { columns: vec![], count: 1 };
    let ts = Value::Timestamp(0);
    let expr = func_expr("DATE_ADD", vec![
        Expression::Literal(ts),
        Expression::Literal(Value::Int64(7)),
        Expression::Literal(Value::Varchar("day".to_string())),
    ]);
    let r = eval_vectorized(&expr, &chunk, &vec!["".to_string()], &env).unwrap();
    let flat = r.to_flat();
    assert_eq!(flat[0], Value::Timestamp(7 * 86400000));
}

#[test]
fn test_date_sub() {
    let chunk = DataChunk { columns: vec![], count: 1 };
    let ts = Value::Timestamp(10 * 86400000);
    let expr = func_expr("DATE_SUB", vec![
        Expression::Literal(ts),
        Expression::Literal(Value::Int64(3)),
        Expression::Literal(Value::Varchar("day".to_string())),
    ]);
    let r = eval_vectorized(&expr, &chunk, &vec!["".to_string()], &env).unwrap();
    let flat = r.to_flat();
    assert_eq!(flat[0], Value::Timestamp(7 * 86400000));
}

#[test]
fn test_date_diff() {
    let chunk = DataChunk { columns: vec![], count: 1 };
    let expr = func_expr("DATE_DIFF", vec![
        Expression::Literal(Value::Timestamp(10 * 86400000)),
        Expression::Literal(Value::Timestamp(0)),
        Expression::Literal(Value::Varchar("day".to_string())),
    ]);
    let r = eval_vectorized(&expr, &chunk, &vec!["".to_string()], &env).unwrap();
    let flat = r.to_flat();
    assert_eq!(flat[0], Value::Int64(10));
}

#[test]
fn test_date_add_hours() {
    let chunk = DataChunk { columns: vec![], count: 1 };
    let ts = Value::Timestamp(0);
    let expr = func_expr("DATE_ADD", vec![
        Expression::Literal(ts),
        Expression::Literal(Value::Int64(48)),
        Expression::Literal(Value::Varchar("hour".to_string())),
    ]);
    let r = eval_vectorized(&expr, &chunk, &vec!["".to_string()], &env).unwrap();
    let flat = r.to_flat();
    assert_eq!(flat[0], Value::Timestamp(2 * 86400000));
}

#[test]
fn test_date_trunc() {
    let chunk = DataChunk { columns: vec![], count: 1 };
    // 2024-06-15 14:30:45 UTC = 1718453445000 ms
    let ts = Value::Timestamp(1718453445000i64);
    // TRUNC to day: 2024-06-15 00:00:00 UTC
    let expr = func_expr("DATE_TRUNC", vec![
        Expression::Literal(Value::Varchar("day".to_string())),
        Expression::Literal(ts.clone()),
    ]);
    let r = eval_vectorized(&expr, &chunk, &vec!["".to_string()], &env).unwrap();
    let flat = r.to_flat();
    // 2024-06-15 00:00:00 UTC = 1718409600000 ms (days since epoch * 86400000)
    let expected = (1718409600000i64 / 86400000) * 86400000;
    assert_eq!(flat[0], Value::Timestamp(expected));

    // TRUNC to month: 2024-06-01 00:00:00 UTC
    let expr = func_expr("DATE_TRUNC", vec![
        Expression::Literal(Value::Varchar("month".to_string())),
        Expression::Literal(ts.clone()),
    ]);
    let r = eval_vectorized(&expr, &chunk, &vec!["".to_string()], &env).unwrap();
    let flat = r.to_flat();
    assert_eq!(flat[0], Value::Timestamp(1717200000000i64));
}

#[test]
fn test_strptime() {
    let chunk = DataChunk { columns: vec![], count: 1 };

    let expr = func_expr("STRPTIME", vec![
        Expression::Literal(Value::Varchar("%Y-%m-%d".to_string())),
        Expression::Literal(Value::Varchar("2024-06-15".to_string())),
    ]);
    let r = eval_vectorized(&expr, &chunk, &vec!["".to_string()], &env).unwrap();
    let flat = r.to_flat();
    // 2024-06-15 00:00:00 UTC = 1718409600000 ms
    assert_eq!(flat[0], Value::Timestamp(1718409600000i64));
}
