//! The built-in functions, by exact values.
use engramdb::common::types::DataType;
use engramdb::common::EngramDbError;
use engramdb::executor::env::{show, Ask, FloatOp, Reply};
use engramdb::executor::expression::dates::{format_date, parse_date_to_epoch};
use engramdb::executor::expression::eval::eval_vectorized;
use engramdb::executor::vector::{DataChunk, Vector};
use engramdb::float::F64;
use engramdb::sql::ast::{BinaryOperator, Expression, UnaryOperator};
use engramdb::Value;

fn double(x: f64) -> F64 {
    F64 { bits: x.to_bits() }
}

fn shown(v: &Value) -> String {
    match v {
        Value::Null => "NULL".to_string(),
        Value::Boolean(b) => b.to_string(),
        Value::Int32(x) => x.to_string(),
        Value::Int64(x) => x.to_string(),
        Value::Float32(x) => f32::from_bits(x.bits).to_string(),
        Value::Float64(x) => f64::from_bits(x.bits).to_string(),
        Value::Varchar(s) => s.clone(),
        Value::Json(s) => s.clone(),
        Value::Timestamp(x) => x.to_string(),
        other => format!("{:?}", other),
    }
}

fn arith(op: FloatOp, x: f64, y: f64) -> f64 {
    match op {
        FloatOp::Add => x + y,
        FloatOp::Sub => x - y,
        FloatOp::Mul => x * y,
        FloatOp::Div => x / y,
        FloatOp::Rem => x % y,
        FloatOp::Ceil => x.ceil(),
        FloatOp::Floor => x.floor(),
        FloatOp::Trunc => x.trunc(),
        FloatOp::Round => x.round(),
        FloatOp::Sqrt => x.sqrt(),
        FloatOp::Ln => x.ln(),
        FloatOp::Log10 => x.log10(),
        FloatOp::Log2 => x.log2(),
        FloatOp::Pow => x.powf(y),
    }
}

fn env(ask: Ask) -> Reply {
    match ask {
        Ask::Arith(op, x, y) => {
            Reply::Number(double(arith(op, f64::from_bits(x.bits), f64::from_bits(y.bits))))
        }
        Ask::TenTo(n) => Reply::Number(double(10f64.powi(n))),
        Ask::Show(v) => Reply::Text(shown(&v)),
        Ask::ParseFloat(s) => match s.parse::<f64>() {
            Ok(x) => Reply::Number(double(x)),
            Err(_) => Reply::Nothing,
        },
        Ask::JsonNumber(x) => Reply::Text(format!("{:?}", f64::from_bits(x.bits))),
        Ask::Debug(v) => Reply::Text(format!("{:?}", v)),
        Ask::DebugExpr(e) => Reply::Text(format!("{:?}", e)),
        Ask::DebugNames(v) => Reply::Text(format!("{:?}", v)),
        Ask::Now => Reply::Moment(
            std::time::SystemTime::now()
                .duration_since(std::time::UNIX_EPOCH)
                .unwrap_or_default()
                .as_millis() as i64,
        ),
        Ask::Elapsed => Reply::Moment(7),
    }
}

fn text(s: &str) -> Value {
    Value::Varchar(s.into())
}

fn number(n: i64) -> Value {
    Value::Int64(n)
}

fn decimal(x: f64) -> Value {
    Value::Float64(double(x))
}

fn lit(v: Value) -> Expression {
    Expression::Literal(v)
}

fn eval(e: &Expression) -> Result<Value, EngramDbError> {
    let chunk = DataChunk { columns: vec![], count: 1 };
    eval_vectorized(e, &chunk, &vec![], &env).map(|v| v.to_flat()[0].clone())
}

fn call(name: &str, args: Vec<Value>) -> Result<Value, EngramDbError> {
    eval(&Expression::Function {
        name: name.into(),
        args: args.into_iter().map(lit).collect(),
        distinct: false,
        count_star: false,
        over: None,
    })
}

fn given(name: &str, args: Vec<Value>) -> Value {
    call(name, args).unwrap()
}

fn refused(name: &str, args: Vec<Value>) -> String {
    match call(name, args) {
        Err(EngramDbError::Parse(m)) => m,
        other => panic!("{other:?}"),
    }
}

fn binary(l: Value, op: BinaryOperator, r: Value) -> Value {
    eval(&Expression::BinaryOp { left: Box::new(lit(l)), op, right: Box::new(lit(r)) }).unwrap()
}

fn cast(v: Value, data_type: DataType) -> Value {
    eval(&Expression::Cast { expr: Box::new(lit(v)), data_type }).unwrap()
}

#[test]
fn text_functions() {
    assert_eq!(given("UPPER", vec![text("straße")]), text("STRASSE"));
    assert_eq!(given("lower", vec![text("ÀBC")]), text("àbc"));
    assert_eq!(given("ucase", vec![Value::Null]), Value::Null);
    assert_eq!(given("CONCAT", vec![text("a"), text("b"), text("c")]), text("abc"));
    assert_eq!(given("SUBSTRING", vec![text("héllo"), number(2), number(3)]), text("éll"));
    assert_eq!(given("SUBSTR", vec![text("hello"), number(4)]), text("lo"));
    assert_eq!(given("SUBSTR", vec![text("hello"), number(9)]), text(""));
    assert_eq!(given("SUBSTR", vec![text("hello"), number(-1), number(2)]), text("he"));
    assert_eq!(given("TRIM", vec![text(" \t a b \u{a0}")]), text("a b"));
    assert_eq!(given("LTRIM", vec![text("xxaxx"), text("x")]), text("axx"));
    assert_eq!(given("RTRIM", vec![text("xxaxx"), text("x")]), text("xxa"));
    assert_eq!(given("INSTR", vec![text("héllo"), text("l")]), number(3));
    assert_eq!(given("POSITION", vec![text("hello"), text("z")]), number(0));
    assert_eq!(given("SPLIT_PART", vec![text("a,b,,c"), text(","), number(2)]), text("b"));
    assert_eq!(given("SPLIT_PART", vec![text("a,b,,c"), text(","), number(3)]), text(""));
    assert_eq!(given("SPLIT_PART", vec![text("a,b"), text(","), number(0)]), text(""));
    assert_eq!(given("REPLACE", vec![text("aaa"), text("aa"), text("b")]), text("ba"));
    assert_eq!(given("MATCH", vec![text("The Quick Fox"), text("fox quick")]), Value::Boolean(true));
    assert_eq!(given("MATCH", vec![text("The Quick Fox"), text("fox dog")]), Value::Boolean(false));
    assert_eq!(given("MATCH", vec![text("anything"), text("  ")]), Value::Boolean(false));
}

#[test]
fn numeric_functions() {
    assert_eq!(given("ABS", vec![number(-3)]), number(3));
    assert_eq!(given("ABS", vec![decimal(-1.5)]), decimal(1.5));
    assert_eq!(given("ROUND", vec![decimal(2.5)]), decimal(3.0));
    assert_eq!(given("ROUND", vec![decimal(1234.5678), number(2)]), decimal(1234.57));
    assert_eq!(given("CEIL", vec![decimal(1.2)]), number(2));
    assert_eq!(given("FLOOR", vec![decimal(-1.2)]), number(-2));
    assert_eq!(given("TRUNC", vec![decimal(-1.7)]), number(-1));
    assert_eq!(given("SQRT", vec![number(2)]), decimal(2f64.sqrt()));
    assert_eq!(given("POWER", vec![number(2), number(10)]), number(1024));
    assert_eq!(given("LOG10", vec![number(1000)]), number(3));
    assert_eq!(given("LOG2", vec![number(8)]), number(3));
    assert_eq!(given("LN", vec![number(1)]), number(0));
    assert_eq!(given("MOD", vec![number(-7), number(3)]), number(2));
}

#[test]
fn choosing_functions() {
    assert_eq!(given("COALESCE", vec![Value::Null, Value::Null, number(3)]), number(3));
    assert_eq!(given("NULLIF", vec![number(3), number(3)]), Value::Null);
    assert_eq!(given("NULLIF", vec![number(3), number(4)]), number(3));
    assert_eq!(given("IF", vec![Value::Boolean(true), number(1), number(2)]), number(1));
    assert_eq!(given("IF", vec![Value::Null, number(1), number(2)]), number(2));
    assert_eq!(given("TYPEOF", vec![text("a")]), text("varchar"));
    assert_eq!(given("TYPEOF", vec![Value::Timestamp(0)]), text("timestamp"));
}

#[test]
fn json_functions() {
    let doc = || text("{\"b\": [1, 2.5, \"x\"], \"a\": null}");
    assert_eq!(
        given("JSON_SET", vec![doc(), text("$.c"), text("é\"")]),
        Value::Json("{\"a\":null,\"b\":[1,2.5,\"x\"],\"c\":\"é\\\"\"}".into())
    );
    assert_eq!(
        given("JSON_INSERT", vec![doc(), text("$.a"), number(7)]),
        Value::Json("{\"a\":null,\"b\":[1,2.5,\"x\"]}".into())
    );
    assert_eq!(
        given("JSON_REPLACE", vec![doc(), text("$.zz"), number(7)]),
        Value::Json("{\"a\":null,\"b\":[1,2.5,\"x\"]}".into())
    );
    assert_eq!(
        given("JSON_REPLACE", vec![doc(), text("$.b"), number(7)]),
        Value::Json("{\"a\":null,\"b\":7}".into())
    );
    assert_eq!(
        given("JSON_REMOVE", vec![doc(), text("$.b[0]")]),
        Value::Json("{\"a\":null,\"b\":[2.5,\"x\"]}".into())
    );
    assert_eq!(
        given("JSON_OBJECT", vec![text("k"), number(1), text("j"), text("[true]")]),
        Value::Json("{\"j\":[true],\"k\":1}".into())
    );
    assert_eq!(given("JSON_ARRAY", vec![text("x"), Value::Null]), Value::Json("[\"x\",null]".into()));
    assert_eq!(given("JSON_SET", vec![text("not json"), text("$.a"), number(1)]), Value::Null);
    assert_eq!(given("JSON_ARRAY_LENGTH", vec![doc(), text("$.b")]), number(3));
}

#[test]
fn what_is_set_is_extracted() {
    for path in ["$.a", "$.b.c", "$.list[1]"] {
        let doc = given("JSON_SET", vec![text("{\"list\":[0,1]}"), text(path), number(42)]);
        let doc = match doc { Value::Json(s) => s, other => panic!("{other:?}") };
        assert_eq!(given("JSON_EXTRACT", vec![text(&doc), text(path)]), Value::Json("42".into()), "{path}");
    }
}

#[test]
fn date_functions() {
    // 2024-02-29 12:34:56.789 UTC
    let t = || Value::Timestamp(1_709_210_096_789);
    assert_eq!(given("DATE", vec![t()]), text("2024-02-29"));
    assert_eq!(given("TIME", vec![t()]), text("12:34:56"));
    assert_eq!(given("DATETIME", vec![t()]), text("2024-02-29 12:34:56"));
    assert_eq!(given("STRFTIME", vec![text("%Y/%m/%d %H"), t()]), text("2024/02/29 12"));
    assert_eq!(given("DATE", vec![Value::Timestamp(-1000)]), text("1969-12-31"));
    assert_eq!(
        given("DATE_ADD", vec![t(), number(1), text("Day")]),
        Value::Timestamp(1_709_210_096_789 + 86_400_000)
    );
    assert_eq!(
        given("DATE_SUB", vec![t(), number(2), text("hours")]),
        Value::Timestamp(1_709_210_096_789 - 7_200_000)
    );
    assert_eq!(
        given("DATE_DIFF", vec![t(), Value::Timestamp(1_709_210_096_789 - 90_000), text("minute")]),
        number(1)
    );
    assert_eq!(given("DATE_TRUNC", vec![text("month"), t()]), Value::Timestamp(1_706_745_600_000));
    assert_eq!(given("DATE_TRUNC", vec![text("year"), t()]), Value::Timestamp(1_704_067_200_000));
    assert_eq!(given("DATE_TRUNC", vec![text("week"), t()]), Value::Timestamp(1_708_905_600_000));
    assert_eq!(
        given("STRPTIME", vec![text("%Y-%m-%d"), text("2024-02-29")]),
        Value::Timestamp(1_709_164_800_000)
    );
}

#[test]
fn random_numbers_are_below_one() {
    for _ in 0..100 {
        match given("RANDOM", vec![]) {
            Value::Float64(x) => {
                let x = f64::from_bits(x.bits);
                assert!(0.0 <= x && x < 1.0);
            }
            other => panic!("{other:?}"),
        }
    }
}

#[test]
fn wrong_calls_are_refused() {
    assert_eq!(refused("ABS", vec![]), "ABS requires 1 argument");
    assert_eq!(refused("SUBSTR", vec![text("a")]), "SUBSTRING requires 2-3 arguments");
    assert_eq!(refused("RAND", vec![number(1)]), "RANDOM/RAND takes 0 arguments");
    assert_eq!(
        refused("JSON_OBJECT", vec![text("k")]),
        "JSON_OBJECT requires even number of arguments (key, value pairs)"
    );
    assert_eq!(refused("STRFTIME", vec![number(1), number(2)]), "STRFTIME format must be a constant string");
    assert_eq!(refused("frobnicate", vec![]), "Unknown function: frobnicate");
}

#[test]
fn casts() {
    assert_eq!(cast(text("42"), DataType::Int32), Value::Int32(42));
    assert_eq!(cast(text("-9223372036854775808"), DataType::Int64), number(i64::MIN));
    assert_eq!(cast(text("9223372036854775808"), DataType::Int64), Value::Null);
    assert_eq!(cast(text("4 2"), DataType::Int32), Value::Null);
    assert_eq!(cast(decimal(2.9), DataType::Int64), number(2));
    assert_eq!(cast(text("TRUE"), DataType::Boolean), Value::Boolean(true));
    assert_eq!(cast(text("1"), DataType::Boolean), Value::Boolean(false));
    assert_eq!(cast(number(0), DataType::Boolean), Value::Boolean(false));
    assert_eq!(cast(text("1.5"), DataType::Float64), decimal(1.5));
    assert_eq!(cast(number(7), DataType::Varchar), text("7"));
    assert_eq!(cast(Value::Null, DataType::Varchar), Value::Null);
    assert_eq!(cast(number(7), DataType::Json), Value::Null);
}

#[test]
fn three_valued_logic() {
    let (t, f, n) = (Value::Boolean(true), Value::Boolean(false), Value::Null);
    for (l, r, and, or) in [
        (&t, &t, &t, &t), (&t, &f, &f, &t), (&t, &n, &n, &t),
        (&f, &t, &f, &t), (&f, &f, &f, &f), (&f, &n, &f, &n),
        (&n, &t, &n, &t), (&n, &f, &f, &n), (&n, &n, &n, &n),
    ] {
        assert_eq!(binary(l.clone(), BinaryOperator::And, r.clone()), *and);
        assert_eq!(binary(l.clone(), BinaryOperator::Or, r.clone()), *or);
    }
    for (v, not) in [(&t, &f), (&f, &t), (&n, &n)] {
        let e = Expression::UnaryOp { op: UnaryOperator::Not, expr: Box::new(lit(v.clone())) };
        assert_eq!(eval(&e).unwrap(), *not);
    }
}

#[test]
fn comparisons_with_null_are_null() {
    for op in [BinaryOperator::Eq, BinaryOperator::NotEq, BinaryOperator::Lt, BinaryOperator::GtEq] {
        assert_eq!(binary(Value::Null, op, number(1)), Value::Null);
        assert_eq!(binary(number(1), op, Value::Null), Value::Null);
    }
    assert_eq!(binary(number(1), BinaryOperator::Lt, decimal(1.5)), Value::Boolean(true));
    assert_eq!(binary(number(7), BinaryOperator::Divide, number(0)), Value::Null);
    assert_eq!(binary(text("a"), BinaryOperator::Concat, number(1)), text("a1"));
}

#[test]
fn case_takes_the_first_branch() {
    let e = Expression::Case {
        when_then: vec![
            (lit(Value::Null), lit(number(1))),
            (lit(Value::Boolean(true)), lit(number(2))),
            (lit(Value::Boolean(true)), lit(number(3))),
        ],
        else_expr: None,
    };
    assert_eq!(eval(&e).unwrap(), number(2));
    let e = Expression::Case { when_then: vec![(lit(Value::Boolean(false)), lit(number(1)))], else_expr: None };
    assert_eq!(eval(&e).unwrap(), Value::Null);
}

#[test]
fn membership_in_a_list() {
    let within = |v: Value, list: Vec<Value>| {
        eval(&Expression::InList {
            expr: Box::new(lit(v)),
            list: list.into_iter().map(lit).collect(),
        })
        .unwrap()
    };
    assert_eq!(within(number(2), vec![number(1), number(2)]), Value::Boolean(true));
    assert_eq!(within(number(3), vec![number(1), number(2)]), Value::Boolean(false));
    assert_eq!(within(number(3), vec![]), Value::Boolean(false));
}

#[test]
fn what_stands_for_a_subquery_is_not_evaluated() {
    for e in [Expression::Subquery(0), Expression::Placeholder(1)] {
        assert!(eval(&e).is_err());
    }
    let e = Expression::ColumnRef { table: None, column: "absent".into() };
    assert!(matches!(eval(&e), Err(EngramDbError::ColumnNotFound(_))));
}

#[test]
fn days_and_weeks_of_the_year() {
    let at = |fmt: &str, ms: i64| given("STRFTIME", vec![text(fmt), Value::Timestamp(ms)]);
    let day = 86_400_000i64;
    // 1969-12-31 was a Wednesday, 1970-01-01 a Thursday, 1970-01-04 the first Sunday.
    assert_eq!(at("%j %w %U", -day), text("365 3 52"));
    assert_eq!(at("%j %w %U", 0), text("001 4 00"));
    assert_eq!(at("%j %w %U", 3 * day), text("004 0 01"));
    // 2024-12-31, a Tuesday, the 366th day.
    assert_eq!(at("%j %w %U", 1_735_603_200_000), text("366 2 52"));
    // 2025-03-01, a Saturday.
    assert_eq!(at("%j %w %U", 1_740_787_200_000), text("060 6 08"));
}

#[test]
fn a_date_is_read_back() {
    for days in [0i64, 1, -1, 19_782, -719_528, 2_932_896] {
        let ts = days * 86_400_000;
        assert_eq!(parse_date_to_epoch(&format_date(ts)), Some(ts / 1000));
    }
    assert_eq!(format_date(-719_528 * 86_400_000), "0000-01-01");
}

#[test]
fn only_floats_are_asked_for_their_text() {
    let wordless = |ask: Ask| match ask {
        Ask::Show(v) => match v {
            Value::Float32(_) | Value::Float64(_) | Value::Vector(_) => Reply::Text("?".into()),
            other => panic!("{:?}", other),
        },
        other => env(other),
    };
    for (v, s) in [
        (Value::Boolean(true), "true"),
        (Value::Boolean(false), "false"),
        (Value::Int32(-7), "-7"),
        (Value::Int64(i64::MIN), "-9223372036854775808"),
        (Value::Timestamp(12), "12"),
        (Value::VectorInt8(vec![1, -2]), "[1, -2]"),
        (Value::Blob(vec![0, 255]), "[0, 255]"),
        (Value::Float64(double(1.5)), "?"),
    ] {
        assert_eq!(show(&wordless, &v), s);
    }
    assert_eq!(show(&wordless, &Value::Null), "NULL");
}

#[test]
fn a_row_has_its_value_in_any_batch() {
    let names = vec!["a".to_string(), "s".to_string()];
    let rows: Vec<Vec<Value>> = vec![
        vec![number(1), text("x")],
        vec![Value::Null, text("yy")],
        vec![number(-3), Value::Null],
        vec![number(4), text("")],
    ];
    let a = || Expression::ColumnRef { table: None, column: "a".into() };
    let s = || Expression::ColumnRef { table: None, column: "s".into() };
    let function = |name: &str, args: Vec<Expression>| Expression::Function {
        name: name.into(),
        args,
        distinct: false,
        count_star: false,
        over: None,
    };
    let exprs = vec![
        a(),
        lit(number(7)),
        Expression::BinaryOp {
            left: Box::new(a()),
            op: BinaryOperator::Gt,
            right: Box::new(lit(number(0))),
        },
        function("COALESCE", vec![s(), lit(text("?"))]),
        function("CONCAT", vec![s(), a()]),
        Expression::InList { expr: Box::new(a()), list: vec![lit(number(4)), lit(number(1))] },
    ];
    let chunk = DataChunk::from_rows(&rows);
    for e in &exprs {
        let all = eval_vectorized(e, &chunk, &names, &env).unwrap();
        for (i, row) in rows.iter().enumerate() {
            let alone = DataChunk::from_rows(&[row.clone()]);
            assert_eq!(eval_vectorized(e, &alone, &names, &env).unwrap().get(0), all.get(i));
        }
    }
}

#[test]
fn dates_move_by_a_constant() {
    let day = 86_400_000i64;
    let names = vec!["t".to_string(), "n".to_string()];
    let rows: Vec<Vec<Value>> = vec![
        vec![Value::Timestamp(day), number(2)],
        vec![Value::Null, number(3)],
        vec![Value::Timestamp(5 * day), Value::Null],
    ];
    let chunk = DataChunk::from_rows(&rows);
    let column = |c: &str| Expression::ColumnRef { table: None, column: c.into() };
    let values = |name: &str, a: Expression, b: Expression| {
        let e = Expression::Function {
            name: name.into(),
            args: vec![a, b, lit(text("day"))],
            distinct: false,
            count_star: false,
            over: None,
        };
        eval_vectorized(&e, &chunk, &names, &env).unwrap().to_flat()
    };
    assert_eq!(
        values("DATE_ADD", column("t"), lit(number(7))),
        vec![Value::Timestamp(8 * day), Value::Null, Value::Timestamp(12 * day)]
    );
    assert_eq!(
        values("DATE_SUB", lit(Value::Timestamp(10 * day)), column("n")),
        vec![Value::Timestamp(8 * day), Value::Timestamp(7 * day), Value::Null]
    );
    assert_eq!(
        values("DATE_DIFF", column("t"), lit(Value::Timestamp(0))),
        vec![number(1), Value::Null, number(5)]
    );
}

#[test]
fn a_constant_column_is_read_by_its_cells() {
    let names = vec!["a".to_string(), "s".to_string()];
    let flat = DataChunk {
        columns: vec![
            Vector::Flat(vec![number(4), number(4)]),
            Vector::Flat(vec![text("x"), text("y")]),
        ],
        count: 2,
    };
    let constant = DataChunk {
        columns: vec![
            Vector::Constant(number(4), 2),
            Vector::Flat(vec![text("x"), text("y")]),
        ],
        count: 2,
    };
    let a = || Expression::ColumnRef { table: None, column: "a".into() };
    let s = || Expression::ColumnRef { table: None, column: "s".into() };
    let function = |name: &str, args: Vec<Expression>| Expression::Function {
        name: name.into(),
        args,
        distinct: false,
        count_star: false,
        over: None,
    };
    let exprs = vec![
        a(),
        Expression::BinaryOp {
            left: Box::new(a()),
            op: BinaryOperator::Gt,
            right: Box::new(lit(number(3))),
        },
        Expression::InList { expr: Box::new(a()), list: vec![lit(number(9)), a()] },
        function("CONCAT", vec![s(), a()]),
        function("DATE_ADD", vec![a(), lit(number(1)), lit(text("day"))]),
        function("STRFTIME", vec![lit(text("%Y")), a()]),
    ];
    for e in &exprs {
        assert_eq!(
            eval_vectorized(e, &flat, &names, &env).unwrap().to_flat(),
            eval_vectorized(e, &constant, &names, &env).unwrap().to_flat()
        );
    }
}

#[test]
fn texts_are_escaped_in_documents() {
    let odd = "a\"\\/\u{8}\t\n\u{c}\r\u{0}\u{b}\u{1f}\u{7f}é";
    assert_eq!(
        given("JSON_ARRAY", vec![text(odd)]),
        Value::Json("[\"a\\\"\\\\/\\b\\t\\n\\f\\r\\u0000\\u000b\\u001f\u{7f}é\"]".into())
    );
}
