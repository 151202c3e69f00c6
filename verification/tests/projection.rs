//! Projections.
use engramdb::executor::env::{Ask, FloatOp, Reply};
use engramdb::executor::operators::projection::project_chunk;
use engramdb::executor::vector::{DataChunk, Vector};
use engramdb::float::F64;
use engramdb::sql::ast::{BinaryOperator, Expression};
use engramdb::Value;

fn double(x: f64) -> F64 {
    F64 { bits: x.to_bits() }
}

fn shown(v: &Value) -> String {
    match v {
        Value::Null => "NULL".to_string(),
        Value::Boolean(b) => b.to_string(),
        Value::Int32(x) => x.to_string(),
        Value::Int64(x) => x.to_string(),
        Value::Float32(x) => f32::from_bits(x.bits).to_string(),
        Value::Float64(x) => f64::from_bits(x.bits).to_string(),
        Value::Varchar(s) => s.clone(),
        Value::Json(s) => s.clone(),
        Value::Timestamp(x) => x.to_string(),
        other => format!("{:?}", other),
    }
}

fn arith(op: FloatOp, x: f64, y: f64) -> f64 {
    match op {
        FloatOp::Add => x + y,
        FloatOp::Sub => x - y,
        FloatOp::Mul => x * y,
        FloatOp::Div => x / y,
        FloatOp::Rem => x % y,
        FloatOp::Ceil => x.ceil(),
        FloatOp::Floor => x.floor(),
        FloatOp::Trunc => x.trunc(),
        FloatOp::Round => x.round(),
        FloatOp::Sqrt => x.sqrt(),
        FloatOp::Ln => x.ln(),
        FloatOp::Log10 => x.log10(),
        FloatOp::Log2 => x.log2(),
        FloatOp::Pow => x.powf(y),
    }
}

fn env(ask: Ask) -> Reply {
    match ask {
        Ask::Arith(op, x, y) => {
            Reply::Number(double(arith(op, f64::from_bits(x.bits), f64::from_bits(y.bits))))
        }
        Ask::TenTo(n) => Reply::Number(double(10f64.powi(n))),
        Ask::Show(v) => Reply::Text(shown(&v)),
        Ask::ParseFloat(s) => match s.parse::<f64>() {
            Ok(x) => Reply::Number(double(x)),
            Err(_) => Reply::Nothing,
        },
        Ask::JsonNumber(x) => Reply::Text(format!("{:?}", f64::from_bits(x.bits))),
        Ask::Debug(v) => Reply::Text(format!("{:?}", v)),
        Ask::DebugExpr(e) => Reply::Text(format!("{:?}", e)),
        Ask::DebugNames(v) => Reply::Text(format!("{:?}", v)),
        Ask::Now => Reply::Moment(
            std::time::SystemTime::now()
                .duration_since(std::time::UNIX_EPOCH)
                .unwrap_or_default()
                .as_millis() as i64,
        ),
        Ask::Elapsed => Reply::Moment(7),
    }
}

fn make_test_chunk() -> DataChunk {
    let a = Vector::Flat(vec![
        Value::Int64(10),
        Value::Int64(20),
        Value::Int64(30),
        Value::Int64(40),
        Value::Int64(50),
    ]);
    let b = Vector::Flat(vec![
        Value::Int64(1),
        Value::Int64(2),
        Value::Int64(3),
        Value::Int64(4),
        Value::Int64(5),
    ]);
    DataChunk {
        columns: vec![a, b],
        count: 5,
    }
}

#[test]
fn test_project_columns() {
    let chunk = make_test_chunk();

    let exprs = vec![Expression::ColumnRef {
        table: None,
        column: "a".to_string(),
    }];
    let result = project_chunk(&chunk, &exprs, &vec!["a".to_string(), "b".to_string()], &env).unwrap();
    assert_eq!(result.num_columns(), 1);
    assert_eq!(result.count, 5);
}

#[test]
fn test_project_arithmetic() {
    let chunk = make_test_chunk();
    // a + b
    let exprs = vec![Expression::BinaryOp {
        left: Box::new(Expression::ColumnRef {
            table: None,
            column: "a".to_string(),
        }),
        op: BinaryOperator::Plus,
        right: Box::new(Expression::ColumnRef {
            table: None,
            column: "b".to_string(),
        }),
    }];
    let result = project_chunk(&chunk, &exprs, &vec!["a".to_string(), "b".to_string()], &env).unwrap();
    assert_eq!(result.count, 5);
    let rows = result.to_rows();
    assert_eq!(rows[0][0], Value::Int64(11));
    assert_eq!(rows[1][0], Value::Int64(22));
    assert_eq!(rows[4][0], Value::Int64(55));
}

#[test]
fn test_project_mixed() {
    let chunk = make_test_chunk();

    let exprs = vec![
        Expression::ColumnRef {
            table: None,
            column: "a".to_string(),
        },
        Expression::BinaryOp {
            left: Box::new(Expression::ColumnRef {
                table: None,
                column: "a".to_string(),
            }),
            op: BinaryOperator::Multiply,
            right: Box::new(Expression::Literal(Value::Int64(2))),
        },
        Expression::Literal(Value::Varchar("const".into())),
    ];
    let result = project_chunk(&chunk, &exprs, &vec!["a".to_string(), "b".to_string()], &env).unwrap();
    assert_eq!(result.num_columns(), 3);
    assert_eq!(result.count, 5);
    let rows = result.to_rows();
    assert_eq!(rows[0][0], Value::Int64(10));
    assert_eq!(rows[0][1], Value::Int64(20));
    assert_eq!(rows[0][2], Value::Varchar("const".into()));
}

#[test]
fn test_project_empty() {
    let chunk = DataChunk::new(2);
    let exprs = vec![Expression::ColumnRef {
        table: None,
        column: "a".to_string(),
    }];
    let result = project_chunk(&chunk, &exprs, &vec!["a".to_string(), "b".to_string()], &env).unwrap();
    assert_eq!(result.count, 0);
}
