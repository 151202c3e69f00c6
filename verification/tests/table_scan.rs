//! Scans of tables.
use engramdb::common::types::{ColumnDef, DataType, EngineType, TableDef};
use engramdb::common::EngramDbError;
use engramdb::executor::env::{Ask, FloatOp, Reply};
use engramdb::executor::executor::debug_chunks_to_rows;
use engramdb::executor::operators::insert::{self, flush_all_batched};
use engramdb::executor::operators::table_scan::{
    estimate_skipping, execute, execute_with_filter_pushdown, extract_filter_info,
};
use engramdb::float::F64;
use engramdb::sql::ast::{BinaryOperator, Expression};
use engramdb::storage::database::Database;
use engramdb::Value;

fn double(x: f64) -> F64 {
    F64 { bits: x.to_bits() }
}

fn shown(v: &Value) -> String {
    match v {
        Value::Null => "NULL".to_string(),
        Value::Boolean(b) => b.to_string(),
        Value::Int32(x) => x.to_string(),
        Value::Int64(x) => x.to_string(),
        Value::Float32(x) => f32::from_bits(x.bits).to_string(),
        Value::Float64(x) => f64::from_bits(x.bits).to_string(),
        Value::Varchar(s) => s.clone(),
        Value::Json(s) => s.clone(),
        Value::Timestamp(x) => x.to_string(),
        other => format!("{:?}", other),
    }
}

fn arith(op: FloatOp, x: f64, y: f64) -> f64 {
    match op {
        FloatOp::Add => x + y,
        FloatOp::Sub => x - y,
        FloatOp::Mul => x * y,
        FloatOp::Div => x / y,
        FloatOp::Rem => x % y,
        FloatOp::Ceil => x.ceil(),
        FloatOp::Floor => x.floor(),
        FloatOp::Trunc => x.trunc(),
        FloatOp::Round => x.round(),
        FloatOp::Sqrt => x.sqrt(),
        FloatOp::Ln => x.ln(),
        FloatOp::Log10 => x.log10(),
        FloatOp::Log2 => x.log2(),
        FloatOp::Pow => x.powf(y),
    }
}

fn env(ask: Ask) -> Reply {
    match ask {
        Ask::Arith(op, x, y) => {
            Reply::Number(double(arith(op, f64::from_bits(x.bits), f64::from_bits(y.bits))))
        }
        Ask::TenTo(n) => Reply::Number(double(10f64.powi(n))),
        Ask::Show(v) => Reply::Text(shown(&v)),
        Ask::ParseFloat(s) => match s.parse::<f64>() {
            Ok(x) => Reply::Number(double(x)),
            Err(_) => Reply::Nothing,
        },
        Ask::JsonNumber(x) => Reply::Text(format!("{:?}", f64::from_bits(x.bits))),
        Ask::Debug(v) => Reply::Text(format!("{:?}", v)),
        Ask::DebugExpr(e) => Reply::Text(format!("{:?}", e)),
        Ask::DebugNames(v) => Reply::Text(format!("{:?}", v)),
        Ask::Now => Reply::Moment(
            std::time::SystemTime::now()
                .duration_since(std::time::UNIX_EPOCH)
                .unwrap_or_default()
                .as_millis() as i64,
        ),
        Ask::Elapsed => Reply::Moment(7),
    }
}

fn column(name: &str, data_type: DataType, nullable: bool, is_primary_key: bool) -> ColumnDef {
    ColumnDef {
        name: name.into(),
        data_type,
        nullable,
        is_primary_key,
        default_value: None,
        auto_increment: false,
    }
}

fn table_def(name: &str, columns: Vec<ColumnDef>) -> TableDef {
    TableDef {
        id: 0,
        name: name.into(),
        columns,
        row_count: 0,
        indexes: vec![],
        cluster_key: None,
        foreign_keys: vec![],
        engine: EngineType::Columnar,
        next_auto_increment_id: 0,
        ttl_seconds: None,
        ttl_column: None,
    }
}

/// The definition of `t (id INT PRIMARY KEY, v INT)`.
fn keyed_def() -> TableDef {
    table_def(
        "t",
        vec![
            column("id", DataType::Int32, false, true),
            column("v", DataType::Int32, true, false),
        ],
    )
}

fn setup() -> Database {
    let mut db = Database::open(":memory:");
    db.create_table(keyed_def()).unwrap();
    let rows = vec![
        vec![Value::Int64(1), Value::Int64(10)],
        vec![Value::Int64(2), Value::Int64(20)],
        vec![Value::Int64(3), Value::Int64(30)],
    ];
    insert::execute(&mut db, "t", rows, true, &env).unwrap();
    db
}

#[test]
fn test_scan_basic() {
    let db = setup();
    let chunks = execute(&db, "t", &vec![0, 1]).unwrap();
    let rows = debug_chunks_to_rows(&chunks);
    assert_eq!(rows.len(), 3);
    assert_eq!(rows[0], vec![Value::Int64(1), Value::Int64(10)]);
}

#[test]
fn table_scan_test_scan_projection() {
    let db = setup();
    let chunks = execute(&db, "t", &vec![1]).unwrap();
    let rows = debug_chunks_to_rows(&chunks);
    assert_eq!(rows.len(), 3);
    assert_eq!(rows[0], vec![Value::Int64(10)]);
}

#[test]
fn test_scan_table_not_found() {
    let db = setup();
    let err = execute(&db, "nope", &vec![0]).unwrap_err();
    assert!(matches!(err, EngramDbError::TableNotFound(_)));
}

#[test]
fn test_scan_with_filter_pushdown() {
    let mut db = setup();
    flush_all_batched(&mut db, &env).unwrap();
    let chunks = execute_with_filter_pushdown(
        &db,
        "t",
        &vec![0, 1],
        &Expression::Literal(Value::Int64(1)),
        &vec!["id".into(), "v".into()],
    ).unwrap();
    let rows = debug_chunks_to_rows(&chunks);
    assert_eq!(rows.len(), 3);
}

#[test]
fn test_scan_pushdown_memory_engine() {
    let mut db = Database::open(":memory:");
    let mut def = keyed_def();
    def.name = "mem".into();
    def.engine = EngineType::Memory;
    db.create_table(def).unwrap();
    insert::execute(&mut db, "mem", vec![vec![Value::Int64(1), Value::Int64(10)]], false, &env)
        .unwrap();
    flush_all_batched(&mut db, &env).unwrap();
    let chunks = execute_with_filter_pushdown(
        &db,
        "mem",
        &vec![0, 1],
        &Expression::Literal(Value::Int64(1)),
        &vec!["id".into(), "v".into()],
    ).unwrap();
    let rows = debug_chunks_to_rows(&chunks);
    assert_eq!(rows.len(), 1);
}

#[test]
fn test_scan_pushdown_log_engine() {
    let mut db = Database::open(":memory:");
    let mut def = table_def(
        "lg",
        vec![
            column("ts", DataType::Int64, true, false),
            column("v", DataType::Int64, true, false),
        ],
    );
    def.engine = EngineType::Log;
    db.create_table(def).unwrap();
    insert::execute(&mut db, "lg", vec![vec![Value::Int64(1), Value::Int64(10)]], false, &env)
        .unwrap();
    flush_all_batched(&mut db, &env).unwrap();
    let chunks = execute_with_filter_pushdown(
        &db,
        "lg",
        &vec![0, 1],
        &Expression::Literal(Value::Int64(1)),
        &vec!["ts".into(), "v".into()],
    ).unwrap();
    let rows = debug_chunks_to_rows(&chunks);
    assert_eq!(rows.len(), 1);
}

#[test]
fn test_extract_filter_info() {
    let names = vec!["id".to_string(), "v".to_string()];

    let expr = Expression::BinaryOp {
        left: Box::new(Expression::ColumnRef { table: None, column: "id".into() }),
        op: BinaryOperator::Gt,
        right: Box::new(Expression::Literal(Value::Int64(5))),
    };
    let info = extract_filter_info(&expr, &names).unwrap();
    assert_eq!(info.0, 0);
    assert_eq!(info.1, BinaryOperator::Gt);
    assert_eq!(info.2, Value::Int64(5));

    let expr2 = Expression::BinaryOp {
        left: Box::new(Expression::ColumnRef { table: None, column: "zzz".into() }),
        op: BinaryOperator::Eq,
        right: Box::new(Expression::Literal(Value::Int64(1))),
    };
    assert!(extract_filter_info(&expr2, &names).is_none());

    let expr3 = Expression::BinaryOp {
        left: Box::new(Expression::ColumnRef { table: None, column: "id".into() }),
        op: BinaryOperator::Eq,
        right: Box::new(Expression::ColumnRef { table: None, column: "v".into() }),
    };
    assert!(extract_filter_info(&expr3, &names).is_none());

    assert!(extract_filter_info(&Expression::Literal(Value::Int64(1)), &names).is_none());
}

#[test]
fn test_estimate_skipping_placeholder() {
    let db = setup();
    let (total, skipped) = estimate_skipping(&db, "t", 0, &Value::Int64(0), &Value::Int64(100)).unwrap();
    assert_eq!((total, skipped), (0, 0));
}
