//! Reads by equality.
use engramdb::common::types::{ColumnDef, DataType, EngineType, TableDef};
use engramdb::executor::env::{Ask, FloatOp, Reply};
use engramdb::executor::execute;
use engramdb::executor::executor::Inputs;
use engramdb::executor::operators::insert;
use engramdb::executor::physical_plan::{AggregateExpr, AggregateFunc, PhysicalPlan};
use engramdb::float::F64;
use engramdb::sql::ast::{BinaryOperator, Expression};
use engramdb::storage::database::Database;
use engramdb::Value;

fn double(x: f64) -> F64 {
    F64 { bits: x.to_bits() }
}

fn shown(v: &Value) -> String {
    match v {
        Value::Null => "NULL".to_string(),
        Value::Boolean(b) => b.to_string(),
        Value::Int32(x) => x.to_string(),
        Value::Int64(x) => x.to_string(),
        Value::Float32(x) => f32::from_bits(x.bits).to_string(),
        Value::Float64(x) => f64::from_bits(x.bits).to_string(),
        Value::Varchar(s) => s.clone(),
        Value::Json(s) => s.clone(),
        Value::Timestamp(x) => x.to_string(),
        other => format!("{:?}", other),
    }
}

fn arith(op: FloatOp, x: f64, y: f64) -> f64 {
    match op {
        FloatOp::Add => x + y,
        FloatOp::Sub => x - y,
        FloatOp::Mul => x * y,
        FloatOp::Div => x / y,
        FloatOp::Rem => x % y,
        FloatOp::Ceil => x.ceil(),
        FloatOp::Floor => x.floor(),
        FloatOp::Trunc => x.trunc(),
        FloatOp::Round => x.round(),
        FloatOp::Sqrt => x.sqrt(),
        FloatOp::Ln => x.ln(),
        FloatOp::Log10 => x.log10(),
        FloatOp::Log2 => x.log2(),
        FloatOp::Pow => x.powf(y),
    }
}

fn env(ask: Ask) -> Reply {
    match ask {
        Ask::Arith(op, x, y) => {
            Reply::Number(double(arith(op, f64::from_bits(x.bits), f64::from_bits(y.bits))))
        }
        Ask::TenTo(n) => Reply::Number(double(10f64.powi(n))),
        Ask::Show(v) => Reply::Text(shown(&v)),
        Ask::ParseFloat(s) => match s.parse::<f64>() {
            Ok(x) => Reply::Number(double(x)),
            Err(_) => Reply::Nothing,
        },
        Ask::JsonNumber(x) => Reply::Text(format!("{:?}", f64::from_bits(x.bits))),
        Ask::Debug(v) => Reply::Text(format!("{:?}", v)),
        Ask::DebugExpr(e) => Reply::Text(format!("{:?}", e)),
        Ask::DebugNames(v) => Reply::Text(format!("{:?}", v)),
        Ask::Now => Reply::Moment(
            std::time::SystemTime::now()
                .duration_since(std::time::UNIX_EPOCH)
                .unwrap_or_default()
                .as_millis() as i64,
        ),
        Ask::Elapsed => Reply::Moment(7),
    }
}

fn column(name: &str, data_type: DataType, nullable: bool, is_primary_key: bool) -> ColumnDef {
    ColumnDef {
        name: name.into(),
        data_type,
        nullable,
        is_primary_key,
        default_value: None,
        auto_increment: false,
    }
}

fn table_def(name: &str, columns: Vec<ColumnDef>) -> TableDef {
    TableDef {
        id: 0,
        name: name.into(),
        columns,
        row_count: 0,
        indexes: vec![],
        cluster_key: None,
        foreign_keys: vec![],
        engine: EngineType::Columnar,
        next_auto_increment_id: 0,
        ttl_seconds: None,
        ttl_column: None,
    }
}

fn column_ref(name: &str) -> Expression {
    Expression::ColumnRef { table: None, column: name.into() }
}

fn matching(table: &str, width: usize, column: &str, value: i64) -> PhysicalPlan {
    PhysicalPlan::Filter {
        input: Box::new(PhysicalPlan::TableScan {
            table_name: table.into(),
            column_indices: (0..width).collect(),
        }),
        condition: Expression::BinaryOp {
            left: Box::new(column_ref(column)),
            op: BinaryOperator::Eq,
            right: Box::new(Expression::Literal(Value::Int64(value))),
        },
    }
}

fn count_of(input: PhysicalPlan) -> PhysicalPlan {
    PhysicalPlan::Aggregate {
        input: Box::new(input),
        group_by: vec![],
        aggregates: vec![AggregateExpr { func: AggregateFunc::Count, input: 0, distinct: false }],
    }
}

fn only_v(input: PhysicalPlan) -> PhysicalPlan {
    PhysicalPlan::Projection {
        input: Box::new(input),
        expressions: vec![column_ref("v")],
        column_names: vec!["v".into()],
    }
}

fn run(db: &mut Database, plan: PhysicalPlan) -> Vec<Vec<Value>> {
    execute(plan, &Inputs::none(), db, &env).unwrap().rows
}

#[test]
fn test_bloom_eq_skip_correctness() {
    let mut db = Database::open(":memory:");
    db.create_table(table_def(
        "sparse",
        vec![
            column("id", DataType::Int32, false, true),
            column("v", DataType::Varchar, true, false),
        ],
    ))
    .unwrap();
    let mut batch = Vec::new();
    for i in 0..1000i64 {
        if i >= 400 && i < 600 {
            continue;
        }
        batch.push(vec![Value::Int64(i), Value::Varchar(format!("v{}", i))]);
    }
    insert::execute(&mut db, "sparse", batch, true, &env).unwrap();

    for id in [0i64, 399, 600, 999] {
        let rows = run(&mut db, only_v(matching("sparse", 2, "id", id)));
        assert_eq!(rows.len(), 1, "id={}", id);
        assert_eq!(rows[0][0], Value::Varchar(format!("v{}", id)));
    }
    for id in [400i64, 500, 599] {
        let rows = run(&mut db, count_of(matching("sparse", 2, "id", id)));
        assert_eq!(rows[0][0], Value::Int64(0), "id={}", id);
    }
    let rows = run(&mut db, count_of(matching("sparse", 2, "id", 99999)));
    assert_eq!(rows[0][0], Value::Int64(0));
    let all = PhysicalPlan::TableScan { table_name: "sparse".into(), column_indices: vec![0] };
    let rows = run(&mut db, count_of(all));
    assert_eq!(rows[0][0], Value::Int64(800));
}

#[test]
fn test_bloom_cross_type_eq() {
    let mut db = Database::open(":memory:");
    db.create_table(table_def(
        "t",
        vec![
            column("id", DataType::Int32, true, false),
            column("ts", DataType::Timestamp, true, false),
            column("v", DataType::Varchar, true, false),
        ],
    ))
    .unwrap();
    for i in 0..100i32 {
        let row = vec![
            Value::Int32(i),
            Value::Timestamp(i as i64 * 1000),
            Value::Varchar(format!("x{}", i)),
        ];
        insert::execute(&mut db, "t", vec![row], true, &env).unwrap();
    }
    let rows = run(&mut db, only_v(matching("t", 3, "id", 42)));
    assert_eq!(rows[0][0], Value::Varchar("x42".into()));
    let rows = run(&mut db, count_of(matching("t", 3, "ts", 42000)));
    assert_eq!(rows[0][0], Value::Int64(1));
    let rows = run(&mut db, count_of(matching("t", 3, "ts", 42001)));
    assert_eq!(rows[0][0], Value::Int64(0));
}
