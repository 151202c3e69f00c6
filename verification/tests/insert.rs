//! Insertions: direct ones, batched ones, and those of a transaction.
use engramdb::common::config::Config;
use engramdb::common::types::{
    ColumnDef, DataType, EngineType, ForeignKeyAction, ForeignKeyDef, TableDef,
};
use engramdb::common::EngramDbError;
use engramdb::executor::env::{Ask, FloatOp, Reply};
use engramdb::executor::execute as execute_plan;
use engramdb::executor::executor::Inputs;
use engramdb::executor::operators::insert::{execute, execute_columns, flush_all_batched};
use engramdb::executor::physical_plan::{
    AggregateExpr, AggregateFunc, PhysicalPlan, SortDirection, SortKey,
};
use engramdb::float::F64;
use engramdb::sql::ast::{BinaryOperator, Expression, SelectItem};
use engramdb::storage::database::Database;
use engramdb::{QueryResult, Value};

fn double(x: f64) -> F64 {
    F64 { bits: x.to_bits() }
}

fn shown(v: &Value) -> String {
    match v {
        Value::Null => "NULL".to_string(),
        Value::Boolean(b) => b.to_string(),
        Value::Int32(x) => x.to_string(),
        Value::Int64(x) => x.to_string(),
        Value::Float32(x) => f32::from_bits(x.bits).to_string(),
        Value::Float64(x) => f64::from_bits(x.bits).to_string(),
        Value::Varchar(s) => s.clone(),
        Value::Json(s) => s.clone(),
        Value::Timestamp(x) => x.to_string(),
        other => format!("{:?}", other),
    }
}

fn arith(op: FloatOp, x: f64, y: f64) -> f64 {
    match op {
        FloatOp::Add => x + y,
        FloatOp::Sub => x - y,
        FloatOp::Mul => x * y,
        FloatOp::Div => x / y,
        FloatOp::Rem => x % y,
        FloatOp::Ceil => x.ceil(),
        FloatOp::Floor => x.floor(),
        FloatOp::Trunc => x.trunc(),
        FloatOp::Round => x.round(),
        FloatOp::Sqrt => x.sqrt(),
        FloatOp::Ln => x.ln(),
        FloatOp::Log10 => x.log10(),
        FloatOp::Log2 => x.log2(),
        FloatOp::Pow => x.powf(y),
    }
}

fn env(ask: Ask) -> Reply {
    match ask {
        Ask::Arith(op, x, y) => {
            Reply::Number(double(arith(op, f64::from_bits(x.bits), f64::from_bits(y.bits))))
        }
        Ask::TenTo(n) => Reply::Number(double(10f64.powi(n))),
        Ask::Show(v) => Reply::Text(shown(&v)),
        Ask::ParseFloat(s) => match s.parse::<f64>() {
            Ok(x) => Reply::Number(double(x)),
            Err(_) => Reply::Nothing,
        },
        Ask::JsonNumber(x) => Reply::Text(format!("{:?}", f64::from_bits(x.bits))),
        Ask::Debug(v) => Reply::Text(format!("{:?}", v)),
        Ask::DebugExpr(e) => Reply::Text(format!("{:?}", e)),
        Ask::DebugNames(v) => Reply::Text(format!("{:?}", v)),
        Ask::Now => Reply::Moment(
            std::time::SystemTime::now()
                .duration_since(std::time::UNIX_EPOCH)
                .unwrap_or_default()
                .as_millis() as i64,
        ),
        Ask::Elapsed => Reply::Moment(7),
    }
}

fn column(name: &str, data_type: DataType, nullable: bool, is_primary_key: bool) -> ColumnDef {
    ColumnDef {
        name: name.into(),
        data_type,
        nullable,
        is_primary_key,
        default_value: None,
        auto_increment: false,
    }
}

fn table_def(name: &str, columns: Vec<ColumnDef>) -> TableDef {
    TableDef {
        id: 0,
        name: name.into(),
        columns,
        row_count: 0,
        indexes: vec![],
        cluster_key: None,
        foreign_keys: vec![],
        engine: EngineType::Columnar,
        next_auto_increment_id: 0,
        ttl_seconds: None,
        ttl_column: None,
    }
}

/// The definition of `t (id INT PRIMARY KEY, v INT)`.
fn keyed_def() -> TableDef {
    table_def(
        "t",
        vec![
            column("id", DataType::Int32, false, true),
            column("v", DataType::Int32, true, false),
        ],
    )
}

fn keyed(config: Config) -> Database {
    let mut db = Database::open_with_config(":memory:", config);
    db.create_table(keyed_def()).unwrap();
    db
}

fn read(db: &Database, name: &str) -> Vec<Vec<Value>> {
    db.get_table(name).unwrap().scan_to_rows_direct(&vec![0, 1])
}

fn pair(a: i64, b: i64) -> Vec<Value> {
    vec![Value::Int64(a), Value::Int64(b)]
}

/// A plan that reads, with what waits in batches written before.
fn query(db: &mut Database, plan: PhysicalPlan) -> QueryResult {
    flush_all_batched(db, &env).unwrap();
    execute_plan(plan, &Inputs::none(), db, &env).unwrap()
}

fn scan(name: &str) -> PhysicalPlan {
    PhysicalPlan::TableScan { table_name: name.into(), column_indices: vec![0, 1] }
}

/// `SELECT COUNT(*) FROM name`.
fn count(db: &mut Database, name: &str) -> Value {
    let plan = PhysicalPlan::Aggregate {
        input: Box::new(scan(name)),
        group_by: vec![],
        aggregates: vec![AggregateExpr { func: AggregateFunc::Count, input: 0, distinct: false }],
    };
    query(db, plan).rows[0][0].clone()
}

/// A batch that is written after a few rows.
fn small_batch_cfg() -> Config {
    let mut cfg = Config::default();
    cfg.insert_batch_rows = 4;
    cfg.insert_batch_bytes = 1024 * 1024;
    cfg.insert_batch_timeout_ms = 0;
    cfg
}

#[test]
fn test_insert_direct_txn_path() {
    let mut db = keyed(Config::default());
    let n = execute(&mut db, "t", vec![pair(1, 10), pair(2, 20)], true, &env).unwrap();
    assert_eq!(n, 2);
    let rows = read(&db, "t");
    assert_eq!(rows.len(), 2);
    assert_eq!(rows[0][0], Value::Int64(1));
}

#[test]
fn test_insert_without_txn() {
    let mut cfg = Config::default();
    cfg.enable_transaction = false;
    let mut db = keyed(cfg);
    let n = execute(&mut db, "t", vec![pair(1, 10)], false, &env).unwrap();
    assert_eq!(n, 1);
    assert_eq!(read(&db, "t").len(), 1);
}

#[test]
fn test_insert_empty_rows() {
    let mut db = keyed(Config::default());
    let n = execute(&mut db, "t", vec![], true, &env).unwrap();
    assert_eq!(n, 0);
}

#[test]
fn test_insert_table_not_found() {
    let mut db = keyed(Config::default());
    let err = execute(&mut db, "nope", vec![vec![Value::Int64(1)]], true, &env).unwrap_err();
    assert!(matches!(err, EngramDbError::TableNotFound(_)));
}

#[test]
fn test_insert_duplicate_pk_rejected() {
    let mut db = keyed(Config::default());
    execute(&mut db, "t", vec![pair(1, 10)], true, &env).unwrap();
    let err = execute(&mut db, "t", vec![pair(1, 99)], true, &env).unwrap_err();
    assert!(matches!(err, EngramDbError::ConstraintViolation(_)));
    assert_eq!(db.get_table("t").unwrap().def.row_count, 1);
}

#[test]
fn test_insert_columns_direct() {
    let mut cfg = Config::default();
    cfg.enable_transaction = false;
    let mut db = keyed(cfg);
    let columns = vec![
        vec![Value::Int64(1), Value::Int64(2)],
        vec![Value::Int64(10), Value::Int64(20)],
    ];
    let n = execute_columns(&mut db, "t", &columns, &env).unwrap();
    assert_eq!(n, 2);
    let rows = read(&db, "t");
    assert_eq!(rows.len(), 2);
    assert_eq!(rows[1][1], Value::Int64(20));
}

#[test]
fn test_insert_columns_empty() {
    let mut db = keyed(Config::default());
    let n = execute_columns(&mut db, "t", &vec![], &env).unwrap();
    assert_eq!(n, 0);
}

#[test]
fn test_flush_all_batched() {
    let mut cfg = Config::default();
    cfg.enable_transaction = true;
    let mut db = keyed(cfg);
    flush_all_batched(&mut db, &env).unwrap();
    let n = execute(&mut db, "t", vec![pair(1, 10)], false, &env).unwrap();
    assert_eq!(n, 1);
    flush_all_batched(&mut db, &env).unwrap();
    assert!(db.batch.is_empty());
    assert_eq!(read(&db, "t").len(), 1);
}

#[test]
fn test_pk_table_batched_autocommit() {
    let mut db = keyed(small_batch_cfg());
    for i in 0..10 {
        execute(&mut db, "t", vec![pair(i, i * 10)], false, &env).unwrap();
    }
    assert_eq!(count(&mut db, "t"), Value::Int64(10));
    let plan = PhysicalPlan::Projection {
        input: Box::new(PhysicalPlan::Filter {
            input: Box::new(scan("t")),
            condition: Expression::BinaryOp {
                left: Box::new(Expression::ColumnRef { table: None, column: "id".into() }),
                op: BinaryOperator::Eq,
                right: Box::new(Expression::Literal(Value::Int64(7))),
            },
        }),
        expressions: vec![Expression::ColumnRef { table: None, column: "v".into() }],
        column_names: vec!["v".into()],
    };
    assert_eq!(query(&mut db, plan).rows[0][0], Value::Int64(70));
}

#[test]
fn test_pk_batch_internal_duplicate_rejected_immediately() {
    let mut db = keyed(small_batch_cfg());
    execute(&mut db, "t", vec![pair(1, 10)], false, &env).unwrap();
    let err = execute(&mut db, "t", vec![pair(1, 99)], false, &env).unwrap_err();
    assert!(matches!(err, EngramDbError::ConstraintViolation(_)));
    assert_eq!(count(&mut db, "t"), Value::Int64(1));
}

#[test]
fn test_pk_batch_conflict_with_committed_rejected_immediately() {
    let mut db = keyed(small_batch_cfg());
    execute(&mut db, "t", vec![pair(5, 50)], false, &env).unwrap();
    assert_eq!(count(&mut db, "t"), Value::Int64(1));
    let err = execute(&mut db, "t", vec![pair(5, 99)], false, &env).unwrap_err();
    assert!(matches!(err, EngramDbError::ConstraintViolation(_)));
}

#[test]
fn test_unique_index_batch_duplicate_rejected_immediately() {
    let mut db = keyed(small_batch_cfg());
    db.create_index("t", "t_v", &vec![1], &vec![], true).unwrap();
    execute(&mut db, "t", vec![pair(1, 100)], false, &env).unwrap();
    let err = execute(&mut db, "t", vec![pair(2, 100)], false, &env).unwrap_err();
    assert!(matches!(err, EngramDbError::ConstraintViolation(_)));
    assert_eq!(count(&mut db, "t"), Value::Int64(1));
}

#[test]
fn test_batch_apply_unique_conflict_reported() {
    let mut db = keyed(small_batch_cfg());
    db.create_index("t", "t_v", &vec![1], &vec![], true).unwrap();
    let rows: Vec<Vec<Value>> = (0..2000).map(|i| pair(i, i % 100)).collect();
    let err = execute(&mut db, "t", rows, true, &env).unwrap_err();
    assert!(matches!(err, EngramDbError::ConstraintViolation(_)));
}

#[test]
fn test_not_null_batch_rejected_immediately() {
    let mut db = Database::open_with_config(":memory:", small_batch_cfg());
    let mut def = keyed_def();
    def.columns[1].nullable = false;
    db.create_table(def).unwrap();
    let row = vec![Value::Int64(1), Value::Null];
    let err = execute(&mut db, "t", vec![row], false, &env).unwrap_err();
    assert!(matches!(err, EngramDbError::ConstraintViolation(_)));
    assert_eq!(count(&mut db, "t"), Value::Int64(0));
}

#[test]
fn test_auto_increment_pk_batched_ids_contiguous() {
    let mut db = Database::open_with_config(":memory:", small_batch_cfg());
    let mut def = keyed_def();
    def.columns[0].auto_increment = true;
    def.next_auto_increment_id = 1;
    db.create_table(def).unwrap();
    for _ in 0..10 {
        let row = vec![Value::Null, Value::Int64(100)];
        execute(&mut db, "t", vec![row], false, &env).unwrap();
    }
    assert_eq!(count(&mut db, "t"), Value::Int64(10));
    let plan = PhysicalPlan::Sort {
        input: Box::new(PhysicalPlan::TableScan {
            table_name: "t".into(),
            column_indices: vec![0],
        }),
        sort_keys: vec![SortKey { column_index: 0, direction: SortDirection::Asc }],
        limit: None,
    };
    let r = query(&mut db, plan);
    let ids: Vec<Value> = r.rows.iter().map(|row| row[0].clone()).collect();
    let expect: Vec<Value> = (1..=10).map(|i| Value::Int64(i)).collect();
    assert_eq!(ids, expect);
}

#[test]
fn test_rollback_discards_batched_pk_inserts() {
    let mut db = keyed(small_batch_cfg());
    execute_plan(PhysicalPlan::BeginTransaction, &Inputs::none(), &mut db, &env).unwrap();
    execute(&mut db, "t", vec![pair(1, 10)], false, &env).unwrap();
    execute(&mut db, "t", vec![pair(2, 20)], false, &env).unwrap();
    execute_plan(PhysicalPlan::Rollback, &Inputs::none(), &mut db, &env).unwrap();
    assert_eq!(count(&mut db, "t"), Value::Int64(0));
}

#[test]
fn test_txn_api_duplicate_pk_errors_at_insert() {
    let mut db = keyed(Config::default());
    execute_plan(PhysicalPlan::BeginTransaction, &Inputs::none(), &mut db, &env).unwrap();
    execute(&mut db, "t", vec![pair(1, 10)], false, &env).unwrap();
    let err = execute(&mut db, "t", vec![pair(1, 99)], false, &env).unwrap_err();
    assert!(matches!(err, EngramDbError::ConstraintViolation(_)));
    execute_plan(PhysicalPlan::Rollback, &Inputs::none(), &mut db, &env).unwrap();
}

#[test]
fn test_returning_bypasses_batcher() {
    let mut db = keyed(small_batch_cfg());
    let plan = PhysicalPlan::Insert {
        table_name: "t".into(),
        rows: vec![pair(1, 10)],
        returning: Some(vec![
            SelectItem::Expression(
                Expression::ColumnRef { table: None, column: "id".into() },
                None,
            ),
            SelectItem::Expression(
                Expression::ColumnRef { table: None, column: "v".into() },
                None,
            ),
        ]),
        on_conflict: None,
    };
    let r = execute_plan(plan, &Inputs::none(), &mut db, &env).unwrap();
    assert_eq!(r.rows.len(), 1);
    assert_eq!(r.rows[0][0], Value::Int64(1));
    assert_eq!(r.rows[0][1], Value::Int64(10));
}

#[test]
fn test_fk_table_bypasses_batcher() {
    let mut db = Database::open_with_config(":memory:", small_batch_cfg());
    db.create_table(table_def("p", vec![column("id", DataType::Int32, false, true)])).unwrap();
    let mut def = keyed_def();
    def.name = "c".into();
    def.columns[1].name = "pid".into();
    def.foreign_keys = vec![ForeignKeyDef {
        local_columns: vec![1],
        foreign_table: "p".into(),
        foreign_columns: vec![0],
        on_delete: ForeignKeyAction::NoAction,
        on_update: ForeignKeyAction::NoAction,
    }];
    db.create_table(def).unwrap();
    execute(&mut db, "p", vec![vec![Value::Int64(1)]], false, &env).unwrap();
    execute(&mut db, "c", vec![pair(10, 1)], false, &env).unwrap();
    let rows = read(&db, "c");
    assert_eq!(rows.len(), 1);
    assert_eq!(rows[0][1], Value::Int64(1));
}
