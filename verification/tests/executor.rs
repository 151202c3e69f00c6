//! Plans.
use engramdb::common::types::{ColumnDef, DataType, EngineType, TableDef};
use engramdb::common::EngramDbError;
use engramdb::executor::columnar::{extract_skip_predicate, truncate_chunk};
use engramdb::executor::env::{Ask, FloatOp, Reply};
use engramdb::executor::execute;
use engramdb::executor::executor::{debug_chunks_to_rows, rows_to_chunks, Inputs};
use engramdb::executor::explain::{format_plan_tree, plan_node_name};
use engramdb::executor::operators::insert;
use engramdb::executor::operators::table_scan::PredicateOp;
use engramdb::executor::physical_plan::{PhysicalPlan, SetUnionOp};
use engramdb::executor::vector::{DataChunk, Vector, VECTOR_SIZE};
use engramdb::float::F64;
use engramdb::sql::ast::{
    AlterTableOp, AlterTableStmt, BinaryOperator, Expression, OnConflictAction, OnConflictClause,
    PragmaStmt,
};
use engramdb::storage::database::Database;
use engramdb::{QueryResult, Value};

fn double(x: f64) -> F64 {
    F64 { bits: x.to_bits() }
}

fn shown(v: &Value) -> String {
    match v {
        Value::Null => "NULL".to_string(),
        Value::Boolean(b) => b.to_string(),
        Value::Int32(x) => x.to_string(),
        Value::Int64(x) => x.to_string(),
        Value::Float32(x) => f32::from_bits(x.bits).to_string(),
        Value::Float64(x) => f64::from_bits(x.bits).to_string(),
        Value::Varchar(s) => s.clone(),
        Value::Json(s) => s.clone(),
        Value::Timestamp(x) => x.to_string(),
        other => format!("{:?}", other),
    }
}

fn arith(op: FloatOp, x: f64, y: f64) -> f64 {
    match op {
        FloatOp::Add => x + y,
        FloatOp::Sub => x - y,
        FloatOp::Mul => x * y,
        FloatOp::Div => x / y,
        FloatOp::Rem => x % y,
        FloatOp::Ceil => x.ceil(),
        FloatOp::Floor => x.floor(),
        FloatOp::Trunc => x.trunc(),
        FloatOp::Round => x.round(),
        FloatOp::Sqrt => x.sqrt(),
        FloatOp::Ln => x.ln(),
        FloatOp::Log10 => x.log10(),
        FloatOp::Log2 => x.log2(),
        FloatOp::Pow => x.powf(y),
    }
}

fn env(ask: Ask) -> Reply {
    match ask {
        Ask::Arith(op, x, y) => {
            Reply::Number(double(arith(op, f64::from_bits(x.bits), f64::from_bits(y.bits))))
        }
        Ask::TenTo(n) => Reply::Number(double(10f64.powi(n))),
        Ask::Show(v) => Reply::Text(shown(&v)),
        Ask::ParseFloat(s) => match s.parse::<f64>() {
            Ok(x) => Reply::Number(double(x)),
            Err(_) => Reply::Nothing,
        },
        Ask::JsonNumber(x) => Reply::Text(format!("{:?}", f64::from_bits(x.bits))),
        Ask::Debug(v) => Reply::Text(format!("{:?}", v)),
        Ask::DebugExpr(e) => Reply::Text(format!("{:?}", e)),
        Ask::DebugNames(v) => Reply::Text(format!("{:?}", v)),
        Ask::Now => Reply::Moment(
            std::time::SystemTime::now()
                .duration_since(std::time::UNIX_EPOCH)
                .unwrap_or_default()
                .as_millis() as i64,
        ),
        Ask::Elapsed => Reply::Moment(7),
    }
}

fn column(name: &str, data_type: DataType, nullable: bool, is_primary_key: bool) -> ColumnDef {
    ColumnDef {
        name: name.into(),
        data_type,
        nullable,
        is_primary_key,
        default_value: None,
        auto_increment: false,
    }
}

fn table_def(name: &str, columns: Vec<ColumnDef>) -> TableDef {
    TableDef {
        id: 0,
        name: name.into(),
        columns,
        row_count: 0,
        indexes: vec![],
        cluster_key: None,
        foreign_keys: vec![],
        engine: EngineType::Columnar,
        next_auto_increment_id: 0,
        ttl_seconds: None,
        ttl_column: None,
    }
}

/// The definition of `t (id INT PRIMARY KEY, v INT)`.
fn keyed_def() -> TableDef {
    table_def(
        "t",
        vec![
            column("id", DataType::Int32, false, true),
            column("v", DataType::Int32, true, false),
        ],
    )
}

fn run(plan: PhysicalPlan, db: &mut Database) -> Result<QueryResult, EngramDbError> {
    execute(plan, &Inputs::none(), db, &env)
}

fn fill(db: &mut Database, rows: &[(i64, i64)]) {
    let rows = rows.iter().map(|r| vec![Value::Int64(r.0), Value::Int64(r.1)]).collect();
    insert::execute(db, "t", rows, true, &env).unwrap();
}

fn col(name: &str) -> Expression {
    Expression::ColumnRef { table: None, column: name.into() }
}

fn lit(v: Value) -> Expression {
    Expression::Literal(v)
}

fn plan_scan() -> PhysicalPlan {
    PhysicalPlan::TableScan { table_name: "t".into(), column_indices: vec![0, 1] }
}

fn plan_filter() -> PhysicalPlan {
    PhysicalPlan::Filter {
        input: Box::new(plan_scan()),
        condition: Expression::BinaryOp {
            left: Box::new(col("id")),
            op: BinaryOperator::Gt,
            right: Box::new(lit(Value::Int64(1))),
        },
    }
}

#[test]
fn test_plan_node_name() {
    assert_eq!(plan_node_name(&plan_scan()), "TableScan");
    assert_eq!(plan_node_name(&plan_filter()), "Filter");
    assert_eq!(plan_node_name(&PhysicalPlan::BeginTransaction), "BeginTransaction");
    assert_eq!(plan_node_name(&PhysicalPlan::Commit), "Commit");
    assert_eq!(plan_node_name(&PhysicalPlan::Rollback), "Rollback");
    assert_eq!(plan_node_name(&PhysicalPlan::Distinct { input: Box::new(plan_scan()) }), "Distinct");
    assert_eq!(plan_node_name(&PhysicalPlan::Window { input: Box::new(plan_scan()), window_functions: vec![], column_names: vec![] }), "Window");
    assert_eq!(plan_node_name(&PhysicalPlan::TruncateTable { table_name: "t".into() }), "TruncateTable");
    assert_eq!(plan_node_name(&PhysicalPlan::Savepoint { name: "sp".into() }), "Savepoint");
    assert_eq!(plan_node_name(&PhysicalPlan::ReleaseSavepoint { name: "sp".into() }), "ReleaseSavepoint");
    assert_eq!(plan_node_name(&PhysicalPlan::RollbackToSavepoint { name: "sp".into() }), "RollbackToSavepoint");
}

#[test]
fn test_format_plan_tree_nested() {
    let plan = PhysicalPlan::Projection {
        input: Box::new(plan_filter()),
        expressions: vec![col("id")],
        column_names: vec!["id".into()],
    };
    let tree = format_plan_tree(&plan, 0);
    let lines: Vec<&str> = tree.trim().split('\n').collect();
    assert_eq!(lines.len(), 3);
    assert_eq!(lines[0], "Projection [id]");
    assert_eq!(lines[1], "  Filter");
    assert_eq!(lines[2], "    TableScan [t.2 cols]");
}

#[test]
fn test_format_plan_tree_detail_variants() {
    let cases: Vec<PhysicalPlan> = vec![
        PhysicalPlan::Insert { table_name: "t".into(), rows: vec![], returning: None, on_conflict: None },
        PhysicalPlan::InsertColumns { table_name: "t".into(), columns: vec![] },
        PhysicalPlan::Delete { table_name: "t".into(), condition: None },
        PhysicalPlan::Update { table_name: "t".into(), assignments: vec![], condition: None },
        PhysicalPlan::PrimaryKeyLookup { table_name: "t".into(), pk_value: Value::Int64(1), output_column_indices: vec![0] },
        PhysicalPlan::CountStar { output_name: "count(*)".into(), count: 42 },
        PhysicalPlan::Limit { input: Box::new(plan_scan()), limit: 5 },
        PhysicalPlan::Pragma(PragmaStmt { name: "table_info".into(), arg: Some("t".into()) }),
        PhysicalPlan::AlterTable(AlterTableStmt {
            table_name: "t".into(),
            operation: AlterTableOp::RenameTable { new_name: "t2".into() },
        }),
        PhysicalPlan::BeginTransaction,
        PhysicalPlan::Commit,
        PhysicalPlan::Rollback,
    ];
    for plan in &cases {
        let tree = format_plan_tree(plan, 0);
        assert!(!tree.is_empty(), "{plan:?}");
    }
    let tree = format_plan_tree(&cases[0], 0);
    assert!(tree.contains("Insert [table: t]"), "{tree}");
    let tree = format_plan_tree(&cases[5], 0);
    assert!(tree.contains("CountStar [count(*): 42]"), "{tree}");
    let tree = format_plan_tree(&cases[6], 0);
    assert!(tree.contains("Limit [limit: 5]"), "{tree}");
}

#[test]
fn test_format_plan_tree_joins_and_union() {
    let plan = PhysicalPlan::SetUnion {
        op: SetUnionOp::UnionAll,
        left: Box::new(plan_scan()),
        right: Box::new(plan_scan()),
    };
    let tree = format_plan_tree(&plan, 0);
    let lines: Vec<&str> = tree.trim().split('\n').collect();
    assert_eq!(lines.len(), 3);
    assert_eq!(lines[0], "SetUnion");
    assert_eq!(lines[1], "  TableScan [t.2 cols]");
    assert_eq!(lines[2], "  TableScan [t.2 cols]");
}

#[test]
fn test_chunks_roundtrip() {
    let rows: Vec<Vec<Value>> = (0..(VECTOR_SIZE + 3))
        .map(|i| vec![Value::Int64(i as i64), Value::Varchar(format!("v{i}"))])
        .collect();
    let chunks = rows_to_chunks(&rows);
    assert_eq!(chunks.len(), 2);
    assert_eq!(chunks[0].count, VECTOR_SIZE);
    assert_eq!(chunks[1].count, 3);
    let back = debug_chunks_to_rows(&chunks);
    assert_eq!(back.len(), rows.len());
    assert_eq!(back, rows);
    assert!(rows_to_chunks(&vec![]).is_empty());
    assert!(debug_chunks_to_rows(&vec![]).is_empty());
}

#[test]
fn test_truncate_chunk() {
    let chunk = DataChunk {
        columns: vec![
            Vector::Flat(vec![Value::Int64(1), Value::Int64(2), Value::Int64(3)]),
            Vector::Constant(Value::Int64(9), 3),
        ],
        count: 3,
    };
    let t = truncate_chunk(&chunk, 2);
    assert_eq!(t.count, 2);
    assert!(matches!(&t.columns[0], Vector::Flat(v) if v.len() == 2));
    let t = truncate_chunk(&chunk, 10);
    assert_eq!(t.count, 3);
    assert!(matches!(&t.columns[1], Vector::Constant(_, n) if *n == 3));
}

#[test]
fn test_extract_skip_predicate() {
    let e = Expression::BinaryOp {
        left: Box::new(col("v")), op: BinaryOperator::Gt, right: Box::new(lit(Value::Int64(5))),
    };
    let (name, op, val) = extract_skip_predicate(&e).unwrap();
    assert_eq!(name, "v");
    assert_eq!(op, PredicateOp::Gt);
    assert_eq!(val, Value::Int64(5));
    let e = Expression::BinaryOp {
        left: Box::new(lit(Value::Int64(5))), op: BinaryOperator::Lt, right: Box::new(col("v")),
    };
    let (name, op, _) = extract_skip_predicate(&e).unwrap();
    assert_eq!(name, "v");
    assert_eq!(op, PredicateOp::Lt);
    let e = Expression::BinaryOp {
        left: Box::new(col("id")), op: BinaryOperator::Eq, right: Box::new(lit(Value::Int64(1))),
    };
    assert_eq!(extract_skip_predicate(&e).unwrap().1, PredicateOp::Eq);
    let e = Expression::BinaryOp {
        left: Box::new(col("v")), op: BinaryOperator::Plus, right: Box::new(lit(Value::Int64(1))),
    };
    assert!(extract_skip_predicate(&e).is_none());
    let e = Expression::BinaryOp {
        left: Box::new(col("a")), op: BinaryOperator::Eq, right: Box::new(col("b")),
    };
    assert!(extract_skip_predicate(&e).is_none());
    assert!(extract_skip_predicate(&lit(Value::Int64(1))).is_none());
}

#[test]
fn test_execute_explain_plan() {
    let mut db = Database::open(":memory:");
    db.create_table(keyed_def()).unwrap();
    let r = run(PhysicalPlan::Explain { analyze: false, plan: Box::new(plan_filter()) }, &mut db).unwrap();
    assert_eq!(r.rows.len(), 1);
    let text = match &r.rows[0][0] { Value::Varchar(s) => s.clone(), other => panic!("{other:?}") };
    assert!(text.contains("Filter"), "{text}");
    assert!(text.contains("TableScan"), "{text}");
}

#[test]
fn test_execute_create_table_plan() {
    let mut db = Database::open(":memory:");
    let def = TableDef {
        id: 0,
        name: "newt".into(),
        columns: vec![ColumnDef {
            name: "id".into(), data_type: DataType::Int64,
            nullable: false, is_primary_key: true, default_value: None, auto_increment: false,
        }],
        row_count: 0, indexes: vec![], cluster_key: None, foreign_keys: vec![],
        engine: EngineType::Columnar,
        next_auto_increment_id: 0, ttl_seconds: None, ttl_column: None,
    };
    let r = run(PhysicalPlan::CreateTable { table_def: def.clone() }, &mut db).unwrap();
    assert!(r.rows[0][0] == Value::Varchar("Table 'newt' created".into()));
    assert!(db.get_table("newt").is_some());
    let err = run(PhysicalPlan::CreateTable { table_def: def }, &mut db).unwrap_err();
    assert!(matches!(err, EngramDbError::ConstraintViolation(_)));
}

#[test]
fn test_execute_insert_and_countstar() {
    let mut db = Database::open(":memory:");
    db.create_table(keyed_def()).unwrap();
    let r = run(PhysicalPlan::Insert {
        table_name: "t".into(),
        rows: vec![vec![Value::Int64(1), Value::Int64(10)], vec![Value::Int64(2), Value::Int64(20)]],
        returning: None,
        on_conflict: None,
    }, &mut db).unwrap();
    assert_eq!(r.rows_affected, 2);
    let r = run(PhysicalPlan::CountStar { output_name: "count(*)".into(), count: 2 }, &mut db).unwrap();
    assert_eq!(r.rows[0][0], Value::Int64(2));
    let err = run(PhysicalPlan::Insert {
        table_name: "t".into(),
        rows: vec![vec![Value::Int64(1), Value::Int64(99)]],
        returning: None,
        on_conflict: None,
    }, &mut db).unwrap_err();
    assert!(matches!(err, EngramDbError::ConstraintViolation(_)));
}

#[test]
fn test_execute_delete_update_plans() {
    let mut db = Database::open(":memory:");
    db.create_table(keyed_def()).unwrap();
    fill(&mut db, &[(1, 10), (2, 20), (3, 30)]);
    let r = run(PhysicalPlan::Update { table_name: "t".into(), assignments: vec![], condition: None }, &mut db).unwrap();
    assert_eq!(r.rows_affected, 0);
    let r = run(PhysicalPlan::Delete { table_name: "t".into(), condition: None }, &mut db).unwrap();
    assert_eq!(r.rows_affected, 3);
    let rows = db.get_table("t").unwrap().scan_to_rows_direct(&vec![0, 1]);
    assert!(rows.is_empty());
}

#[test]
fn test_execute_begin_commit_rollback_plans() {
    let mut db = Database::open(":memory:");
    run(PhysicalPlan::BeginTransaction, &mut db).unwrap();
    run(PhysicalPlan::Commit, &mut db).unwrap();
    run(PhysicalPlan::BeginTransaction, &mut db).unwrap();
    run(PhysicalPlan::Rollback, &mut db).unwrap();
}

#[test]
fn test_execute_subquery_scan() {
    let mut db = Database::open(":memory:");
    db.create_table(keyed_def()).unwrap();
    fill(&mut db, &[(1, 10), (2, 20)]);
    let r = run(PhysicalPlan::SubqueryScan { plan: Box::new(plan_scan()) }, &mut db).unwrap();
    assert_eq!(r.rows.len(), 2);
}

#[test]
fn test_upsert_on_conflict_do_nothing() {
    let mut db = Database::open(":memory:");
    db.create_table(keyed_def()).unwrap();
    fill(&mut db, &[(1, 10)]);
    run(PhysicalPlan::Insert {
        table_name: "t".into(),
        rows: vec![vec![Value::Int64(1), Value::Int64(99)], vec![Value::Int64(2), Value::Int64(20)]],
        returning: None,
        on_conflict: Some(OnConflictClause {
            conflict_columns: vec![],
            action: OnConflictAction::DoNothing,
        }),
    }, &mut db).unwrap();
    let rows = db.get_table("t").unwrap().scan_to_rows_direct(&vec![0, 1]);
    assert_eq!(rows.len(), 2);
    assert_eq!(rows[0][1], Value::Int64(10));
}
