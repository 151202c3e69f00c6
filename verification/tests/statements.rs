//! Plans that read and write tables, by what they leave and give.
use engramdb::common::types::{ColumnDef, DataType, EngineType, TableDef};
use engramdb::common::EngramDbError;
use engramdb::executor::columnar::try_execute_chunks;
use engramdb::executor::env::{Ask, FloatOp, Reply};
use engramdb::executor::execute;
use engramdb::executor::executor::Inputs;
use engramdb::executor::framing::unframe;
use engramdb::executor::lookup::Neighbor;
use engramdb::executor::operators::insert::{apply_to_storage, flush_all_batched};
use engramdb::executor::operators::projection::execute_with_db;
use engramdb::executor::physical_plan::{
    AggregateExpr, AggregateFunc, JoinType, PhysicalPlan, SetUnionOp, SortDirection, SortKey,
    WindowFuncType, WindowFunctionExpr,
};
use engramdb::executor::vector::{DataChunk, Vector};
use engramdb::float::{F32, F64};
use engramdb::sql::ast::{
    BinaryOperator, Expression, OnConflictAction, OnConflictClause, OrderByItem, WindowSpec,
};
use engramdb::storage::database::Database;
use engramdb::storage::txn::ApplyOp;
use engramdb::{QueryResult, Value};

fn double(x: f64) -> F64 {
    F64 { bits: x.to_bits() }
}

fn shown(v: &Value) -> String {
    match v {
        Value::Null => "NULL".to_string(),
        Value::Boolean(b) => b.to_string(),
        Value::Int32(x) => x.to_string(),
        Value::Int64(x) => x.to_string(),
        Value::Float32(x) => f32::from_bits(x.bits).to_string(),
        Value::Float64(x) => f64::from_bits(x.bits).to_string(),
        Value::Varchar(s) => s.clone(),
        Value::Json(s) => s.clone(),
        Value::Timestamp(x) => x.to_string(),
        other => format!("{:?}", other),
    }
}

fn arith(op: FloatOp, x: f64, y: f64) -> f64 {
    match op {
        FloatOp::Add => x + y,
        FloatOp::Sub => x - y,
        FloatOp::Mul => x * y,
        FloatOp::Div => x / y,
        FloatOp::Rem => x % y,
        FloatOp::Ceil => x.ceil(),
        FloatOp::Floor => x.floor(),
        FloatOp::Trunc => x.trunc(),
        FloatOp::Round => x.round(),
        FloatOp::Sqrt => x.sqrt(),
        FloatOp::Ln => x.ln(),
        FloatOp::Log10 => x.log10(),
        FloatOp::Log2 => x.log2(),
        FloatOp::Pow => x.powf(y),
    }
}

fn env(ask: Ask) -> Reply {
    match ask {
        Ask::Arith(op, x, y) => {
            Reply::Number(double(arith(op, f64::from_bits(x.bits), f64::from_bits(y.bits))))
        }
        Ask::TenTo(n) => Reply::Number(double(10f64.powi(n))),
        Ask::Show(v) => Reply::Text(shown(&v)),
        Ask::ParseFloat(s) => match s.parse::<f64>() {
            Ok(x) => Reply::Number(double(x)),
            Err(_) => Reply::Nothing,
        },
        Ask::JsonNumber(x) => Reply::Text(format!("{:?}", f64::from_bits(x.bits))),
        Ask::Debug(v) => Reply::Text(format!("{:?}", v)),
        Ask::DebugExpr(e) => Reply::Text(format!("{:?}", e)),
        Ask::DebugNames(v) => Reply::Text(format!("{:?}", v)),
        Ask::Now => Reply::Moment(
            std::time::SystemTime::now()
                .duration_since(std::time::UNIX_EPOCH)
                .unwrap_or_default()
                .as_millis() as i64,
        ),
        Ask::Elapsed => Reply::Moment(7),
    }
}
fn column(name: &str, data_type: DataType, nullable: bool, is_primary_key: bool) -> ColumnDef {
    ColumnDef {
        name: name.into(),
        data_type,
        nullable,
        is_primary_key,
        default_value: None,
        auto_increment: false,
    }
}

fn table_def(name: &str, columns: Vec<ColumnDef>) -> TableDef {
    TableDef {
        id: 0,
        name: name.into(),
        columns,
        row_count: 0,
        indexes: vec![],
        cluster_key: None,
        foreign_keys: vec![],
        engine: EngineType::Columnar,
        next_auto_increment_id: 0,
        ttl_seconds: None,
        ttl_column: None,
    }
}

/// The definition of `t (id INT PRIMARY KEY, v INT)`.
fn keyed_def() -> TableDef {
    table_def(
        "t",
        vec![
            column("id", DataType::Int32, false, true),
            column("v", DataType::Int32, true, false),
        ],
    )
}


fn whole(n: i64) -> Value {
    Value::Int64(n)
}

fn pair(a: i64, b: i64) -> Vec<Value> {
    vec![whole(a), whole(b)]
}

fn lit(v: Value) -> Expression {
    Expression::Literal(v)
}

fn col(name: &str) -> Expression {
    Expression::ColumnRef { table: None, column: name.into() }
}

fn compare(name: &str, op: BinaryOperator, v: Value) -> Expression {
    Expression::BinaryOp { left: Box::new(col(name)), op, right: Box::new(lit(v)) }
}

fn scan(name: &str) -> PhysicalPlan {
    PhysicalPlan::TableScan { table_name: name.into(), column_indices: vec![0, 1] }
}

/// A plan, with what waits in batches written before.
fn try_run(db: &mut Database, plan: PhysicalPlan) -> Result<QueryResult, EngramDbError> {
    flush_all_batched(db, &env)?;
    execute(plan, &Inputs::none(), db, &env)
}

fn run(db: &mut Database, plan: PhysicalPlan) -> QueryResult {
    try_run(db, plan).unwrap()
}

fn rows(db: &mut Database, plan: PhysicalPlan) -> Vec<Vec<Value>> {
    run(db, plan).rows
}

fn insert(name: &str, rows: Vec<Vec<Value>>) -> PhysicalPlan {
    PhysicalPlan::Insert { table_name: name.into(), rows, returning: None, on_conflict: None }
}

/// Tables `t` with (1, 10), (2, 20), (2, 20) and `u` with (2, 20), (3, 30).
fn two_tables() -> Database {
    let mut db = Database::open(":memory:");
    for name in ["t", "u"] {
        let def = table_def(name, vec![
            column("id", DataType::Int64, true, false),
            column("v", DataType::Int64, true, false),
        ]);
        run(&mut db, PhysicalPlan::CreateTable { table_def: def });
    }
    run(&mut db, insert("t", vec![pair(1, 10), pair(2, 20), pair(2, 20)]));
    run(&mut db, insert("u", vec![pair(2, 20), pair(3, 30)]));
    db
}

/// A table `t (id INT PRIMARY KEY, v INT)` with rows.
fn keyed(all: Vec<Vec<Value>>) -> Database {
    let mut db = Database::open(":memory:");
    run(&mut db, PhysicalPlan::CreateTable { table_def: keyed_def() });
    run(&mut db, insert("t", all));
    db
}

fn join(kind: JoinType) -> PhysicalPlan {
    PhysicalPlan::HashJoin {
        left: Box::new(scan("t")),
        right: Box::new(scan("u")),
        join_type: kind,
        left_keys: vec![0],
        right_keys: vec![0],
    }
}

fn set(op: SetUnionOp) -> PhysicalPlan {
    PhysicalPlan::SetUnion { op, left: Box::new(scan("t")), right: Box::new(scan("u")) }
}

#[test]
fn joins_of_every_kind() {
    let mut db = two_tables();
    let both = || vec![whole(2), whole(20), whole(2), whole(20)];
    let left = || vec![whole(1), whole(10), Value::Null, Value::Null];
    let right = || vec![Value::Null, Value::Null, whole(3), whole(30)];
    assert_eq!(rows(&mut db, join(JoinType::Inner)), vec![both(), both()]);
    assert_eq!(rows(&mut db, join(JoinType::Left)), vec![left(), both(), both()]);
    assert_eq!(rows(&mut db, join(JoinType::Right)), vec![both(), both(), right()]);
    assert_eq!(rows(&mut db, join(JoinType::Full)), vec![left(), both(), both(), right()]);
    assert_eq!(rows(&mut db, join(JoinType::Semi)), vec![pair(2, 20), pair(2, 20)]);
    assert_eq!(rows(&mut db, join(JoinType::Anti)), vec![pair(1, 10)]);
    let cross = PhysicalPlan::CrossJoin { left: Box::new(scan("t")), right: Box::new(scan("u")) };
    assert_eq!(rows(&mut db, cross).len(), 3 * 2);
}

#[test]
fn set_operations() {
    let mut db = two_tables();
    assert_eq!(rows(&mut db, set(SetUnionOp::UnionAll)).len(), 5);
    assert_eq!(rows(&mut db, set(SetUnionOp::Union)), vec![pair(1, 10), pair(2, 20), pair(3, 30)]);
    assert_eq!(rows(&mut db, set(SetUnionOp::Intersect)), vec![pair(2, 20)]);
    assert_eq!(rows(&mut db, set(SetUnionOp::Except)), vec![pair(1, 10)]);
    let distinct = PhysicalPlan::Distinct { input: Box::new(scan("t")) };
    assert_eq!(rows(&mut db, distinct), vec![pair(1, 10), pair(2, 20)]);
}

#[test]
fn sorting_and_limits() {
    let mut db = keyed(vec![pair(1, 5), pair(2, 9), pair(3, 5), vec![whole(4), Value::Null]]);
    let sorted = |keys: Vec<SortKey>, limit: Option<usize>| PhysicalPlan::Sort {
        input: Box::new(scan("t")),
        sort_keys: keys,
        limit,
    };
    let key = |column_index, direction| SortKey { column_index, direction };
    let ids = |all: Vec<Vec<Value>>| all.iter().map(|r| r[0].clone()).collect::<Vec<_>>();
    let up = ids(rows(&mut db, sorted(vec![key(1, SortDirection::Asc)], None)));
    assert_eq!(up, vec![whole(4), whole(1), whole(3), whole(2)]);
    let both = vec![key(1, SortDirection::Desc), key(0, SortDirection::Desc)];
    assert_eq!(ids(rows(&mut db, sorted(both.clone(), None))), vec![whole(2), whole(3), whole(1), whole(4)]);
    assert_eq!(ids(rows(&mut db, sorted(both, Some(2)))), vec![whole(2), whole(3)]);
    let limit = PhysicalPlan::Limit { input: Box::new(scan("t")), limit: 3 };
    assert_eq!(rows(&mut db, limit).len(), 3);
}

#[test]
fn filters_keep_what_is_true() {
    let mut db = keyed(vec![pair(1, 10), vec![whole(2), Value::Null], pair(3, 30)]);
    let filter = |op, v| PhysicalPlan::Filter {
        input: Box::new(scan("t")),
        condition: compare("v", op, whole(v)),
    };
    assert_eq!(rows(&mut db, filter(BinaryOperator::Gt, 10)), vec![pair(3, 30)]);
    assert_eq!(rows(&mut db, filter(BinaryOperator::NotEq, 10)), vec![pair(3, 30)]);
    assert_eq!(rows(&mut db, filter(BinaryOperator::LtEq, 10)), vec![pair(1, 10)]);
    assert!(rows(&mut db, filter(BinaryOperator::Lt, 10)).is_empty());
}

#[test]
fn groups_in_order_of_appearance() {
    let mut db = two_tables();
    let sum = |x: f64| Value::Float64(double(x));
    let agg = |func, distinct| AggregateExpr { func, input: 1, distinct };
    let grouped = |aggregates| PhysicalPlan::Aggregate {
        input: Box::new(scan("t")),
        group_by: vec![0],
        aggregates,
    };
    let plan = grouped(vec![
        agg(AggregateFunc::Count, false),
        agg(AggregateFunc::Sum, false),
        agg(AggregateFunc::Max, false),
    ]);
    assert_eq!(
        rows(&mut db, plan),
        vec![
            vec![whole(1), whole(1), sum(10.0), whole(10)],
            vec![whole(2), whole(2), sum(40.0), whole(20)],
        ]
    );
    let plan = grouped(vec![agg(AggregateFunc::Count, true), agg(AggregateFunc::Sum, true)]);
    assert_eq!(
        rows(&mut db, plan),
        vec![vec![whole(1), whole(1), sum(10.0)], vec![whole(2), whole(1), sum(20.0)]]
    );
}

#[test]
fn row_numbers_over_a_window() {
    let mut db = two_tables();
    let plan = PhysicalPlan::Window {
        input: Box::new(scan("t")),
        window_functions: vec![WindowFunctionExpr {
            func: WindowFuncType::RowNumber,
            input_column: None,
            window_spec: WindowSpec {
                partition_by: vec![col("id")],
                order_by: vec![OrderByItem { expr: col("v"), ascending: true }],
                window_frame: None,
            },
            output_name: "n".into(),
        }],
        column_names: vec!["id".into(), "v".into()],
    };
    let r = run(&mut db, plan);
    let numbers: Vec<_> = r.rows.iter().map(|r| r[2].clone()).collect();
    assert_eq!(numbers, vec![whole(1), whole(1), whole(2)]);
}

#[test]
fn rolled_back_writes_are_gone() {
    let mut db = keyed(vec![pair(1, 10)]);
    run(&mut db, PhysicalPlan::BeginTransaction);
    run(&mut db, insert("t", vec![pair(2, 20)]));
    run(&mut db, PhysicalPlan::Rollback);
    assert_eq!(rows(&mut db, scan("t")), vec![pair(1, 10)]);
    run(&mut db, PhysicalPlan::BeginTransaction);
    run(&mut db, insert("t", vec![pair(2, 20)]));
    run(&mut db, PhysicalPlan::Commit);
    assert_eq!(rows(&mut db, scan("t")), vec![pair(1, 10), pair(2, 20)]);
}

#[test]
fn savepoints_undo_what_came_after() {
    let mut db = keyed(vec![pair(1, 10)]);
    let named = |n: &str| n.to_string();
    run(&mut db, PhysicalPlan::BeginTransaction);
    run(&mut db, insert("t", vec![pair(2, 20)]));
    run(&mut db, PhysicalPlan::Savepoint { name: named("s") });
    run(&mut db, insert("t", vec![pair(3, 30)]));
    run(&mut db, PhysicalPlan::RollbackToSavepoint { name: named("s") });
    run(&mut db, insert("t", vec![pair(4, 40)]));
    run(&mut db, PhysicalPlan::Commit);
    assert_eq!(rows(&mut db, scan("t")), vec![pair(1, 10), pair(2, 20), pair(4, 40)]);
    match try_run(&mut db, PhysicalPlan::Savepoint { name: named("x") }) {
        Err(EngramDbError::Internal(m)) => assert_eq!(m, "No active transaction for SAVEPOINT"),
        other => panic!("{other:?}"),
    }
    match try_run(&mut db, PhysicalPlan::Commit) {
        Err(EngramDbError::Internal(m)) => assert_eq!(m, "No active transaction to COMMIT"),
        other => panic!("{other:?}"),
    }
    run(&mut db, PhysicalPlan::BeginTransaction);
    let r = try_run(&mut db, PhysicalPlan::ReleaseSavepoint { name: named("x") });
    assert!(matches!(r, Err(EngramDbError::Transaction(_))));
}

#[test]
fn conditions_choose_what_is_deleted() {
    let mut db = keyed(vec![pair(1, 10), pair(2, 20), pair(3, 30)]);
    let r = run(&mut db, PhysicalPlan::Delete {
        table_name: "t".into(),
        condition: Some(compare("v", BinaryOperator::Lt, whole(30))),
    });
    assert_eq!(r.rows_affected, 2);
    assert_eq!(rows(&mut db, scan("t")), vec![pair(3, 30)]);
    let r = run(&mut db, PhysicalPlan::Delete { table_name: "t".into(), condition: None });
    assert_eq!(r.rows_affected, 1);
    assert!(rows(&mut db, scan("t")).is_empty());
}

#[test]
fn updates_set_what_is_assigned() {
    let mut db = keyed(vec![pair(1, 10), pair(2, 20)]);
    let add = Expression::BinaryOp {
        left: Box::new(col("v")),
        op: BinaryOperator::Plus,
        right: Box::new(lit(whole(1))),
    };
    let r = run(&mut db, PhysicalPlan::Update {
        table_name: "t".into(),
        assignments: vec![(1, add)],
        condition: Some(compare("id", BinaryOperator::Eq, whole(2))),
    });
    assert_eq!(r.rows_affected, 1);
    assert_eq!(rows(&mut db, scan("t")), vec![pair(1, 10), pair(2, 21)]);
}

#[test]
fn conflicts_replace_or_update() {
    let upsert = |rows, action| PhysicalPlan::Insert {
        table_name: "t".into(),
        rows,
        returning: None,
        on_conflict: Some(OnConflictClause { conflict_columns: vec!["id".into()], action }),
    };
    let mut db = keyed(vec![pair(1, 10)]);
    run(&mut db, upsert(vec![pair(1, 11), pair(2, 20)], OnConflictAction::Replace));
    let mut all = rows(&mut db, scan("t"));
    all.sort_by_key(|r| match &r[0] { Value::Int64(n) => *n, _ => 0 });
    assert_eq!(all, vec![pair(1, 11), pair(2, 20)]);
    let action = OnConflictAction::DoUpdate { assignments: vec![("v".into(), lit(whole(99)))] };
    run(&mut db, upsert(vec![pair(2, 0), pair(3, 30)], action));
    let mut all = rows(&mut db, scan("t"));
    all.sort_by_key(|r| match &r[0] { Value::Int64(n) => *n, _ => 0 });
    assert_eq!(all, vec![pair(1, 11), pair(2, 99), pair(3, 30)]);
}

fn index_on_v(unique: bool) -> PhysicalPlan {
    PhysicalPlan::CreateIndex {
        table_name: "t".into(),
        index_name: "by_v".into(),
        key_columns: vec![1],
        included_columns: vec![],
        unique,
        using: None,
        with_options: vec![],
    }
}

#[test]
fn indexes_find_rows() {
    let mut db = keyed(vec![pair(1, 10), pair(2, 20), pair(3, 20), pair(4, 30)]);
    run(&mut db, index_on_v(false));
    let found = rows(&mut db, PhysicalPlan::IndexScan {
        table_name: "t".into(),
        index_name: "by_v".into(),
        key_value: whole(20),
        output_column_indices: vec![0, 1],
    });
    assert_eq!(found, vec![pair(2, 20), pair(3, 20)]);
    let found = rows(&mut db, PhysicalPlan::IndexRangeScan {
        table_name: "t".into(),
        index_name: "by_v".into(),
        low: Some(whole(10)),
        low_inclusive: false,
        high: Some(whole(30)),
        high_inclusive: true,
        output_column_indices: vec![0],
    });
    assert_eq!(found, vec![vec![whole(2)], vec![whole(3)], vec![whole(4)]]);
    let found = rows(&mut db, PhysicalPlan::PrimaryKeyLookup {
        table_name: "t".into(),
        pk_value: whole(4),
        output_column_indices: vec![1],
    });
    assert_eq!(found, vec![vec![whole(30)]]);
    let r = try_run(&mut db, PhysicalPlan::IndexScan {
        table_name: "t".into(),
        index_name: "absent".into(),
        key_value: whole(20),
        output_column_indices: vec![0],
    });
    match r {
        Err(EngramDbError::Parse(m)) => assert_eq!(m, "Index 'absent' not found during execution"),
        other => panic!("{other:?}"),
    }
}

#[test]
fn unique_indexes_refuse_duplicates() {
    let mut db = keyed(vec![pair(1, 10)]);
    run(&mut db, index_on_v(true));
    let r = try_run(&mut db, insert("t", vec![pair(2, 10)]));
    assert!(matches!(r, Err(EngramDbError::ConstraintViolation(_))), "{r:?}");
    assert_eq!(rows(&mut db, scan("t")), vec![pair(1, 10)]);
}

#[test]
fn refused_writes_leave_nothing() {
    let mut db = keyed(vec![pair(1, 10)]);
    let r = try_run(&mut db, insert("t", vec![pair(2, 20), pair(1, 11)]));
    assert!(matches!(r, Err(EngramDbError::ConstraintViolation(_))));
    let r = try_run(&mut db, insert("t", vec![vec![Value::Null, whole(1)]]));
    assert!(matches!(r, Err(EngramDbError::ConstraintViolation(_))));
    let r = try_run(&mut db, insert("absent", vec![pair(2, 20)]));
    assert!(matches!(r, Err(EngramDbError::TableNotFound(_))));
    let r = try_run(&mut db, scan("absent"));
    assert!(matches!(r, Err(EngramDbError::TableNotFound(_))));
    let r = try_run(&mut db, PhysicalPlan::Projection {
        input: Box::new(scan("t")),
        expressions: vec![col("absent")],
        column_names: vec!["a".into()],
    });
    assert!(r.is_err());
    assert_eq!(rows(&mut db, scan("t")), vec![pair(1, 10)]);
}

#[test]
fn tables_are_filled_from_queries() {
    let mut db = two_tables();
    let def = table_def("w", vec![
        column("id", DataType::Int64, true, false),
        column("v", DataType::Int64, true, false),
    ]);
    run(&mut db, PhysicalPlan::CreateTableAs { table_def: def, source: Box::new(scan("u")) });
    assert_eq!(rows(&mut db, scan("w")), vec![pair(2, 20), pair(3, 30)]);
    run(&mut db, PhysicalPlan::InsertSelect {
        table_name: "w".into(),
        columns: None,
        source: Box::new(scan("t")),
    });
    assert_eq!(rows(&mut db, scan("w")).len(), 5);
    run(&mut db, PhysicalPlan::TruncateTable { table_name: "w".into() });
    assert!(rows(&mut db, scan("w")).is_empty());
}

#[test]
fn subqueries_answer_by_their_number() {
    let mut db = two_tables();
    let answer = rows(&mut db, scan("u"));
    let given = Inputs {
        subqueries: vec![QueryResult {
            columns: vec!["id".into()],
            rows: answer.iter().map(|r| vec![r[0].clone()]).collect(),
            rows_affected: 0,
        }],
        neighbors: vec![],
        file_bytes: 0,
    };
    let filter = |condition| PhysicalPlan::Filter { input: Box::new(scan("t")), condition };
    let within = |negated| Expression::InSubquery { expr: Box::new(col("id")), subquery: 0, negated };
    let r = execute(filter(within(false)), &given, &mut db, &env).unwrap();
    assert_eq!(r.rows, vec![pair(2, 20), pair(2, 20)]);
    let r = execute(filter(within(true)), &given, &mut db, &env).unwrap();
    assert_eq!(r.rows, vec![pair(1, 10)]);
    let exists = Expression::Exists { subquery: 0, negated: true };
    assert!(execute(filter(exists), &given, &mut db, &env).unwrap().rows.is_empty());
}

#[test]
fn subqueries_answer_row_by_row() {
    let batch = DataChunk {
        columns: vec![Vector::Flat(vec![whole(1), whole(2)])],
        count: 2,
    };
    let answer = |n: i64| vec![QueryResult {
        columns: vec!["c".into()],
        rows: vec![vec![whole(n)]],
        rows_affected: 0,
    }];
    let sum = Expression::BinaryOp {
        left: Box::new(col("a")),
        op: BinaryOperator::Plus,
        right: Box::new(Expression::Subquery(0)),
    };
    let out = execute_with_db(
        &vec![batch], &vec![sum], &vec!["a".to_string()], &vec![answer(10), answer(100)], &env,
    )
    .unwrap();
    let all: Vec<Vec<Value>> = out.iter().flat_map(|c| c.to_rows()).collect();
    assert_eq!(all, vec![vec![whole(11)], vec![whole(102)]]);
}

#[test]
fn projections_compute() {
    let mut db = keyed(vec![pair(1, 10), pair(2, 20)]);
    let sum = Expression::BinaryOp {
        left: Box::new(col("id")),
        op: BinaryOperator::Multiply,
        right: Box::new(col("v")),
    };
    let r = run(&mut db, PhysicalPlan::Projection {
        input: Box::new(scan("t")),
        expressions: vec![sum, col("id")],
        column_names: vec!["p".into(), "id".into()],
    });
    assert_eq!(r.columns, vec!["p".to_string(), "id".to_string()]);
    assert_eq!(r.rows, vec![pair(10, 1), pair(40, 2)]);
}

#[test]
fn reading_changes_nothing() {
    let mut db = two_tables();
    let before = (rows(&mut db, scan("t")), rows(&mut db, scan("u")));
    run(&mut db, join(JoinType::Full));
    run(&mut db, set(SetUnionOp::Except));
    run(&mut db, PhysicalPlan::Distinct { input: Box::new(scan("t")) });
    assert_eq!((rows(&mut db, scan("t")), rows(&mut db, scan("u"))), before);
}

#[test]
fn neighbors_are_given() {
    let mut db = keyed(vec![pair(1, 10), pair(2, 20)]);
    let r = try_run(&mut db, PhysicalPlan::VectorSearch {
        table_name: "t".into(),
        index_name: "absent".into(),
        query_vector: vec![F32 { bits: 1f32.to_bits() }],
        k: 1,
    });
    assert!(r.is_err(), "{r:?}");
    let n = Neighbor { id: 1, distance: F32 { bits: 0.5f32.to_bits() } };
    assert_eq!(f32::from_bits(n.distance.bits), 0.5);
}

fn random(op: BinaryOperator, x: f64) -> Expression {
    Expression::BinaryOp {
        left: Box::new(Expression::Function {
            name: "RANDOM".into(),
            args: vec![],
            distinct: false,
            count_star: false,
            over: None,
        }),
        op,
        right: Box::new(lit(Value::Float64(double(x)))),
    }
}

#[test]
fn random_numbers_in_conditions() {
    let mut db = keyed(vec![pair(1, 10), pair(2, 20), pair(3, 30)]);
    let filter = |condition| PhysicalPlan::Filter { input: Box::new(scan("t")), condition };
    assert_eq!(rows(&mut db, filter(random(BinaryOperator::Lt, 1.0))).len(), 3);
    assert!(rows(&mut db, filter(random(BinaryOperator::Lt, 0.0))).is_empty());
    let delete = |condition| PhysicalPlan::Delete { table_name: "t".into(), condition: Some(condition) };
    assert_eq!(run(&mut db, delete(random(BinaryOperator::GtEq, 1.0))).rows_affected, 0);
    assert_eq!(rows(&mut db, scan("t")).len(), 3);
    assert_eq!(run(&mut db, delete(random(BinaryOperator::GtEq, 0.0))).rows_affected, 3);
    assert!(rows(&mut db, scan("t")).is_empty());
}

#[test]
fn updates_leave_the_other_rows() {
    let mut db = keyed(vec![pair(1, 10), pair(2, 20), pair(3, 30)]);
    run(&mut db, PhysicalPlan::Update {
        table_name: "t".into(),
        assignments: vec![(1, lit(Value::Null))],
        condition: Some(compare("v", BinaryOperator::GtEq, whole(20))),
    });
    let left = vec![pair(1, 10), vec![whole(2), Value::Null], vec![whole(3), Value::Null]];
    assert_eq!(rows(&mut db, scan("t")), left);
}

#[test]
fn a_row_stands_at_its_number() {
    let mut db = two_tables();
    flush_all_batched(&mut db, &env).unwrap();
    let ops = vec![
        ApplyOp::Insert { table_id: 0, row_id: 5, row: pair(6, 60) },
        ApplyOp::InsertBatch {
            table_id: 1,
            base_row_id: 3,
            columns: vec![vec![whole(7), whole(8)], vec![whole(70), whole(80)]],
        },
        ApplyOp::Update { table_id: 0, row_id: 5, new_row: pair(6, 61) },
        ApplyOp::Delete { table_id: 0, row_id: 0 },
    ];
    apply_to_storage(&mut db, &ops).unwrap();
    assert_eq!(
        db.get_table("t").unwrap().rows,
        vec![None, Some(pair(2, 20)), Some(pair(2, 20)), None, None, Some(pair(6, 61))]
    );
    assert_eq!(
        db.get_table("u").unwrap().rows,
        vec![Some(pair(2, 20)), Some(pair(3, 30)), None, Some(pair(7, 70)), Some(pair(8, 80))]
    );
    let missing = vec![ApplyOp::Delete { table_id: 9, row_id: 0 }];
    assert!(matches!(apply_to_storage(&mut db, &missing), Err(EngramDbError::TableNotFound(_))));
}

#[test]
fn a_condition_on_a_column_that_is_not_there() {
    let mut db = two_tables();
    let plan = || PhysicalPlan::Filter {
        input: Box::new(scan("t")),
        condition: compare("nosuch", BinaryOperator::Eq, whole(1)),
    };
    match try_run(&mut db, plan()) {
        Err(EngramDbError::ColumnNotFound(name)) => assert_eq!(name, "nosuch"),
        other => panic!("{:?}", other),
    }
    run(&mut db, PhysicalPlan::TruncateTable { table_name: "t".into() });
    assert_eq!(rows(&mut db, plan()), Vec::<Vec<Value>>::new());
}

#[test]
fn batches_and_rows_agree() {
    let mut db = two_tables();
    run(&mut db, insert("t", (3..3000).map(|i| pair(i, 10 * i)).collect()));
    flush_all_batched(&mut db, &env).unwrap();
    let limited = || PhysicalPlan::Limit { input: Box::new(scan("t")), limit: 2100 };
    let filter = |input: PhysicalPlan, e: Expression| PhysicalPlan::Filter {
        input: Box::new(input),
        condition: e,
    };
    let odd = Expression::BinaryOp {
        left: Box::new(Expression::BinaryOp {
            left: Box::new(col("id")),
            op: BinaryOperator::Modulo,
            right: Box::new(lit(whole(2))),
        }),
        op: BinaryOperator::Eq,
        right: Box::new(lit(whole(1))),
    };
    let plans = vec![
        scan("t"),
        limited(),
        filter(scan("t"), compare("v", BinaryOperator::Gt, whole(29000))),
        filter(limited(), odd.clone()),
        filter(filter(scan("t"), odd.clone()), compare("id", BinaryOperator::Lt, whole(9))),
        PhysicalPlan::Projection {
            input: Box::new(filter(scan("t"), odd)),
            expressions: vec![col("v")],
            column_names: vec!["w".into()],
        },
        set(SetUnionOp::UnionAll),
    ];
    for plan in plans {
        let (names, chunks) = try_execute_chunks(&plan, &db, &env).unwrap().unwrap();
        let by_rows = run(&mut db, plan);
        assert_eq!(by_rows.columns, names);
        assert_eq!(by_rows.rows, unframe(&chunks));
        assert!(!by_rows.rows.is_empty());
    }
}

#[test]
fn batches_and_rows_agree_on_constants() {
    let mut db = two_tables();
    run(&mut db, PhysicalPlan::TruncateTable { table_name: "t".into() });
    let agg = |func| AggregateExpr { func, input: 1, distinct: false };
    let count = || PhysicalPlan::CountStar { output_name: "n".into(), count: 5 };
    let totals = || PhysicalPlan::Aggregate {
        input: Box::new(scan("t")),
        group_by: vec![],
        aggregates: vec![agg(AggregateFunc::Count), agg(AggregateFunc::Sum)],
    };
    let filter = |input: PhysicalPlan, e: Expression| PhysicalPlan::Filter {
        input: Box::new(input),
        condition: e,
    };
    let (names, _) = try_execute_chunks(&totals(), &db, &env).unwrap().unwrap();
    let counted = names[0].clone();
    let dated = |format: Expression| Expression::IsNotNull(Box::new(Expression::Function {
        name: "STRFTIME".into(),
        args: vec![format, col("n")],
        distinct: false,
        count_star: false,
        over: None,
    }));
    let cases = vec![
        (filter(count(), lit(Value::Boolean(false))), 0),
        (filter(count(), compare("n", BinaryOperator::Gt, whole(4))), 1),
        (filter(count(), compare("n", BinaryOperator::Gt, whole(5))), 0),
        (filter(count(), dated(lit(Value::Varchar("%Y".into())))), 1),
        (filter(totals(), compare(&counted, BinaryOperator::Eq, whole(0))), 1),
        (filter(totals(), Expression::IsNotNull(Box::new(col(&names[1])))), 0),
    ];
    for (plan, n) in cases {
        let (names, chunks) = try_execute_chunks(&plan, &db, &env).unwrap().unwrap();
        let by_rows = run(&mut db, plan);
        assert_eq!(by_rows.columns, names);
        assert_eq!(by_rows.rows, unframe(&chunks));
        assert_eq!(by_rows.rows.len(), n);
    }
}
