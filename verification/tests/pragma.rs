//! Pragmas.
use engramdb::common::config::WalFlushMode;
use engramdb::common::types::{ColumnDef, DataType, EngineType, TableDef};
use engramdb::common::EngramDbError;
use engramdb::executor::operators::pragma::execute;
use engramdb::sql::ast::PragmaStmt;
use engramdb::storage::database::Database;
use engramdb::{QueryResult, Value};

/// The size of the file of the database.
const FILE_BYTES: u64 = 1_000_000;

fn open_db() -> Database {
    Database::open(":memory:")
}

fn exec(db: &mut Database, name: &str, arg: Option<&str>) -> QueryResult {
    execute(db, &PragmaStmt { name: name.into(), arg: arg.map(|s| s.into()) }, FILE_BYTES).unwrap()
}

fn exec_err(db: &mut Database, name: &str, arg: Option<&str>) -> EngramDbError {
    execute(db, &PragmaStmt { name: name.into(), arg: arg.map(|s| s.into()) }, FILE_BYTES).unwrap_err()
}

#[test]
fn test_table_info_basic() {
    let mut db = open_db();
    db.create_table(TableDef {
        id: 0,
        name: "users".into(),
        columns: vec![
            ColumnDef {
                name: "id".into(), data_type: DataType::Int32,
                nullable: false, is_primary_key: true, default_value: None, auto_increment: false,
            },
            ColumnDef {
                name: "name".into(), data_type: DataType::Varchar,
                nullable: true, is_primary_key: false, default_value: None, auto_increment: false,
            },
        ],
        row_count: 0, indexes: vec![], cluster_key: None, foreign_keys: vec![],
        engine: EngineType::Columnar,
        next_auto_increment_id: 0, ttl_seconds: None, ttl_column: None,
    }).unwrap();

    let r = exec(&mut db, "table_info", Some("users"));
    assert_eq!(r.rows.len(), 2);
    assert_eq!(r.columns, vec!["cid", "name", "type", "notnull", "dflt_value", "pk"]);

    assert_eq!(r.rows[0][0], Value::Int32(0));
    assert_eq!(r.rows[0][1], Value::Varchar("id".into()));
    assert_eq!(r.rows[0][3], Value::Boolean(true));
    assert_eq!(r.rows[0][4], Value::Null);
    assert_eq!(r.rows[0][5], Value::Boolean(true));

    assert_eq!(r.rows[1][1], Value::Varchar("name".into()));
    assert_eq!(r.rows[1][3], Value::Boolean(false));
    assert_eq!(r.rows[1][5], Value::Boolean(false));
}

#[test]
fn test_table_info_errors() {
    let mut db = open_db();

    let err = exec_err(&mut db, "table_info", None);
    assert!(matches!(err, EngramDbError::Parse(_)));

    let err = exec_err(&mut db, "table_info", Some("nope"));
    assert!(matches!(err, EngramDbError::TableNotFound(_)));
}

#[test]
fn test_database_list() {
    let mut db = open_db();
    let r = exec(&mut db, "database_list", None);
    assert_eq!(r.rows.len(), 1);
    assert_eq!(r.rows[0][0], Value::Int32(0));
    assert_eq!(r.rows[0][1], Value::Varchar("main".into()));
}

#[test]
fn test_tables_and_columns_info() {
    let mut db = open_db();
    let mk_col = |name: &str, dt: DataType| ColumnDef {
        name: name.into(), data_type: dt, nullable: true,
        is_primary_key: false, default_value: None, auto_increment: false,
    };
    let mk_def = |name: &str, cols: Vec<ColumnDef>, engine: EngineType| {
        TableDef {
            id: 0, name: name.into(), columns: cols, row_count: 0, indexes: vec![],
            cluster_key: None, foreign_keys: vec![], engine,
            next_auto_increment_id: 0, ttl_seconds: None, ttl_column: None,
        }
    };
    db.create_table(mk_def("b_tbl", vec![mk_col("c1", DataType::Int32)], EngineType::Columnar)).unwrap();
    db.create_table(mk_def("a_tbl", vec![mk_col("x", DataType::Varchar)], EngineType::Memory)).unwrap();

    let r = exec(&mut db, "information_schema_tables", None);
    assert_eq!(r.rows.len(), 2);
    assert_eq!(r.rows[0][0], Value::Varchar("a_tbl".into()));
    assert_eq!(r.rows[1][0], Value::Varchar("b_tbl".into()));
    assert_eq!(r.rows[0][1], Value::Varchar("BASE TABLE".into()));

    let r2 = exec(&mut db, "tables", None);
    assert_eq!(r2.rows.len(), 2);

    let r = exec(&mut db, "information_schema_columns", None);
    assert_eq!(r.rows.len(), 2);
    assert_eq!(r.rows[0][0], Value::Varchar("a_tbl".into()));
    assert_eq!(r.rows[0][2], Value::Int32(0));

    let r2 = exec(&mut db, "columns", None);
    assert_eq!(r2.rows.len(), 2);
}

#[test]
fn test_indexes_info() {
    let mut db = open_db();
    db.create_table(TableDef {
        id: 0,
        name: "t".into(),
        columns: vec![
            ColumnDef {
                name: "id".into(), data_type: DataType::Int32,
                nullable: false, is_primary_key: true, default_value: None, auto_increment: false,
            },
            ColumnDef {
                name: "v".into(), data_type: DataType::Int32,
                nullable: true, is_primary_key: false, default_value: None, auto_increment: false,
            },
        ],
        row_count: 0, indexes: vec![], cluster_key: None, foreign_keys: vec![],
        engine: EngineType::Columnar,
        next_auto_increment_id: 0, ttl_seconds: None, ttl_column: None,
    }).unwrap();
    db.create_index("t", "idx_v", &vec![1usize], &vec![], false).unwrap();

    // information_schema_indexes
    let r = exec(&mut db, "information_schema_indexes", None);
    assert_eq!(r.rows.len(), 1);
    assert_eq!(r.rows[0][0], Value::Varchar("t".into()));
    assert_eq!(r.rows[0][1], Value::Varchar("idx_v".into()));
    assert_eq!(r.rows[0][3], Value::Varchar("v".into()));

    // index_list
    let r = exec(&mut db, "index_list", Some("t"));
    assert_eq!(r.rows.len(), 1);
    assert_eq!(r.rows[0][1], Value::Varchar("idx_v".into()));
    assert_eq!(r.rows[0][3], Value::Boolean(false));

    let r = exec(&mut db, "index_info", Some("t"));
    assert_eq!(r.rows.len(), 1);
    assert_eq!(r.rows[0][0], Value::Int32(0));
    assert_eq!(r.rows[0][1], Value::Varchar("v".into()));
    assert_eq!(r.rows[0][2], Value::Varchar("idx_v".into()));

    assert!(matches!(exec_err(&mut db, "index_info", None), EngramDbError::Parse(_)));
    assert!(matches!(exec_err(&mut db, "index_list", Some("nope")), EngramDbError::TableNotFound(_)));
}

#[test]
fn test_journal_mode() {
    let mut db = open_db();

    let r = exec(&mut db, "journal_mode", None);
    assert_eq!(r.rows[0][0], Value::Varchar("wal".into()));

    let r = exec(&mut db, "journal_mode", Some("delete"));
    assert_eq!(r.rows[0][0], Value::Varchar("DELETE".into()));
    assert_eq!(db.config.wal_flush_mode, WalFlushMode::Periodic);
    let r = exec(&mut db, "journal_mode", Some("off"));
    assert_eq!(db.config.wal_flush_mode, WalFlushMode::BufferFull);
    let r = exec(&mut db, "journal_mode", Some("wal"));
    assert_eq!(r.rows[0][0], Value::Varchar("WAL".into()));
    assert_eq!(db.config.wal_flush_mode, WalFlushMode::Sync);

    let err = exec_err(&mut db, "journal_mode", Some("bogus"));
    assert!(matches!(err, EngramDbError::Parse(_)));
}

#[test]
fn test_synchronous() {
    let mut db = open_db();

    let r = exec(&mut db, "synchronous", None);
    assert_eq!(r.rows[0][0], Value::Varchar("2".into()));
    exec(&mut db, "synchronous", Some("off"));
    assert_eq!(db.config.wal_flush_mode, WalFlushMode::BufferFull);
    exec(&mut db, "synchronous", Some("1"));
    assert_eq!(db.config.wal_flush_mode, WalFlushMode::Periodic);
    let r = exec(&mut db, "synchronous", Some("full"));
    assert_eq!(r.rows[0][0], Value::Varchar("2".into()));
    assert_eq!(db.config.wal_flush_mode, WalFlushMode::Sync);

    assert!(matches!(exec_err(&mut db, "synchronous", Some("9")), EngramDbError::Parse(_)));
}

#[test]
fn test_cache_size() {
    let mut db = open_db();

    let r = exec(&mut db, "cache_size", None);
    assert_eq!(r.rows[0][0], Value::Int64((db.cache_bytes / 1024) as i64));

    exec(&mut db, "cache_size", Some("4096"));
    assert_eq!(db.cache_bytes, 4096 * 1024);

    exec(&mut db, "cache_size", Some("-2048"));
    assert_eq!(db.cache_bytes, 2048 * 1024);

    assert!(matches!(exec_err(&mut db, "cache_size", Some("abc")), EngramDbError::Parse(_)));
}

#[test]
fn test_page_size_and_count() {
    let mut db = open_db();
    let r = exec(&mut db, "page_size", None);
    assert_eq!(r.rows[0][0], Value::Int64(db.config.block_size as i64));

    let r = exec(&mut db, "page_count", None);
    assert_eq!(r.rows[0][0], Value::Int64((FILE_BYTES / db.config.block_size as u64) as i64));
}

#[test]
fn test_unknown_pragma_ok() {
    let mut db = open_db();
    let r = exec(&mut db, "some_unknown_pragma", Some("x"));
    assert_eq!(r.rows[0][0], Value::Varchar("PRAGMA some_unknown_pragma ok".into()));
}
