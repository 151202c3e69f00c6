//! Changes of tables.
use engramdb::common::types::{self, DataType, EngineType, TableDef};
use engramdb::common::EngramDbError;
use engramdb::executor::operators::alter_table::execute;
use engramdb::sql::ast::{AlterTableOp, AlterTableStmt, ColumnDef};
use engramdb::storage::database::Database;
use engramdb::Value;

fn mk_col(name: &str, dt: DataType) -> types::ColumnDef {
    types::ColumnDef {
        name: name.into(), data_type: dt, nullable: true,
        is_primary_key: false, default_value: None, auto_increment: false,
    }
}

fn open_db() -> Database {
    let mut db = Database::open(":memory:");
    db.create_table(TableDef {
        id: 0,
        name: "t".into(),
        columns: vec![
            mk_col("a", DataType::Int32),
            mk_col("b", DataType::Varchar),
        ],
        row_count: 0, indexes: vec![], cluster_key: None, foreign_keys: vec![],
        engine: EngineType::Columnar,
        next_auto_increment_id: 0, ttl_seconds: None, ttl_column: None,
    }).unwrap();
    db
}

#[test]
fn test_add_column() {
    let mut db = open_db();
    let stmt = AlterTableStmt {
        table_name: "t".into(),
        operation: AlterTableOp::AddColumn {
            column_def: ColumnDef {
                name: "c".into(), data_type: DataType::Int64,
                nullable: true, primary_key: false, auto_increment: false, unique: false,
            },
        },
    };
    let r = execute(&mut db, &stmt).unwrap();
    assert_eq!(r.rows[0][0], Value::Varchar("Column added to t".into()));
    let def = &db.get_table("t").unwrap().def;
    assert_eq!(def.columns.len(), 3);
    assert_eq!(def.columns[2].name, "c");
    assert_eq!(def.columns[2].data_type, DataType::Int64);
}

#[test]
fn test_add_column_not_found() {
    let mut db = open_db();
    let stmt = AlterTableStmt {
        table_name: "missing".into(),
        operation: AlterTableOp::AddColumn {
            column_def: ColumnDef {
                name: "c".into(), data_type: DataType::Int32,
                nullable: true, primary_key: false, auto_increment: false, unique: false,
            },
        },
    };
    let err = execute(&mut db, &stmt).unwrap_err();
    assert!(matches!(err, EngramDbError::TableNotFound(_)));
}

#[test]
fn test_drop_column() {
    let mut db = open_db();
    let stmt = AlterTableStmt {
        table_name: "t".into(),
        operation: AlterTableOp::DropColumn { column_name: "b".into() },
    };
    let r = execute(&mut db, &stmt).unwrap();
    assert_eq!(r.rows[0][0], Value::Varchar("Column 'b' dropped from t".into()));
    assert_eq!(db.get_table("t").unwrap().def.columns.len(), 1);
    assert_eq!(db.get_table("t").unwrap().def.columns[0].name, "a");

    let stmt = AlterTableStmt {
        table_name: "t".into(),
        operation: AlterTableOp::DropColumn { column_name: "zzz".into() },
    };
    assert!(matches!(execute(&mut db, &stmt).unwrap_err(), EngramDbError::ColumnNotFound(_)));

    let stmt = AlterTableStmt {
        table_name: "missing".into(),
        operation: AlterTableOp::DropColumn { column_name: "a".into() },
    };
    assert!(matches!(execute(&mut db, &stmt).unwrap_err(), EngramDbError::TableNotFound(_)));
}

#[test]
fn test_rename_column() {
    let mut db = open_db();
    let stmt = AlterTableStmt {
        table_name: "t".into(),
        operation: AlterTableOp::RenameColumn { old_name: "b".into(), new_name: "bb".into() },
    };
    let r = execute(&mut db, &stmt).unwrap();
    assert_eq!(r.rows[0][0], Value::Varchar("Column 'b' renamed to 'bb'".into()));
    assert_eq!(db.get_table("t").unwrap().def.columns[1].name, "bb");

    let stmt = AlterTableStmt {
        table_name: "t".into(),
        operation: AlterTableOp::RenameColumn { old_name: "zzz".into(), new_name: "x".into() },
    };
    assert!(matches!(execute(&mut db, &stmt).unwrap_err(), EngramDbError::ColumnNotFound(_)));

    let stmt = AlterTableStmt {
        table_name: "missing".into(),
        operation: AlterTableOp::RenameColumn { old_name: "a".into(), new_name: "x".into() },
    };
    assert!(matches!(execute(&mut db, &stmt).unwrap_err(), EngramDbError::TableNotFound(_)));
}

#[test]
fn test_rename_table() {
    let mut db = open_db();
    let stmt = AlterTableStmt {
        table_name: "t".into(),
        operation: AlterTableOp::RenameTable { new_name: "t2".into() },
    };
    let r = execute(&mut db, &stmt).unwrap();
    assert_eq!(r.rows[0][0], Value::Varchar("Table renamed to 't2'".into()));
    assert!(db.get_table("t2").is_some());
    assert!(db.get_table("t").is_none());
    assert_eq!(db.get_table("t2").unwrap().def.name, "t2");

    let stmt = AlterTableStmt {
        table_name: "missing".into(),
        operation: AlterTableOp::RenameTable { new_name: "x".into() },
    };
    assert!(matches!(execute(&mut db, &stmt).unwrap_err(), EngramDbError::TableNotFound(_)));

    db.create_table(TableDef {
        id: 0,
        name: "other".into(),
        columns: vec![mk_col("a", DataType::Int32)],
        row_count: 0, indexes: vec![], cluster_key: None, foreign_keys: vec![],
        engine: EngineType::Columnar,
        next_auto_increment_id: 0, ttl_seconds: None, ttl_column: None,
    }).unwrap();
    let stmt = AlterTableStmt {
        table_name: "t2".into(),
        operation: AlterTableOp::RenameTable { new_name: "other".into() },
    };
    assert!(matches!(execute(&mut db, &stmt).unwrap_err(), EngramDbError::ConstraintViolation(_)));

    assert!(db.get_table("t2").is_some());
}
