//! Definitions of columns and tables.
use engramdb::common::{ColumnDef, DataType, TableDef};

#[test]
fn test_data_type_names() {
    assert_eq!(DataType::Boolean.name(), "BOOLEAN");
    assert_eq!(DataType::Int32.name(), "INT");
    assert_eq!(DataType::Int64.name(), "BIGINT");
    assert_eq!(DataType::Float64.name(), "DOUBLE");
    assert_eq!(DataType::Varchar.name(), "VARCHAR");
}

#[test]
fn test_data_type_fixed_size() {
    assert_eq!(DataType::Boolean.fixed_size(), Some(1));
    assert_eq!(DataType::Int32.fixed_size(), Some(4));
    assert_eq!(DataType::Int64.fixed_size(), Some(8));
    assert_eq!(DataType::Float64.fixed_size(), Some(8));
    assert_eq!(DataType::Varchar.fixed_size(), None);
}

#[test]
fn test_data_type_display() {
    assert_eq!(DataType::Boolean.to_string(), "BOOLEAN");
    assert_eq!(DataType::Int32.to_string(), "INT");
    assert_eq!(DataType::Int64.to_string(), "BIGINT");
    assert_eq!(DataType::Float64.to_string(), "DOUBLE");
    assert_eq!(DataType::Varchar.to_string(), "VARCHAR");
}

#[test]
fn test_data_type_equality() {
    assert_eq!(DataType::Int32, DataType::Int32);
    assert_ne!(DataType::Int32, DataType::Int64);
    assert_ne!(DataType::Boolean, DataType::Varchar);
}

#[test]
fn test_data_type_clone() {
    let dt = DataType::Float64;
    let dt2 = dt.clone();
    assert_eq!(dt, dt2);
}



#[test]
fn test_column_def_new() {
    let col = ColumnDef::new("id", DataType::Int64);
    assert_eq!(col.name, "id");
    assert_eq!(col.data_type, DataType::Int64);
    assert!(col.nullable);
    assert!(!col.is_primary_key);
}

#[test]
fn test_column_def_primary_key() {
    let col = ColumnDef::new("id", DataType::Int64).primary_key();
    assert!(col.is_primary_key);
    assert!(!col.nullable);
}

#[test]
fn test_column_def_not_null() {
    let col = ColumnDef::new("name", DataType::Varchar).not_null();
    assert!(!col.nullable);
    assert!(!col.is_primary_key);
}

#[test]
fn test_column_def_clone() {
    let col = ColumnDef::new("age", DataType::Int32).not_null();
    let col2 = col.clone();
    assert_eq!(col.name, col2.name);
    assert_eq!(col.data_type, col2.data_type);
    assert_eq!(col.nullable, col2.nullable);
}



#[test]
fn test_table_def_new() {
    let cols = vec![
        ColumnDef::new("id", DataType::Int64).primary_key(),
        ColumnDef::new("name", DataType::Varchar),
    ];
    let table = TableDef::new(1, "users", cols);
    assert_eq!(table.id, 1);
    assert_eq!(table.name, "users");
    assert_eq!(table.columns.len(), 2);
    assert_eq!(table.row_count, 0);
}

#[test]
fn test_table_def_primary_key_index() {
    let cols = vec![
        ColumnDef::new("name", DataType::Varchar),
        ColumnDef::new("id", DataType::Int64).primary_key(),
    ];
    let table = TableDef::new(1, "t", cols);
    assert_eq!(table.primary_key_index(), Some(1));
}

#[test]
fn test_table_def_no_primary_key() {
    let cols = vec![
        ColumnDef::new("a", DataType::Int32),
        ColumnDef::new("b", DataType::Int32),
    ];
    let table = TableDef::new(1, "t", cols);
    assert_eq!(table.primary_key_index(), None);
}

#[test]
fn test_table_def_column_index() {
    let cols = vec![
        ColumnDef::new("id", DataType::Int64),
        ColumnDef::new("name", DataType::Varchar),
        ColumnDef::new("age", DataType::Int32),
    ];
    let table = TableDef::new(1, "t", cols);
    assert_eq!(table.column_index("id"), Some(0));
    assert_eq!(table.column_index("name"), Some(1));
    assert_eq!(table.column_index("age"), Some(2));
    assert_eq!(table.column_index("nonexistent"), None);
}

#[test]
fn test_table_def_clone() {
    let cols = vec![ColumnDef::new("id", DataType::Int64).primary_key()];
    let table = TableDef::new(42, "test_table", cols);
    let table2 = table.clone();
    assert_eq!(table.id, table2.id);
    assert_eq!(table.name, table2.name);
    assert_eq!(table.columns.len(), table2.columns.len());
}
