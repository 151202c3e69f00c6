//! Tables as Arrow columns.
use arrow_array::{Array, BooleanArray, Float64Array, Int32Array, Int64Array, StringArray};
use engramdb::common::{DataType, EngramDbError};
use engramdb::datafusion_ext::catalog::{EngramDBCatalog, EngramDBSchema};
use engramdb::datafusion_ext::table_provider::{values_to_array, HybridDBTable};
use engramdb::datafusion_ext::types::{from_arrow_type, to_arrow_type};
use engramdb::float::F64;
use engramdb::Value;

fn double(x: f64) -> F64 {
    F64 { bits: x.to_bits() }
}

fn users() -> HybridDBTable {
    let columns = vec![
        ("id".to_string(), DataType::Int64, false),
        ("name".to_string(), DataType::Varchar, true),
    ];
    let rows = vec![
        vec![Value::Int64(1), Value::Varchar("alice".into())],
        vec![Value::Int64(2), Value::Varchar("bob".into())],
    ];
    HybridDBTable::new("users".to_string(), columns, rows)
}

fn make_test_table() -> HybridDBTable {
    let columns = vec![
        ("id".to_string(), DataType::Int64, false),
        ("name".to_string(), DataType::Varchar, true),
        ("score".to_string(), DataType::Float64, true),
        ("active".to_string(), DataType::Boolean, false),
    ];
    let rows = vec![
        vec![
            Value::Int64(1),
            Value::Varchar("alice".into()),
            Value::Float64(double(95.5)),
            Value::Boolean(true),
        ],
        vec![
            Value::Int64(2),
            Value::Varchar("bob".into()),
            Value::Float64(double(87.0)),
            Value::Boolean(true),
        ],
        vec![
            Value::Int64(3),
            Value::Null,
            Value::Float64(double(72.3)),
            Value::Boolean(false),
        ],
    ];
    HybridDBTable::new("test".to_string(), columns, rows)
}

#[test]
fn test_catalog_schema_list() {
    let catalog = EngramDBCatalog::new();
    let schemas = catalog.schema_names();
    assert!(schemas.contains(&"public".to_string()));
}

#[test]
fn test_register_and_get_table() {
    let mut schema = EngramDBSchema::new();
    schema.register_table("users".to_string(), users());

    assert!(schema.table_exist("users"));
    assert!(!schema.table_exist("nonexistent"));

    let names = schema.table_names();
    assert_eq!(names.len(), 1);
    assert_eq!(names[0], "users");

    assert!(schema.get_table("users").is_some());
}

#[test]
fn test_schema() {
    let table = make_test_table();
    let schema = &table.schema;
    assert_eq!(schema.len(), 4);
    assert_eq!(schema[0].name, "id");
    assert_eq!(schema[1].name, "name");
}

#[test]
fn test_scan_all_columns() {
    let table = make_test_table();
    let arrays = table.scan_projected(&vec![0, 1, 2, 3]).unwrap();
    assert_eq!(arrays.len(), 4);
    assert_eq!(arrays[0].array.len(), 3);
}

#[test]
fn table_provider_test_scan_projection() {
    let table = make_test_table();
    let arrays = table.scan_projected(&vec![0, 2]).unwrap();
    assert_eq!(arrays.len(), 2);
    assert_eq!(arrays[0].array.len(), 3);
}

#[test]
fn test_int64_array() {
    let table = make_test_table();
    let arrays = table.scan_projected(&vec![0]).unwrap();
    let int_arr = arrays[0].array.as_any().downcast_ref::<Int64Array>().unwrap();
    assert_eq!(int_arr.value(0), 1);
    assert_eq!(int_arr.value(1), 2);
    assert_eq!(int_arr.value(2), 3);
}

#[test]
fn test_varchar_array_with_null() {
    let table = make_test_table();
    let arrays = table.scan_projected(&vec![1]).unwrap();
    let str_arr = arrays[0].array.as_any().downcast_ref::<StringArray>().unwrap();
    assert_eq!(str_arr.value(0), "alice");
    assert!(str_arr.is_null(2));
}

#[test]
fn test_type_conversion_roundtrip() {
    let types = vec![
        DataType::Boolean,
        DataType::Int32,
        DataType::Int64,
        DataType::Float64,
        DataType::Varchar,
    ];
    for t in &types {
        let arrow = to_arrow_type(t);
        let back = from_arrow_type(&arrow).unwrap();
        assert_eq!(t, &back);
    }
}

#[test]
fn arrays_of_every_type() {
    let rows = vec![
        vec![Value::Int64(5_000_000_000), Value::Int32(-2), Value::Boolean(true)],
        vec![Value::Null, Value::Int64(1 << 60), Value::Null],
    ];
    let a = values_to_array(&DataType::Int32, &rows, 0).unwrap();
    let a = a.array.as_any().downcast_ref::<Int32Array>().unwrap();
    assert_eq!(a.value(0), 5_000_000_000i64 as i32);
    assert!(a.is_null(1));
    let a = values_to_array(&DataType::Float64, &rows, 1).unwrap();
    let a = a.array.as_any().downcast_ref::<Float64Array>().unwrap();
    assert_eq!(a.value(0), -2.0);
    assert_eq!(a.value(1), 1152921504606846976.0);
    let a = values_to_array(&DataType::Boolean, &rows, 2).unwrap();
    let a = a.array.as_any().downcast_ref::<BooleanArray>().unwrap();
    assert!(a.value(0));
    assert!(a.is_null(1));
    // A column that is not there holds nothing.
    let a = values_to_array(&DataType::Int64, &rows, 7).unwrap();
    assert_eq!(a.array.null_count(), 2);
    let a = values_to_array(&DataType::Varchar, &vec![], 0).unwrap();
    assert_eq!(a.array.len(), 0);
}

#[test]
fn arrays_of_other_types_are_refused() {
    let rows = vec![vec![Value::Varchar("x".into())]];
    match values_to_array(&DataType::Int64, &rows, 0) {
        Err(EngramDbError::Internal(s)) => {
            assert_eq!(s, "Type mismatch: expected Int64 at column 0");
        }
        other => panic!("{:?}", other),
    }
    assert!(matches!(
        values_to_array(&DataType::Blob, &rows, 0),
        Err(EngramDbError::NotSupported(_))
    ));
}

#[test]
fn catalog_takes_the_place_of_a_table() {
    let mut catalog = EngramDBCatalog::default();
    catalog.register_table("users", users());
    catalog.register_table("users", make_test_table());
    let schema = catalog.schema("public").unwrap();
    assert_eq!(schema.table_names(), vec!["users"]);
    assert_eq!(schema.get_table("users").unwrap().table.columns.len(), 4);
    assert!(catalog.schema("private").is_none());
}

#[test]
fn a_registered_table_comes_back_with_its_schema() {
    let mut schema = EngramDBSchema::new();
    schema.register_table("people".to_string(), users());
    let table = schema.get_table("people").unwrap();
    assert_eq!((table.table_name.as_str(), table.table.name.as_str()), ("users", "users"));
    let fields: Vec<(&str, bool)> =
        table.schema.iter().map(|f| (f.name.as_str(), f.nullable)).collect();
    assert_eq!(fields, vec![("id", false), ("name", true)]);
    assert_eq!(table.schema[0].data_type, to_arrow_type(&DataType::Int64));
    assert_eq!(table.schema[1].data_type, to_arrow_type(&DataType::Varchar));
}
