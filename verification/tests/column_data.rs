//! Columns of one type.
use engramdb::common::column_data::{BitVec, ColumnData};
use engramdb::float::{F32, F64};
use engramdb::Value;

fn single(x: f32) -> F32 {
    F32 { bits: x.to_bits() }
}

fn roundtrip(values: Vec<Value>) {
    let col = ColumnData::try_from_values(&values).expect("pure column");
    assert_eq!(col.len(), values.len());
    let back: Vec<Value> = col.to_values();
    assert_eq!(back, values, "roundtrip mismatch");

    for (i, v) in values.iter().enumerate() {
        assert_eq!(&col.get(i), v);
    }

    let expected_nulls = values.iter().filter(|v| v.is_null()).count();
    assert_eq!(col.has_nulls(), expected_nulls > 0);
}

#[test]
fn test_bitvec() {
    let mut bv = BitVec::new(200);
    assert_eq!(bv.len(), 200);
    bv.set(0, true);
    bv.set(63, true);
    bv.set(64, true);
    bv.set(199, true);
    bv.set(100, true);
    assert!(bv.test(0));
    assert!(bv.test(63));
    assert!(bv.test(64));
    assert!(bv.test(199));
    assert!(bv.test(100));
    assert!(!bv.test(1));
    assert!(!bv.test(62));
    assert!(!bv.test(65));
    assert!(!bv.test(198));
    assert_eq!(bv.count_ones(), 5);
    bv.set(63, false);
    assert_eq!(bv.count_ones(), 4);
}

#[test]
fn test_int64_roundtrip() {
    roundtrip(vec![
        Value::Int64(1), Value::Int64(-5), Value::Null, Value::Int64(i64::MAX),
    ]);
    roundtrip((0..300).map(|i| Value::Int64(i as i64)).collect());
}

#[test]
fn test_int32_roundtrip() {
    roundtrip(vec![Value::Int32(1), Value::Int32(-5), Value::Null, Value::Int32(7)]);
}

#[test]
fn test_float_roundtrip() {
    roundtrip(vec![Value::Float64(F64 { bits: (1.5f64).to_bits() }), Value::Null, Value::Float64(F64 { bits: (-0.0f64).to_bits() })]);
    roundtrip(vec![Value::Float32(F32 { bits: (1.5f32).to_bits() }), Value::Null, Value::Float32(F32 { bits: (-0.0f32).to_bits() })]);
}

#[test]
fn test_varchar_roundtrip() {
    roundtrip(vec![
        Value::Varchar("hello".into()),
        Value::Null,
        Value::Varchar("".into()),
        Value::Varchar("中文测试".into()),
    ]);
}

#[test]
fn test_json_blob_roundtrip() {
    roundtrip(vec![Value::Json("{\"a\":1}".into()), Value::Null, Value::Json("{}".into())]);
    roundtrip(vec![Value::Blob(vec![1, 2, 3]), Value::Null, Value::Blob(vec![])]);
}

#[test]
fn test_vector_roundtrip() {
    roundtrip(vec![
        Value::Vector(vec![single(1.0), single(2.0), single(3.0)]),
        Value::Null,
        Value::Vector(vec![]),
    ]);
    roundtrip(vec![
        Value::VectorInt8(vec![1, -1, 2]),
        Value::Null,
        Value::VectorInt8(vec![]),
    ]);
}

#[test]
fn test_timestamp_boolean_roundtrip() {
    roundtrip(vec![Value::Timestamp(1718409600000), Value::Null, Value::Timestamp(0)]);
    roundtrip(vec![Value::Boolean(true), Value::Null, Value::Boolean(false)]);
}

#[test]
fn test_no_nulls_fast_path() {
    let col = ColumnData::try_from_values(&[Value::Int64(1), Value::Int64(2)]).unwrap();
    assert!(col.nulls.is_none());
    assert!(!col.has_nulls());
}

#[test]
fn test_all_null_rejected() {
    assert!(ColumnData::try_from_values(&[Value::Null, Value::Null]).is_none());
}

#[test]
fn test_mixed_types_rejected() {

    assert!(ColumnData::try_from_values(&[Value::Int32(1), Value::Int64(2)]).is_none());
    assert!(ColumnData::try_from_values(&[Value::Int64(1), Value::Float64(F64 { bits: (2.0f64).to_bits() })]).is_none());
    assert!(ColumnData::try_from_values(&[Value::Int64(1), Value::Varchar("x".into())]).is_none());
    assert!(ColumnData::try_from_values(&[Value::Int64(1), Value::Null, Value::Boolean(true)]).is_none());
}

#[test]
fn test_large_column() {

    let mut values = Vec::with_capacity(5000);
    for i in 0..5000 {
        if i % 7 == 0 {
            values.push(Value::Null);
        } else {
            values.push(Value::Int64(i as i64));
        }
    }
    roundtrip(values);
}
