//! The order of values.
use std::cmp::Ordering;

use engramdb::common::{total_cmp, total_eq};
use engramdb::float::{F32, F64};
use engramdb::Value;

#[test]
fn test_null_is_smallest() {
    assert_eq!(total_cmp(&Value::Null, &Value::Null), Ordering::Equal);
    assert_eq!(total_cmp(&Value::Null, &Value::Int64(0)), Ordering::Less);
    assert_eq!(total_cmp(&Value::Int64(0), &Value::Null), Ordering::Greater);
    assert_eq!(total_cmp(&Value::Null, &Value::Varchar("z".into())), Ordering::Less);
}

#[test]
fn test_same_int_types() {
    assert_eq!(total_cmp(&Value::Int32(1), &Value::Int32(2)), Ordering::Less);
    assert_eq!(total_cmp(&Value::Int64(5), &Value::Int64(5)), Ordering::Equal);
    assert!(total_cmp(&Value::Int64(100), &Value::Int32(50)) == Ordering::Greater);
}

#[test]
fn test_cross_type_int_widening() {

    assert_eq!(total_cmp(&Value::Int32(5), &Value::Int64(5)), Ordering::Equal);
    assert_eq!(total_cmp(&Value::Int32(5), &Value::Int64(10)), Ordering::Less);

    assert_eq!(total_cmp(&Value::Timestamp(100), &Value::Int64(100)), Ordering::Equal);
    assert_eq!(total_cmp(&Value::Timestamp(50), &Value::Int64(100)), Ordering::Less);

    assert_eq!(total_cmp(&Value::Int32(100), &Value::Timestamp(100)), Ordering::Equal);
}

#[test]
fn test_cross_type_int_to_float() {

    assert_eq!(total_cmp(&Value::Int32(5), &Value::Float64(F64 { bits: (5.0f64).to_bits() })), Ordering::Equal);
    assert_eq!(total_cmp(&Value::Int32(5), &Value::Float64(F64 { bits: (5.5f64).to_bits() })), Ordering::Less);

    assert_eq!(total_cmp(&Value::Timestamp(1000), &Value::Float64(F64 { bits: (1000.0f64).to_bits() })), Ordering::Equal);
    assert_eq!(total_cmp(&Value::Timestamp(1000), &Value::Float64(F64 { bits: (1000.5f64).to_bits() })), Ordering::Less);

    assert_eq!(total_cmp(&Value::Float64(F64 { bits: (f64::NAN).to_bits() }), &Value::Float64(F64 { bits: (5.0f64).to_bits() })), Ordering::Equal);
}

#[test]
fn test_boolean_standard_order() {

    assert_eq!(total_cmp(&Value::Boolean(false), &Value::Boolean(true)), Ordering::Less);
    assert_eq!(total_cmp(&Value::Boolean(true), &Value::Boolean(false)), Ordering::Greater);
    assert_eq!(total_cmp(&Value::Boolean(true), &Value::Boolean(true)), Ordering::Equal);
}

#[test]
fn test_varchar_lexicographic() {
    assert_eq!(total_cmp(&Value::Varchar("a".into()), &Value::Varchar("b".into())), Ordering::Less);
    assert_eq!(total_cmp(&Value::Varchar("abc".into()), &Value::Varchar("ab".into())), Ordering::Greater);
}

#[test]
fn test_unrelated_types_total_order() {

    assert_eq!(total_cmp(&Value::Int64(100), &Value::Varchar("a".into())), Ordering::Less); // rank 2 < 4
    assert_eq!(total_cmp(&Value::Varchar("a".into()), &Value::Float64(F64 { bits: (1.0f64).to_bits() })), Ordering::Greater); // rank 4 > 3

    assert_eq!(total_cmp(&Value::Vector(vec![F32 { bits: 1.0f32.to_bits() }]), &Value::Blob(vec![1])), Ordering::Less);
}

#[test]
fn test_total_eq_null_semantics() {

    assert!(total_eq(&Value::Null, &Value::Null));
    assert!(!total_eq(&Value::Null, &Value::Int64(0)));
    assert!(!total_eq(&Value::Int64(0), &Value::Null));
}

#[test]
fn test_total_eq_cross_type() {
    assert!(total_eq(&Value::Int32(5), &Value::Int64(5)));
    assert!(total_eq(&Value::Int64(100), &Value::Timestamp(100)));
    assert!(!total_eq(&Value::Int32(5), &Value::Int64(6)));
    assert!(total_eq(&Value::Varchar("a".into()), &Value::Varchar("a".into())));
}


#[test]
fn test_semantic_matrix_no_cross_type_implicit() {



    assert_eq!(total_cmp(&Value::Int32(5), &Value::Int64(10)), Ordering::Less);
}

#[test]
fn test_semantic_matrix_boolean_inverted_in_old_planner() {



    assert_eq!(total_cmp(&Value::Boolean(true), &Value::Boolean(false)), Ordering::Greater);
    assert_ne!(total_cmp(&Value::Boolean(true), &Value::Boolean(false)), Ordering::Less);
}

#[test]
fn test_semantic_matrix_timestamp_in_old_table_sort_falls_through() {



    assert_eq!(total_cmp(&Value::Timestamp(100), &Value::Timestamp(200)), Ordering::Less);
    assert_eq!(total_cmp(&Value::Timestamp(200), &Value::Timestamp(100)), Ordering::Greater);
}

#[test]
fn test_semantic_matrix_float_nan_unified() {



    assert_eq!(total_cmp(&Value::Float64(F64 { bits: (f64::NAN).to_bits() }), &Value::Float64(F64 { bits: (5.0f64).to_bits() })), Ordering::Equal);
    assert_eq!(total_cmp(&Value::Float64(F64 { bits: (5.0f64).to_bits() }), &Value::Float64(F64 { bits: (f64::NAN).to_bits() })), Ordering::Equal);
    assert_eq!(total_cmp(&Value::Float64(F64 { bits: (f64::NAN).to_bits() }), &Value::Float64(F64 { bits: (f64::NAN).to_bits() })), Ordering::Equal);
}
