//! Columns, batches and selections.
use engramdb::common::column_data::ColumnData;
use engramdb::executor::vector::{DataChunk, LazyDataChunk, SelectionVector, Vector};
use engramdb::Value;

fn typed_int64(vals: &[i64]) -> ColumnData {
    let v: Vec<Value> = vals.iter().map(|&x| Value::Int64(x)).collect();
    ColumnData::try_from_values(&v).unwrap()
}

#[test]
fn test_vector_flat_basics() {
    let mut v = Vector::from_values(vec![Value::Int64(1), Value::Int64(2)]);
    assert_eq!(v.len(), 2);
    assert!(!v.is_empty());
    assert_eq!(v.get(0), Value::Int64(1));
    v.push(Value::Int64(3));
    assert_eq!(v.len(), 3);
    assert_eq!(v.to_flat(), vec![Value::Int64(1), Value::Int64(2), Value::Int64(3)]);
    assert!(!v.is_typed());
    assert!(v.as_typed().is_none());
}

#[test]
fn test_vector_constant() {
    let mut v = Vector::Constant(Value::Int64(7), 0);
    v.push(Value::Int64(9));
    assert_eq!(v.len(), 1);
    assert_eq!(v.get(0), Value::Int64(7));
    assert_eq!(v.get(100), Value::Int64(7));
    assert_eq!(v.to_flat(), vec![Value::Int64(7)]);

    let c = Vector::Constant(Value::Varchar("x".into()), 5);
    assert_eq!(c.len(), 5);
    assert_eq!(c.to_flat().len(), 5);
}

#[test]
fn test_vector_typed() {
    let d = typed_int64(&[10, 20, 30]);
    let v = Vector::from_typed(d);
    assert_eq!(v.len(), 3);
    assert!(v.is_typed());
    assert_eq!(v.get(1), Value::Int64(20));
    assert_eq!(v.to_flat(), vec![Value::Int64(10), Value::Int64(20), Value::Int64(30)]);
    assert!(v.as_typed().is_some());
}

#[test]
fn test_try_typed_conversion() {
    let flat = Vector::from_values(vec![Value::Int64(1), Value::Int64(2)]);
    assert!(flat.try_typed().is_typed());

    let mixed = Vector::from_values(vec![Value::Int64(1), Value::Varchar("a".into())]);
    assert!(!mixed.try_typed().is_typed());

    let typed = Vector::from_typed(typed_int64(&[1]));
    assert!(typed.try_typed().is_typed());
}

#[test]
fn test_data_chunk_roundtrip() {
    let rows = vec![
        vec![Value::Int64(1), Value::Varchar("a".into())],
        vec![Value::Int64(2), Value::Varchar("b".into())],
    ];
    let chunk = DataChunk::from_rows(&rows);
    assert_eq!(chunk.len(), 2);
    assert_eq!(chunk.num_columns(), 2);
    assert_eq!(chunk.to_rows(), rows);
    assert!(DataChunk::from_rows(&[]).is_empty());
    assert_eq!(DataChunk::new(3).num_columns(), 3);
}

#[test]
fn test_selection_vector_basics() {
    let sel = SelectionVector::all(5);
    assert_eq!(sel.len(), 5);
    assert_eq!(sel.index(3), 3);
    assert_eq!(sel.indices(), &[0, 1, 2, 3, 4]);
    let sel2 = SelectionVector::from_indices(vec![2, 4]);
    assert_eq!(sel2.len(), 2);
    assert_eq!(sel2.index(0), 2);
    assert_eq!(sel2.index(1), 4);
    let mut s = SelectionVector::new();
    assert!(s.is_empty());
    s.push(9);
    s.push(11);
    assert_eq!(s.len(), 2);
    assert_eq!(s.index(1), 11);
}

#[test]
fn test_selection_apply_flat_and_constant() {
    let flat = Vector::from_values(vec![Value::Int64(10), Value::Int64(20), Value::Int64(30)]);
    let sel = SelectionVector::from_indices(vec![0, 2]);
    let filtered = sel.apply_to_vector(&flat);
    assert_eq!(filtered.to_flat(), vec![Value::Int64(10), Value::Int64(30)]);

    let c = Vector::Constant(Value::Int64(5), 100);
    let fc = sel.apply_to_vector(&c);
    assert_eq!(fc.len(), 2);
    assert_eq!(fc.get(0), Value::Int64(5));
}

#[test]
fn test_selection_apply_typed_gather() {
    let typed = Vector::from_typed(typed_int64(&[1, 2, 3, 4]));
    let sel = SelectionVector::from_indices(vec![3, 0]);
    let filtered = sel.apply_to_vector(&typed);
    assert!(filtered.is_typed());
    assert_eq!(filtered.to_flat(), vec![Value::Int64(4), Value::Int64(1)]);
}

#[test]
fn test_selection_apply_chunk_full_clone() {
    let chunk = DataChunk::from_rows(&[
        vec![Value::Int64(1), Value::Int64(2)],
        vec![Value::Int64(3), Value::Int64(4)],
    ]);
    let sel = SelectionVector::all(2);
    let out = sel.apply_to_chunk(&chunk);
    assert_eq!(out.len(), 2);
    assert_eq!(out.to_rows(), chunk.to_rows());
}

#[test]
fn test_lazy_chunk_filter_and_materialize() {
    let chunk = DataChunk::from_rows(&[
        vec![Value::Int64(1)],
        vec![Value::Int64(2)],
        vec![Value::Int64(3)],
        vec![Value::Int64(4)],
    ]);
    let mut lazy = LazyDataChunk::new(chunk.clone());
    assert_eq!(lazy.len(), 4);
    lazy.filter(|i| i % 2 == 0);
    assert_eq!(lazy.len(), 2);

    lazy.filter(|i| i != 0);
    assert_eq!(lazy.len(), 1);
    let out = lazy.materialize();
    assert_eq!(out.to_rows(), vec![vec![Value::Int64(3)]]);
}

#[test]
fn test_lazy_chunk_all_pass_keeps_none() {
    let chunk = DataChunk::from_rows(&[
        vec![Value::Int64(1)],
        vec![Value::Int64(2)],
    ]);
    let mut lazy = LazyDataChunk::new(chunk);
    lazy.filter(|_| true);
    assert!(lazy.selection.is_none());
    assert_eq!(lazy.len(), 2);
    let out = lazy.materialize();
    assert_eq!(out.len(), 2);
}

#[test]
fn test_lazy_chunk_column_with_selection() {
    let chunk = DataChunk::from_rows(&[
        vec![Value::Int64(1), Value::Varchar("a".into())],
        vec![Value::Int64(2), Value::Varchar("b".into())],
        vec![Value::Int64(3), Value::Varchar("c".into())],
    ]);
    let mut lazy = LazyDataChunk::new(chunk);
    lazy.filter(|i| i != 1);
    let (col, sel) = lazy.column_with_selection(0);
    assert_eq!(col.len(), 3);
    let sel = sel.unwrap();
    assert_eq!(sel.len(), 2);

    assert_eq!(col.get(sel.index(0)), Value::Int64(1));
    assert_eq!(col.get(sel.index(1)), Value::Int64(3));
}

#[test]
fn a_full_selection_keeps_its_order() {
    let chunk = DataChunk::from_rows(&[vec![Value::Int64(1)], vec![Value::Int64(2)]]);
    let out = SelectionVector::from_indices(vec![1, 0]).apply_to_chunk(&chunk);
    assert_eq!(out.to_rows(), vec![vec![Value::Int64(2)], vec![Value::Int64(1)]]);
    let twice = SelectionVector::from_indices(vec![1, 1]).apply_to_chunk(&chunk);
    assert_eq!(twice.to_rows(), vec![vec![Value::Int64(2)], vec![Value::Int64(2)]]);
    let none = SelectionVector::from_indices(vec![]).apply_to_chunk(&chunk);
    assert_eq!(none.to_rows(), Vec::<Vec<Value>>::new());
}
