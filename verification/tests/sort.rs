//! Sorting.
use engramdb::executor::operators::sort::execute;
use engramdb::executor::physical_plan::{SortDirection, SortKey};
use engramdb::executor::vector::{DataChunk, Vector};
use engramdb::float::F64;
use engramdb::Value;

fn double(x: f64) -> F64 {
    F64 { bits: x.to_bits() }
}

fn make_test_chunk() -> DataChunk {
    let ids = Vector::Flat(vec![
        Value::Int64(3), Value::Int64(1), Value::Int64(2),
        Value::Int64(5), Value::Int64(4),
    ]);
    let names = Vector::Flat(vec![
        Value::Varchar("charlie".into()),
        Value::Varchar("alice".into()),
        Value::Varchar("bob".into()),
        Value::Varchar("eve".into()),
        Value::Varchar("dave".into()),
    ]);
    let scores = Vector::Flat(vec![
        Value::Float64(double(88.5)),
        Value::Float64(double(95.0)),
        Value::Float64(double(95.0)),
        Value::Float64(double(72.3)),
        Value::Float64(double(88.5)),
    ]);
    DataChunk {
        columns: vec![ids, names, scores],
        count: 5,
    }
}

#[test]
fn test_sort_single_asc() {
    let chunk = make_test_chunk();
    let keys = vec![SortKey { column_index: 0, direction: SortDirection::Asc }];
    let result = execute(&vec![chunk], &keys, None).unwrap();

    let rows: Vec<Vec<Value>> = result.iter().flat_map(|c| c.to_rows()).collect();
    assert_eq!(rows.len(), 5);
    assert_eq!(rows[0][0], Value::Int64(1));
    assert_eq!(rows[1][0], Value::Int64(2));
    assert_eq!(rows[2][0], Value::Int64(3));
    assert_eq!(rows[3][0], Value::Int64(4));
    assert_eq!(rows[4][0], Value::Int64(5));
}

#[test]
fn test_sort_single_desc() {
    let chunk = make_test_chunk();
    let keys = vec![SortKey { column_index: 0, direction: SortDirection::Desc }];
    let result = execute(&vec![chunk], &keys, None).unwrap();

    let rows: Vec<Vec<Value>> = result.iter().flat_map(|c| c.to_rows()).collect();
    assert_eq!(rows.len(), 5);
    assert_eq!(rows[0][0], Value::Int64(5));
    assert_eq!(rows[4][0], Value::Int64(1));
}

#[test]
fn test_sort_multi_key() {
    let chunk = make_test_chunk();

    let keys = vec![
        SortKey { column_index: 2, direction: SortDirection::Desc },
        SortKey { column_index: 1, direction: SortDirection::Asc },
    ];
    let result = execute(&vec![chunk], &keys, None).unwrap();

    let rows: Vec<Vec<Value>> = result.iter().flat_map(|c| c.to_rows()).collect();
    assert_eq!(rows.len(), 5);

    assert_eq!(rows[0][1], Value::Varchar("alice".into()));
    assert_eq!(rows[1][1], Value::Varchar("bob".into()));
    // 88.5: charlie, dave
    assert_eq!(rows[2][1], Value::Varchar("charlie".into()));
    assert_eq!(rows[3][1], Value::Varchar("dave".into()));
    // 72.3: eve
    assert_eq!(rows[4][1], Value::Varchar("eve".into()));
}

#[test]
fn test_sort_varchar() {
    let chunk = make_test_chunk();
    let keys = vec![SortKey { column_index: 1, direction: SortDirection::Asc }];
    let result = execute(&vec![chunk], &keys, None).unwrap();

    let rows: Vec<Vec<Value>> = result.iter().flat_map(|c| c.to_rows()).collect();
    assert_eq!(rows[0][1], Value::Varchar("alice".into()));
    assert_eq!(rows[1][1], Value::Varchar("bob".into()));
    assert_eq!(rows[2][1], Value::Varchar("charlie".into()));
    assert_eq!(rows[3][1], Value::Varchar("dave".into()));
    assert_eq!(rows[4][1], Value::Varchar("eve".into()));
}

#[test]
fn test_sort_empty() {
    let chunk = DataChunk::new(3);
    let keys = vec![SortKey { column_index: 0, direction: SortDirection::Asc }];
    let result = execute(&vec![chunk], &keys, None).unwrap();
    assert_eq!(result.len(), 1);
    assert_eq!(result[0].count, 0);
}

#[test]
fn test_sort_desc_top_n() {
    let chunk = make_test_chunk();
    let keys = vec![SortKey { column_index: 0, direction: SortDirection::Desc }];

    let result = execute(&vec![chunk], &keys, Some(3)).unwrap();
    let rows: Vec<Vec<Value>> = result.iter().flat_map(|c| c.to_rows()).collect();
    assert_eq!(rows.len(), 3);
    assert_eq!(rows[0][0], Value::Int64(5));
    assert_eq!(rows[1][0], Value::Int64(4));
    assert_eq!(rows[2][0], Value::Int64(3));
}

#[test]
fn test_sort_mixed_direction_top_n() {
    let chunk = make_test_chunk();

    let keys = vec![
        SortKey { column_index: 2, direction: SortDirection::Desc },
        SortKey { column_index: 1, direction: SortDirection::Asc },
    ];
    let result = execute(&vec![chunk], &keys, Some(3)).unwrap();
    let rows: Vec<Vec<Value>> = result.iter().flat_map(|c| c.to_rows()).collect();
    assert_eq!(rows.len(), 3);
    assert_eq!(rows[0][1], Value::Varchar("alice".into()));
    assert_eq!(rows[1][1], Value::Varchar("bob".into()));
    assert_eq!(rows[2][1], Value::Varchar("charlie".into()));
}

#[test]
fn test_sort_asc_top_n() {
    let chunk = make_test_chunk();
    let keys = vec![SortKey { column_index: 0, direction: SortDirection::Asc }];

    let result = execute(&vec![chunk], &keys, Some(2)).unwrap();
    let rows: Vec<Vec<Value>> = result.iter().flat_map(|c| c.to_rows()).collect();
    assert_eq!(rows.len(), 2);
    assert_eq!(rows[0][0], Value::Int64(1));
    assert_eq!(rows[1][0], Value::Int64(2));
}

#[test]
fn columns_beyond_the_first_batch_are_cut() {
    let narrow = DataChunk::from_rows(&[vec![Value::Int64(2)]]);
    let wide = DataChunk::from_rows(&[
        vec![Value::Int64(3), Value::Int64(30)],
        vec![Value::Int64(1), Value::Int64(10)],
    ]);
    let keys = vec![SortKey { column_index: 0, direction: SortDirection::Asc }];
    let out = execute(&vec![narrow, wide], &keys, None).unwrap();
    assert_eq!(out.len(), 1);
    assert_eq!(
        out[0].to_rows(),
        vec![vec![Value::Int64(1)], vec![Value::Int64(2)], vec![Value::Int64(3)]]
    );
}
