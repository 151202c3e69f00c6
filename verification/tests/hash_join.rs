//! Joins on equal keys.
use engramdb::common::column_data::ColumnData;
use engramdb::executor::operators::hash_join::execute;
use engramdb::executor::physical_plan::JoinType;
use engramdb::executor::vector::{DataChunk, Vector};
use engramdb::Value;

fn make_left_chunk() -> DataChunk {
    let ids = Vector::Flat(vec![
        Value::Int64(1), Value::Int64(2), Value::Int64(3),
        Value::Int64(4), Value::Int64(5),
    ]);
    let names = Vector::Flat(vec![
        Value::Varchar("alice".into()),
        Value::Varchar("bob".into()),
        Value::Varchar("charlie".into()),
        Value::Varchar("dave".into()),
        Value::Varchar("eve".into()),
    ]);
    DataChunk { columns: vec![ids, names], count: 5 }
}

fn make_right_chunk() -> DataChunk {
    let user_ids = Vector::Flat(vec![
        Value::Int64(1), Value::Int64(2), Value::Int64(2),
        Value::Int64(3), Value::Int64(6),
    ]);
    let orders = Vector::Flat(vec![
        Value::Varchar("order_a".into()),
        Value::Varchar("order_b1".into()),
        Value::Varchar("order_b2".into()),
        Value::Varchar("order_c".into()),
        Value::Varchar("order_f".into()),
    ]);
    DataChunk { columns: vec![user_ids, orders], count: 5 }
}

#[test]
fn test_inner_join_typed_matches_flat() {
    let left_data = ColumnData::try_from_values(&vec![
        Value::Int64(1), Value::Null, Value::Int64(2), Value::Int64(3), Value::Int64(4),
    ]).unwrap();
    let left_vals = left_data.to_values();
    let left_typed = DataChunk {
        columns: vec![Vector::Typed(left_data), Vector::Flat(vec![Value::Int64(10), Value::Int64(20), Value::Int64(30), Value::Int64(40), Value::Int64(50)])],
        count: 5,
    };
    let left_flat = DataChunk {
        columns: vec![Vector::Flat(left_vals), Vector::Flat(vec![Value::Int64(10), Value::Int64(20), Value::Int64(30), Value::Int64(40), Value::Int64(50)])],
        count: 5,
    };

    let right_data = ColumnData::try_from_values(&vec![
        Value::Int64(2), Value::Null, Value::Int64(1), Value::Int64(3),
    ]).unwrap();
    let right_vals = right_data.to_values();
    let right_typed = DataChunk {
        columns: vec![Vector::Typed(right_data), Vector::Flat(vec![Value::Int64(100), Value::Int64(200), Value::Int64(300), Value::Int64(400)])],
        count: 4,
    };
    let right_flat = DataChunk {
        columns: vec![Vector::Flat(right_vals), Vector::Flat(vec![Value::Int64(100), Value::Int64(200), Value::Int64(300), Value::Int64(400)])],
        count: 4,
    };

    let typed = execute(&vec![left_typed], &vec![right_typed], &vec![0], &vec![0], JoinType::Inner).unwrap();
    let flat = execute(&vec![left_flat], &vec![right_flat], &vec![0], &vec![0], JoinType::Inner).unwrap();

    let typed_rows: Vec<Vec<Value>> = typed.iter().flat_map(|c| c.to_rows()).collect();
    let flat_rows: Vec<Vec<Value>> = flat.iter().flat_map(|c| c.to_rows()).collect();

    let mut ts: Vec<String> = typed_rows.iter().map(|r| format!("{:?}", r)).collect();
    let mut fs: Vec<String> = flat_rows.iter().map(|r| format!("{:?}", r)).collect();
    ts.sort();
    fs.sort();
    assert_eq!(ts, fs);

    assert_eq!(ts.len(), 3);
}

#[test]
fn test_inner_join() {
    let left = vec![make_left_chunk()];
    let right = vec![make_right_chunk()];

    let result = execute(&left, &right, &vec![0], &vec![0], JoinType::Inner).unwrap();
    let total_rows: usize = result.iter().map(|c| c.count).sum();

    assert_eq!(total_rows, 4);
}

#[test]
fn test_left_join() {
    let left = vec![make_left_chunk()];
    let right = vec![make_right_chunk()];

    let result = execute(&left, &right, &vec![0], &vec![0], JoinType::Left).unwrap();
    let total_rows: usize = result.iter().map(|c| c.count).sum();

    assert_eq!(total_rows, 6);
}

#[test]
fn test_right_join() {
    let left = vec![make_left_chunk()];
    let right = vec![make_right_chunk()];

    let result = execute(&left, &right, &vec![0], &vec![0], JoinType::Right).unwrap();
    let total_rows: usize = result.iter().map(|c| c.count).sum();

    assert_eq!(total_rows, 5);
}

#[test]
fn test_full_join() {
    let left = vec![make_left_chunk()];
    let right = vec![make_right_chunk()];

    let result = execute(&left, &right, &vec![0], &vec![0], JoinType::Full).unwrap();
    let total_rows: usize = result.iter().map(|c| c.count).sum();

    assert_eq!(total_rows, 7);
}

#[test]
fn test_inner_join_empty_right() {
    let left = vec![make_left_chunk()];
    let right = vec![];

    let result = execute(&left, &right, &vec![0], &vec![0], JoinType::Inner).unwrap();
    assert!(result.is_empty());
}

#[test]
fn test_left_join_empty_right() {
    let left = vec![make_left_chunk()];
    let right = vec![];

    let result = execute(&left, &right, &vec![0], &vec![0], JoinType::Left).unwrap();
    let total_rows: usize = result.iter().map(|c| c.count).sum();
    assert_eq!(total_rows, 5);

    let all_rows: Vec<_> = result.iter().flat_map(|c| c.to_rows()).collect();
    for row in &all_rows {
        assert_eq!(row.len(), 3);
        assert_eq!(row[2], Value::Null);
    }
}

#[test]
fn test_null_key_no_match() {
    let left = DataChunk {
        columns: vec![Vector::Flat(vec![
            Value::Int64(1), Value::Null, Value::Int64(3),
        ])],
        count: 3,
    };
    let right = DataChunk {
        columns: vec![Vector::Flat(vec![
            Value::Int64(1), Value::Int64(2), Value::Int64(3),
        ])],
        count: 3,
    };

    let result = execute(
        &vec![left], &vec![right], &vec![0], &vec![0], JoinType::Inner
    ).unwrap();
    let total_rows: usize = result.iter().map(|c| c.count).sum();

    assert_eq!(total_rows, 2);
}

#[test]
fn test_multi_key_join() {
    let left = DataChunk {
        columns: vec![
            Vector::Flat(vec![Value::Int64(1), Value::Int64(1), Value::Int64(2)]),
            Vector::Flat(vec![Value::Int64(10), Value::Int64(20), Value::Int64(10)]),
        ],
        count: 3,
    };
    let right = DataChunk {
        columns: vec![
            Vector::Flat(vec![Value::Int64(1), Value::Int64(1), Value::Int64(2)]),
            Vector::Flat(vec![Value::Int64(10), Value::Int64(30), Value::Int64(10)]),
            Vector::Flat(vec![
                Value::Varchar("match1".into()),
                Value::Varchar("nomatch".into()),
                Value::Varchar("match2".into()),
            ]),
        ],
        count: 3,
    };

    let result = execute(
        &vec![left], &vec![right], &vec![0, 1], &vec![0, 1], JoinType::Inner
    ).unwrap();
    let total_rows: usize = result.iter().map(|c| c.count).sum();

    assert_eq!(total_rows, 2);
}
