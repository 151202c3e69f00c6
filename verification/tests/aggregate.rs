//! Aggregates.
use engramdb::common::column_data::ColumnData;
use engramdb::executor::env::{Ask, FloatOp, Reply};
use engramdb::executor::key_index::GroupKeyType;
use engramdb::executor::operators::aggregate::{
    aggregate_chunk_partial, aggregate_typed_partial, execute, execute_grouped, find_int_kind,
    try_execute_grouped_int, PartialAggState,
};
use engramdb::executor::physical_plan::AggregateFunc;
use engramdb::executor::vector::{DataChunk, Vector};
use engramdb::float::F64;
use engramdb::Value;
use rand::Rng;

fn double(x: f64) -> F64 {
    F64 { bits: x.to_bits() }
}

fn shown(v: &Value) -> String {
    match v {
        Value::Null => "NULL".to_string(),
        Value::Boolean(b) => b.to_string(),
        Value::Int32(x) => x.to_string(),
        Value::Int64(x) => x.to_string(),
        Value::Float32(x) => f32::from_bits(x.bits).to_string(),
        Value::Float64(x) => f64::from_bits(x.bits).to_string(),
        Value::Varchar(s) => s.clone(),
        Value::Json(s) => s.clone(),
        Value::Timestamp(x) => x.to_string(),
        other => format!("{:?}", other),
    }
}

fn arith(op: FloatOp, x: f64, y: f64) -> f64 {
    match op {
        FloatOp::Add => x + y,
        FloatOp::Sub => x - y,
        FloatOp::Mul => x * y,
        FloatOp::Div => x / y,
        FloatOp::Rem => x % y,
        FloatOp::Ceil => x.ceil(),
        FloatOp::Floor => x.floor(),
        FloatOp::Trunc => x.trunc(),
        FloatOp::Round => x.round(),
        FloatOp::Sqrt => x.sqrt(),
        FloatOp::Ln => x.ln(),
        FloatOp::Log10 => x.log10(),
        FloatOp::Log2 => x.log2(),
        FloatOp::Pow => x.powf(y),
    }
}

fn env(ask: Ask) -> Reply {
    match ask {
        Ask::Arith(op, x, y) => {
            Reply::Number(double(arith(op, f64::from_bits(x.bits), f64::from_bits(y.bits))))
        }
        Ask::TenTo(n) => Reply::Number(double(10f64.powi(n))),
        Ask::Show(v) => Reply::Text(shown(&v)),
        Ask::ParseFloat(s) => match s.parse::<f64>() {
            Ok(x) => Reply::Number(double(x)),
            Err(_) => Reply::Nothing,
        },
        Ask::JsonNumber(x) => Reply::Text(format!("{:?}", f64::from_bits(x.bits))),
        Ask::Debug(v) => Reply::Text(format!("{:?}", v)),
        Ask::DebugExpr(e) => Reply::Text(format!("{:?}", e)),
        Ask::DebugNames(v) => Reply::Text(format!("{:?}", v)),
        Ask::Now => Reply::Moment(
            std::time::SystemTime::now()
                .duration_since(std::time::UNIX_EPOCH)
                .unwrap_or_default()
                .as_millis() as i64,
        ),
        Ask::Elapsed => Reply::Moment(7),
    }
}

fn make_test_chunk() -> DataChunk {
    // dept_id, salary
    let dept = Vector::Flat(vec![
        Value::Int64(10), Value::Int64(20), Value::Int64(10),
        Value::Int64(30), Value::Int64(20), Value::Int64(10),
    ]);
    let salary = Vector::Flat(vec![
        Value::Int64(5000), Value::Int64(6000), Value::Int64(5500),
        Value::Int64(7000), Value::Int64(6500), Value::Int64(4500),
    ]);
    DataChunk { columns: vec![dept, salary], count: 6 }
}

#[test]
fn test_simple_count() {
    let chunk = make_test_chunk();
    let result = execute(&vec![chunk], &vec![(AggregateFunc::Count, 1, false)], &env).unwrap();
    assert_eq!(result.len(), 1);
    let rows = result[0].to_rows();
    assert_eq!(rows[0][0], Value::Int64(6));
}

#[test]
fn test_simple_sum() {
    let chunk = make_test_chunk();
    let result = execute(&vec![chunk], &vec![(AggregateFunc::Sum, 1, false)], &env).unwrap();
    let rows = result[0].to_rows();
    // 5000 + 6000 + 5500 + 7000 + 6500 + 4500 = 34500
    match &rows[0][0] {
        Value::Float64(f) => assert!((f64::from_bits(f.bits) - 34500.0).abs() < 0.001),
        _ => panic!("expected Float64"),
    }
}

#[test]
fn test_simple_avg_min_max() {
    let chunk = make_test_chunk();
    let aggs = vec![
        (AggregateFunc::Avg, 1, false),
        (AggregateFunc::Min, 1, false),
        (AggregateFunc::Max, 1, false),
    ];
    let result = execute(&vec![chunk], &aggs, &env).unwrap();
    let rows = result[0].to_rows();

    // AVG = 34500 / 6 = 5750
    match &rows[0][0] {
        Value::Float64(f) => assert!((f64::from_bits(f.bits) - 5750.0).abs() < 0.001),
        _ => panic!("expected Float64"),
    }
    // MIN = 4500
    match &rows[0][1] {
        Value::Int64(v) => assert_eq!(*v, 4500),
        _ => panic!("expected Int64"),
    }
    // MAX = 7000
    match &rows[0][2] {
        Value::Int64(v) => assert_eq!(*v, 7000),
        _ => panic!("expected Int64"),
    }
}

#[test]
fn test_grouped_count() {
    let chunk = make_test_chunk();
    let result = execute_grouped(
        &vec![chunk],
        &vec![0],  // GROUP BY dept_id
        &vec![(AggregateFunc::Count, 1, false)], &env).unwrap();

    let total_rows: usize = result.iter().map(|c| c.count).sum();
    assert_eq!(total_rows, 3);

    let all_rows: Vec<_> = result.iter().flat_map(|c| c.to_rows()).collect();

    let dept10 = all_rows.iter().find(|r| r[0] == Value::Int64(10)).unwrap();
    assert_eq!(dept10[1], Value::Int64(3));

    let dept20 = all_rows.iter().find(|r| r[0] == Value::Int64(20)).unwrap();
    assert_eq!(dept20[1], Value::Int64(2));

    let dept30 = all_rows.iter().find(|r| r[0] == Value::Int64(30)).unwrap();
    assert_eq!(dept30[1], Value::Int64(1));
}

#[test]
fn test_grouped_sum_avg() {
    let chunk = make_test_chunk();
    let result = execute_grouped(
        &vec![chunk],
        &vec![0],
        &vec![(AggregateFunc::Sum, 1, false), (AggregateFunc::Avg, 1, false)], &env).unwrap();

    let all_rows: Vec<_> = result.iter().flat_map(|c| c.to_rows()).collect();

    let dept10 = all_rows.iter().find(|r| r[0] == Value::Int64(10)).unwrap();
    match &dept10[1] {
        Value::Float64(f) => assert!((f64::from_bits(f.bits) - 15000.0).abs() < 0.001),
        _ => panic!("expected Float64"),
    }
    match &dept10[2] {
        Value::Float64(f) => assert!((f64::from_bits(f.bits) - 5000.0).abs() < 0.001),
        _ => panic!("expected Float64"),
    }
}

#[test]
fn test_grouped_multi_chunk() {
    let chunk1 = make_test_chunk();
    let chunk2 = DataChunk {
        columns: vec![
            Vector::Flat(vec![Value::Int64(10), Value::Int64(20), Value::Int64(40)]),
            Vector::Flat(vec![Value::Int64(8000), Value::Int64(9000), Value::Int64(10000)]),
        ],
        count: 3,
    };

    let result = execute_grouped(
        &vec![chunk1, chunk2],
        &vec![0],
        &vec![(AggregateFunc::Count, 1, false), (AggregateFunc::Sum, 1, false)], &env).unwrap();

    let all_rows: Vec<_> = result.iter().flat_map(|c| c.to_rows()).collect();
    assert_eq!(all_rows.len(), 4);

    let dept10 = all_rows.iter().find(|r| r[0] == Value::Int64(10)).unwrap();
    assert_eq!(dept10[1], Value::Int64(4));
    match &dept10[2] {
        Value::Float64(f) => assert!((f64::from_bits(f.bits) - 23000.0).abs() < 0.001),
        _ => panic!("expected Float64"),
    }
}

#[test]
fn test_grouped_with_null() {
    let chunk = DataChunk {
        columns: vec![
            Vector::Flat(vec![
                Value::Int64(1), Value::Int64(1), Value::Null,
                Value::Int64(2), Value::Null,
            ]),
            Vector::Flat(vec![
                Value::Int64(10), Value::Int64(20), Value::Int64(30),
                Value::Int64(40), Value::Int64(50),
            ]),
        ],
        count: 5,
    };

    let result = execute_grouped(
        &vec![chunk],
        &vec![0],
        &vec![(AggregateFunc::Count, 1, false)], &env).unwrap();

    let all_rows: Vec<_> = result.iter().flat_map(|c| c.to_rows()).collect();

    let null_group = all_rows.iter().find(|r| r[0] == Value::Null).unwrap();
    assert_eq!(null_group[1], Value::Int64(2));

    let g1 = all_rows.iter().find(|r| r[0] == Value::Int64(1)).unwrap();
    assert_eq!(g1[1], Value::Int64(2));
}

#[test]
fn aggregate_test_empty_input() {
    let result = execute_grouped(
        &vec![],
        &vec![0],
        &vec![(AggregateFunc::Count, 1, false)], &env).unwrap();
    assert!(result.is_empty());
}

#[test]
fn test_count_distinct() {
    let chunk = DataChunk {
        columns: vec![
            Vector::Flat(vec![
                Value::Int64(10), Value::Int64(20), Value::Int64(10),
                Value::Int64(30), Value::Int64(20), Value::Int64(10),
            ]),
        ],
        count: 6,
    };
    let result = execute(&vec![chunk], &vec![(AggregateFunc::Count, 0, true)], &env).unwrap();
    let rows = result[0].to_rows();
    assert_eq!(rows[0][0], Value::Int64(3));
}

#[test]
fn test_count_distinct_all_null() {
    let chunk = DataChunk {
        columns: vec![
            Vector::Flat(vec![
                Value::Null, Value::Null, Value::Null,
            ]),
        ],
        count: 3,
    };
    let result = execute(&vec![chunk], &vec![(AggregateFunc::Count, 0, true)], &env).unwrap();
    let rows = result[0].to_rows();
    assert_eq!(rows[0][0], Value::Int64(0));
}

/// Groups by two columns, of which the second is constant.
fn execute_grouped_original(
    input: &Vec<DataChunk>,
    group_by: &Vec<usize>,
    aggregates: &Vec<(AggregateFunc, usize, bool)>,
) -> Vec<DataChunk> {
    let mut wide: Vec<DataChunk> = Vec::new();
    let mut keys = group_by.clone();
    keys.push(input[0].num_columns());
    for chunk in input {
        let mut c = chunk.clone();
        let n = c.count;
        c.columns.push(Vector::Constant(Value::Varchar("all".into()), n));
        wide.push(c);
    }
    let mut out = execute_grouped(&wide, &keys, aggregates, &env).unwrap();
    for c in out.iter_mut() {
        c.columns.remove(group_by.len());
    }
    out
}

fn sorted_rows(chunks: &Vec<DataChunk>) -> Vec<String> {
    let mut rows: Vec<String> = chunks
        .iter()
        .flat_map(|c| c.to_rows())
        .map(|r| format!("{:?}", r))
        .collect();
    rows.sort();
    rows
}

#[test]
fn test_grouped_int_matches_original_random() {
    let mut rng = rand::thread_rng();
    for trial in 0..20 {
        let n = 50 + trial * 13;
        let pure_int32 = trial % 2 == 1;
        let mut keys: Vec<Value> = Vec::with_capacity(n);
        for _ in 0..n {
            if pure_int32 {
                match rng.gen_range(0..10) {
                    0 => keys.push(Value::Null),
                    _ => keys.push(Value::Int32(rng.gen_range(-20..20))),
                }
            } else {
                match rng.gen_range(0..10) {
                    0 => keys.push(Value::Null),
                    _ => keys.push(Value::Int64(rng.gen_range(-100..100))),
                }
            }
        }
        let vals: Vec<Value> = (0..n)
            .map(|_| Value::Int64(rng.gen_range(0..1000)))
            .collect();
        let chunk = DataChunk {
            columns: vec![Vector::Flat(keys), Vector::Flat(vals)],
            count: n,
        };
        let aggs = vec![
            (AggregateFunc::Count, 1, false),
            (AggregateFunc::Sum, 1, false),
            (AggregateFunc::Min, 1, false),
        ];
        let fast = execute_grouped(&vec![chunk.clone()], &vec![0], &aggs, &env).unwrap();
        let orig = execute_grouped_original(&vec![chunk], &vec![0], &aggs);
        assert_eq!(sorted_rows(&fast), sorted_rows(&orig), "trial {}", trial);
    }
}

#[test]
fn test_grouped_int_null_group() {
    let chunk = DataChunk {
        columns: vec![
            Vector::Flat(vec![
                Value::Int64(10), Value::Null, Value::Int64(10), Value::Null, Value::Int64(20),
            ]),
            Vector::Flat(vec![
                Value::Int64(1), Value::Int64(2), Value::Int64(3), Value::Int64(4), Value::Int64(5),
            ]),
        ],
        count: 5,
    };
    let result = execute_grouped(
        &vec![chunk],
        &vec![0],
        &vec![(AggregateFunc::Count, 1, false), (AggregateFunc::Sum, 1, false)], &env).unwrap();

    let all_rows: Vec<_> = result.iter().flat_map(|c| c.to_rows()).collect();
    assert_eq!(all_rows.len(), 3); // 10 / NULL / 20

    let g10 = all_rows.iter().find(|r| r[0] == Value::Int64(10)).unwrap();
    assert_eq!(g10[1], Value::Int64(2)); // count
    assert_eq!(g10[2], Value::Float64(double(4.0))); // sum=1+3

    let gnull = all_rows.iter().find(|r| r[0] == Value::Null).unwrap();
    assert_eq!(gnull[1], Value::Int64(2)); // count
    assert_eq!(gnull[2], Value::Float64(double(6.0))); // sum=2+4
}

#[test]
fn test_grouped_int_boolean_timestamp() {
    let chunk = DataChunk {
        columns: vec![
            Vector::Flat(vec![
                Value::Boolean(true), Value::Boolean(false), Value::Boolean(true),
                Value::Boolean(false), Value::Null,
            ]),
            Vector::Flat(vec![
                Value::Int64(1), Value::Int64(2), Value::Int64(3), Value::Int64(4), Value::Int64(5),
            ]),
        ],
        count: 5,
    };
    let result = execute_grouped(
        &vec![chunk],
        &vec![0],
        &vec![(AggregateFunc::Sum, 1, false)], &env).unwrap();
    let all_rows: Vec<_> = result.iter().flat_map(|c| c.to_rows()).collect();
    assert_eq!(all_rows.len(), 3);
    let g_true = all_rows.iter().find(|r| r[0] == Value::Boolean(true)).unwrap();
    assert_eq!(g_true[1], Value::Float64(double(4.0))); // 1+3

    let ts_chunk = DataChunk {
        columns: vec![
            Vector::Flat(vec![
                Value::Timestamp(100), Value::Timestamp(200), Value::Timestamp(100),
            ]),
            Vector::Flat(vec![Value::Int64(1), Value::Int64(2), Value::Int64(3)]),
        ],
        count: 3,
    };
    let result = execute_grouped(
        &vec![ts_chunk],
        &vec![0],
        &vec![(AggregateFunc::Sum, 1, false)], &env).unwrap();
    let all_rows: Vec<_> = result.iter().flat_map(|c| c.to_rows()).collect();
    assert_eq!(all_rows.len(), 2);
    let g100 = all_rows.iter().find(|r| r[0] == Value::Timestamp(100)).unwrap();
    assert_eq!(g100[1], Value::Float64(double(4.0)));
}

#[test]
fn test_grouped_int_mixed_type_fallback() {
    let chunk = DataChunk {
        columns: vec![
            Vector::Flat(vec![Value::Int32(1), Value::Int64(1)]),
            Vector::Flat(vec![Value::Int64(10), Value::Int64(20)]),
        ],
        count: 2,
    };
    let result = execute_grouped(
        &vec![chunk],
        &vec![0],
        &vec![(AggregateFunc::Sum, 1, false)], &env).unwrap();
    let all_rows: Vec<_> = result.iter().flat_map(|c| c.to_rows()).collect();

    assert_eq!(all_rows.len(), 2);
    let g32 = all_rows.iter().find(|r| r[0] == Value::Int32(1)).unwrap();
    assert_eq!(g32[1], Value::Float64(double(10.0)));
    let g64 = all_rows.iter().find(|r| r[0] == Value::Int64(1)).unwrap();
    assert_eq!(g64[1], Value::Float64(double(20.0)));
}

#[test]
fn test_grouped_int_all_null_fallback() {
    let chunk = DataChunk {
        columns: vec![
            Vector::Flat(vec![Value::Null, Value::Null, Value::Null]),
            Vector::Flat(vec![Value::Int64(1), Value::Int64(2), Value::Int64(3)]),
        ],
        count: 3,
    };
    let result = execute_grouped(
        &vec![chunk],
        &vec![0],
        &vec![(AggregateFunc::Sum, 1, false)], &env).unwrap();
    let all_rows: Vec<_> = result.iter().flat_map(|c| c.to_rows()).collect();
    assert_eq!(all_rows.len(), 1);
    assert_eq!(all_rows[0][0], Value::Null);
    assert_eq!(all_rows[0][1], Value::Float64(double(6.0)));
}

#[test]
fn test_typed_aggregate_matches_flat() {
    let mut rng = rand::thread_rng();
    for trial in 0..30 {
        let n = 10 + rng.gen_range(0..500);
        let is_float = trial % 2 == 1;
        let values: Vec<Value> = (0..n)
            .map(|_| {
                if rng.gen_bool(0.1) {
                    return Value::Null;
                }
                if is_float {
                    Value::Float64(double(rng.gen_range(-1000.0..1000.0)))
                } else {
                    Value::Int64(rng.gen_range(-100000..100000))
                }
            })
            .collect();
        let data = ColumnData::try_from_values(&values).unwrap();
        let typed_chunk = DataChunk {
            columns: vec![Vector::Typed(data)],
            count: n,
        };
        let flat_chunk = DataChunk {
            columns: vec![Vector::Flat(values)],
            count: n,
        };

        let funcs = [
            AggregateFunc::Count,
            AggregateFunc::Sum,
            AggregateFunc::Avg,
            AggregateFunc::Min,
            AggregateFunc::Max,
        ];
        for func in funcs {
            let typed = execute(&vec![typed_chunk.clone()], &vec![(func, 0, false)], &env).unwrap();
            let flat = execute(&vec![flat_chunk.clone()], &vec![(func, 0, false)], &env).unwrap();
            let tv = &typed[0].to_rows()[0][0];
            let fv = &flat[0].to_rows()[0][0];
            match (tv, fv) {
                (Value::Float64(a), Value::Float64(b)) => {
                    let (a, b) = (f64::from_bits(a.bits), f64::from_bits(b.bits));
                    assert!((a - b).abs() < 1e-9, "trial {} {:?} {} vs {}", trial, func, a, b)
                }
                _ => assert_eq!(tv, fv, "trial {} {:?}", trial, func),
            }
        }
    }
}

#[test]
fn states_merge_in_any_order() {
    let values = [Value::Int64(3), Value::Null, Value::Int64(-1), Value::Int64(7)];
    for func in [AggregateFunc::Count, AggregateFunc::Sum, AggregateFunc::Avg, AggregateFunc::Min, AggregateFunc::Max] {
        let state = |part: &[Value]| {
            let mut s = PartialAggState::new(func);
            for v in part {
                s.accumulate(v, &env);
            }
            s
        };
        let whole = state(&values).finalize(&env);
        let (a, b, c) = (|| state(&values[..1]), || state(&values[1..3]), || state(&values[3..]));
        let mut left = a();
        left.merge(&b(), &env);
        left.merge(&c(), &env);
        assert_eq!(left.finalize(&env), whole);
        let mut tail = b();
        tail.merge(&c(), &env);
        let mut right = a();
        right.merge(&tail, &env);
        assert_eq!(right.finalize(&env), whole);
        let mut back = c();
        back.merge(&b(), &env);
        back.merge(&a(), &env);
        assert_eq!(back.finalize(&env), whole);
    }
}

#[test]
fn parts_merge_to_the_whole() {
    let values = [Value::Int64(3), Value::Null, Value::Int64(-1), Value::Int64(7), Value::Int64(7)];
    for func in [AggregateFunc::Count, AggregateFunc::Sum, AggregateFunc::Avg, AggregateFunc::Min, AggregateFunc::Max] {
        for cut in 0..=values.len() {
            let state = |part: &[Value]| {
                let mut s = PartialAggState::new(func);
                for v in part {
                    s.accumulate(v, &env);
                }
                s
            };
            let mut left = state(&values[..cut]);
            left.merge(&state(&values[cut..]), &env);
            assert_eq!(left.finalize(&env), state(&values).finalize(&env));
        }
    }
    let mut count = PartialAggState::new(AggregateFunc::Count);
    count.accumulate(&Value::Int64(1), &env);
    let mut max = PartialAggState::new(AggregateFunc::Max);
    max.accumulate(&Value::Int64(9), &env);
    count.merge(&max, &env);
    assert_eq!(count.finalize(&env), Value::Int64(1));
}

fn one_column(values: Vec<Value>) -> DataChunk {
    DataChunk { count: values.len(), columns: vec![Vector::Flat(values)] }
}

#[test]
fn kinds_of_integers_are_found() {
    let (i, n, t) = (|x| Value::Int64(x), || Value::Null, || Value::Varchar("a".into()));
    let kind = |parts: Vec<Vec<Value>>| find_int_kind(&parts.into_iter().map(one_column).collect(), 0);
    assert!(matches!(kind(vec![vec![n(), i(1)], vec![i(2), n()]]), Some(GroupKeyType::Int64)));
    assert!(matches!(kind(vec![vec![Value::Boolean(true)]]), Some(GroupKeyType::Boolean)));
    assert!(matches!(kind(vec![vec![Value::Timestamp(5)]]), Some(GroupKeyType::Timestamp)));
    assert!(matches!(kind(vec![vec![Value::Int32(5)]]), Some(GroupKeyType::Int32)));
    assert!(kind(vec![vec![n()], vec![n()]]).is_none());
    assert!(kind(vec![]).is_none());
    assert!(kind(vec![vec![i(1)], vec![Value::Int32(1)]]).is_none());
    assert!(kind(vec![vec![i(1), t()]]).is_none());
}

#[test]
fn groups_of_integers_are_counted() {
    let chunks = vec![
        one_column(vec![Value::Int64(1), Value::Null, Value::Int64(2)]),
        one_column(vec![Value::Int64(1), Value::Null]),
    ];
    let out = try_execute_grouped_int(&chunks, &vec![0], &vec![(AggregateFunc::Count, 0, false)], &env).unwrap();
    assert_eq!(
        sorted_rows(&out),
        sorted_rows(&vec![DataChunk::from_rows(&[
            vec![Value::Int64(1), Value::Int64(2)],
            vec![Value::Null, Value::Int64(0)],
            vec![Value::Int64(2), Value::Int64(1)],
        ])])
    );
    let texts = vec![one_column(vec![Value::Varchar("a".into())])];
    assert!(try_execute_grouped_int(&texts, &vec![0], &vec![], &env).is_none());
}

#[test]
fn typed_columns_end_before_the_count_or_behind_it() {
    let typed = Vector::from_typed(ColumnData::try_from_values(&[Value::Int64(1), Value::Int64(2), Value::Int64(4)]).unwrap());
    let sum = |n: usize| aggregate_typed_partial(&typed, AggregateFunc::Sum, n, &env).unwrap().finalize(&env);
    assert_eq!(sum(2), Value::Float64(double(3.0)));
    assert_eq!(sum(3), Value::Float64(double(7.0)));
    assert_eq!(sum(9), Value::Float64(double(7.0)));
    assert!(aggregate_typed_partial(&Vector::Flat(vec![Value::Int64(1)]), AggregateFunc::Sum, 1, &env).is_none());
    assert!(aggregate_typed_partial(&Vector::Constant(Value::Int64(1), 1), AggregateFunc::Sum, 1, &env).is_none());
    let short = DataChunk { columns: vec![typed.clone()], count: 2 };
    assert_eq!(aggregate_chunk_partial(&short, AggregateFunc::Max, 0, &env).finalize(&env), Value::Int64(2));
}
