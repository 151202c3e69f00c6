//! Window functions.
use engramdb::executor::env::{Ask, FloatOp, Reply};
use engramdb::executor::executor::{debug_chunks_to_rows, rows_to_chunks};
use engramdb::executor::operators::window::execute;
use engramdb::executor::physical_plan::{WindowFuncType, WindowFunctionExpr};
use engramdb::float::F64;
use engramdb::sql::ast::WindowSpec;
use engramdb::Value;

fn double(x: f64) -> F64 {
    F64 { bits: x.to_bits() }
}

fn shown(v: &Value) -> String {
    match v {
        Value::Null => "NULL".to_string(),
        Value::Boolean(b) => b.to_string(),
        Value::Int32(x) => x.to_string(),
        Value::Int64(x) => x.to_string(),
        Value::Float32(x) => f32::from_bits(x.bits).to_string(),
        Value::Float64(x) => f64::from_bits(x.bits).to_string(),
        Value::Varchar(s) => s.clone(),
        Value::Json(s) => s.clone(),
        Value::Timestamp(x) => x.to_string(),
        other => format!("{:?}", other),
    }
}

fn arith(op: FloatOp, x: f64, y: f64) -> f64 {
    match op {
        FloatOp::Add => x + y,
        FloatOp::Sub => x - y,
        FloatOp::Mul => x * y,
        FloatOp::Div => x / y,
        FloatOp::Rem => x % y,
        FloatOp::Ceil => x.ceil(),
        FloatOp::Floor => x.floor(),
        FloatOp::Trunc => x.trunc(),
        FloatOp::Round => x.round(),
        FloatOp::Sqrt => x.sqrt(),
        FloatOp::Ln => x.ln(),
        FloatOp::Log10 => x.log10(),
        FloatOp::Log2 => x.log2(),
        FloatOp::Pow => x.powf(y),
    }
}

fn env(ask: Ask) -> Reply {
    match ask {
        Ask::Arith(op, x, y) => {
            Reply::Number(double(arith(op, f64::from_bits(x.bits), f64::from_bits(y.bits))))
        }
        Ask::TenTo(n) => Reply::Number(double(10f64.powi(n))),
        Ask::Show(v) => Reply::Text(shown(&v)),
        Ask::ParseFloat(s) => match s.parse::<f64>() {
            Ok(x) => Reply::Number(double(x)),
            Err(_) => Reply::Nothing,
        },
        Ask::JsonNumber(x) => Reply::Text(format!("{:?}", f64::from_bits(x.bits))),
        Ask::Debug(v) => Reply::Text(format!("{:?}", v)),
        Ask::DebugExpr(e) => Reply::Text(format!("{:?}", e)),
        Ask::DebugNames(v) => Reply::Text(format!("{:?}", v)),
        Ask::Now => Reply::Moment(
            std::time::SystemTime::now()
                .duration_since(std::time::UNIX_EPOCH)
                .unwrap_or_default()
                .as_millis() as i64,
        ),
        Ask::Elapsed => Reply::Moment(7),
    }
}

#[test]
fn test_row_number() {
    let rows = vec![
        vec![Value::Int64(1)],
        vec![Value::Int64(2)],
        vec![Value::Int64(3)],
    ];
    let chunk = rows_to_chunks(&rows);
    let wf = WindowFunctionExpr {
        func: WindowFuncType::RowNumber,
        input_column: None,
        window_spec: WindowSpec { partition_by: vec![], order_by: vec![], window_frame: None },
        output_name: "rn".to_string(),
    };
    let result = execute(&chunk, &vec![wf], &vec!["val".to_string()], &env).unwrap();
    let result_rows = debug_chunks_to_rows(&result);
    assert_eq!(result_rows.len(), 3);
    assert_eq!(result_rows[0][1], Value::Int64(1));
    assert_eq!(result_rows[1][1], Value::Int64(2));
    assert_eq!(result_rows[2][1], Value::Int64(3));
}

#[test]
fn test_lag() {
    let rows = vec![
        vec![Value::Int64(10)],
        vec![Value::Int64(20)],
        vec![Value::Int64(30)],
    ];
    let chunk = rows_to_chunks(&rows);
    let wf = WindowFunctionExpr {
        func: WindowFuncType::Lag(1),
        input_column: Some(0),
        window_spec: WindowSpec { partition_by: vec![], order_by: vec![], window_frame: None },
        output_name: "lag".to_string(),
    };
    let result = execute(&chunk, &vec![wf], &vec!["val".to_string()], &env).unwrap();
    let result_rows = debug_chunks_to_rows(&result);
    assert_eq!(result_rows[0][1], Value::Null);
    assert_eq!(result_rows[1][1], Value::Int64(10));
    assert_eq!(result_rows[2][1], Value::Int64(20));
}

#[test]
fn test_lead() {
    let rows = vec![
        vec![Value::Int64(10)],
        vec![Value::Int64(20)],
        vec![Value::Int64(30)],
    ];
    let chunk = rows_to_chunks(&rows);
    let wf = WindowFunctionExpr {
        func: WindowFuncType::Lead(1),
        input_column: Some(0),
        window_spec: WindowSpec { partition_by: vec![], order_by: vec![], window_frame: None },
        output_name: "lead".to_string(),
    };
    let result = execute(&chunk, &vec![wf], &vec!["val".to_string()], &env).unwrap();
    let result_rows = debug_chunks_to_rows(&result);
    assert_eq!(result_rows[0][1], Value::Int64(20));
    assert_eq!(result_rows[1][1], Value::Int64(30));
    assert_eq!(result_rows[2][1], Value::Null);
}

#[test]
fn window_test_empty_input() {
    let result = execute(&vec![], &vec![], &vec![], &env).unwrap();
    assert!(result.is_empty());
}
