//! Aggregation in two steps: every batch is aggregated by itself, then the
//! partial results are merged.
use vstd::prelude::*;

use crate::common::error::EngramDbError;
use crate::common::column_data::ColumnValue;
use crate::common::value_cmp::{order_values, value_order, widened};
use crate::executor::env::{answers, arith2, float2, oracle, Answer, Ask, FloatOp, Question, Reply};
use crate::executor::key_index::{
    detect_key_type, key_int, key_to_i64, key_type, row_position, GroupKeyType, IntIndex, KeyIndex,
    RowIndex,
};
use crate::executor::physical_plan::AggregateFunc;
use crate::executor::vector::{
    all_cover, batches, chunk_of, chunks_wf, col_at, col_len, covers, from_rows_batched,
    lemma_rectangular_fits, Chunk, Column, DataChunk, Vector,
};
use crate::float::{i64_widen, int_to_f64, F64};
use crate::value::{clone_row, Datum};
use crate::Value;

verus! {

/// What is known of an aggregate after part of the rows.
#[derive(Debug)]
pub enum PartialAggState {
    Count { count: i64 },
    Sum { sum: F64, has_value: bool },
    Avg { sum: F64, count: i64 },
    Min { value: Option<Value> },
    Max { value: Option<Value> },
}

/// The model of a [`PartialAggState`].
#[verifier::ext_equal]
pub enum AggState {
    Count(i64),
    Sum(u64, bool),
    Avg(u64, i64),
    Min(Option<Datum>),
    Max(Option<Datum>),
}

/// The model of an optional value.
pub open spec fn opt_datum(v: Option<Value>) -> Option<Datum> {
    match v {
        Some(x) => Some(x.deep_view()),
        None => None,
    }
}

impl DeepView for PartialAggState {
    type V = AggState;

    open spec fn deep_view(&self) -> AggState {
        match self {
            PartialAggState::Count { count } => AggState::Count(*count),
            PartialAggState::Sum { sum, has_value } => AggState::Sum(sum.bits, *has_value),
            PartialAggState::Avg { sum, count } => AggState::Avg(sum.bits, *count),
            PartialAggState::Min { value } => AggState::Min(opt_datum(*value)),
            PartialAggState::Max { value } => AggState::Max(opt_datum(*value)),
        }
    }
}

/// The state before the first row.
pub open spec fn fresh(f: AggregateFunc) -> AggState {
    match f {
        AggregateFunc::Count => AggState::Count(0),
        AggregateFunc::Sum => AggState::Sum(0, false),
        AggregateFunc::Avg => AggState::Avg(0, 0),
        AggregateFunc::Min => AggState::Min(None),
        AggregateFunc::Max => AggState::Max(None),
    }
}

/// The smaller of two values, the first where they are equal.
pub open spec fn lesser(m: Option<Datum>, d: Datum) -> Option<Datum> {
    match m {
        Some(x) => if value_order(d, x) < 0 {
            Some(d)
        } else {
            m
        },
        None => Some(d),
    }
}

/// The greater of two values, the first where they are equal.
pub open spec fn greater(m: Option<Datum>, d: Datum) -> Option<Datum> {
    match m {
        Some(x) => if value_order(d, x) > 0 {
            Some(d)
        } else {
            m
        },
        None => Some(d),
    }
}

/// The state after one more value. NULL changes nothing, and what is no
/// number has no part in sums. Counts beyond 64 bits wrap around.
pub open spec fn taken(o: spec_fn(Question) -> Answer, s: AggState, d: Datum) -> AggState {
    match s {
        AggState::Count(n) => if d == Datum::Null {
            s
        } else {
            AggState::Count(n.wrapping_add(1))
        },
        AggState::Sum(x, _) => match widened(d) {
            Some(b) => AggState::Sum(arith2(o, FloatOp::Add, x, b), true),
            None => s,
        },
        AggState::Avg(x, n) => match widened(d) {
            Some(b) => AggState::Avg(arith2(o, FloatOp::Add, x, b), n.wrapping_add(1)),
            None => s,
        },
        AggState::Min(m) => if d == Datum::Null {
            s
        } else {
            AggState::Min(lesser(m, d))
        },
        AggState::Max(m) => if d == Datum::Null {
            s
        } else {
            AggState::Max(greater(m, d))
        },
    }
}

/// Two states of one function put together. States of unlike functions leave
/// the first as it is.
pub open spec fn merged(o: spec_fn(Question) -> Answer, s: AggState, t: AggState) -> AggState {
    match (s, t) {
        (AggState::Count(a), AggState::Count(b)) => AggState::Count(a.wrapping_add(b)),
        (AggState::Sum(a, h), AggState::Sum(b, k)) => AggState::Sum(
            arith2(o, FloatOp::Add, a, b),
            h || k,
        ),
        (AggState::Avg(a, m), AggState::Avg(b, n)) => AggState::Avg(
            arith2(o, FloatOp::Add, a, b),
            m.wrapping_add(n),
        ),
        (AggState::Min(m), AggState::Min(Some(d))) => AggState::Min(lesser(m, d)),
        (AggState::Max(m), AggState::Max(Some(d))) => AggState::Max(greater(m, d)),
        _ => s,
    }
}

/// An optional value, or NULL.
pub open spec fn or_null(m: Option<Datum>) -> Datum {
    match m {
        Some(d) => d,
        None => Datum::Null,
    }
}

/// The result of a state. Without a value, all but COUNT give NULL.
pub open spec fn finished(o: spec_fn(Question) -> Answer, s: AggState) -> Datum {
    match s {
        AggState::Count(n) => Datum::Int64(n),
        AggState::Sum(x, has) => if has {
            Datum::Float64(x)
        } else {
            Datum::Null
        },
        AggState::Avg(x, n) => if n > 0 {
            Datum::Float64(arith2(o, FloatOp::Div, x, int_to_f64(n as int)))
        } else {
            Datum::Null
        },
        AggState::Min(m) => or_null(m),
        AggState::Max(m) => or_null(m),
    }
}

/// Merging with a fresh state of counts, minima or maxima changes nothing.
pub proof fn law_merge_fresh(o: spec_fn(Question) -> Answer, s: AggState)
    requires
        s is Count || s is Min || s is Max,
    ensures
        match s {
            AggState::Count(_) => merged(o, fresh(AggregateFunc::Count), s) == s && merged(
                o,
                s,
                fresh(AggregateFunc::Count),
            ) == s,
            AggState::Min(_) => merged(o, fresh(AggregateFunc::Min), s) == s && merged(
                o,
                s,
                fresh(AggregateFunc::Min),
            ) == s,
            _ => merged(o, fresh(AggregateFunc::Max), s) == s && merged(
                o,
                s,
                fresh(AggregateFunc::Max),
            ) == s,
        },
{
}

/// Counting in parts: taking a value after merging is merging after taking
/// it.
pub proof fn law_count_in_parts(o: spec_fn(Question) -> Answer, a: i64, b: i64, d: Datum)
    ensures
        merged(o, AggState::Count(a), taken(o, AggState::Count(b), d)) == taken(
            o,
            merged(o, AggState::Count(a), AggState::Count(b)),
            d,
        ),
        merged(o, AggState::Count(a), AggState::Count(b)) == merged(
            o,
            AggState::Count(b),
            AggState::Count(a),
        ),
{
}

fn copy_value(v: &Option<Value>) -> (r: Option<Value>)
    ensures
        opt_datum(r) == opt_datum(*v),
{
    match v {
        Some(x) => Some(x.clone()),
        None => None,
    }
}

fn pick_lesser(m: &Option<Value>, d: &Value) -> (r: Option<Value>)
    ensures
        opt_datum(r) == lesser(opt_datum(*m), d.deep_view()),
{
    match m {
        Some(x) => if order_values(d, x) < 0 {
            Some(d.clone())
        } else {
            Some(x.clone())
        },
        None => Some(d.clone()),
    }
}

fn pick_greater(m: &Option<Value>, d: &Value) -> (r: Option<Value>)
    ensures
        opt_datum(r) == greater(opt_datum(*m), d.deep_view()),
{
    match m {
        Some(x) => if order_values(d, x) > 0 {
            Some(d.clone())
        } else {
            Some(x.clone())
        },
        None => Some(d.clone()),
    }
}

impl PartialAggState {
    /// The state before the first row.
    pub fn new(func: AggregateFunc) -> (r: Self)
        ensures
            r.deep_view() == fresh(func),
    {
        match func {
            AggregateFunc::Count => PartialAggState::Count { count: 0 },
            AggregateFunc::Sum => PartialAggState::Sum { sum: F64 { bits: 0 }, has_value: false },
            AggregateFunc::Avg => PartialAggState::Avg { sum: F64 { bits: 0 }, count: 0 },
            AggregateFunc::Min => PartialAggState::Min { value: None },
            AggregateFunc::Max => PartialAggState::Max { value: None },
        }
    }

    /// The state after one more value.
    fn after<E: Fn(Ask) -> Reply>(&self, val: &Value, env: &E) -> (r: Self)
        requires
            answers(*env),
        ensures
            r.deep_view() == taken(oracle(*env), self.deep_view(), val.deep_view()),
    {
        match self {
            PartialAggState::Count { count } => PartialAggState::Count {
                count: if val.is_null() {
                    *count
                } else {
                    count.wrapping_add(1)
                },
            },
            PartialAggState::Sum { sum, has_value } => match val.as_f64() {
                Some(v) => PartialAggState::Sum {
                    sum: float2(env, FloatOp::Add, *sum, v),
                    has_value: true,
                },
                None => PartialAggState::Sum { sum: *sum, has_value: *has_value },
            },
            PartialAggState::Avg { sum, count } => match val.as_f64() {
                Some(v) => PartialAggState::Avg {
                    sum: float2(env, FloatOp::Add, *sum, v),
                    count: count.wrapping_add(1),
                },
                None => PartialAggState::Avg { sum: *sum, count: *count },
            },
            PartialAggState::Min { value } => PartialAggState::Min {
                value: if val.is_null() {
                    copy_value(value)
                } else {
                    pick_lesser(value, val)
                },
            },
            PartialAggState::Max { value } => PartialAggState::Max {
                value: if val.is_null() {
                    copy_value(value)
                } else {
                    pick_greater(value, val)
                },
            },
        }
    }

    /// Takes one more value.
    pub fn accumulate<E: Fn(Ask) -> Reply>(&mut self, val: &Value, env: &E)
        requires
            answers(*env),
        ensures
            final(self).deep_view() == taken(
                oracle(*env),
                old(self).deep_view(),
                val.deep_view(),
            ),
    {
        let next = self.after(val, env);
        *self = next;
    }

    /// The state together with another.
    fn with<E: Fn(Ask) -> Reply>(&self, other: &PartialAggState, env: &E) -> (r: Self)
        requires
            answers(*env),
        ensures
            r.deep_view() == merged(oracle(*env), self.deep_view(), other.deep_view()),
    {
        match (self, other) {
            (PartialAggState::Count { count: a }, PartialAggState::Count { count: b }) => {
                PartialAggState::Count { count: a.wrapping_add(*b) }
            },
            (
                PartialAggState::Sum { sum: a, has_value: h },
                PartialAggState::Sum { sum: b, has_value: k },
            ) => PartialAggState::Sum {
                sum: float2(env, FloatOp::Add, *a, *b),
                has_value: *h || *k,
            },
            (
                PartialAggState::Avg { sum: a, count: m },
                PartialAggState::Avg { sum: b, count: n },
            ) => PartialAggState::Avg {
                sum: float2(env, FloatOp::Add, *a, *b),
                count: m.wrapping_add(*n),
            },
            (PartialAggState::Min { value: m }, PartialAggState::Min { value: Some(d) }) => {
                PartialAggState::Min { value: pick_lesser(m, d) }
            },
            (PartialAggState::Max { value: m }, PartialAggState::Max { value: Some(d) }) => {
                PartialAggState::Max { value: pick_greater(m, d) }
            },
            _ => self.clone(),
        }
    }

    /// Puts another state of the same function in.
    pub fn merge<E: Fn(Ask) -> Reply>(&mut self, other: &PartialAggState, env: &E)
        requires
            answers(*env),
        ensures
            final(self).deep_view() == merged(
                oracle(*env),
                old(self).deep_view(),
                other.deep_view(),
            ),
    {
        let next = self.with(other, env);
        *self = next;
    }

    /// The result.
    pub fn finalize<E: Fn(Ask) -> Reply>(self, env: &E) -> (r: Value)
        requires
            answers(*env),
        ensures
            r.deep_view() == finished(oracle(*env), self.deep_view()),
    {
        match self {
            PartialAggState::Count { count } => Value::Int64(count),
            PartialAggState::Sum { sum, has_value } => if has_value {
                Value::Float64(sum)
            } else {
                Value::Null
            },
            PartialAggState::Avg { sum, count } => if count > 0 {
                Value::Float64(float2(env, FloatOp::Div, sum, i64_widen(count)))
            } else {
                Value::Null
            },
            PartialAggState::Min { value } => match value {
                Some(v) => v,
                None => Value::Null,
            },
            PartialAggState::Max { value } => match value {
                Some(v) => v,
                None => Value::Null,
            },
        }
    }
}

impl Clone for PartialAggState {
    fn clone(&self) -> (r: Self)
        ensures
            r.deep_view() == self.deep_view(),
    {
        match self {
            PartialAggState::Count { count } => PartialAggState::Count { count: *count },
            PartialAggState::Sum { sum, has_value } => PartialAggState::Sum {
                sum: *sum,
                has_value: *has_value,
            },
            PartialAggState::Avg { sum, count } => PartialAggState::Avg {
                sum: *sum,
                count: *count,
            },
            PartialAggState::Min { value } => PartialAggState::Min { value: copy_value(value) },
            PartialAggState::Max { value } => PartialAggState::Max { value: copy_value(value) },
        }
    }
}

/// The state after the first `n` rows of a column.
pub open spec fn taken_rows(
    o: spec_fn(Question) -> Answer,
    s: AggState,
    c: Column,
    n: int,
) -> AggState
    decreases n,
{
    if n <= 0 {
        s
    } else {
        taken(o, taken_rows(o, s, c, n - 1), col_at(c, n - 1))
    }
}

/// The state after a batch. A column that is not there changes nothing.
pub open spec fn partial(
    o: spec_fn(Question) -> Answer,
    c: Chunk,
    f: AggregateFunc,
    col: usize,
) -> AggState {
    if col < c.columns.len() {
        taken_rows(o, fresh(f), c.columns[col as int], c.count as int)
    } else {
        fresh(f)
    }
}

/// The partial states of the first `n` batches put together.
pub open spec fn merged_chunks(
    o: spec_fn(Question) -> Answer,
    cs: Seq<Chunk>,
    f: AggregateFunc,
    col: usize,
    n: int,
) -> AggState
    decreases n,
{
    if n <= 0 {
        fresh(f)
    } else {
        merged(o, merged_chunks(o, cs, f, col, n - 1), partial(o, cs[n - 1], f, col))
    }
}

/// A row added to distinct rows.
pub open spec fn added(rows: Seq<Seq<Datum>>, key: Seq<Datum>) -> Seq<Seq<Datum>> {
    if row_position(rows, key, 0) is Some {
        rows
    } else {
        rows.push(key)
    }
}

/// The distinct values, without NULL, of the first `n` rows of a column,
/// added to others, in the order of their first occurrence.
pub open spec fn distinct_rows(
    rows: Seq<Seq<Datum>>,
    c: Column,
    n: int,
) -> Seq<Seq<Datum>>
    decreases n,
{
    if n <= 0 {
        rows
    } else {
        let before = distinct_rows(rows, c, n - 1);
        if col_at(c, n - 1) == Datum::Null {
            before
        } else {
            added(before, seq![col_at(c, n - 1)])
        }
    }
}

/// The distinct values of a column in the first `n` batches.
pub open spec fn distinct_chunks(cs: Seq<Chunk>, col: usize, n: int) -> Seq<Seq<Datum>>
    decreases n,
{
    if n <= 0 {
        Seq::empty()
    } else {
        let before = distinct_chunks(cs, col, n - 1);
        if col < cs[n - 1].columns.len() {
            distinct_rows(before, cs[n - 1].columns[col as int], cs[n - 1].count as int)
        } else {
            before
        }
    }
}

/// The state after the first `n` of some values.
pub open spec fn taken_values(
    o: spec_fn(Question) -> Answer,
    f: AggregateFunc,
    rows: Seq<Seq<Datum>>,
    n: int,
) -> AggState
    decreases n,
{
    if n <= 0 {
        fresh(f)
    } else {
        taken(o, taken_values(o, f, rows, n - 1), rows[n - 1][0])
    }
}

/// The result of an aggregate over distinct values.
pub open spec fn distinct_result(
    o: spec_fn(Question) -> Answer,
    f: AggregateFunc,
    rows: Seq<Seq<Datum>>,
) -> Datum {
    finished(o, taken_values(o, f, rows, rows.len() as int))
}

/// The result of an aggregate over batches.
pub open spec fn aggregated(
    o: spec_fn(Question) -> Answer,
    cs: Seq<Chunk>,
    a: (AggregateFunc, usize, bool),
) -> Datum {
    if a.2 {
        distinct_result(o, a.0, distinct_chunks(cs, a.1, cs.len() as int))
    } else {
        finished(o, merged_chunks(o, cs, a.0, a.1, cs.len() as int))
    }
}

/// The batch of the results of aggregates: one row, whatever the input.
pub open spec fn aggregated_chunk(
    o: spec_fn(Question) -> Answer,
    cs: Seq<Chunk>,
    aggs: Seq<(AggregateFunc, usize, bool)>,
) -> Chunk {
    if cs.len() == 0 {
        Chunk {
            columns: Seq::new(
                aggs.len(),
                |j: int| Column::Constant(finished(o, fresh(aggs[j].0)), 1),
            ),
            count: 1,
        }
    } else {
        chunk_of(seq![Seq::new(aggs.len(), |j: int| aggregated(o, cs, aggs[j]))])
    }
}

/// Aggregates a typed column of integers or doubles directly; other columns
/// give nothing.
pub fn aggregate_typed_partial<E: Fn(Ask) -> Reply>(
    col: &Vector,
    func: AggregateFunc,
    count: usize,
    env: &E,
) -> (r: Option<PartialAggState>)
    requires
        answers(*env),
        col.wf(),
    ensures
        r matches Some(s) ==> s.deep_view() == taken_rows(
            oracle(*env),
            fresh(func),
            col.deep_view(),
            if count <= col_len(col.deep_view()) {
                count as int
            } else {
                col_len(col.deep_view()) as int
            },
        ),
        r is Some <==> (col matches Vector::Typed(d) && (d.values is Int64 || d.values is Float64)),
{
    let ghost o = oracle(*env);
    let ghost c = col.deep_view();
    let data = match col.as_typed() {
        Some(d) => d,
        None => {
            return None;
        },
    };
    match &data.values {
        ColumnValue::Int64(_) | ColumnValue::Float64(_) => {
            let mut state = PartialAggState::new(func);
            let len: usize = col.len();
            let n: usize = if count <= len {
                count
            } else {
                len
            };
            let mut i: usize = 0;
            while i < n
                invariant
                    answers(*env),
                    o == oracle(*env),
                    data.wf(),
                    c == Column::Flat(data.deep_view()),
                    n <= col_len(c),
                    i <= n,
                    state.deep_view() == taken_rows(o, fresh(func), c, i as int),
                decreases n - i,
            {
                let v = data.get(i);
                state.accumulate(&v, env);
                i += 1;
            }
            Some(state)
        },
        _ => None,
    }
}

/// Aggregates one batch.
pub fn aggregate_chunk_partial<E: Fn(Ask) -> Reply>(
    chunk: &DataChunk,
    func: AggregateFunc,
    col_idx: usize,
    env: &E,
) -> (r: PartialAggState)
    requires
        answers(*env),
        chunk.wf(),
        covers(chunk.deep_view()),
    ensures
        r.deep_view() == partial(oracle(*env), chunk.deep_view(), func, col_idx),
{
    let mut state = PartialAggState::new(func);
    if col_idx >= chunk.columns.len() {
        return state;
    }
    let col = &chunk.columns[col_idx];
    let ghost o = oracle(*env);
    let ghost c = col.deep_view();
    assert(chunk.columns[col_idx as int].wf());
    assert(chunk.deep_view().columns[col_idx as int] == c);
    if let Some(s) = aggregate_typed_partial(col, func, chunk.count, env) {
        return s;
    }
    let mut i: usize = 0;
    while i < chunk.count
        invariant
            answers(*env),
            o == oracle(*env),
            col.wf(),
            c == col.deep_view(),
            c is Constant || col_len(c) >= chunk.count,
            i <= chunk.count,
            state.deep_view() == taken_rows(o, fresh(func), c, i as int),
        decreases chunk.count - i,
    {
        let v = col.get(i);
        state.accumulate(&v, env);
        i += 1;
    }
    state
}

/// Adds a row to distinct rows.
pub fn add_distinct<I: RowIndex>(index: &mut I, key: Vec<Value>)
    requires
        old(index).intact(),
        old(index).takes(key.deep_view()),
    ensures
        final(index).intact(),
        final(index).rows() == added(old(index).rows(), key.deep_view()),
        forall|k: Seq<Datum>| #[trigger] final(index).takes(k) == old(index).takes(k),
{
    if index.locate(&key).is_none() {
        index.add_row(key);
    }
}

fn one_value(v: Value) -> (r: Vec<Value>)
    ensures
        r.deep_view() == seq![v.deep_view()],
{
    let ghost d = v.deep_view();
    let mut r: Vec<Value> = Vec::new();
    r.push(v);
    assert(r.deep_view() =~= seq![d]);
    r
}

fn add_distinct_rows(index: &mut KeyIndex, col: &Vector, count: usize)
    requires
        old(index).wf(),
        col.wf(),
        col is Constant || col_len(col.deep_view()) >= count,
    ensures
        final(index).wf(),
        final(index)@ == distinct_rows(old(index)@, col.deep_view(), count as int),
{
    let ghost start = index@;
    let ghost c = col.deep_view();
    let mut i: usize = 0;
    while i < count
        invariant
            index.wf(),
            col.wf(),
            c == col.deep_view(),
            c is Constant || col_len(c) >= count,
            i <= count,
            index@ == distinct_rows(start, c, i as int),
        decreases count - i,
    {
        let v = col.get(i);
        if !v.is_null() {
            add_distinct(index, one_value(v));
        }
        i += 1;
    }
}

fn finish_distinct<E: Fn(Ask) -> Reply>(index: &KeyIndex, func: AggregateFunc, env: &E) -> (r: Value)
    requires
        answers(*env),
        forall|i: int| 0 <= i < index@.len() ==> (#[trigger] index@[i]).len() == 1,
    ensures
        r.deep_view() == distinct_result(oracle(*env), func, index@),
{
    let ghost o = oracle(*env);
    let ghost rows = index@;
    let mut state = PartialAggState::new(func);
    let mut i: usize = 0;
    while i < index.len()
        invariant
            answers(*env),
            o == oracle(*env),
            rows == index@,
            forall|i: int| 0 <= i < rows.len() ==> (#[trigger] rows[i]).len() == 1,
            i <= rows.len(),
            state.deep_view() == taken_values(o, func, rows, i as int),
        decreases rows.len() - i,
    {
        let row = index.row(i);
        assert(rows[i as int].len() == 1);
        assert(row.deep_view()[0] == row[0].deep_view());
        state.accumulate(&row[0], env);
        i += 1;
    }
    state.finalize(env)
}

proof fn lemma_distinct_single(rows: Seq<Seq<Datum>>, c: Column, n: int)
    requires
        forall|i: int| 0 <= i < rows.len() ==> (#[trigger] rows[i]).len() == 1,
    ensures
        forall|i: int|
            0 <= i < distinct_rows(rows, c, n).len() ==> (#[trigger] distinct_rows(
                rows,
                c,
                n,
            )[i]).len() == 1,
    decreases n,
{
    if n > 0 {
        lemma_distinct_single(rows, c, n - 1);
        let before = distinct_rows(rows, c, n - 1);
        let after = distinct_rows(rows, c, n);
        assert forall|i: int| 0 <= i < after.len() implies (#[trigger] after[i]).len() == 1 by {
            if i < before.len() {
                assert(after[i] == before[i]);
            }
        }
    }
}

fn aggregate_one<E: Fn(Ask) -> Reply>(
    input: &Vec<DataChunk>,
    agg: (AggregateFunc, usize, bool),
    env: &E,
) -> (r: Value)
    requires
        answers(*env),
        chunks_wf(input@),
        all_cover(input.deep_view()),
    ensures
        r.deep_view() == aggregated(oracle(*env), input.deep_view(), agg),
{
    let ghost o = oracle(*env);
    let ghost cs = input.deep_view();
    let (func, col_idx, distinct) = agg;
    if distinct {
        let mut seen = KeyIndex::new();
        let mut k: usize = 0;
        while k < input.len()
            invariant
                chunks_wf(input@),
                cs == input.deep_view(),
                all_cover(cs),
                k <= input.len(),
                seen.wf(),
                seen@ == distinct_chunks(cs, col_idx, k as int),
                forall|i: int| 0 <= i < seen@.len() ==> (#[trigger] seen@[i]).len() == 1,
            decreases input.len() - k,
        {
            let chunk = &input[k];
            assert(input[k as int].wf() && cs[k as int] == input[k as int].deep_view());
            assert(covers(cs[k as int]));
            if col_idx < chunk.columns.len() {
                let col = &chunk.columns[col_idx];
                assert(chunk.columns[col_idx as int].wf());
                assert(cs[k as int].columns[col_idx as int] == col.deep_view());
                proof {
                    lemma_distinct_single(seen@, col.deep_view(), chunk.count as int);
                }
                add_distinct_rows(&mut seen, col, chunk.count);
            }
            k += 1;
        }
        finish_distinct(&seen, func, env)
    } else {
        let mut state = PartialAggState::new(func);
        let mut k: usize = 0;
        while k < input.len()
            invariant
                answers(*env),
                o == oracle(*env),
                chunks_wf(input@),
                cs == input.deep_view(),
                all_cover(cs),
                k <= input.len(),
                state.deep_view() == merged_chunks(o, cs, func, col_idx, k as int),
            decreases input.len() - k,
        {
            assert(input[k as int].wf() && cs[k as int] == input[k as int].deep_view());
            assert(covers(cs[k as int]));
            let part = aggregate_chunk_partial(&input[k], func, col_idx, env);
            state.merge(&part, env);
            k += 1;
        }
        state.finalize(env)
    }
}

/// Aggregates batches into one row.
pub fn aggregate_batches<E: Fn(Ask) -> Reply>(
    input: &Vec<DataChunk>,
    aggregates: &Vec<(AggregateFunc, usize, bool)>,
    env: &E,
) -> (r: Vec<DataChunk>)
    requires
        answers(*env),
        chunks_wf(input@),
        all_cover(input.deep_view()),
    ensures
        chunks_wf(r@),
        r.deep_view() == seq![
            aggregated_chunk(oracle(*env), input.deep_view(), aggregates@),
        ],
{
    let ghost o = oracle(*env);
    let ghost cs = input.deep_view();
    let mut out: Vec<DataChunk> = Vec::new();
    if input.len() == 0 {
        let mut columns: Vec<Vector> = Vec::new();
        let mut j: usize = 0;
        while j < aggregates.len()
            invariant
                answers(*env),
                o == oracle(*env),
                j <= aggregates.len(),
                columns.len() == j,
                forall|k: int|
                    0 <= k < j ==> (#[trigger] columns[k]).deep_view() == Column::Constant(
                        finished(o, fresh(aggregates[k].0)),
                        1,
                    ) && columns[k].wf(),
            decreases aggregates.len() - j,
        {
            let v = PartialAggState::new(aggregates[j].0).finalize(env);
            columns.push(Vector::Constant(v, 1));
            j += 1;
        }
        let chunk = DataChunk { columns, count: 1 };
        assert(chunk.deep_view().columns =~= aggregated_chunk(o, cs, aggregates@).columns);
        out.push(chunk);
        assert(out.deep_view() =~= seq![aggregated_chunk(o, cs, aggregates@)]);
        return out;
    }
    let mut row: Vec<Value> = Vec::new();
    let mut j: usize = 0;
    while j < aggregates.len()
        invariant
            answers(*env),
            o == oracle(*env),
            chunks_wf(input@),
            cs == input.deep_view(),
            all_cover(cs),
            j <= aggregates.len(),
            row.len() == j,
            forall|k: int|
                0 <= k < j ==> (#[trigger] row[k]).deep_view() == aggregated(
                    o,
                    cs,
                    aggregates[k],
                ),
        decreases aggregates.len() - j,
    {
        row.push(aggregate_one(input, aggregates[j], env));
        j += 1;
    }
    assert(row.deep_view() =~= Seq::new(
        aggregates@.len(),
        |j: int| aggregated(o, cs, aggregates@[j]),
    ));
    let ghost rv = row.deep_view();
    let mut rows: Vec<Vec<Value>> = Vec::new();
    rows.push(row);
    let slice = rows.as_slice();
    assert(slice.deep_view() =~= seq![rv]);
    out.push(DataChunk::from_rows(slice));
    assert(out.deep_view() =~= seq![aggregated_chunk(o, cs, aggregates@)]);
    out
}

/// Groups of rows: their keys, and the states of their aggregates.
pub struct Groups {
    pub keys: Seq<Seq<Datum>>,
    pub states: Seq<Seq<AggState>>,
}

/// No group.
pub open spec fn no_groups() -> Groups {
    Groups { keys: Seq::empty(), states: Seq::empty() }
}

/// The value of a column in a row, NULL where the column is not there.
pub open spec fn cell(c: Chunk, col: usize, i: int) -> Datum {
    if col < c.columns.len() {
        col_at(c.columns[col as int], i)
    } else {
        Datum::Null
    }
}

/// The key of a row.
pub open spec fn group_key(c: Chunk, cols: Seq<usize>, i: int) -> Seq<Datum> {
    Seq::new(cols.len(), |k: int| cell(c, cols[k], i))
}

/// Fresh states of aggregates.
pub open spec fn fresh_states(aggs: Seq<(AggregateFunc, usize, bool)>) -> Seq<AggState> {
    Seq::new(aggs.len(), |j: int| fresh(aggs[j].0))
}

/// The states after one more row.
pub open spec fn taken_row(
    o: spec_fn(Question) -> Answer,
    states: Seq<AggState>,
    c: Chunk,
    i: int,
    aggs: Seq<(AggregateFunc, usize, bool)>,
) -> Seq<AggState> {
    Seq::new(
        aggs.len(),
        |j: int|
            if aggs[j].1 < c.columns.len() {
                taken(o, states[j], col_at(c.columns[aggs[j].1 as int], i))
            } else {
                states[j]
            },
    )
}

/// The groups after one more row.
pub open spec fn grouped_row(
    o: spec_fn(Question) -> Answer,
    g: Groups,
    c: Chunk,
    i: int,
    cols: Seq<usize>,
    aggs: Seq<(AggregateFunc, usize, bool)>,
) -> Groups {
    let key = group_key(c, cols, i);
    match row_position(g.keys, key, 0) {
        Some(p) => Groups {
            keys: g.keys,
            states: g.states.update(p, taken_row(o, g.states[p], c, i, aggs)),
        },
        None => Groups {
            keys: g.keys.push(key),
            states: g.states.push(taken_row(o, fresh_states(aggs), c, i, aggs)),
        },
    }
}

/// The groups of the first `n` rows of a batch, in the order in which their
/// keys first occur.
pub open spec fn grouped_chunk(
    o: spec_fn(Question) -> Answer,
    c: Chunk,
    cols: Seq<usize>,
    aggs: Seq<(AggregateFunc, usize, bool)>,
    n: int,
) -> Groups
    decreases n,
{
    if n <= 0 {
        no_groups()
    } else {
        grouped_row(o, grouped_chunk(o, c, cols, aggs, n - 1), c, n - 1, cols, aggs)
    }
}

/// The groups with one of other groups put in.
pub open spec fn merged_group(
    o: spec_fn(Question) -> Answer,
    g: Groups,
    key: Seq<Datum>,
    states: Seq<AggState>,
) -> Groups {
    match row_position(g.keys, key, 0) {
        Some(p) => Groups {
            keys: g.keys,
            states: g.states.update(
                p,
                Seq::new(
                    g.states[p].len(),
                    |j: int|
                        if j < states.len() {
                            merged(o, g.states[p][j], states[j])
                        } else {
                            g.states[p][j]
                        },
                ),
            ),
        },
        None => Groups { keys: g.keys.push(key), states: g.states.push(states) },
    }
}

/// The groups with the first `n` of other groups put in.
pub open spec fn merged_groups(
    o: spec_fn(Question) -> Answer,
    g: Groups,
    h: Groups,
    n: int,
) -> Groups
    decreases n,
{
    if n <= 0 {
        g
    } else {
        merged_group(o, merged_groups(o, g, h, n - 1), h.keys[n - 1], h.states[n - 1])
    }
}

/// The groups of the first `n` batches.
pub open spec fn grouped_chunks(
    o: spec_fn(Question) -> Answer,
    cs: Seq<Chunk>,
    cols: Seq<usize>,
    aggs: Seq<(AggregateFunc, usize, bool)>,
    n: int,
) -> Groups
    decreases n,
{
    if n <= 0 {
        no_groups()
    } else {
        let part = grouped_chunk(o, cs[n - 1], cols, aggs, cs[n - 1].count as int);
        merged_groups(
            o,
            grouped_chunks(o, cs, cols, aggs, n - 1),
            part,
            part.keys.len() as int,
        )
    }
}

/// The row of a group: its key, then the results of its aggregates.
pub open spec fn group_row(
    o: spec_fn(Question) -> Answer,
    key: Seq<Datum>,
    states: Seq<AggState>,
) -> Seq<Datum> {
    key + Seq::new(states.len(), |j: int| finished(o, states[j]))
}

/// The rows of groups.
pub open spec fn group_rows(o: spec_fn(Question) -> Answer, g: Groups) -> Seq<Seq<Datum>> {
    Seq::new(g.keys.len(), |i: int| group_row(o, g.keys[i], g.states[i]))
}

/// Groups in the making.
struct GroupTable<I: RowIndex> {
    index: I,
    states: Vec<Vec<PartialAggState>>,
}

impl<I: RowIndex> GroupTable<I> {
    spec fn groups(&self) -> Groups {
        Groups { keys: self.index.rows(), states: self.states.deep_view() }
    }

    spec fn wf(&self, width: nat) -> bool {
        &&& self.index.intact()
        &&& self.states.len() == self.index.rows().len()
        &&& forall|i: int| 0 <= i < self.states.len() ==> (#[trigger] self.states[i]).len() == width
    }
}

fn read_key(chunk: &DataChunk, cols: &Vec<usize>, i: usize) -> (r: Vec<Value>)
    requires
        chunk.wf(),
        covers(chunk.deep_view()),
        i < chunk.count,
    ensures
        r.deep_view() == group_key(chunk.deep_view(), cols@, i as int),
{
    let ghost c = chunk.deep_view();
    let mut out: Vec<Value> = Vec::new();
    let mut k: usize = 0;
    while k < cols.len()
        invariant
            chunk.wf(),
            c == chunk.deep_view(),
            covers(c),
            i < chunk.count,
            k <= cols.len(),
            out.len() == k,
            forall|j: int|
                0 <= j < k ==> (#[trigger] out[j]).deep_view() == cell(c, cols[j], i as int),
        decreases cols.len() - k,
    {
        let col: usize = cols[k];
        let v = if col < chunk.columns.len() {
            assert(chunk.columns[col as int].wf());
            assert(c.columns[col as int] == chunk.columns[col as int].deep_view());
            chunk.columns[col].get(i)
        } else {
            Value::Null
        };
        out.push(v);
        k += 1;
    }
    assert(out.deep_view() =~= group_key(c, cols@, i as int));
    out
}

fn new_states(aggregates: &Vec<(AggregateFunc, usize, bool)>) -> (r: Vec<PartialAggState>)
    ensures
        r.deep_view() == fresh_states(aggregates@),
        r.len() == aggregates.len(),
{
    let mut out: Vec<PartialAggState> = Vec::new();
    let mut j: usize = 0;
    while j < aggregates.len()
        invariant
            j <= aggregates.len(),
            out.len() == j,
            forall|k: int| 0 <= k < j ==> (#[trigger] out[k]).deep_view() == fresh(aggregates[k].0),
        decreases aggregates.len() - j,
    {
        out.push(PartialAggState::new(aggregates[j].0));
        j += 1;
    }
    assert(out.deep_view() =~= fresh_states(aggregates@));
    out
}

fn accumulate_all<E: Fn(Ask) -> Reply>(
    states: &Vec<PartialAggState>,
    chunk: &DataChunk,
    i: usize,
    aggregates: &Vec<(AggregateFunc, usize, bool)>,
    env: &E,
) -> (r: Vec<PartialAggState>)
    requires
        answers(*env),
        chunk.wf(),
        covers(chunk.deep_view()),
        i < chunk.count,
        states.len() == aggregates.len(),
    ensures
        r.len() == aggregates.len(),
        r.deep_view() == taken_row(
            oracle(*env),
            states.deep_view(),
            chunk.deep_view(),
            i as int,
            aggregates@,
        ),
{
    let ghost o = oracle(*env);
    let ghost c = chunk.deep_view();
    let ghost sv = states.deep_view();
    let ghost want = taken_row(o, sv, c, i as int, aggregates@);
    let mut out: Vec<PartialAggState> = Vec::new();
    let mut j: usize = 0;
    while j < aggregates.len()
        invariant
            answers(*env),
            o == oracle(*env),
            chunk.wf(),
            c == chunk.deep_view(),
            covers(c),
            i < chunk.count,
            sv == states.deep_view(),
            states.len() == aggregates.len(),
            want == taken_row(o, sv, c, i as int, aggregates@),
            j <= aggregates.len(),
            out.len() == j,
            forall|k: int| 0 <= k < j ==> (#[trigger] out[k]).deep_view() == want[k],
        decreases aggregates.len() - j,
    {
        let col: usize = aggregates[j].1;
        assert(sv[j as int] == states[j as int].deep_view());
        let s = if col < chunk.columns.len() {
            assert(chunk.columns[col as int].wf());
            assert(c.columns[col as int] == chunk.columns[col as int].deep_view());
            let v = chunk.columns[col].get(i);
            states[j].after(&v, env)
        } else {
            states[j].clone()
        };
        out.push(s);
        j += 1;
    }
    assert(out.deep_view() =~= want);
    out
}

/// Groups one batch.
fn aggregate_chunk_grouped_partial<I: RowIndex, E: Fn(Ask) -> Reply>(
    table: GroupTable<I>,
    chunk: &DataChunk,
    group_by: &Vec<usize>,
    aggregates: &Vec<(AggregateFunc, usize, bool)>,
    env: &E,
) -> (r: GroupTable<I>)
    requires
        answers(*env),
        chunk.wf(),
        covers(chunk.deep_view()),
        table.wf(aggregates@.len()),
        table.groups() == no_groups(),
        forall|i: int|
            0 <= i < chunk.count ==> table.index.takes(
                #[trigger] group_key(chunk.deep_view(), group_by@, i),
            ),
    ensures
        r.wf(aggregates@.len()),
        r.groups() == grouped_chunk(
            oracle(*env),
            chunk.deep_view(),
            group_by@,
            aggregates@,
            chunk.count as int,
        ),
        forall|k: Seq<Datum>| #[trigger] r.index.takes(k) == table.index.takes(k),
{
    let ghost o = oracle(*env);
    let ghost c = chunk.deep_view();
    let ghost start = table.index;
    let mut table = table;
    let mut i: usize = 0;
    while i < chunk.count
        invariant
            answers(*env),
            o == oracle(*env),
            chunk.wf(),
            c == chunk.deep_view(),
            covers(c),
            forall|i: int|
                0 <= i < chunk.count ==> start.takes(#[trigger] group_key(c, group_by@, i)),
            forall|k: Seq<Datum>| #[trigger] table.index.takes(k) == start.takes(k),
            i <= chunk.count,
            table.wf(aggregates@.len()),
            table.groups() == grouped_chunk(o, c, group_by@, aggregates@, i as int),
        decreases chunk.count - i,
    {
        let ghost before = table.groups();
        let key = read_key(chunk, group_by, i);
        let ghost k = key.deep_view();
        assert(start.takes(group_key(c, group_by@, i as int)));
        match table.index.locate(&key) {
            Some(p) => {
                assert(before.states[p as int] == table.states[p as int].deep_view());
                let next = accumulate_all(&table.states[p], chunk, i, aggregates, env);
                let ghost nv = next.deep_view();
                table.states.set(p, next);
                assert(table.states.deep_view() =~= before.states.update(p as int, nv));
            },
            None => {
                let states = new_states(aggregates);
                let next = accumulate_all(&states, chunk, i, aggregates, env);
                let ghost nv = next.deep_view();
                table.index.add_row(key);
                table.states.push(next);
                assert(table.states.deep_view() =~= before.states.push(nv));
            },
        }
        i += 1;
    }
    table
}

fn merge_states<E: Fn(Ask) -> Reply>(
    a: &Vec<PartialAggState>,
    b: &Vec<PartialAggState>,
    env: &E,
) -> (r: Vec<PartialAggState>)
    requires
        answers(*env),
    ensures
        r.len() == a.len(),
        r.deep_view() == Seq::new(
            a.deep_view().len(),
            |j: int|
                if j < b.deep_view().len() {
                    merged(oracle(*env), a.deep_view()[j], b.deep_view()[j])
                } else {
                    a.deep_view()[j]
                },
        ),
{
    let ghost o = oracle(*env);
    let ghost (x, y) = (a.deep_view(), b.deep_view());
    let mut out: Vec<PartialAggState> = Vec::new();
    let mut j: usize = 0;
    while j < a.len()
        invariant
            answers(*env),
            o == oracle(*env),
            x == a.deep_view(),
            y == b.deep_view(),
            j <= a.len(),
            out.len() == j,
            forall|k: int|
                0 <= k < j ==> (#[trigger] out[k]).deep_view() == (if k < y.len() {
                    merged(o, x[k], y[k])
                } else {
                    x[k]
                }),
        decreases a.len() - j,
    {
        assert(x[j as int] == a[j as int].deep_view());
        let s = if j < b.len() {
            assert(y[j as int] == b[j as int].deep_view());
            a[j].with(&b[j], env)
        } else {
            a[j].clone()
        };
        out.push(s);
        j += 1;
    }
    assert(out.deep_view() =~= Seq::new(
        x.len(),
        |j: int|
            if j < y.len() {
                merged(o, x[j], y[j])
            } else {
                x[j]
            },
    ));
    out
}

/// Puts groups into others.
fn merge_grouped_map<I: RowIndex, E: Fn(Ask) -> Reply>(
    target: GroupTable<I>,
    source: &GroupTable<I>,
    Ghost(width): Ghost<nat>,
    env: &E,
) -> (r: GroupTable<I>)
    requires
        answers(*env),
        target.wf(width),
        source.wf(width),
        forall|i: int|
            0 <= i < source.index.rows().len() ==> target.index.takes(
                #[trigger] source.index.rows()[i],
            ),
    ensures
        r.wf(width),
        r.groups() == merged_groups(
            oracle(*env),
            target.groups(),
            source.groups(),
            source.groups().keys.len() as int,
        ),
        forall|k: Seq<Datum>| #[trigger] r.index.takes(k) == target.index.takes(k),
{
    let ghost o = oracle(*env);
    let ghost g = target.groups();
    let ghost h = source.groups();
    let ghost start = target.index;
    let mut target = target;
    let mut i: usize = 0;
    while i < source.index.count()
        invariant
            answers(*env),
            o == oracle(*env),
            h == source.groups(),
            source.wf(width),
            target.wf(width),
            forall|i: int| 0 <= i < h.keys.len() ==> start.takes(#[trigger] h.keys[i]),
            forall|k: Seq<Datum>| #[trigger] target.index.takes(k) == start.takes(k),
            i <= h.keys.len(),
            target.groups() == merged_groups(o, g, h, i as int),
        decreases h.keys.len() - i,
    {
        let ghost before = target.groups();
        let key = clone_row(source.index.at(i));
        assert(h.states[i as int] == source.states[i as int].deep_view());
        assert(start.takes(h.keys[i as int]));
        match target.index.locate(&key) {
            Some(p) => {
                assert(before.states[p as int] == target.states[p as int].deep_view());
                let next = merge_states(&target.states[p], &source.states[i], env);
                let ghost nv = next.deep_view();
                target.states.set(p, next);
                assert(target.states.deep_view() =~= before.states.update(p as int, nv));
            },
            None => {
                let next = source.states[i].clone();
                assert(next.deep_view() =~= h.states[i as int]);
                target.index.add_row(key);
                target.states.push(next);
                assert(target.states.deep_view() =~= before.states.push(h.states[i as int]));
            },
        }
        i += 1;
    }
    target
}

/// The batches of the rows of groups.
fn finish_groups<I: RowIndex, E: Fn(Ask) -> Reply>(
    table: &GroupTable<I>,
    Ghost(key_width): Ghost<nat>,
    Ghost(width): Ghost<nat>,
    env: &E,
) -> (r: Vec<DataChunk>)
    requires
        answers(*env),
        table.wf(width),
        forall|i: int|
            0 <= i < table.index.rows().len() ==> (#[trigger] table.index.rows()[i]).len()
                == key_width,
    ensures
        chunks_wf(r@),
        r.deep_view() == batches(group_rows(oracle(*env), table.groups())),
{
    let ghost o = oracle(*env);
    let ghost g = table.groups();
    let ghost want = group_rows(o, g);
    let mut rows: Vec<Vec<Value>> = Vec::new();
    let mut i: usize = 0;
    while i < table.index.count()
        invariant
            answers(*env),
            o == oracle(*env),
            g == table.groups(),
            table.wf(width),
            want == group_rows(o, g),
            i <= g.keys.len(),
            rows.len() == i,
            forall|k: int| 0 <= k < i ==> (#[trigger] rows[k]).deep_view() == want[k],
        decreases g.keys.len() - i,
    {
        let mut row = clone_row(table.index.at(i));
        let ghost key = g.keys[i as int];
        let ghost sv = g.states[i as int];
        assert(sv == table.states[i as int].deep_view());
        let mut j: usize = 0;
        assert(row.deep_view() =~= key + Seq::new(0, |j: int| finished(o, sv[j])));
        while j < table.states[i as usize].len()
            invariant
                answers(*env),
                o == oracle(*env),
                i < table.states.len(),
                sv == table.states[i as int].deep_view(),
                j <= table.states[i as int].len(),
                row.deep_view() == key + Seq::new(j as nat, |j: int| finished(o, sv[j])),
            decreases table.states[i as int].len() - j,
        {
            let s = table.states[i][j].clone();
            assert(sv[j as int] == table.states[i as int][j as int].deep_view());
            let v = s.finalize(env);
            let ghost before = row.deep_view();
            row.push(v);
            assert(row.deep_view() =~= before.push(finished(o, sv[j as int])));
            assert(row.deep_view() =~= key + Seq::new(
                (j + 1) as nat,
                |j: int| finished(o, sv[j]),
            ));
            j += 1;
        }
        assert(row.deep_view() =~= want[i as int]);
        rows.push(row);
        i += 1;
    }
    assert(rows.deep_view() =~= want);
    proof {
        assert forall|i: int| 0 <= i < want.len() implies (#[trigger] want[i]).len()
            == want[0].len() by {
            assert(table.index.rows()[i].len() == key_width);
            assert(table.index.rows()[0].len() == key_width);
            assert(table.states[i].len() == width && table.states[0].len() == width);
        }
        lemma_rectangular_fits(want);
    }
    let slice = rows.as_slice();
    assert(slice.deep_view() =~= want);
    from_rows_batched(slice)
}

/// Every key of groups has the width of the grouping.
proof fn lemma_grouped_width(
    o: spec_fn(Question) -> Answer,
    c: Chunk,
    cols: Seq<usize>,
    aggs: Seq<(AggregateFunc, usize, bool)>,
    n: int,
)
    ensures
        forall|i: int|
            0 <= i < grouped_chunk(o, c, cols, aggs, n).keys.len() ==> exists|k: int|
                0 <= k < n && (#[trigger] grouped_chunk(o, c, cols, aggs, n).keys[i])
                    == #[trigger] group_key(c, cols, k),
    decreases n,
{
    if n > 0 {
        lemma_grouped_width(o, c, cols, aggs, n - 1);
        let before = grouped_chunk(o, c, cols, aggs, n - 1).keys;
        let after = grouped_chunk(o, c, cols, aggs, n).keys;
        assert forall|i: int| 0 <= i < after.len() implies exists|k: int|
            0 <= k < n && (#[trigger] after[i]) == #[trigger] group_key(c, cols, k) by {
            if i < before.len() {
                assert(after[i] == before[i]);
                let k = choose|k: int| 0 <= k < n - 1 && before[i] == #[trigger] group_key(
                    c,
                    cols,
                    k,
                );
                assert(after[i] == group_key(c, cols, k));
            } else {
                assert(after[i] == group_key(c, cols, n - 1));
            }
        }
    }
}

/// Merging groups keeps a property that all keys have.
proof fn lemma_merged_width(
    o: spec_fn(Question) -> Answer,
    g: Groups,
    h: Groups,
    n: int,
    w: nat,
)
    requires
        0 <= n <= h.keys.len(),
        forall|i: int| 0 <= i < g.keys.len() ==> (#[trigger] g.keys[i]).len() == w,
        forall|i: int| 0 <= i < h.keys.len() ==> (#[trigger] h.keys[i]).len() == w,
    ensures
        forall|i: int|
            0 <= i < merged_groups(o, g, h, n).keys.len() ==> (#[trigger] merged_groups(
                o,
                g,
                h,
                n,
            ).keys[i]).len() == w,
    decreases n,
{
    if n > 0 {
        lemma_merged_width(o, g, h, n - 1, w);
        let before = merged_groups(o, g, h, n - 1).keys;
        let after = merged_groups(o, g, h, n).keys;
        assert forall|i: int| 0 <= i < after.len() implies (#[trigger] after[i]).len() == w by {
            if i < before.len() {
                assert(after[i] == before[i]);
            }
        }
    }
}

/// Whether all values of a column, but for NULL and where it is not there, are
/// of a type that integers stand for.
pub open spec fn int_keyed(cs: Seq<Chunk>, col: usize, t: GroupKeyType) -> bool {
    forall|k: int, i: int|
        #![trigger cell(cs[k], col, i)]
        0 <= k < cs.len() && 0 <= i < cs[k].count ==> cell(cs[k], col, i) == Datum::Null || key_int(
            cell(cs[k], col, i),
            t,
        ) is Some
}

/// Whether a column has a value other than NULL.
pub open spec fn has_value(cs: Seq<Chunk>, col: usize) -> bool {
    exists|k: int, i: int|
        #![trigger cell(cs[k], col, i)]
        0 <= k < cs.len() && 0 <= i < cs[k].count && cell(cs[k], col, i) != Datum::Null
}

/// Whether a column has values other than NULL, and all of them are of one
/// type that integers stand for.
pub open spec fn one_int_kind(cs: Seq<Chunk>, col: usize) -> bool {
    has_value(cs, col) && exists|t: GroupKeyType| #[trigger] int_keyed(cs, col, t)
}

/// The type of integers that stands for all values of a column, where there
/// is one and not all are NULL.
pub fn find_int_kind(input: &Vec<DataChunk>, col: usize) -> (r: Option<GroupKeyType>)
    requires
        chunks_wf(input@),
        all_cover(input.deep_view()),
    ensures
        r matches Some(t) ==> int_keyed(input.deep_view(), col, t),
        r is Some <==> one_int_kind(input.deep_view(), col),
{
    let ghost cs = input.deep_view();
    let mut kind: Option<GroupKeyType> = None;
    let ghost mut first: (int, int) = (0, 0);
    let mut k: usize = 0;
    while k < input.len()
        invariant
            chunks_wf(input@),
            cs == input.deep_view(),
            all_cover(cs),
            k <= input.len(),
            forall|m: int, i: int|
                #![trigger cell(cs[m], col, i)]
                0 <= m < k && 0 <= i < cs[m].count ==> cell(cs[m], col, i) == Datum::Null || (
                kind matches Some(t) && key_int(cell(cs[m], col, i), t) is Some),
            kind matches Some(t) ==> 0 <= first.0 < cs.len() && 0 <= first.1
                < cs[first.0].count && key_type(cell(cs[first.0], col, first.1)) == Some(t),
        decreases input.len() - k,
    {
        let chunk = &input[k];
        assert(input[k as int].wf() && cs[k as int] == input[k as int].deep_view());
        assert(covers(cs[k as int]));
        if col < chunk.columns.len() {
            let column = &chunk.columns[col];
            assert(chunk.columns[col as int].wf());
            assert(cs[k as int].columns[col as int] == column.deep_view());
            let mut i: usize = 0;
            while i < chunk.count
                invariant
                    column.wf(),
                    k < input.len(),
                    cs == input.deep_view(),
                    chunk.deep_view() == cs[k as int],
                    col < cs[k as int].columns.len(),
                    cs[k as int].columns[col as int] == column.deep_view(),
                    column is Constant || col_len(column.deep_view()) >= chunk.count,
                    i <= chunk.count,
                    forall|m: int, i: int|
                        #![trigger cell(cs[m], col, i)]
                        0 <= m < k && 0 <= i < cs[m].count ==> cell(cs[m], col, i) == Datum::Null
                            || (kind matches Some(t) && key_int(cell(cs[m], col, i), t) is Some),
                    forall|j: int|
                        #![trigger cell(cs[k as int], col, j)]
                        0 <= j < i ==> cell(cs[k as int], col, j) == Datum::Null || (
                        kind matches Some(t) && key_int(cell(cs[k as int], col, j), t) is Some),
                    kind matches Some(t) ==> 0 <= first.0 < cs.len() && 0 <= first.1
                        < cs[first.0].count && key_type(cell(cs[first.0], col, first.1)) == Some(t),
                decreases chunk.count - i,
            {
                let v = column.get(i);
                let ghost d = cell(cs[k as int], col, i as int);
                assert(d == v.deep_view());
                if !v.is_null() {
                    match kind {
                        Some(t) => {
                            if key_to_i64(&v, t).is_none() {
                                proof {
                                    let e = cell(cs[first.0], col, first.1);
                                    assert forall|u: GroupKeyType| !(#[trigger] int_keyed(
                                        cs,
                                        col,
                                        u,
                                    )) by {
                                        assert(key_int(e, u) is Some ==> u == t);
                                    }
                                }
                                return None;
                            }
                        },
                        None => {
                            kind = detect_key_type(&v);
                            proof {
                                first = (k as int, i as int);
                            }
                            if kind.is_none() {
                                return None;
                            }
                        },
                    }
                }
                i += 1;
            }
        }
        k += 1;
    }
    kind
}

fn group_with<I: RowIndex, E: Fn(Ask) -> Reply, M: Fn() -> I>(
    input: &Vec<DataChunk>,
    group_by: &Vec<usize>,
    aggregates: &Vec<(AggregateFunc, usize, bool)>,
    make: M,
    Ghost(sample): Ghost<I>,
    env: &E,
) -> (r: Vec<DataChunk>)
    requires
        answers(*env),
        chunks_wf(input@),
        all_cover(input.deep_view()),
        call_requires(make, ()),
        forall|x: I|
            #[trigger] call_ensures(make, (), x) ==> x.intact() && x.rows() == Seq::<
                Seq<Datum>,
            >::empty() && forall|k: Seq<Datum>| #[trigger] x.takes(k) == sample.takes(k),
        forall|k: int, i: int|
            #![trigger group_key(input.deep_view()[k], group_by@, i)]
            0 <= k < input.len() && 0 <= i < input.deep_view()[k].count ==> sample.takes(
                group_key(input.deep_view()[k], group_by@, i),
            ),
    ensures
        chunks_wf(r@),
        r.deep_view() == batches(
            group_rows(
                oracle(*env),
                grouped_chunks(
                    oracle(*env),
                    input.deep_view(),
                    group_by@,
                    aggregates@,
                    input.len() as int,
                ),
            ),
        ),
{
    let ghost o = oracle(*env);
    let ghost cs = input.deep_view();
    let ghost w = group_by@.len();
    let index = make();
    let mut target = GroupTable { index, states: Vec::new() };
    assert(target.states.deep_view() =~= Seq::<Seq<AggState>>::empty());
    let mut k: usize = 0;
    while k < input.len()
        invariant
            answers(*env),
            o == oracle(*env),
            chunks_wf(input@),
            cs == input.deep_view(),
            all_cover(cs),
            w == group_by@.len(),
            call_requires(make, ()),
            forall|x: I|
                #[trigger] call_ensures(make, (), x) ==> x.intact() && x.rows() == Seq::<
                    Seq<Datum>,
                >::empty() && forall|k: Seq<Datum>| #[trigger] x.takes(k) == sample.takes(k),
            forall|k: int, i: int|
                #![trigger group_key(cs[k], group_by@, i)]
                0 <= k < input.len() && 0 <= i < cs[k].count ==> sample.takes(
                    group_key(cs[k], group_by@, i),
                ),
            forall|k: Seq<Datum>| #[trigger] target.index.takes(k) == sample.takes(k),
            k <= input.len(),
            target.wf(aggregates@.len()),
            target.groups() == grouped_chunks(o, cs, group_by@, aggregates@, k as int),
            forall|i: int|
                0 <= i < target.index.rows().len() ==> (#[trigger] target.index.rows()[i]).len()
                    == w,
        decreases input.len() - k,
    {
        assert(input[k as int].wf() && cs[k as int] == input[k as int].deep_view());
        assert(covers(cs[k as int]));
        let fresh_index = make();
        let empty = GroupTable { index: fresh_index, states: Vec::new() };
        assert(empty.states.deep_view() =~= Seq::<Seq<AggState>>::empty());
        let ghost c = cs[k as int];
        assert forall|i: int| 0 <= i < input[k as int].count implies empty.index.takes(
            #[trigger] group_key(c, group_by@, i),
        ) by {
            assert(sample.takes(group_key(cs[k as int], group_by@, i)));
        }
        let part = aggregate_chunk_grouped_partial(empty, &input[k], group_by, aggregates, env);
        proof {
            lemma_grouped_width(o, c, group_by@, aggregates@, c.count as int);
            let h = part.groups();
            assert forall|i: int| 0 <= i < h.keys.len() implies sample.takes(#[trigger] h.keys[i])
                && h.keys[i].len() == w by {
                let j = choose|j: int|
                    0 <= j < c.count && h.keys[i] == #[trigger] group_key(c, group_by@, j);
                assert(sample.takes(group_key(cs[k as int], group_by@, j)));
            }
            assert forall|i: int| 0 <= i < part.index.rows().len() implies target.index.takes(
                #[trigger] part.index.rows()[i],
            ) by {
                assert(sample.takes(h.keys[i]));
            }
            lemma_merged_width(o, target.groups(), h, h.keys.len() as int, w);
        }
        target = merge_grouped_map(target, &part, Ghost(aggregates@.len()), env);
        assert forall|i: int| 0 <= i < target.index.rows().len() implies (
        #[trigger] target.index.rows()[i]).len() == w by {
            assert(target.index.rows()[i] == target.groups().keys[i]);
        }
        k += 1;
    }
    finish_groups(&target, Ghost(w), Ghost(aggregates@.len()), env)
}

/// Groups by one column of values that integers stand for; gives nothing
/// where its values are not all of one such type.
pub fn try_execute_grouped_int<E: Fn(Ask) -> Reply>(
    input: &Vec<DataChunk>,
    group_by: &Vec<usize>,
    aggregates: &Vec<(AggregateFunc, usize, bool)>,
    env: &E,
) -> (r: Option<Vec<DataChunk>>)
    requires
        answers(*env),
        chunks_wf(input@),
        all_cover(input.deep_view()),
        group_by.len() == 1,
    ensures
        r is Some <==> one_int_kind(input.deep_view(), group_by@[0]),
        r matches Some(v) ==> chunks_wf(v@) && v.deep_view() == batches(
            group_rows(
                oracle(*env),
                grouped_chunks(
                    oracle(*env),
                    input.deep_view(),
                    group_by@,
                    aggregates@,
                    input.len() as int,
                ),
            ),
        ),
{
    let kind = match find_int_kind(input, group_by[0]) {
        Some(t) => t,
        None => {
            return None;
        },
    };
    let sample = IntIndex::new(kind);
    let make = || -> (x: IntIndex)
        ensures
            x.intact(),
            x.rows() == Seq::<Seq<Datum>>::empty(),
            x.kind() == kind,
        { IntIndex::new(kind) };
    proof {
        let cs = input.deep_view();
        assert forall|k: int, i: int|
            #![trigger group_key(cs[k], group_by@, i)]
            0 <= k < input.len() && 0 <= i < cs[k].count implies sample.takes(
            group_key(cs[k], group_by@, i),
        ) by {
            assert(group_key(cs[k], group_by@, i)[0] == cell(cs[k], group_by@[0], i));
        }
    }
    Some(group_with(input, group_by, aggregates, make, Ghost(sample), env))
}

/// Groups with the distinct values that their aggregates have met.
pub struct DistinctGroups {
    pub keys: Seq<Seq<Datum>>,
    pub sets: Seq<Seq<Seq<Seq<Datum>>>>,
}

/// The sets after one more row. Only distinct aggregates gather values.
pub open spec fn met_row(
    sets: Seq<Seq<Seq<Datum>>>,
    c: Chunk,
    i: int,
    aggs: Seq<(AggregateFunc, usize, bool)>,
) -> Seq<Seq<Seq<Datum>>> {
    Seq::new(
        aggs.len(),
        |j: int|
            if aggs[j].2 && cell(c, aggs[j].1, i) != Datum::Null {
                added(sets[j], seq![cell(c, aggs[j].1, i)])
            } else {
                sets[j]
            },
    )
}

/// Sets without values.
pub open spec fn no_sets(n: nat) -> Seq<Seq<Seq<Datum>>> {
    Seq::new(n, |j: int| Seq::empty())
}

/// The groups after one more row.
pub open spec fn met_groups(
    g: DistinctGroups,
    c: Chunk,
    i: int,
    cols: Seq<usize>,
    aggs: Seq<(AggregateFunc, usize, bool)>,
) -> DistinctGroups {
    let key = group_key(c, cols, i);
    match row_position(g.keys, key, 0) {
        Some(p) => DistinctGroups {
            keys: g.keys,
            sets: g.sets.update(p, met_row(g.sets[p], c, i, aggs)),
        },
        None => DistinctGroups {
            keys: g.keys.push(key),
            sets: g.sets.push(met_row(no_sets(aggs.len()), c, i, aggs)),
        },
    }
}

/// The groups after the first `n` rows of a batch.
pub open spec fn met_chunk(
    g: DistinctGroups,
    c: Chunk,
    cols: Seq<usize>,
    aggs: Seq<(AggregateFunc, usize, bool)>,
    n: int,
) -> DistinctGroups
    decreases n,
{
    if n <= 0 {
        g
    } else {
        met_groups(met_chunk(g, c, cols, aggs, n - 1), c, n - 1, cols, aggs)
    }
}

/// The groups after the first `n` batches.
pub open spec fn met_chunks(
    cs: Seq<Chunk>,
    cols: Seq<usize>,
    aggs: Seq<(AggregateFunc, usize, bool)>,
    n: int,
) -> DistinctGroups
    decreases n,
{
    if n <= 0 {
        DistinctGroups { keys: Seq::empty(), sets: Seq::empty() }
    } else {
        met_chunk(
            met_chunks(cs, cols, aggs, n - 1),
            cs[n - 1],
            cols,
            aggs,
            cs[n - 1].count as int,
        )
    }
}

/// The rows of groups with distinct values: the key, then the results of the
/// distinct aggregates, and NULL for the others.
pub open spec fn distinct_group_rows(
    o: spec_fn(Question) -> Answer,
    g: DistinctGroups,
    aggs: Seq<(AggregateFunc, usize, bool)>,
) -> Seq<Seq<Datum>> {
    Seq::new(
        g.keys.len(),
        |i: int|
            g.keys[i] + Seq::new(
                aggs.len(),
                |j: int|
                    if aggs[j].2 {
                        distinct_result(o, aggs[j].0, g.sets[i][j])
                    } else {
                        Datum::Null
                    },
            ),
    )
}

/// The models of sets of values.
spec fn sets_of(v: Seq<KeyIndex>) -> Seq<Seq<Seq<Datum>>> {
    Seq::new(v.len(), |j: int| v[j]@)
}

/// Whether sets of values are intact, and hold rows of one value.
spec fn sets_wf(v: Seq<KeyIndex>, n: nat) -> bool {
    &&& v.len() == n
    &&& forall|j: int|
        0 <= j < n ==> (#[trigger] v[j]).wf() && forall|i: int|
            0 <= i < v[j]@.len() ==> (#[trigger] v[j]@[i]).len() == 1
}

fn new_sets(n: usize) -> (r: Vec<KeyIndex>)
    ensures
        sets_wf(r@, n as nat),
        sets_of(r@) == no_sets(n as nat),
{
    let mut out: Vec<KeyIndex> = Vec::new();
    let mut j: usize = 0;
    while j < n
        invariant
            j <= n,
            out.len() == j,
            forall|k: int|
                0 <= k < j ==> (#[trigger] out[k]).wf() && out[k]@ == Seq::<Seq<Datum>>::empty(),
        decreases n - j,
    {
        out.push(KeyIndex::new());
        j += 1;
    }
    assert(sets_of(out@) =~= no_sets(n as nat));
    out
}

/// Gathers the values of a row.
fn meet_row(
    sets: Vec<KeyIndex>,
    chunk: &DataChunk,
    i: usize,
    aggregates: &Vec<(AggregateFunc, usize, bool)>,
) -> (r: Vec<KeyIndex>)
    requires
        chunk.wf(),
        covers(chunk.deep_view()),
        i < chunk.count,
        sets_wf(sets@, aggregates@.len()),
    ensures
        sets_wf(r@, aggregates@.len()),
        sets_of(r@) == met_row(sets_of(sets@), chunk.deep_view(), i as int, aggregates@),
{
    let ghost c = chunk.deep_view();
    let ghost old_sets = sets_of(sets@);
    let ghost want = met_row(old_sets, c, i as int, aggregates@);
    let mut rest = sets;
    let mut out: Vec<KeyIndex> = Vec::new();
    let mut j: usize = aggregates.len();
    while j > 0
        invariant
            chunk.wf(),
            c == chunk.deep_view(),
            covers(c),
            i < chunk.count,
            j <= aggregates.len(),
            want == met_row(old_sets, c, i as int, aggregates@),
            old_sets.len() == aggregates.len(),
            rest.len() == j,
            out.len() == aggregates.len() - j,
            forall|k: int|
                0 <= k < j ==> (#[trigger] rest[k]).wf() && rest[k]@ == old_sets[k] && forall|m: int|
                    0 <= m < rest[k]@.len() ==> (#[trigger] rest[k]@[m]).len() == 1,
            forall|k: int|
                0 <= k < out.len() ==> (#[trigger] out[k]).wf() && out[k]@ == want[
                    aggregates.len() - 1 - k] && forall|m: int|
                    0 <= m < out[k]@.len() ==> (#[trigger] out[k]@[m]).len() == 1,
        decreases j,
    {
        j -= 1;
        assert(rest[j as int].wf());
        let mut set = match rest.pop() {
            Some(s) => s,
            None => KeyIndex::new(),
        };
        let (_, col, distinct) = aggregates[j];
        if distinct && col < chunk.columns.len() {
            assert(chunk.columns[col as int].wf());
            assert(c.columns[col as int] == chunk.columns[col as int].deep_view());
            let v = chunk.columns[col].get(i);
            if !v.is_null() {
                add_distinct(&mut set, one_value(v));
            }
        }
        assert(set@ == want[j as int]);
        out.push(set);
    }
    let mut r: Vec<KeyIndex> = Vec::new();
    let ghost n = aggregates.len();
    let mut k: usize = 0;
    while k < aggregates.len()
        invariant
            n == aggregates.len(),
            k <= n,
            want.len() == n,
            out.len() == n - k,
            r.len() == k,
            forall|m: int|
                0 <= m < out.len() ==> (#[trigger] out[m]).wf() && out[m]@ == want[n - 1 - m]
                    && forall|q: int|
                    0 <= q < out[m]@.len() ==> (#[trigger] out[m]@[q]).len() == 1,
            forall|m: int|
                0 <= m < k ==> (#[trigger] r[m]).wf() && r[m]@ == want[m] && forall|q: int|
                    0 <= q < r[m]@.len() ==> (#[trigger] r[m]@[q]).len() == 1,
        decreases n - k,
    {
        assert(out[out.len() - 1].wf());
        let set = match out.pop() {
            Some(s) => s,
            None => KeyIndex::new(),
        };
        r.push(set);
        k += 1;
    }
    assert(sets_of(r@) =~= want);
    r
}

/// Groups with sets in the making.
struct SetTable {
    index: KeyIndex,
    sets: Vec<Vec<KeyIndex>>,
}

impl SetTable {
    spec fn groups(&self) -> DistinctGroups {
        DistinctGroups {
            keys: self.index@,
            sets: Seq::new(self.sets@.len(), |i: int| sets_of(self.sets@[i]@)),
        }
    }

    spec fn wf(&self, n: nat) -> bool {
        &&& self.index.wf()
        &&& self.sets.len() == self.index@.len()
        &&& forall|i: int| 0 <= i < self.sets.len() ==> sets_wf((#[trigger] self.sets[i])@, n)
    }
}

fn meet_chunk(
    table: SetTable,
    chunk: &DataChunk,
    group_by: &Vec<usize>,
    aggregates: &Vec<(AggregateFunc, usize, bool)>,
) -> (r: SetTable)
    requires
        chunk.wf(),
        covers(chunk.deep_view()),
        table.wf(aggregates@.len()),
        forall|i: int|
            0 <= i < table.index@.len() ==> (#[trigger] table.index@[i]).len() == group_by.len(),
    ensures
        r.wf(aggregates@.len()),
        r.groups() == met_chunk(
            table.groups(),
            chunk.deep_view(),
            group_by@,
            aggregates@,
            chunk.count as int,
        ),
        forall|i: int|
            0 <= i < r.index@.len() ==> (#[trigger] r.index@[i]).len() == group_by.len(),
{
    let ghost c = chunk.deep_view();
    let ghost g = table.groups();
    let mut table = table;
    let mut i: usize = 0;
    while i < chunk.count
        invariant
            chunk.wf(),
            c == chunk.deep_view(),
            covers(c),
            i <= chunk.count,
            table.wf(aggregates@.len()),
            table.groups() == met_chunk(g, c, group_by@, aggregates@, i as int),
            forall|i: int|
                0 <= i < table.index@.len() ==> (#[trigger] table.index@[i]).len()
                    == group_by.len(),
        decreases chunk.count - i,
    {
        let ghost before = table.groups();
        let ghost old_sets = table.sets@;
        let key = read_key(chunk, group_by, i);
        match table.index.find(&key) {
            Some(p) => {
                assert(sets_wf(table.sets[p as int]@, aggregates@.len()));
                let sets = table.sets.remove(p);
                let next = meet_row(sets, chunk, i, aggregates);
                let ghost nv = sets_of(next@);
                table.sets.insert(p, next);
                assert(table.sets@ =~= old_sets.update(p as int, next));
                assert(table.groups().sets =~= before.sets.update(p as int, nv));
            },
            None => {
                let next = meet_row(new_sets(aggregates.len()), chunk, i, aggregates);
                let ghost nv = sets_of(next@);
                table.index.push(key);
                table.sets.push(next);
                assert(table.groups().sets =~= before.sets.push(nv));
            },
        }
        i += 1;
    }
    table
}

/// Groups with distinct aggregates.
pub fn execute_grouped_distinct<E: Fn(Ask) -> Reply>(
    input: &Vec<DataChunk>,
    group_by: &Vec<usize>,
    aggregates: &Vec<(AggregateFunc, usize, bool)>,
    env: &E,
) -> (r: Vec<DataChunk>)
    requires
        answers(*env),
        chunks_wf(input@),
        all_cover(input.deep_view()),
    ensures
        chunks_wf(r@),
        r.deep_view() == batches(
            distinct_group_rows(
                oracle(*env),
                met_chunks(input.deep_view(), group_by@, aggregates@, input.len() as int),
                aggregates@,
            ),
        ),
{
    let ghost o = oracle(*env);
    let ghost cs = input.deep_view();
    let mut table = SetTable { index: KeyIndex::new(), sets: Vec::new() };
    assert(table.groups().sets =~= Seq::<Seq<Seq<Seq<Datum>>>>::empty());
    let mut k: usize = 0;
    while k < input.len()
        invariant
            chunks_wf(input@),
            cs == input.deep_view(),
            all_cover(cs),
            k <= input.len(),
            table.wf(aggregates@.len()),
            table.groups() == met_chunks(cs, group_by@, aggregates@, k as int),
            forall|i: int|
                0 <= i < table.index@.len() ==> (#[trigger] table.index@[i]).len()
                    == group_by.len(),
        decreases input.len() - k,
    {
        assert(input[k as int].wf() && cs[k as int] == input[k as int].deep_view());
        assert(covers(cs[k as int]));
        table = meet_chunk(table, &input[k], group_by, aggregates);
        k += 1;
    }
    let ghost g = table.groups();
    let ghost want = distinct_group_rows(o, g, aggregates@);
    let mut rows: Vec<Vec<Value>> = Vec::new();
    let mut i: usize = 0;
    while i < table.index.len()
        invariant
            answers(*env),
            o == oracle(*env),
            g == table.groups(),
            table.wf(aggregates@.len()),
            want == distinct_group_rows(o, g, aggregates@),
            i <= g.keys.len(),
            rows.len() == i,
            forall|k: int| 0 <= k < i ==> (#[trigger] rows[k]).deep_view() == want[k],
        decreases g.keys.len() - i,
    {
        let mut row = clone_row(table.index.row(i));
        let ghost key = g.keys[i as int];
        let ghost tail = Seq::new(
            aggregates@.len(),
            |j: int|
                if aggregates@[j].2 {
                    distinct_result(o, aggregates@[j].0, g.sets[i as int][j])
                } else {
                    Datum::Null
                },
        );
        assert(want[i as int] == key + tail);
        assert(sets_wf(table.sets[i as int]@, aggregates@.len()));
        let mut j: usize = 0;
        assert(row.deep_view() =~= key + tail.subrange(0, 0));
        while j < aggregates.len()
            invariant
                answers(*env),
                o == oracle(*env),
                g == table.groups(),
                i < table.sets.len(),
                sets_wf(table.sets[i as int]@, aggregates@.len()),
                tail == Seq::new(
                    aggregates@.len(),
                    |j: int|
                        if aggregates@[j].2 {
                            distinct_result(o, aggregates@[j].0, g.sets[i as int][j])
                        } else {
                            Datum::Null
                        },
                ),
                j <= aggregates.len(),
                row.deep_view() == key + tail.subrange(0, j as int),
            decreases aggregates.len() - j,
        {
            let (func, _, distinct) = aggregates[j];
            assert(table.sets[i as int]@[j as int].wf());
            assert(g.sets[i as int][j as int] == table.sets[i as int][j as int]@);
            let v = if distinct {
                finish_distinct(&table.sets[i][j], func, env)
            } else {
                Value::Null
            };
            let ghost before = row.deep_view();
            row.push(v);
            assert(row.deep_view() =~= before.push(tail[j as int]));
            assert(row.deep_view() =~= key + tail.subrange(0, j + 1));
            j += 1;
        }
        assert(row.deep_view() =~= want[i as int]);
        rows.push(row);
        i += 1;
    }
    assert(rows.deep_view() =~= want);
    proof {
        assert forall|i: int| 0 <= i < want.len() implies (#[trigger] want[i]).len()
            == want[0].len() by {
            assert(table.index@[i].len() == table.index@[0].len());
        }
        lemma_rectangular_fits(want);
    }
    let slice = rows.as_slice();
    assert(slice.deep_view() =~= want);
    from_rows_batched(slice)
}

/// Whether an aggregate is over distinct values.
pub open spec fn any_distinct(aggs: Seq<(AggregateFunc, usize, bool)>) -> bool {
    exists|j: int| 0 <= j < aggs.len() && (#[trigger] aggs[j]).2
}

/// The batches of the groups of batches, in the order in which their keys
/// first occur.
pub open spec fn grouped_result(
    o: spec_fn(Question) -> Answer,
    cs: Seq<Chunk>,
    cols: Seq<usize>,
    aggs: Seq<(AggregateFunc, usize, bool)>,
) -> Seq<Chunk> {
    if cs.len() == 0 {
        Seq::empty()
    } else if any_distinct(aggs) {
        batches(distinct_group_rows(o, met_chunks(cs, cols, aggs, cs.len() as int), aggs))
    } else {
        batches(group_rows(o, grouped_chunks(o, cs, cols, aggs, cs.len() as int)))
    }
}

/// Groups batches by columns, and aggregates each group.
pub fn group_batches<E: Fn(Ask) -> Reply>(
    input: &Vec<DataChunk>,
    group_by: &Vec<usize>,
    aggregates: &Vec<(AggregateFunc, usize, bool)>,
    env: &E,
) -> (r: Vec<DataChunk>)
    requires
        answers(*env),
        chunks_wf(input@),
        all_cover(input.deep_view()),
    ensures
        chunks_wf(r@),
        r.deep_view() == grouped_result(
            oracle(*env),
            input.deep_view(),
            group_by@,
            aggregates@,
        ),
{
    if input.len() == 0 {
        let out: Vec<DataChunk> = Vec::new();
        assert(out.deep_view() =~= Seq::<Chunk>::empty());
        return out;
    }
    let mut j: usize = 0;
    while j < aggregates.len()
        invariant
            answers(*env),
            chunks_wf(input@),
            all_cover(input.deep_view()),
            input.len() > 0,
            j <= aggregates.len(),
            forall|k: int| 0 <= k < j ==> !(#[trigger] aggregates[k]).2,
        decreases aggregates.len() - j,
    {
        if aggregates[j].2 {
            assert(aggregates@[j as int].2);
            return execute_grouped_distinct(input, group_by, aggregates, env);
        }
        j += 1;
    }
    if group_by.len() == 1 {
        if let Some(r) = try_execute_grouped_int(input, group_by, aggregates, env) {
            return r;
        }
    }
    let sample = KeyIndex::new();
    let make = || -> (x: KeyIndex)
        ensures
            x.wf(),
            x@ == Seq::<Seq<Datum>>::empty(),
        { KeyIndex::new() };
    group_with(input, group_by, aggregates, make, Ghost(sample), env)
}

/// Aggregates batches, as [`aggregate_batches`] does. Nothing can fail.
pub fn execute<E: Fn(Ask) -> Reply>(
    input: &Vec<DataChunk>,
    aggregates: &Vec<(AggregateFunc, usize, bool)>,
    env: &E,
) -> (r: Result<Vec<DataChunk>, EngramDbError>)
    requires
        answers(*env),
        chunks_wf(input@),
        all_cover(input.deep_view()),
    ensures
        r is Ok,
        chunks_wf(r->Ok_0@),
        r->Ok_0.deep_view() == seq![
            aggregated_chunk(oracle(*env), input.deep_view(), aggregates@),
        ],
{
    Ok(aggregate_batches(input, aggregates, env))
}

/// Groups and aggregates batches, as [`group_batches`] does. Nothing can fail.
pub fn execute_grouped<E: Fn(Ask) -> Reply>(
    input: &Vec<DataChunk>,
    group_by: &Vec<usize>,
    aggregates: &Vec<(AggregateFunc, usize, bool)>,
    env: &E,
) -> (r: Result<Vec<DataChunk>, EngramDbError>)
    requires
        answers(*env),
        chunks_wf(input@),
        all_cover(input.deep_view()),
    ensures
        r is Ok,
        chunks_wf(r->Ok_0@),
        r->Ok_0.deep_view() == grouped_result(
            oracle(*env),
            input.deep_view(),
            group_by@,
            aggregates@,
        ),
{
    Ok(group_batches(input, group_by, aggregates, env))
}

} // verus!
