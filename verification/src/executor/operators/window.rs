//! Functions over windows: the rows are sorted, split into partitions, and
//! every row gets one more value for every function.
use vstd::prelude::*;

use crate::common::error::EngramDbError;
use crate::executor::env::{answers, oracle, Answer, Ask, Question, Reply};
use crate::executor::expression::eval::{find_name, name_at};
use crate::executor::operators::aggregate::{finished, fresh, taken, PartialAggState};
use crate::executor::operators::hash_join::{cell_of, flat_rows, read_cell};
use crate::executor::operators::sort::{clone_chunks, row_order, sort_keyed};
use crate::executor::physical_plan::{
    AggregateFunc, SortDirection, SortKey, WindowFuncType, WindowFunctionExpr,
};
use crate::executor::sorting::{law_sort_permutes, sorted_positions, sorted_rows};
use crate::executor::vector::{
    all_cover, batch, batch_count, batches, batches_fit, chunks_wf, first_is_longest,
    from_rows_batched, lemma_batch_bounds, lemma_rectangular_fits, rectangular, rows_of_all, Chunk,
    DataChunk, VECTOR_SIZE,
};
use crate::sql::ast::{Expr, Expression, WindowFrame, WindowFrameBound, WindowSpec};
use crate::value::{clone_row, same_row, same_value, Datum};
use crate::Value;

verus! {

/// The position of the column that an expression names.
pub open spec fn column_named(e: Expr, names: Seq<Seq<char>>) -> Option<int> {
    match e {
        Expr::ColumnRef(_, c) => name_at(names, c, 0),
        _ => None,
    }
}

/// The sort keys of the first `n` expressions with their directions. What
/// names no column is no key.
pub open spec fn keys_of(items: Seq<(Expr, bool)>, names: Seq<Seq<char>>, n: int) -> Seq<SortKey>
    decreases n,
{
    if n <= 0 {
        Seq::empty()
    } else {
        let before = keys_of(items, names, n - 1);
        match column_named(items[n - 1].0, names) {
            Some(i) => before.push(
                SortKey {
                    column_index: i as usize,
                    direction: if items[n - 1].1 {
                        SortDirection::Asc
                    } else {
                        SortDirection::Desc
                    },
                },
            ),
            None => before,
        }
    }
}

/// Expressions in ascending order.
pub open spec fn ascending(list: Seq<Expr>) -> Seq<(Expr, bool)> {
    Seq::new(list.len(), |i: int| (list[i], true))
}

/// The keys of a partition.
pub open spec fn partition_keys(spec: WindowSpec, names: Seq<Seq<char>>) -> Seq<SortKey> {
    let items = ascending(spec.partition_by.deep_view());
    keys_of(items, names, items.len() as int)
}

/// The keys by which a window sorts: those of the partition first.
pub open spec fn window_keys(spec: WindowSpec, names: Seq<Seq<char>>) -> Seq<SortKey> {
    let items = spec.order_by.deep_view();
    partition_keys(spec, names) + keys_of(items, names, items.len() as int)
}

/// Whether two rows differ in a key that both have.
pub open spec fn apart(a: Seq<Datum>, b: Seq<Datum>, keys: Seq<SortKey>) -> bool {
    exists|k: int|
        0 <= k < keys.len() && (#[trigger] keys[k]).column_index < a.len() && keys[k].column_index
            < b.len() && a[keys[k].column_index as int] != b[keys[k].column_index as int]
}

/// The first row of the partition that row `i` lies in.
pub open spec fn part_start(rows: Seq<Seq<Datum>>, keys: Seq<SortKey>, i: int) -> int
    decreases i,
{
    if i <= 0 || apart(rows[i], rows[i - 1], keys) {
        i
    } else {
        part_start(rows, keys, i - 1)
    }
}

/// The first row behind the partition that row `i` lies in.
pub open spec fn part_end(rows: Seq<Seq<Datum>>, keys: Seq<SortKey>, i: int) -> int
    decreases rows.len() - i,
{
    if i + 1 >= rows.len() || apart(rows[i + 1], rows[i], keys) {
        i + 1
    } else {
        part_end(rows, keys, i + 1)
    }
}

/// The smaller of two numbers.
pub open spec fn least(a: int, b: int) -> int {
    if a <= b {
        a
    } else {
        b
    }
}

/// The number of rows before `n` more, not below zero.
pub open spec fn back(i: int, n: int) -> int {
    if n <= i {
        i - n
    } else {
        0
    }
}

/// The first row of the frame of row `i`.
pub open spec fn frame_start(frame: Option<WindowFrame>, i: int, total: int) -> int {
    match frame {
        None => 0,
        Some(f) => least(
            match f.start {
                WindowFrameBound::UnboundedPreceding => 0,
                WindowFrameBound::NPreceding(n) => back(i, n as int),
                WindowFrameBound::CurrentRow => i,
                WindowFrameBound::NFollowing(n) => least(i + n, total - 1),
                WindowFrameBound::UnboundedFollowing => total - 1,
            },
            total,
        ),
    }
}

/// The first row behind the frame of row `i`. Without an end the frame ends
/// with the row itself.
pub open spec fn frame_end(frame: Option<WindowFrame>, i: int, total: int) -> int {
    match frame {
        None => i + 1,
        Some(f) => least(
            match f.end {
                Some(WindowFrameBound::UnboundedFollowing) => total,
                Some(WindowFrameBound::NFollowing(n)) => i + n + 1,
                Some(WindowFrameBound::NPreceding(n)) => back(i, n as int) + 1,
                _ => i + 1,
            },
            total,
        ),
    }
}

/// The state of an aggregate over the rows `a..b` of a column.
pub open spec fn folded(
    o: spec_fn(Question) -> Answer,
    f: AggregateFunc,
    rows: Seq<Seq<Datum>>,
    col: int,
    a: int,
    b: int,
) -> crate::executor::operators::aggregate::AggState
    decreases b - a,
{
    if b <= a {
        fresh(f)
    } else {
        taken(o, folded(o, f, rows, col, a, b - 1), cell_of(rows[b - 1], col))
    }
}

/// The first row of the run of equal rows that ends with row `i`, seen from
/// row `j`.
pub open spec fn run_start(rows: Seq<Seq<Datum>>, i: int, j: int) -> int
    decreases j,
{
    if j > 0 && rows[j - 1] == rows[i] {
        run_start(rows, i, j - 1)
    } else {
        j
    }
}

/// The number of runs of equal rows up to row `i`.
pub open spec fn runs(rows: Seq<Seq<Datum>>, i: int) -> nat
    decreases i,
{
    if i <= 0 {
        1
    } else if rows[i] == rows[i - 1] {
        runs(rows, i - 1)
    } else {
        runs(rows, i - 1) + 1
    }
}

/// The value of an input column in a row, NULL where there is none.
pub open spec fn input_at(rows: Seq<Seq<Datum>>, col: Option<usize>, i: int) -> Datum {
    match col {
        Some(c) => if 0 <= i < rows.len() {
            cell_of(rows[i], c as int)
        } else {
            Datum::Null
        },
        None => Datum::Null,
    }
}

/// A number of rows as a value.
pub open spec fn counted(n: int) -> Datum {
    Datum::Int64(n as usize as i64)
}

/// The aggregate function that a window function stands for.
pub open spec fn aggregate_of(f: WindowFuncType) -> Option<AggregateFunc> {
    match f {
        WindowFuncType::Count => Some(AggregateFunc::Count),
        WindowFuncType::Sum => Some(AggregateFunc::Sum),
        WindowFuncType::Avg => Some(AggregateFunc::Avg),
        WindowFuncType::Min => Some(AggregateFunc::Min),
        WindowFuncType::Max => Some(AggregateFunc::Max),
        _ => None,
    }
}

/// The value of a window function for row `i` of a partition.
pub open spec fn window_value(
    o: spec_fn(Question) -> Answer,
    rows: Seq<Seq<Datum>>,
    i: int,
    f: WindowFuncType,
    col: Option<usize>,
    frame: Option<WindowFrame>,
) -> Datum {
    let n = rows.len() as int;
    match f {
        WindowFuncType::RowNumber => counted(i + 1),
        WindowFuncType::Rank => counted(run_start(rows, i, i) + 1),
        WindowFuncType::DenseRank => counted(runs(rows, i) as int),
        WindowFuncType::Lag(k) => input_at(rows, col, i - k),
        WindowFuncType::Lead(k) => input_at(rows, col, i + k),
        WindowFuncType::FirstValue => input_at(rows, col, 0),
        WindowFuncType::LastValue => input_at(rows, col, n - 1),
        WindowFuncType::NthValue(_) => Datum::Null,
        _ => {
            let (a, b) = (frame_start(frame, i, n), frame_end(frame, i, n));
            match (aggregate_of(f), col) {
                (Some(g), Some(c)) => finished(o, folded(o, g, rows, c as int, a, b)),
                (Some(AggregateFunc::Count), None) => counted(
                    if a <= b {
                        b - a
                    } else {
                        0
                    },
                ),
                _ => Datum::Null,
            }
        },
    }
}

/// A row of a partition with the values of the window functions.
pub open spec fn windowed_row(
    o: spec_fn(Question) -> Answer,
    rows: Seq<Seq<Datum>>,
    i: int,
    funcs: Seq<WindowFunctionExpr>,
) -> Seq<Datum> {
    rows[i] + Seq::new(
        funcs.len(),
        |k: int|
            window_value(
                o,
                rows,
                i,
                funcs[k].func,
                funcs[k].input_column,
                funcs[k].window_spec.window_frame,
            ),
    )
}

/// Sorted rows with the values of the window functions.
pub open spec fn windowed_rows(
    o: spec_fn(Question) -> Answer,
    rows: Seq<Seq<Datum>>,
    keys: Seq<SortKey>,
    funcs: Seq<WindowFunctionExpr>,
) -> Seq<Seq<Datum>> {
    Seq::new(
        rows.len(),
        |i: int|
            windowed_row(
                o,
                rows.subrange(part_start(rows, keys, i), part_end(rows, keys, i)),
                i - part_start(rows, keys, i),
                funcs,
            ),
    )
}

/// Batches with the values of the window functions. The first function says
/// how rows are sorted and split.
pub open spec fn windowed(
    o: spec_fn(Question) -> Answer,
    cs: Seq<Chunk>,
    funcs: Seq<WindowFunctionExpr>,
    names: Seq<Seq<char>>,
) -> Seq<Chunk> {
    if cs.len() == 0 || funcs.len() == 0 {
        cs
    } else {
        let spec = funcs[0].window_spec;
        let keys = window_keys(spec, names);
        let sorted = sorted_rows(
            rows_of_all(cs),
            |a: Seq<Datum>, b: Seq<Datum>| row_order(a, b, keys, 0),
        );
        batches(windowed_rows(o, sorted, partition_keys(spec, names), funcs))
    }
}

/// Whether the rows can be put into batches: they are of one length, or in the
/// order of the first function no row is longer than the first of its batch.
pub open spec fn windows_fit(
    cs: Seq<Chunk>,
    funcs: Seq<WindowFunctionExpr>,
    names: Seq<Seq<char>>,
) -> bool {
    cs.len() == 0 || funcs.len() == 0 || rectangular(rows_of_all(cs)) || batches_fit(
        sorted_rows(
            rows_of_all(cs),
            |a: Seq<Datum>, b: Seq<Datum>|
                row_order(a, b, window_keys(funcs[0].window_spec, names), 0),
        ),
    )
}

/// Rows that are all longer by as much fit as before.
proof fn lemma_longer_fit(rows: Seq<Seq<Datum>>, longer: Seq<Seq<Datum>>, n: nat)
    requires
        batches_fit(rows),
        longer.len() == rows.len(),
        forall|i: int| 0 <= i < rows.len() ==> (#[trigger] longer[i]).len() == rows[i].len() + n,
    ensures
        batches_fit(longer),
{
    assert forall|k: int| 0 <= k < batch_count(longer.len()) implies first_is_longest(
        #[trigger] batch(longer, k),
    ) by {
        let (a, b) = (batch(rows, k), batch(longer, k));
        assert(first_is_longest(a));
        lemma_batch_bounds(rows, k);
        assert(b[0] == longer[k * VECTOR_SIZE] && a[0] == rows[k * VECTOR_SIZE]);
        assert forall|i: int| 0 <= i < b.len() implies (#[trigger] b[i]).len() <= b[0].len() by {
            assert(b[i] == longer[k * VECTOR_SIZE + i] && a[i] == rows[k * VECTOR_SIZE + i]);
        }
    }
}

/// Finds the column that an expression names.
pub fn resolve_column_index(expr: &Expression, column_names: &Vec<String>) -> (r: Option<usize>)
    ensures
        match r {
            Some(i) => column_named(expr.deep_view(), column_names.deep_view()) == Some(i as int),
            None => column_named(expr.deep_view(), column_names.deep_view()) is None,
        },
{
    match expr {
        Expression::ColumnRef { table, column } => find_name(column_names, column.as_str()),
        _ => None,
    }
}

fn push_key(
    keys: &mut Vec<SortKey>,
    expr: &Expression,
    rises: bool,
    names: &Vec<String>,
    Ghost(items): Ghost<Seq<(Expr, bool)>>,
    Ghost(n): Ghost<int>,
)
    requires
        0 <= n < items.len(),
        items[n] == (expr.deep_view(), rises),
    ensures
        forall|front: Seq<SortKey>|
            old(keys)@ == front + keys_of(items, names.deep_view(), n) ==> final(keys)@ == (front
                + #[trigger] keys_of(items, names.deep_view(), n + 1)),
{
    let ghost before = keys@;
    if let Some(i) = resolve_column_index(expr, names) {
        let direction = if rises {
            SortDirection::Asc
        } else {
            SortDirection::Desc
        };
        keys.push(SortKey { column_index: i, direction });
    }
    proof {
        assert forall|front: Seq<SortKey>|
            before == front + keys_of(items, names.deep_view(), n) implies keys@ == (front
            + #[trigger] keys_of(items, names.deep_view(), n + 1)) by {
            assert(keys@ =~= front + keys_of(items, names.deep_view(), n + 1));
        }
    }
}

fn find_partition_keys(spec: &WindowSpec, names: &Vec<String>) -> (r: Vec<SortKey>)
    ensures
        r@ == partition_keys(*spec, names.deep_view()),
{
    let ghost items = ascending(spec.partition_by.deep_view());
    let ghost nv = names.deep_view();
    let mut keys: Vec<SortKey> = Vec::new();
    let mut i: usize = 0;
    while i < spec.partition_by.len()
        invariant
            items == ascending(spec.partition_by.deep_view()),
            nv == names.deep_view(),
            i <= spec.partition_by.len(),
            keys@ == keys_of(items, nv, i as int),
        decreases spec.partition_by.len() - i,
    {
        assert(spec.partition_by.deep_view()[i as int] == spec.partition_by[i as int].deep_view());
        assert(keys@ =~= Seq::<SortKey>::empty() + keys_of(items, nv, i as int));
        push_key(&mut keys, &spec.partition_by[i], true, names, Ghost(items), Ghost(i as int));
        assert(keys@ =~= Seq::<SortKey>::empty() + keys_of(items, nv, i + 1));
        i += 1;
    }
    keys
}

fn find_window_keys(spec: &WindowSpec, names: &Vec<String>) -> (r: Vec<SortKey>)
    ensures
        r@ == window_keys(*spec, names.deep_view()),
{
    let ghost items = spec.order_by.deep_view();
    let ghost nv = names.deep_view();
    let mut keys = find_partition_keys(spec, names);
    let ghost front = keys@;
    let mut i: usize = 0;
    assert(keys@ =~= front + keys_of(items, nv, 0));
    while i < spec.order_by.len()
        invariant
            items == spec.order_by.deep_view(),
            nv == names.deep_view(),
            i <= spec.order_by.len(),
            keys@ == front + keys_of(items, nv, i as int),
        decreases spec.order_by.len() - i,
    {
        assert(items[i as int] == spec.order_by[i as int].deep_view());
        push_key(
            &mut keys,
            &spec.order_by[i].expr,
            spec.order_by[i].ascending,
            names,
            Ghost(items),
            Ghost(i as int),
        );
        assert(keys@ == front + keys_of(items, nv, i + 1));
        i += 1;
    }
    keys
}

fn rows_apart(a: &Vec<Value>, b: &Vec<Value>, keys: &Vec<SortKey>) -> (r: bool)
    ensures
        r == apart(a.deep_view(), b.deep_view(), keys@),
{
    let ghost (x, y) = (a.deep_view(), b.deep_view());
    let mut k: usize = 0;
    while k < keys.len()
        invariant
            x == a.deep_view(),
            y == b.deep_view(),
            k <= keys.len(),
            forall|j: int|
                0 <= j < k ==> !((#[trigger] keys[j]).column_index < x.len() && keys[j].column_index
                    < y.len() && x[keys[j].column_index as int] != y[keys[j].column_index as int]),
        decreases keys.len() - k,
    {
        let i: usize = keys[k].column_index;
        if i < a.len() && i < b.len() {
            assert(x[i as int] == a[i as int].deep_view() && y[i as int] == b[i as int].deep_view());
            if !same_value(&a[i], &b[i]) {
                assert(keys@[k as int].column_index == i);
                return true;
            }
        }
        k += 1;
    }
    false
}

/// Finds the first row behind the partition that starts with a row.
fn find_partition_end(rows: &Vec<Vec<Value>>, start: usize, keys: &Vec<SortKey>) -> (r: usize)
    requires
        start < rows.len(),
    ensures
        start < r <= rows.len(),
        forall|j: int|
            start < j < r ==> !(#[trigger] apart(
                rows.deep_view()[j],
                rows.deep_view()[j - 1],
                keys@,
            )),
        r < rows.len() ==> apart(rows.deep_view()[r as int], rows.deep_view()[r - 1], keys@),
{
    let ghost rv = rows.deep_view();
    let mut i: usize = start + 1;
    while i < rows.len()
        invariant
            rv == rows.deep_view(),
            start < i <= rows.len(),
            forall|j: int| start < j < i ==> !(#[trigger] apart(rv[j], rv[j - 1], keys@)),
        decreases rows.len() - i,
    {
        assert(rv[i as int] == rows[i as int].deep_view());
        assert(rv[i - 1] == rows[i - 1].deep_view());
        if rows_apart(&rows[i], &rows[i - 1], keys) {
            return i;
        }
        i += 1;
    }
    i
}

proof fn lemma_partition(rows: Seq<Seq<Datum>>, keys: Seq<SortKey>, start: int, end: int, i: int)
    requires
        0 <= start <= i < end <= rows.len(),
        start > 0 ==> apart(rows[start], rows[start - 1], keys),
        end < rows.len() ==> apart(rows[end], rows[end - 1], keys),
        forall|j: int| start < j < end ==> !(#[trigger] apart(rows[j], rows[j - 1], keys)),
    ensures
        part_start(rows, keys, i) == start,
        part_end(rows, keys, i) == end,
{
    lemma_start(rows, keys, start, end, i);
    lemma_end(rows, keys, start, end, i);
}

proof fn lemma_start(rows: Seq<Seq<Datum>>, keys: Seq<SortKey>, start: int, end: int, i: int)
    requires
        0 <= start <= i < end <= rows.len(),
        start > 0 ==> apart(rows[start], rows[start - 1], keys),
        forall|j: int| start < j < end ==> !(#[trigger] apart(rows[j], rows[j - 1], keys)),
    ensures
        part_start(rows, keys, i) == start,
    decreases i - start,
{
    if i > start {
        assert(!apart(rows[i], rows[i - 1], keys));
        lemma_start(rows, keys, start, end, i - 1);
    }
}

proof fn lemma_end(rows: Seq<Seq<Datum>>, keys: Seq<SortKey>, start: int, end: int, i: int)
    requires
        0 <= start <= i < end <= rows.len(),
        end < rows.len() ==> apart(rows[end], rows[end - 1], keys),
        forall|j: int| start < j < end ==> !(#[trigger] apart(rows[j], rows[j - 1], keys)),
    ensures
        part_end(rows, keys, i) == end,
    decreases end - i,
{
    if i + 1 < end {
        assert(!apart(rows[i + 1], rows[i + 1 - 1], keys));
        lemma_end(rows, keys, start, end, i + 1);
    } else if end < rows.len() {
        assert(apart(rows[i + 1], rows[i], keys));
    }
}

/// The rows of a frame: the first, and the first behind it.
pub fn compute_frame_bounds(total_rows: usize, current_idx: usize, frame: Option<WindowFrame>) -> (r:
    (usize, usize))
    requires
        current_idx < total_rows,
    ensures
        r.0 == frame_start(frame, current_idx as int, total_rows as int),
        r.1 == frame_end(frame, current_idx as int, total_rows as int),
        r.0 <= total_rows,
        r.1 <= total_rows,
{
    let frame = match frame {
        Some(f) => f,
        None => {
            return (0, current_idx + 1);
        },
    };
    let start: usize = match frame.start {
        WindowFrameBound::UnboundedPreceding => 0,
        WindowFrameBound::NPreceding(n) => if n <= current_idx {
            current_idx - n
        } else {
            0
        },
        WindowFrameBound::CurrentRow => current_idx,
        WindowFrameBound::NFollowing(n) => if n < total_rows - current_idx {
            current_idx + n
        } else {
            total_rows - 1
        },
        WindowFrameBound::UnboundedFollowing => total_rows - 1,
    };
    let end: usize = match frame.end {
        Some(WindowFrameBound::UnboundedFollowing) => total_rows,
        Some(WindowFrameBound::NFollowing(n)) => if n < total_rows - current_idx {
            current_idx + n + 1
        } else {
            total_rows
        },
        Some(WindowFrameBound::NPreceding(n)) => if n <= current_idx {
            current_idx - n + 1
        } else {
            1
        },
        _ => current_idx + 1,
    };
    (start, end)
}

fn fold_frame<E: Fn(Ask) -> Reply>(
    func: AggregateFunc,
    rows: &Vec<Vec<Value>>,
    base: usize,
    col: usize,
    a: usize,
    b: usize,
    env: &E,
    Ghost(part): Ghost<Seq<Seq<Datum>>>,
) -> (r: Value)
    requires
        answers(*env),
        base + part.len() <= rows.len(),
        b <= part.len(),
        forall|k: int| 0 <= k < part.len() ==> #[trigger] part[k] == rows.deep_view()[base + k],
    ensures
        r.deep_view() == finished(
            oracle(*env),
            folded(oracle(*env), func, part, col as int, a as int, b as int),
        ),
{
    let ghost o = oracle(*env);
    let mut state = PartialAggState::new(func);
    let mut i: usize = a;
    while i < b
        invariant
            answers(*env),
            o == oracle(*env),
            base + part.len() <= rows.len(),
            b <= part.len(),
            forall|k: int| 0 <= k < part.len() ==> #[trigger] part[k] == rows.deep_view()[base + k],
            a <= b ==> a <= i <= b,
            a > b ==> i == a,
            state.deep_view() == folded(o, func, part, col as int, a as int, i as int),
        decreases b - i,
    {
        assert(part[i as int] == rows.deep_view()[base + i]);
        assert(rows.deep_view()[base + i] == rows[base + i].deep_view());
        let v = read_cell(&rows[base + i], col);
        state.accumulate(&v, env);
        i += 1;
    }
    state.finalize(env)
}

fn read_input(
    rows: &Vec<Vec<Value>>,
    base: usize,
    col: Option<usize>,
    i: usize,
    Ghost(part): Ghost<Seq<Seq<Datum>>>,
) -> (r: Value)
    requires
        base + part.len() <= rows.len(),
        i < part.len(),
        forall|k: int| 0 <= k < part.len() ==> #[trigger] part[k] == rows.deep_view()[base + k],
    ensures
        r.deep_view() == input_at(part, col, i as int),
{
    match col {
        Some(c) => {
            assert(part[i as int] == rows.deep_view()[base + i]);
            assert(rows.deep_view()[base + i] == rows[base + i].deep_view());
            read_cell(&rows[base + i], c)
        },
        None => Value::Null,
    }
}

fn find_run_start(
    rows: &Vec<Vec<Value>>,
    base: usize,
    i: usize,
    Ghost(part): Ghost<Seq<Seq<Datum>>>,
) -> (r: usize)
    requires
        base + part.len() <= rows.len(),
        i < part.len(),
        forall|k: int| 0 <= k < part.len() ==> #[trigger] part[k] == rows.deep_view()[base + k],
    ensures
        r == run_start(part, i as int, i as int),
        r <= i,
{
    let mut j: usize = i;
    while j > 0
        invariant
            base + part.len() <= rows.len(),
            i < part.len(),
            j <= i,
            forall|k: int| 0 <= k < part.len() ==> #[trigger] part[k] == rows.deep_view()[base + k],
            run_start(part, i as int, i as int) == run_start(part, i as int, j as int),
        decreases j,
    {
        assert(part[i as int] == rows.deep_view()[base + i]);
        assert(rows.deep_view()[base + i] == rows[base + i].deep_view());
        assert(part[j - 1] == rows.deep_view()[base + (j - 1)]);
        assert(rows.deep_view()[base + (j - 1)] == rows[base + (j - 1)].deep_view());
        if !same_row(&rows[base + (j - 1)], &rows[base + i]) {
            return j;
        }
        j -= 1;
    }
    0
}

fn count_runs(
    rows: &Vec<Vec<Value>>,
    base: usize,
    i: usize,
    Ghost(part): Ghost<Seq<Seq<Datum>>>,
) -> (r: usize)
    requires
        base + part.len() <= rows.len(),
        i < part.len(),
        forall|k: int| 0 <= k < part.len() ==> #[trigger] part[k] == rows.deep_view()[base + k],
    ensures
        r == runs(part, i as int),
{
    let mut n: usize = 1;
    let mut j: usize = 0;
    while j < i
        invariant
            base + part.len() <= rows.len(),
            i < part.len(),
            j <= i,
            1 <= n <= j + 1,
            forall|k: int| 0 <= k < part.len() ==> #[trigger] part[k] == rows.deep_view()[base + k],
            n == runs(part, j as int),
        decreases i - j,
    {
        assert(part[j as int] == rows.deep_view()[base + j]);
        assert(rows.deep_view()[base + j] == rows[base + j].deep_view());
        assert(part[j + 1] == rows.deep_view()[base + (j + 1)]);
        assert(rows.deep_view()[base + (j + 1)] == rows[base + (j + 1)].deep_view());
        if !same_row(&rows[base + (j + 1)], &rows[base + j]) {
            n += 1;
        }
        j += 1;
    }
    n
}

/// The value of a window function for row `current_idx` of the partition of
/// the rows from `base` on, which has `total` rows.
pub fn compute_single_window_function<E: Fn(Ask) -> Reply>(
    rows: &Vec<Vec<Value>>,
    base: usize,
    total: usize,
    current_idx: usize,
    wf: &WindowFunctionExpr,
    env: &E,
) -> (r: Value)
    requires
        answers(*env),
        base + total <= rows.len(),
        current_idx < total,
    ensures
        r.deep_view() == window_value(
            oracle(*env),
            rows.deep_view().subrange(base as int, base + total),
            current_idx as int,
            wf.func,
            wf.input_column,
            wf.window_spec.window_frame,
        ),
{
    let ghost part = rows.deep_view().subrange(base as int, base + total);
    let i: usize = current_idx;
    match wf.func {
        WindowFuncType::RowNumber => Value::Int64((i + 1) as i64),
        WindowFuncType::Rank => {
            let s: usize = find_run_start(rows, base, i, Ghost(part));
            Value::Int64((s + 1) as i64)
        },
        WindowFuncType::DenseRank => {
            let n: usize = count_runs(rows, base, i, Ghost(part));
            Value::Int64(n as i64)
        },
        WindowFuncType::Lag(k) => if k <= i {
            read_input(rows, base, wf.input_column, i - k, Ghost(part))
        } else {
            Value::Null
        },
        WindowFuncType::Lead(k) => if k < total - i {
            read_input(rows, base, wf.input_column, i + k, Ghost(part))
        } else {
            Value::Null
        },
        WindowFuncType::FirstValue => read_input(rows, base, wf.input_column, 0, Ghost(part)),
        WindowFuncType::LastValue => {
            read_input(rows, base, wf.input_column, total - 1, Ghost(part))
        },
        WindowFuncType::NthValue(_) => Value::Null,
        _ => {
            let (a, b): (usize, usize) = compute_frame_bounds(
                total,
                i,
                wf.window_spec.window_frame,
            );
            let func = match wf.func {
                WindowFuncType::Count => AggregateFunc::Count,
                WindowFuncType::Sum => AggregateFunc::Sum,
                WindowFuncType::Avg => AggregateFunc::Avg,
                WindowFuncType::Min => AggregateFunc::Min,
                _ => AggregateFunc::Max,
            };
            match wf.input_column {
                Some(c) => fold_frame(func, rows, base, c, a, b, env, Ghost(part)),
                None => if func == AggregateFunc::Count {
                    let n: usize = if a <= b {
                        b - a
                    } else {
                        0
                    };
                    Value::Int64(n as i64)
                } else {
                    Value::Null
                },
            }
        },
    }
}

fn window_row<E: Fn(Ask) -> Reply>(
    rows: &Vec<Vec<Value>>,
    base: usize,
    total: usize,
    i: usize,
    funcs: &Vec<WindowFunctionExpr>,
    env: &E,
) -> (r: Vec<Value>)
    requires
        answers(*env),
        base + total <= rows.len(),
        i < total,
    ensures
        r.deep_view() == windowed_row(
            oracle(*env),
            rows.deep_view().subrange(base as int, base + total),
            i as int,
            funcs@,
        ),
{
    let ghost o = oracle(*env);
    let ghost part = rows.deep_view().subrange(base as int, base + total);
    let ghost want = windowed_row(o, part, i as int, funcs@);
    let mut row = clone_row(&rows[base + i]);
    assert(rows.deep_view()[base + i] == rows[base + i].deep_view());
    let ghost n = row.len();
    let mut k: usize = 0;
    assert(row.deep_view() =~= want.subrange(0, n as int));
    while k < funcs.len()
        invariant
            answers(*env),
            o == oracle(*env),
            base + total <= rows.len(),
            i < total,
            part == rows.deep_view().subrange(base as int, base + total),
            want == windowed_row(o, part, i as int, funcs@),
            part[i as int].len() == n,
            want.len() == n + funcs.len(),
            k <= funcs.len(),
            row.deep_view() == want.subrange(0, n + k),
        decreases funcs.len() - k,
    {
        let v = compute_single_window_function(rows, base, total, i, &funcs[k], env);
        let ghost before = row.deep_view();
        let ghost d = v.deep_view();
        row.push(v);
        assert(row.deep_view() =~= before.push(d));
        assert(want[n + k] == d);
        assert(row.deep_view() =~= want.subrange(0, n + k + 1));
        k += 1;
    }
    assert(want.subrange(0, n + k) =~= want);
    row
}

/// Adds the values of the window functions to sorted rows.
pub fn compute_window_functions<E: Fn(Ask) -> Reply>(
    rows: &Vec<Vec<Value>>,
    keys: &Vec<SortKey>,
    funcs: &Vec<WindowFunctionExpr>,
    env: &E,
) -> (r: Vec<Vec<Value>>)
    requires
        answers(*env),
    ensures
        r.deep_view() == windowed_rows(oracle(*env), rows.deep_view(), keys@, funcs@),
{
    let ghost o = oracle(*env);
    let ghost rv = rows.deep_view();
    let ghost want = windowed_rows(o, rv, keys@, funcs@);
    let mut out: Vec<Vec<Value>> = Vec::new();
    let mut start: usize = 0;
    while start < rows.len()
        invariant
            answers(*env),
            o == oracle(*env),
            rv == rows.deep_view(),
            want == windowed_rows(o, rv, keys@, funcs@),
            start <= rows.len(),
            0 < start < rows.len() ==> apart(rv[start as int], rv[start - 1], keys@),
            out.len() == start,
            forall|k: int| 0 <= k < start ==> (#[trigger] out[k]).deep_view() == want[k],
        decreases rows.len() - start,
    {
        let end: usize = find_partition_end(rows, start, keys);
        let total: usize = end - start;
        let mut i: usize = 0;
        while i < total
            invariant
                answers(*env),
                o == oracle(*env),
                rv == rows.deep_view(),
                want == windowed_rows(o, rv, keys@, funcs@),
                start < end <= rows.len(),
                start > 0 ==> apart(rv[start as int], rv[start - 1], keys@),
                end < rows.len() ==> apart(rv[end as int], rv[end - 1], keys@),
                forall|j: int| start < j < end ==> !(#[trigger] apart(rv[j], rv[j - 1], keys@)),
                total == end - start,
                i <= total,
                out.len() == start + i,
                forall|k: int| 0 <= k < start + i ==> (#[trigger] out[k]).deep_view() == want[k],
            decreases total - i,
        {
            proof {
                lemma_partition(rv, keys@, start as int, end as int, start + i);
            }
            let row = window_row(rows, start, total, i, funcs, env);
            assert(row.deep_view() == want[start + i]);
            out.push(row);
            i += 1;
        }
        start = end;
    }
    assert(out.deep_view() =~= want);
    out
}

/// Adds the values of window functions to batches.
pub fn window_batches<E: Fn(Ask) -> Reply>(
    input: &Vec<DataChunk>,
    window_funcs: &Vec<WindowFunctionExpr>,
    column_names: &Vec<String>,
    env: &E,
) -> (r: Vec<DataChunk>)
    requires
        answers(*env),
        chunks_wf(input@),
        all_cover(input.deep_view()),
        windows_fit(input.deep_view(), window_funcs@, column_names.deep_view()),
    ensures
        chunks_wf(r@),
        r.deep_view() == windowed(
            oracle(*env),
            input.deep_view(),
            window_funcs@,
            column_names.deep_view(),
        ),
{
    if input.len() == 0 || window_funcs.len() == 0 {
        return clone_chunks(input);
    }
    let rows = flat_rows(input);
    let keys = find_window_keys(&window_funcs[0].window_spec, column_names);
    let parts = find_partition_keys(&window_funcs[0].window_spec, column_names);
    let sorted = sort_keyed(&rows, &keys);
    let out = compute_window_functions(&sorted, &parts, window_funcs, env);
    proof {
        let ord = |a: Seq<Datum>, b: Seq<Datum>| row_order(a, b, keys@, 0);
        let view = rows.deep_view();
        law_sort_permutes(view, ord, 0, view.len() as int);
        let p = sorted_positions(view, ord, 0, view.len() as int);
        let s = sorted.deep_view();
        let v = out.deep_view();
        assert forall|i: int| 0 <= i < s.len() implies (#[trigger] v[i]).len() == s[i].len()
            + window_funcs@.len() by {
            lemma_part_range(s, parts@, i);
        }
        if rectangular(view) {
            assert forall|i: int| 0 <= i < s.len() implies (#[trigger] s[i]).len() == s[0].len() by {
                assert(s[i] == view[p[i] as int]);
                assert(s[0] == view[p[0] as int]);
            }
            lemma_rectangular_fits(s);
        }
        lemma_longer_fit(s, v, window_funcs@.len());
    }
    let slice = out.as_slice();
    assert(slice.deep_view() =~= out.deep_view());
    from_rows_batched(slice)
}

proof fn lemma_part_range(rows: Seq<Seq<Datum>>, keys: Seq<SortKey>, i: int)
    requires
        0 <= i < rows.len(),
    ensures
        0 <= part_start(rows, keys, i) <= i < part_end(rows, keys, i) <= rows.len(),
{
    lemma_start_range(rows, keys, i);
    lemma_end_range(rows, keys, i);
}

proof fn lemma_start_range(rows: Seq<Seq<Datum>>, keys: Seq<SortKey>, i: int)
    requires
        0 <= i < rows.len(),
    ensures
        0 <= part_start(rows, keys, i) <= i,
    decreases i,
{
    if i > 0 {
        lemma_start_range(rows, keys, i - 1);
    }
}

proof fn lemma_end_range(rows: Seq<Seq<Datum>>, keys: Seq<SortKey>, i: int)
    requires
        0 <= i < rows.len(),
    ensures
        i < part_end(rows, keys, i) <= rows.len(),
    decreases rows.len() - i,
{
    if i + 1 < rows.len() {
        lemma_end_range(rows, keys, i + 1);
    }
}

/// Adds the values of window functions, as [`window_batches`] does. Nothing
/// can fail.
pub fn execute<E: Fn(Ask) -> Reply>(
    input: &Vec<DataChunk>,
    window_funcs: &Vec<WindowFunctionExpr>,
    column_names: &Vec<String>,
    env: &E,
) -> (r: Result<Vec<DataChunk>, EngramDbError>)
    requires
        answers(*env),
        chunks_wf(input@),
        all_cover(input.deep_view()),
        windows_fit(input.deep_view(), window_funcs@, column_names.deep_view()),
    ensures
        r is Ok,
        chunks_wf(r->Ok_0@),
        r->Ok_0.deep_view() == windowed(
            oracle(*env),
            input.deep_view(),
            window_funcs@,
            column_names.deep_view(),
        ),
{
    Ok(window_batches(input, window_funcs, column_names, env))
}

} // verus!
