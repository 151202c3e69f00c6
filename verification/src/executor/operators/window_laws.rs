//! What window functions give.
use vstd::prelude::*;
use vstd::set_lib::{lemma_int_range, set_int_range};

use crate::executor::env::{Answer, Question};
use crate::executor::expression::eval::name_at;
use crate::executor::framing::{framed, law_frame_roundtrip, regular};
use crate::executor::operators::aggregate::fresh;
use crate::executor::operators::aggregate_laws::taken_each;
use crate::executor::operators::hash_join::cell_of;
use crate::executor::operators::summary_laws::summary;
use crate::executor::operators::sort::{comparable, law_rows_sorted, row_order};
use crate::executor::operators::window::{
    apart, ascending, folded, frame_end, frame_start, keys_of, part_end, part_start, partition_keys,
    run_start, runs, window_keys, window_value, windowed, windowed_row, windowed_rows,
};
use crate::executor::physical_plan::{
    AggregateFunc, SortDirection, SortKey, WindowFuncType, WindowFunctionExpr,
};
use crate::executor::query_laws::{keyed_order, rearranged};
use crate::executor::sorting::{goes_before, law_sort_permutes, sorted_positions, sorted_rows};
use crate::executor::vector::{law_batches_roundtrip, rectangular, rows_of_all};
use crate::sql::ast::{Expr, WindowFrame, WindowFrameBound, WindowSpec};
use crate::value::Datum;

verus! {

/// Whether row `j` of a partition of `n` rows is not before the start of the frame of
/// row `i`. A start behind the last row is the last row.
pub open spec fn from_start(b: WindowFrameBound, i: int, n: int, j: int) -> bool {
    match b {
        WindowFrameBound::UnboundedPreceding => true,
        WindowFrameBound::NPreceding(k) => i <= j + k,
        WindowFrameBound::CurrentRow => i <= j,
        WindowFrameBound::NFollowing(k) => i + k <= j || j == n - 1,
        WindowFrameBound::UnboundedFollowing => j == n - 1,
    }
}

/// Whether row `j` of a partition is not behind the end of the frame of row `i`. An
/// end before the first row is the first row.
pub open spec fn to_end(b: Option<WindowFrameBound>, i: int, j: int) -> bool {
    match b {
        Some(WindowFrameBound::UnboundedFollowing) => true,
        Some(WindowFrameBound::NFollowing(k)) => j <= i + k,
        Some(WindowFrameBound::NPreceding(k)) => j + k <= i || j == 0,
        _ => j <= i,
    }
}

/// Whether row `j` of a partition of `n` rows lies in the frame of row `i`. Without a
/// frame it is the rows up to the row itself.
pub open spec fn framed_in(f: Option<WindowFrame>, i: int, n: int, j: int) -> bool {
    0 <= j < n && match f {
        None => j <= i,
        Some(w) => from_start(w.start, i, n, j) && to_end(w.end, i, j),
    }
}

/// The rows of a frame are those from its start to its end.
pub proof fn law_frame(f: Option<WindowFrame>, i: int, n: int, j: int)
    requires
        0 <= i < n,
    ensures
        framed_in(f, i, n, j) <==> 0 <= j && frame_start(f, i, n) <= j < frame_end(f, i, n),
        0 <= frame_start(f, i, n) <= n,
        0 <= frame_end(f, i, n) <= n,
{
}

/// The frame from `k` rows before a row up to the row holds the row, and the rows
/// before it as far as there are, and `k` of them at most.
pub proof fn law_frame_before(f: WindowFrame, k: usize, i: int, n: int)
    requires
        0 <= i < n,
        f.start == WindowFrameBound::NPreceding(k),
        f.end is None || f.end == Some(WindowFrameBound::CurrentRow),
    ensures
        frame_end(Some(f), i, n) - frame_start(Some(f), i, n) == 1 + if k <= i {
            k as int
        } else {
            i
        },
        framed_in(Some(f), i, n, i),
        k == 0 ==> forall|j: int| #[trigger] framed_in(Some(f), i, n, j) ==> j == i,
{
}

/// COUNT without a column is the number of rows of the frame.
pub proof fn law_window_count(
    o: spec_fn(Question) -> Answer,
    rows: Seq<Seq<Datum>>,
    i: int,
    f: Option<WindowFrame>,
)
    requires
        0 <= i < rows.len(),
        rows.len() <= i64::MAX,
        rows.len() <= usize::MAX,
    ensures
        ({
            let all = Set::new(|j: int| framed_in(f, i, rows.len() as int, j));
            all.finite() && window_value(o, rows, i, WindowFuncType::Count, None, f)
                == Datum::Int64(all.len() as i64)
        }),
{
    let n = rows.len() as int;
    let all = Set::new(|j: int| framed_in(f, i, n, j));
    let (a, b) = (frame_start(f, i, n), frame_end(f, i, n));
    law_frame(f, i, n, 0);
    assert forall|j: int| all.contains(j) == set_int_range(a, if a <= b {
        b
    } else {
        a
    }).contains(j) by {
        law_frame(f, i, n, j);
    }
    lemma_int_range(a, if a <= b {
        b
    } else {
        a
    });
    assert(all =~= set_int_range(a, if a <= b {
        b
    } else {
        a
    }));
}

/// Whether positions are those of the rows of a frame, in their order.
pub open spec fn frame_rows(f: Option<WindowFrame>, i: int, n: int, at: Seq<int>) -> bool {
    &&& forall|k: int| 0 <= k < at.len() ==> framed_in(f, i, n, #[trigger] at[k])
    &&& forall|j: int| #[trigger] framed_in(f, i, n, j) ==> at.contains(j)
    &&& forall|k: int, l: int| 0 <= k < l < at.len() ==> #[trigger] at[k] < #[trigger] at[l]
}

/// Positions of the rows of a frame follow each other.
proof fn lemma_frame_rows(f: Option<WindowFrame>, i: int, n: int, at: Seq<int>, k: int)
    requires
        0 <= i < n,
        frame_rows(f, i, n, at),
        0 <= k < at.len(),
    ensures
        at[k] == frame_start(f, i, n) + k,
    decreases k,
{
    let (a, b) = (frame_start(f, i, n), frame_end(f, i, n));
    assert(framed_in(f, i, n, at[k]));
    law_frame(f, i, n, at[k]);
    if k == 0 {
        if at[0] > a {
            law_frame(f, i, n, a);
            assert(framed_in(f, i, n, a));
            let l = choose|l: int| 0 <= l < at.len() && at[l] == a;
            assert(at[0] <= at[l]);
        }
    } else {
        lemma_frame_rows(f, i, n, at, k - 1);
        if at[k] > a + k {
            law_frame(f, i, n, a + k);
            assert(framed_in(f, i, n, a + k));
            let l = choose|l: int| 0 <= l < at.len() && at[l] == a + k;
            assert(l > k - 1) by {
                if l <= k - 1 {
                    if l < k - 1 {
                        assert(at[l] < at[k - 1]);
                    }
                }
            }
            assert(l < k) by {
                if l > k {
                    assert(at[k] < at[l]);
                }
            }
        }
        assert(at[k - 1] < at[k]);
    }
}

proof fn lemma_frame_len(f: Option<WindowFrame>, i: int, n: int, at: Seq<int>)
    requires
        0 <= i < n,
        frame_rows(f, i, n, at),
    ensures
        ({
            let (a, b) = (frame_start(f, i, n), frame_end(f, i, n));
            at.len() == if a <= b {
                b - a
            } else {
                0
            }
        }),
{
    let (a, b) = (frame_start(f, i, n), frame_end(f, i, n));
    law_frame(f, i, n, a);
    if at.len() > 0 {
        let k = at.len() - 1;
        lemma_frame_rows(f, i, n, at, k);
        assert(framed_in(f, i, n, at[k]));
        law_frame(f, i, n, at[k]);
        law_frame(f, i, n, b - 1);
        assert(framed_in(f, i, n, b - 1));
        let l = choose|l: int| 0 <= l < at.len() && at[l] == b - 1;
        lemma_frame_rows(f, i, n, at, l);
    } else if a < b {
        assert(framed_in(f, i, n, a));
        assert(at.contains(a));
    }
}

proof fn lemma_folded(
    o: spec_fn(Question) -> Answer,
    g: AggregateFunc,
    rows: Seq<Seq<Datum>>,
    col: int,
    a: int,
    xs: Seq<Datum>,
    n: int,
)
    requires
        0 <= n <= xs.len(),
        forall|k: int| 0 <= k < xs.len() ==> #[trigger] xs[k] == cell_of(rows[a + k], col),
    ensures
        folded(o, g, rows, col, a, a + n) == taken_each(o, fresh(g), xs, n),
    decreases n,
{
    if n > 0 {
        lemma_folded(o, g, rows, col, a, xs, n - 1);
        assert(xs[n - 1] == cell_of(rows[a + (n - 1)], col));
    }
}

/// The window function of an aggregate function.
pub open spec fn window_of(g: AggregateFunc) -> WindowFuncType {
    match g {
        AggregateFunc::Count => WindowFuncType::Count,
        AggregateFunc::Sum => WindowFuncType::Sum,
        AggregateFunc::Avg => WindowFuncType::Avg,
        AggregateFunc::Min => WindowFuncType::Min,
        AggregateFunc::Max => WindowFuncType::Max,
    }
}

/// An aggregate over a window is that of the values of the column in the rows of the
/// frame, in their order, and of no others.
pub proof fn law_window_aggregate(
    o: spec_fn(Question) -> Answer,
    g: AggregateFunc,
    rows: Seq<Seq<Datum>>,
    i: int,
    col: usize,
    f: Option<WindowFrame>,
    at: Seq<int>,
)
    requires
        0 <= i < rows.len(),
        frame_rows(f, i, rows.len() as int, at),
    ensures
        window_value(o, rows, i, window_of(g), Some(col), f) == summary(
            o,
            g,
            Seq::new(
                at.len(),
                |k: int|
                    if col < rows[at[k]].len() {
                        rows[at[k]][col as int]
                    } else {
                        Datum::Null
                    },
            ),
        ),
{
    let n = rows.len() as int;
    let (a, b) = (frame_start(f, i, n), frame_end(f, i, n));
    let xs = Seq::new(
        at.len(),
        |k: int|
            if col < rows[at[k]].len() {
                rows[at[k]][col as int]
            } else {
                Datum::Null
            },
    );
    lemma_frame_len(f, i, n, at);
    assert forall|k: int| 0 <= k < xs.len() implies #[trigger] xs[k] == cell_of(
        rows[a + k],
        col as int,
    ) by {
        lemma_frame_rows(f, i, n, at, k);
    }
    lemma_folded(o, g, rows, col as int, a, xs, xs.len() as int);
    if a > b {
        assert(folded(o, g, rows, col as int, a, b) == fresh(g));
    }
}

/// ROW_NUMBER counts the rows of a partition from 1 on. RANK of a row is that of the
/// first row of those that are equal to it and stand together with it, and
/// DENSE_RANK counts on by one where a row differs from the one before.
pub proof fn law_ranks(
    o: spec_fn(Question) -> Answer,
    rows: Seq<Seq<Datum>>,
    i: int,
    col: Option<usize>,
    f: Option<WindowFrame>,
)
    requires
        0 <= i < rows.len(),
        rows.len() <= i64::MAX,
        rows.len() <= usize::MAX,
    ensures
        window_value(o, rows, i, WindowFuncType::RowNumber, col, f) matches Datum::Int64(k) && k
            == i + 1,
        window_value(o, rows, i, WindowFuncType::Rank, col, f) matches Datum::Int64(k) && {
            &&& 1 <= k <= i + 1
            &&& forall|j: int| k - 1 <= j <= i ==> #[trigger] rows[j] == rows[i]
            &&& k >= 2 ==> rows[k - 2] != rows[i]
        },
        window_value(o, rows, i, WindowFuncType::DenseRank, col, f) matches Datum::Int64(k) && {
            if i == 0 {
                k == 1
            } else {
                window_value(o, rows, i - 1, WindowFuncType::DenseRank, col, f) matches Datum::Int64(
                    l,
                ) && k == l + if rows[i] == rows[i - 1] {
                    0int
                } else {
                    1
                }
            }
        },
{
    lemma_run(rows, i, i);
    lemma_runs(rows, i);
    lemma_runs(rows, i - 1);
}

proof fn lemma_run(rows: Seq<Seq<Datum>>, i: int, j: int)
    requires
        0 <= j <= i < rows.len(),
        forall|k: int| j <= k <= i ==> #[trigger] rows[k] == rows[i],
    ensures
        0 <= run_start(rows, i, j) <= j,
        forall|k: int| run_start(rows, i, j) <= k <= i ==> #[trigger] rows[k] == rows[i],
        run_start(rows, i, j) > 0 ==> rows[run_start(rows, i, j) - 1] != rows[i],
    decreases j,
{
    if j > 0 && rows[j - 1] == rows[i] {
        lemma_run(rows, i, j - 1);
    }
}

proof fn lemma_runs(rows: Seq<Seq<Datum>>, i: int)
    ensures
        1 <= runs(rows, i) <= if i <= 0 {
            1
        } else {
            i + 1
        },
    decreases i,
{
    if i > 0 {
        lemma_runs(rows, i - 1);
    }
}

/// The value of a column in a row, NULL where there is none.
pub open spec fn value_in_row(rows: Seq<Seq<Datum>>, j: int, col: usize) -> Datum {
    if 0 <= j < rows.len() && col < rows[j].len() {
        rows[j][col as int]
    } else {
        Datum::Null
    }
}

/// LAG and LEAD read the row that is so many rows before or behind, FIRST_VALUE and
/// LAST_VALUE the first and the last row of the partition.
pub proof fn law_window_reads(
    o: spec_fn(Question) -> Answer,
    rows: Seq<Seq<Datum>>,
    i: int,
    k: usize,
    col: usize,
    f: Option<WindowFrame>,
)
    requires
        0 <= i < rows.len(),
    ensures
        window_value(o, rows, i, WindowFuncType::Lag(k), Some(col), f) == value_in_row(
            rows,
            i - k,
            col,
        ),
        window_value(o, rows, i, WindowFuncType::Lead(k), Some(col), f) == value_in_row(
            rows,
            i + k,
            col,
        ),
        window_value(o, rows, i, WindowFuncType::FirstValue, Some(col), f) == value_in_row(
            rows,
            0,
            col,
        ),
        window_value(o, rows, i, WindowFuncType::LastValue, Some(col), f) == value_in_row(
            rows,
            rows.len() - 1,
            col,
        ),
{
}

/// Whether two rows have the same values in the columns of keys, where both have the
/// columns.
pub open spec fn keyed_alike(a: Seq<Datum>, b: Seq<Datum>, keys: Seq<SortKey>) -> bool {
    forall|k: int|
        #![trigger keys[k]]
        0 <= k < keys.len() && keys[k].column_index < a.len() && keys[k].column_index < b.len()
            ==> a[keys[k].column_index as int] == b[keys[k].column_index as int]
}

/// A partition holds its row, and the rows around it as long as they have the same
/// keys as their neighbours: it begins and ends where the keys change.
pub proof fn law_partition(rows: Seq<Seq<Datum>>, keys: Seq<SortKey>, i: int)
    requires
        0 <= i < rows.len(),
    ensures
        ({
            let (a, b) = (part_start(rows, keys, i), part_end(rows, keys, i));
            &&& 0 <= a <= i < b <= rows.len()
            &&& forall|j: int|
                a < j < b ==> keyed_alike(#[trigger] rows[j], rows[j - 1], keys)
            &&& a > 0 ==> !keyed_alike(rows[a], rows[a - 1], keys)
            &&& b < rows.len() ==> !keyed_alike(rows[b], rows[b - 1], keys)
        }),
{
    lemma_apart(rows, keys);
    lemma_back(rows, keys, i);
    lemma_on(rows, keys, i);
}

proof fn lemma_apart(rows: Seq<Seq<Datum>>, keys: Seq<SortKey>)
    ensures
        forall|a: Seq<Datum>, b: Seq<Datum>| #[trigger]
            apart(a, b, keys) == !#[trigger] keyed_alike(a, b, keys),
{
    assert forall|a: Seq<Datum>, b: Seq<Datum>| #[trigger]
        apart(a, b, keys) == !#[trigger] keyed_alike(a, b, keys) by {}
}

proof fn lemma_back(rows: Seq<Seq<Datum>>, keys: Seq<SortKey>, i: int)
    requires
        0 <= i < rows.len(),
    ensures
        ({
            let a = part_start(rows, keys, i);
            &&& 0 <= a <= i
            &&& forall|j: int| a < j <= i ==> keyed_alike(#[trigger] rows[j], rows[j - 1], keys)
            &&& a > 0 ==> !keyed_alike(rows[a], rows[a - 1], keys)
        }),
    decreases i,
{
    lemma_apart(rows, keys);
    if i > 0 {
        assert(apart(rows[i], rows[i - 1], keys) == !keyed_alike(rows[i], rows[i - 1], keys));
        if !apart(rows[i], rows[i - 1], keys) {
            lemma_back(rows, keys, i - 1);
        }
    }
}

proof fn lemma_on(rows: Seq<Seq<Datum>>, keys: Seq<SortKey>, i: int)
    requires
        0 <= i < rows.len(),
    ensures
        ({
            let b = part_end(rows, keys, i);
            &&& i < b <= rows.len()
            &&& forall|j: int| i < j < b ==> keyed_alike(#[trigger] rows[j], rows[j - 1], keys)
            &&& b < rows.len() ==> !keyed_alike(rows[b], rows[b - 1], keys)
        }),
    decreases rows.len() - i,
{
    lemma_apart(rows, keys);
    if i + 1 < rows.len() {
        assert(apart(rows[i + 1], rows[i], keys) == !keyed_alike(rows[i + 1], rows[i], keys));
        if !apart(rows[i + 1], rows[i], keys) {
            lemma_on(rows, keys, i + 1);
        }
    }
}

/// Rows get their window values behind their own: those of their place in the
/// partition, one for each function in turn.
pub proof fn law_window_rows(
    o: spec_fn(Question) -> Answer,
    rows: Seq<Seq<Datum>>,
    keys: Seq<SortKey>,
    funcs: Seq<WindowFunctionExpr>,
    i: int,
)
    requires
        0 <= i < rows.len(),
    ensures
        ({
            let out = windowed_rows(o, rows, keys, funcs);
            let (a, b) = (part_start(rows, keys, i), part_end(rows, keys, i));
            &&& out.len() == rows.len()
            &&& out[i].len() == rows[i].len() + funcs.len()
            &&& out[i].subrange(0, rows[i].len() as int) == rows[i]
            &&& forall|k: int|
                0 <= k < funcs.len() ==> #[trigger] out[i][rows[i].len() + k] == window_value(
                    o,
                    rows.subrange(a, b),
                    i - a,
                    funcs[k].func,
                    funcs[k].input_column,
                    funcs[k].window_spec.window_frame,
                )
        }),
{
    law_partition(rows, keys, i);
    let out = windowed_rows(o, rows, keys, funcs);
    let (a, b) = (part_start(rows, keys, i), part_end(rows, keys, i));
    assert(rows.subrange(a, b)[i - a] == rows[i]);
    assert(out[i] == windowed_row(o, rows.subrange(a, b), i - a, funcs));
    assert(out[i].subrange(0, rows[i].len() as int) =~= rows[i]);
}

/// Whether an expression names a column, which is the first of its name.
pub open spec fn names_column(e: Expr, names: Seq<Seq<char>>, c: int) -> bool {
    e matches Expr::ColumnRef(_, name) && 0 <= c < names.len() && names[c] == name && forall|j: int|
        0 <= j < c ==> #[trigger] names[j] != name
}

proof fn lemma_name_at(names: Seq<Seq<char>>, name: Seq<char>, i: int, c: int)
    requires
        0 <= i <= c < names.len(),
        names[c] == name,
        forall|j: int| 0 <= j < c ==> #[trigger] names[j] != name,
    ensures
        name_at(names, name, i) == Some(c),
    decreases c - i,
{
    if i < c {
        lemma_name_at(names, name, i + 1, c);
    }
}

proof fn lemma_keys_of(items: Seq<(Expr, bool)>, names: Seq<Seq<char>>, at: Seq<int>, n: int)
    requires
        0 <= n <= items.len() == at.len(),
        names.len() <= usize::MAX,
        forall|i: int| 0 <= i < items.len() ==> names_column(#[trigger] items[i].0, names, at[i]),
    ensures
        keys_of(items, names, n).len() == n,
        forall|i: int|
            0 <= i < n ==> (#[trigger] keys_of(items, names, n)[i]).column_index == at[i] && (keys_of(
                items,
                names,
                n,
            )[i].direction == SortDirection::Asc <==> items[i].1),
    decreases n,
{
    if n > 0 {
        lemma_keys_of(items, names, at, n - 1);
        assert(names_column(items[n - 1].0, names, at[n - 1]));
        if let Expr::ColumnRef(_, name) = items[n - 1].0 {
            lemma_name_at(names, name, 0, at[n - 1]);
        }
        let (before, all) = (keys_of(items, names, n - 1), keys_of(items, names, n));
        assert forall|i: int| 0 <= i < n implies (#[trigger] all[i]).column_index == at[i] && (
        all[i].direction == SortDirection::Asc <==> items[i].1) by {
            if i < n - 1 {
                assert(all[i] == before[i]);
            }
        }
    }
}

/// A window sorts rows by the columns of its partition, ascending, and behind them by
/// those of its order, each in its direction. Rows are of one partition where they have
/// the same values in the columns of the partition.
pub proof fn law_window_keys(
    spec: WindowSpec,
    names: Seq<Seq<char>>,
    parts: Seq<int>,
    orders: Seq<int>,
)
    requires
        names.len() <= usize::MAX,
        parts.len() == spec.partition_by.deep_view().len(),
        orders.len() == spec.order_by.deep_view().len(),
        forall|i: int|
            0 <= i < parts.len() ==> names_column(
                #[trigger] spec.partition_by.deep_view()[i],
                names,
                parts[i],
            ),
        forall|i: int|
            0 <= i < orders.len() ==> names_column(
                #[trigger] spec.order_by.deep_view()[i].0,
                names,
                orders[i],
            ),
    ensures
        ({
            let keys = window_keys(spec, names);
            let n = parts.len() as int;
            &&& keys.len() == n + orders.len()
            &&& forall|i: int|
                0 <= i < n ==> (#[trigger] keys[i]).column_index == parts[i] && keys[i].direction
                    == SortDirection::Asc && partition_keys(spec, names)[i] == keys[i]
            &&& forall|i: int|
                n <= i < keys.len() ==> (#[trigger] keys[i]).column_index == orders[i - n] && (
                keys[i].direction == SortDirection::Asc <==> spec.order_by.deep_view()[i - n].1)
            &&& partition_keys(spec, names).len() == n
        }),
{
    let items = ascending(spec.partition_by.deep_view());
    assert forall|i: int| 0 <= i < items.len() implies names_column(
        #[trigger] items[i].0,
        names,
        parts[i],
    ) by {
        assert(items[i].0 == spec.partition_by.deep_view()[i]);
    }
    lemma_keys_of(items, names, parts, items.len() as int);
    let by = spec.order_by.deep_view();
    lemma_keys_of(by, names, orders, by.len() as int);
}

/// The rows that window functions give are the rows of the batches in the order of the
/// window, with the values of the functions behind them.
pub proof fn law_window_query(
    o: spec_fn(Question) -> Answer,
    rows: Seq<Seq<Datum>>,
    funcs: Seq<WindowFunctionExpr>,
    names: Seq<Seq<char>>,
) -> (p: Seq<usize>)
    requires
        rectangular(rows),
        rows.len() <= usize::MAX,
        rows.len() > 0,
        funcs.len() > 0,
        comparable(rows, window_keys(funcs[0].window_spec, names)),
    ensures
        ({
            let spec = funcs[0].window_spec;
            let sorted = Seq::new(p.len(), |i: int| rows[p[i] as int]);
            &&& rearranged(sorted, rows, p)
            &&& keyed_order(rows, window_keys(spec, names), p)
            &&& rows_of_all(windowed(o, framed(rows), funcs, names)) == windowed_rows(
                o,
                sorted,
                partition_keys(spec, names),
                funcs,
            )
        }),
{
    let spec = funcs[0].window_spec;
    let keys = window_keys(spec, names);
    let ord = |a: Seq<Datum>, b: Seq<Datum>| row_order(a, b, keys, 0);
    let p = sorted_positions(rows, ord, 0, rows.len() as int);
    law_rows_sorted(rows, keys);
    law_sort_permutes(rows, ord, 0, rows.len() as int);
    law_frame_roundtrip(rows);
    let cs = framed(rows);
    assert(regular(cs));
    let sorted = Seq::new(p.len(), |i: int| rows[p[i] as int]);
    assert(sorted =~= sorted_rows(rows, ord));
    assert(rearranged(sorted, rows, p));
    assert(keyed_order(rows, keys, p)) by {
        assert forall|i: int, j: int| 0 <= i < j < p.len() implies {
            let c = row_order(
                rows[(#[trigger] p[i]) as int],
                rows[(#[trigger] p[j]) as int],
                keys,
                0,
            );
            c < 0 || c == 0 && p[i] < p[j]
        } by {
            assert(goes_before(rows, ord, p[i], p[j]));
        }
    }
    let parts = partition_keys(spec, names);
    let out = windowed_rows(o, sorted, parts, funcs);
    assert forall|i: int| 0 <= i < out.len() implies (#[trigger] out[i]).len() == out[0].len() by {
        law_window_rows(o, sorted, parts, funcs, i);
        law_window_rows(o, sorted, parts, funcs, 0);
        assert(sorted[i].len() == rows[0].len() && sorted[0].len() == rows[0].len());
    }
    law_batches_roundtrip(out);
    assert(rows_of_all(cs) == rows);
    p
}

} // verus!
