//! What plans give in terms of what the plans below them give.
use vstd::prelude::*;

use crate::executor::env::{Answer, Question};
use crate::executor::executor::{evened, ran, spread, Given};
use crate::executor::operators::join_laws::{law_cross_counts, law_unique_rows};
use crate::executor::operators::table_scan::law_scan_reads_all;
use crate::executor::physical_plan::{PhysicalPlan, Plan, SetUnionOp};
use crate::executor::query_laws::{cells_at, law_limit};
use crate::executor::relational::{
    crossed, distinct_query, limit_query, paired, unique_rows, united,
};
use crate::query::Query;
use crate::storage::database::{table_of, Db};
use crate::storage::row_laws::{has_at, law_live_rows};
use crate::storage::table::{live, Tbl};
use crate::value::Datum;

verus! {

/// A scan of a table gives the columns that it asks for of each live row, in the order of
/// the rows, under their names, and changes nothing.
pub proof fn law_scan(
    o: spec_fn(Question) -> Answer,
    p: PhysicalPlan,
    g: Given,
    d: Db,
    t: Tbl,
    k: int,
)
    requires
        p is TableScan,
        table_of(d, p->TableScan_table_name@) == Some(t),
        t.slots.len() <= u64::MAX,
        0 <= k < live(t.slots, t.slots.len()).len(),
    ensures
        ran(o, Plan::Leaf(p), g, d).1 == d,
        ran(o, Plan::Leaf(p), g, d).0 matches Ok(q) && {
            let at = p->TableScan_column_indices@;
            let i = live(t.slots, t.slots.len())[k].0 as int;
            &&& q.rows.len() == live(t.slots, t.slots.len()).len()
            &&& q.columns.len() == at.len()
            &&& forall|j: int|
                0 <= j < at.len() && (#[trigger] at[j]) < t.def.columns.len() ==> q.columns[j]
                    == t.def.columns[at[j] as int].name
            &&& 0 <= i < t.slots.len()
            &&& t.slots[i] matches Some(r) && cells_at(q.rows[k], r, at)
        },
{
    law_scan_reads_all(t, p->TableScan_column_indices@);
    law_live_rows(t.slots, t.slots.len());
    assert(live(t.slots, t.slots.len())[k].0 < t.slots.len());
}

/// Whether rows are the first of others, as many as `n` or all that there are.
pub open spec fn first_rows(rows: Seq<Seq<Datum>>, of: Seq<Seq<Datum>>, n: int) -> bool {
    &&& rows.len() <= n
    &&& rows.len() <= of.len()
    &&& rows.len() == n || rows.len() == of.len()
    &&& forall|i: int| 0 <= i < rows.len() ==> #[trigger] rows[i] == of[i]
}

/// Whether rows are others, each once.
pub open spec fn each_once(rows: Seq<Seq<Datum>>, of: Seq<Seq<Datum>>) -> bool {
    rows.no_duplicates() && forall|x: Seq<Datum>| #[trigger] rows.contains(x) <==> of.contains(x)
}

/// A result without repeats has each of its rows once.
pub proof fn law_distinct(q: Query)
    ensures
        distinct_query(q).columns == q.columns,
        each_once(distinct_query(q).rows, q.rows),
{
    law_unique_rows(q.rows, q.rows.len());
    assert(q.rows.subrange(0, q.rows.len() as int) =~= q.rows);
}

/// Whether rows are others without repeats, each where it first stands: `p` gives the
/// place of each.
pub open spec fn first_places(rows: Seq<Seq<Datum>>, of: Seq<Seq<Datum>>, p: Seq<int>) -> bool {
    &&& p.len() == rows.len()
    &&& forall|k: int| 0 <= k < p.len() ==> 0 <= #[trigger] p[k] < of.len() && rows[k] == of[p[k]]
    &&& forall|j: int, k: int| 0 <= j < k < p.len() ==> #[trigger] p[j] < #[trigger] p[k]
    &&& forall|k: int, i: int|
        0 <= k < p.len() && 0 <= i < p[k] ==> #[trigger] of[i] != #[trigger] rows[k]
}

/// A result without repeats has its rows in the order in which they first stood.
pub proof fn law_distinct_order(q: Query) -> (p: Seq<int>)
    ensures
        first_places(distinct_query(q).rows, q.rows, p),
{
    lemma_first_places(q.rows, q.rows.len())
}

proof fn lemma_first_places(rows: Seq<Seq<Datum>>, n: nat) -> (p: Seq<int>)
    requires
        n <= rows.len(),
    ensures
        first_places(unique_rows(rows, n), rows, p),
        forall|k: int| 0 <= k < p.len() ==> #[trigger] p[k] < n,
    decreases n,
{
    if n == 0 {
        Seq::empty()
    } else {
        let m = (n - 1) as nat;
        let p = lemma_first_places(rows, m);
        let (before, all) = (unique_rows(rows, m), unique_rows(rows, n));
        law_unique_rows(rows, m);
        law_unique_rows(rows, n);
        if all.len() == before.len() {
            assert(all == before);
            p
        } else {
            let r = p.push(m as int);
            assert(all == before.push(rows[m as int]));
            assert forall|k: int, i: int| 0 <= k < r.len() && 0 <= i < r[k] implies
                #[trigger] rows[i] != #[trigger] all[k] by {
                if k == p.len() {
                    if rows[i] == all[k] {
                        assert(rows.subrange(0, m as int)[i] == rows[i]);
                        assert(rows.subrange(0, m as int).contains(rows[i]));
                        assert(before.contains(rows[i]));
                        let j = choose|j: int| 0 <= j < before.len() && before[j] == rows[i];
                        assert(all[j] == all[k] && j != k);
                    }
                } else {
                    assert(all[k] == before[k]);
                }
            }
            r
        }
    }
}

/// A limit gives the first rows of what the plan below gives. It fails where that fails,
/// and leaves the database as that does.
pub proof fn law_limit_plan(o: spec_fn(Question) -> Answer, x: Plan, n: usize, g: Given, d: Db)
    ensures
        ran(o, Plan::Limit(Box::new(x), n), g, d).1 == ran(o, x, g, d).1,
        match (ran(o, x, g, d).0, ran(o, Plan::Limit(Box::new(x), n), g, d).0) {
            (Ok(q), Ok(r)) => r.columns == q.columns && first_rows(r.rows, q.rows, n as int),
            (Err(a), Err(b)) => a == b,
            _ => false,
        },
{
    let below = ran(o, x, g, d);
    let above = ran(o, Plan::Limit(Box::new(x), n), g, d);
    assert(above == match below.0 {
        Err(f) => (Err(f), below.1),
        Ok(q) => (Ok(limit_query(q, n)), below.1),
    });
    if let Ok(q) = below.0 {
        law_limit(q, n);
    }
}

/// DISTINCT gives each row of what the plan below gives once.
pub proof fn law_distinct_plan(o: spec_fn(Question) -> Answer, x: Plan, g: Given, d: Db)
    ensures
        ran(o, Plan::Distinct(Box::new(x)), g, d).1 == ran(o, x, g, d).1,
        match (ran(o, x, g, d).0, ran(o, Plan::Distinct(Box::new(x)), g, d).0) {
            (Ok(q), Ok(r)) => r.columns == q.columns && each_once(r.rows, q.rows),
            (Err(a), Err(b)) => a == b,
            _ => false,
        },
{
    let below = ran(o, x, g, d);
    let above = ran(o, Plan::Distinct(Box::new(x)), g, d);
    assert(above == match below.0 {
        Err(f) => (Err(f), below.1),
        Ok(q) => (Ok(distinct_query(q)), below.1),
    });
    if let Ok(q) = below.0 {
        law_distinct(q);
    }
}

/// A cross join has every row of the left result with every row of the right one behind
/// it, in the order of the left rows and, for each of them, of the right ones.
pub proof fn law_cross(l: Seq<Seq<Datum>>, r: Seq<Seq<Datum>>, n: nat, i: int, j: int)
    requires
        n <= l.len(),
        0 <= i < n,
        0 <= j < r.len(),
    ensures
        crossed(l, r, n).len() == n * r.len(),
        0 <= i * r.len() + j < n * r.len(),
        crossed(l, r, n)[i * r.len() + j] == l[i] + r[j],
    decreases n,
{
    let m = (n - 1) as nat;
    let w = r.len() as int;
    law_cross_counts(l, r, n);
    law_cross_counts(l, r, m);
    let before = crossed(l, r, m);
    assert(crossed(l, r, n) == before + paired(l[m as int], r));
    assert(i * w + j < n * w && 0 <= i * w) by (nonlinear_arith)
        requires
            0 <= i,
            i + 1 <= n,
            0 <= j < w,
    ;
    if i < m {
        law_cross(l, r, m, i, j);
    } else {
        assert(i * w == m * w);
    }
}

/// UNION ALL has the rows of the left result and behind them those of the right one, and
/// repeats stay.
pub proof fn law_union_all(l: Seq<Seq<Datum>>, r: Seq<Seq<Datum>>, i: int)
    ensures
        united(SetUnionOp::UnionAll, l, r).len() == l.len() + r.len(),
        0 <= i < l.len() ==> united(SetUnionOp::UnionAll, l, r)[i] == l[i],
        0 <= i < r.len() ==> united(SetUnionOp::UnionAll, l, r)[l.len() + i] == r[i],
{
}

/// A row that is spread over the columns of a table has in each column what the last cell
/// that goes there has, and NULL where none goes.
pub proof fn law_spread(row: Seq<Datum>, map: Seq<usize>, width: nat, n: nat, j: int, k: int)
    requires
        n <= map.len(),
        n <= row.len(),
        0 <= j < width,
    ensures
        spread(row, map, width, n).len() == width,
        0 <= k < n && map[k] == j && (forall|i: int| k < i < n ==> #[trigger] map[i] != j)
            ==> spread(row, map, width, n)[j] == row[k],
        (forall|i: int| 0 <= i < n ==> #[trigger] map[i] != j) ==> spread(row, map, width, n)[j]
            == Datum::Null,
    decreases n,
{
    if n > 0 {
        law_spread(row, map, width, (n - 1) as nat, j, k);
        if 0 <= k < n - 1 && map[k] == j && (forall|i: int| k < i < n ==> #[trigger] map[i] != j) {
            assert(map[n - 1] != j);
        }
        if forall|i: int| 0 <= i < n ==> #[trigger] map[i] != j {
            assert(map[n - 1] != j);
        }
    }
}

/// Rows that are made as wide as the first keep their cells, and get NULL where they have
/// none.
pub proof fn law_evened(rows: Seq<Seq<Datum>>, i: int, j: int)
    requires
        0 <= i < rows.len(),
        0 <= j < rows[0].len(),
    ensures
        evened(rows).len() == rows.len(),
        evened(rows)[i].len() == rows[0].len(),
        has_at(rows[i], j, evened(rows)[i][j]),
{
}

} // verus!
