//! What sorting, limits and lookups give of the rows that there are.
use vstd::prelude::*;

use crate::common::error::Fault;
use crate::common::types::IndexModel;
use crate::common::value_cmp::{law_order_flips, value_order};
use crate::executor::agreement::lemma_batches_regular;
use crate::executor::framing::{framed, law_frame_roundtrip, regular, rows_in};
use crate::executor::lookup::{
    by_first, covered, found_key, indexed, looked_up, ranged, rows_between, rows_with, tails,
};
use crate::executor::operators::hash_join::cell_of;
use crate::executor::operators::sort::{
    comparable, law_rows_sorted, ordered, row_order, trimmed,
};
use crate::executor::physical_plan::{SortDirection, SortKey};
use crate::executor::relational::{limit_query, sort_query};
use crate::executor::sorting::{
    goes_before, law_sort_permutes, rows_at, sorted_positions, sorted_rows, span,
};
use crate::executor::vector::{batches, law_batches_roundtrip, rectangular};
use crate::query::Query;
use crate::storage::database::{table_of, Db};
use crate::storage::row_laws::{has_at, is_key, lemma_key_column, lives_with};
use crate::storage::table::{keyed, law_key_is_found, picked, Tbl};
use crate::value::Datum;

verus! {

/// Whether two rows have in the column of a key values of which either may go first.
pub open spec fn ties(a: Seq<Datum>, b: Seq<Datum>, key: SortKey) -> bool {
    value_order(a[key.column_index as int], b[key.column_index as int]) == 0
}

/// The first key on which two rows differ decides their order: the smaller value goes
/// first where the key ascends, and the greater where it descends.
pub proof fn law_row_order(a: Seq<Datum>, b: Seq<Datum>, keys: Seq<SortKey>, k: int)
    requires
        0 <= k <= keys.len(),
        forall|j: int|
            0 <= j < keys.len() ==> (#[trigger] keys[j]).column_index < a.len()
                && keys[j].column_index < b.len(),
        forall|j: int| 0 <= j < k ==> ties(a, b, #[trigger] keys[j]),
    ensures
        k == keys.len() ==> row_order(a, b, keys, 0) == 0,
        k < keys.len() && !ties(a, b, keys[k]) ==> {
            let c = keys[k].column_index as int;
            let o = row_order(a, b, keys, 0);
            &&& keys[k].direction == SortDirection::Asc ==> (o < 0 <==> value_order(a[c], b[c]) < 0)
                && (o > 0 <==> value_order(a[c], b[c]) > 0)
            &&& keys[k].direction == SortDirection::Desc ==> (o < 0 <==> value_order(a[c], b[c])
                > 0) && (o > 0 <==> value_order(a[c], b[c]) < 0)
        },
{
    lemma_ties(a, b, keys, 0, k);
}

proof fn lemma_ties(a: Seq<Datum>, b: Seq<Datum>, keys: Seq<SortKey>, j: int, k: int)
    requires
        0 <= j <= k <= keys.len(),
        forall|i: int|
            0 <= i < keys.len() ==> (#[trigger] keys[i]).column_index < a.len()
                && keys[i].column_index < b.len(),
        forall|i: int| 0 <= i < k ==> ties(a, b, #[trigger] keys[i]),
    ensures
        row_order(a, b, keys, j) == row_order(a, b, keys, k),
    decreases k - j,
{
    if j < k {
        assert(ties(a, b, keys[j]));
        lemma_ties(a, b, keys, j + 1, k);
    }
}

/// Whether rows are other rows at positions, each position once.
pub open spec fn rearranged(
    rows: Seq<Seq<Datum>>,
    of: Seq<Seq<Datum>>,
    p: Seq<usize>,
) -> bool {
    &&& p.len() == of.len() == rows.len()
    &&& p.to_multiset() == span(0, of.len() as int).to_multiset()
    &&& forall|i: int| 0 <= i < p.len() ==> (#[trigger] p[i]) < of.len() && rows[i] == of[p[i] as int]
}

/// Whether rows that are others at positions stand in the order of keys, and in the order
/// of the positions where the keys do not tell them apart.
pub open spec fn keyed_order(of: Seq<Seq<Datum>>, keys: Seq<SortKey>, p: Seq<usize>) -> bool {
    forall|i: int, j: int|
        0 <= i < j < p.len() ==> {
            let c = row_order(of[(#[trigger] p[i]) as int], of[(#[trigger] p[j]) as int], keys, 0);
            c < 0 || c == 0 && p[i] < p[j]
        }
}

/// A sorted result has the rows of the result, each where the keys put it, and rows that
/// the keys do not tell apart in the order in which they came. With a limit it has the
/// first of them.
pub proof fn law_sorted_result(q: Query, keys: Seq<SortKey>, n: usize)
    requires
        rectangular(q.rows),
        q.rows.len() <= usize::MAX,
        comparable(q.rows, keys),
        keys.len() > 0,
    ensures
        sort_query(q, keys, None).columns == q.columns,
        exists|p: Seq<usize>| #[trigger]
            rearranged(sort_query(q, keys, None).rows, q.rows, p) && keyed_order(q.rows, keys, p),
        q.rows.len() > 1 ==> sort_query(q, keys, Some(n)).rows == (if n < q.rows.len() {
            sort_query(q, keys, None).rows.subrange(0, n as int)
        } else {
            sort_query(q, keys, None).rows
        }),
{
    let rows = q.rows;
    let ord = |a: Seq<Datum>, b: Seq<Datum>| row_order(a, b, keys, 0);
    let p = sorted_positions(rows, ord, 0, rows.len() as int);
    let cs = framed(rows);
    law_rows_sorted(rows, keys);
    law_sort_permutes(rows, ord, 0, rows.len() as int);
    law_frame_roundtrip(rows);
    assert(regular(cs));
    let all = rows_at(rows, p);
    assert(all == sorted_rows(rows, ord));
    let got = sort_query(q, keys, None).rows;
    if rows.len() <= 1 {
        assert(got =~= rows);
        assert(rearranged(got, rows, p)) by {
            assert(p.len() == rows.len());
        }
    } else {
        assert(cs[0].columns.len() == rows[0].len());
        assert(ordered(rows, keys, None) == all);
        lemma_cut_back(rows, all, rows[0].len());
        assert(got == all);
        let few = ordered(rows, keys, Some(n));
        lemma_cut_back(rows, few, rows[0].len());
        assert(rearranged(got, rows, p));
    }
    assert(keyed_order(rows, keys, p)) by {
        assert forall|i: int, j: int| 0 <= i < j < p.len() implies {
            let c = row_order(
                rows[(#[trigger] p[i]) as int],
                rows[(#[trigger] p[j]) as int],
                keys,
                0,
            );
            c < 0 || c == 0 && p[i] < p[j]
        } by {
            assert(goes_before(rows, ord, p[i], p[j]));
        }
    }
}

/// Rows of the width of all, in batches and back.
proof fn lemma_cut_back(rows: Seq<Seq<Datum>>, some: Seq<Seq<Datum>>, w: nat)
    requires
        forall|i: int| 0 <= i < some.len() ==> (#[trigger] some[i]).len() == w,
    ensures
        rows_in(batches(trimmed(some, w))) == some,
{
    assert(trimmed(some, w) =~= some);
    assert(rectangular(some));
    law_batches_roundtrip(some);
    lemma_batches_regular(some);
}

/// A limit leaves the first rows of a result, as many as it says or all that there are.
pub proof fn law_limit(q: Query, n: usize)
    ensures
        limit_query(q, n).columns == q.columns,
        limit_query(q, n).rows.len() <= n,
        limit_query(q, n).rows.len() <= q.rows.len(),
        limit_query(q, n).rows.len() == n || limit_query(q, n).rows.len() == q.rows.len(),
        forall|i: int|
            0 <= i < limit_query(q, n).rows.len() ==> #[trigger] limit_query(q, n).rows[i]
                == q.rows[i],
{
}

/// The positions of the live rows of a table that a condition wants, in their order.
pub open spec fn chosen(t: Tbl, want: spec_fn(Seq<Datum>) -> bool, p: Seq<int>, n: int) -> bool {
    &&& forall|j: int, k: int| 0 <= j < k < p.len() ==> (#[trigger] p[j]) < (#[trigger] p[k])
    &&& forall|k: int|
        0 <= k < p.len() ==> 0 <= (#[trigger] p[k]) < n && t.slots[p[k]] is Some && want(
            t.slots[p[k]]->0,
        )
    &&& forall|i: int|
        0 <= i < n && (#[trigger] t.slots[i]) is Some && want(t.slots[i]->0) ==> p.contains(i)
}

proof fn lemma_chosen_more(t: Tbl, want: spec_fn(Seq<Datum>) -> bool, p: Seq<int>, n: int)
    requires
        0 <= n < t.slots.len(),
        chosen(t, want, p, n),
    ensures
        t.slots[n] is Some && want(t.slots[n]->0) ==> chosen(t, want, p.push(n), n + 1),
        !(t.slots[n] is Some && want(t.slots[n]->0)) ==> chosen(t, want, p, n + 1),
{
    let q = p.push(n);
    if t.slots[n] is Some && want(t.slots[n]->0) {
        assert forall|i: int|
            0 <= i < n + 1 && (#[trigger] t.slots[i]) is Some && want(
                t.slots[i]->0,
            ) implies q.contains(i) by {
            if i < n {
                let k = p.index_of(i);
                assert(q[k] == i);
            } else {
                assert(q[p.len() as int] == i);
            }
        }
    }
}

/// Whether rows have a value in a column.
pub open spec fn with_key(c: int, d: Datum) -> spec_fn(Seq<Datum>) -> bool {
    |r: Seq<Datum>| has_at(r, c, d)
}

/// The rows of a lookup by a key.
proof fn lemma_rows_with(t: Tbl, x: IndexModel, d: Datum, n: nat) -> (p: Seq<int>)
    requires
        n <= t.slots.len(),
        x.key_columns.len() > 0,
    ensures
        chosen(t, with_key(x.key_columns[0] as int, d), p, n as int),
        rows_with(t, x, d, n).len() == p.len(),
        forall|k: int|
            0 <= k < p.len() ==> #[trigger] rows_with(t, x, d, n)[k] == t.slots[p[k]]->0,
    decreases n,
{
    let want = with_key(x.key_columns[0] as int, d);
    if n == 0 {
        Seq::empty()
    } else {
        let m = n - 1;
        let p = lemma_rows_with(t, x, d, m as nat);
        lemma_chosen_more(t, want, p, m);
        if t.slots[m] is Some && want(t.slots[m]->0) {
            let q = p.push(m);
            assert forall|k: int| 0 <= k < q.len() implies #[trigger] rows_with(t, x, d, n)[k]
                == t.slots[q[k]]->0 by {
                if k < p.len() {
                    assert(rows_with(t, x, d, m as nat)[k] == t.slots[p[k]]->0);
                }
            }
            q
        } else {
            p
        }
    }
}

/// Whether a row has the cells of another at positions.
pub open spec fn cells_at(row: Seq<Datum>, of: Seq<Datum>, at: Seq<usize>) -> bool {
    row.len() == at.len() && forall|j: int|
        0 <= j < at.len() ==> has_at(of, (#[trigger] at[j]) as int, row[j])
}

/// A lookup by the key of an index gives the live rows that have the key in the first
/// column of the index, and no others, in the order of the table: the columns that are
/// read, or, from the index alone, the key and the columns that it holds beside it.
pub proof fn law_lookup(
    d: Db,
    table: Seq<char>,
    index: Seq<char>,
    key: Datum,
    out: Seq<usize>,
    map: Seq<usize>,
    t: Tbl,
    x: IndexModel,
)
    requires
        indexed(d, table, index) == Ok::<(Tbl, IndexModel), Fault>((t, x)),
        x.key_columns.len() > 0,
    ensures
        exists|p: Seq<int>| #[trigger]
            chosen(
                t,
                with_key(x.key_columns[0] as int, key),
                p,
                t.slots.len() as int,
            ) && {
                &&& looked_up(d, table, index, key, out) matches Ok(q) && q.rows.len() == p.len()
                    && forall|k: int|
                    0 <= k < p.len() ==> cells_at(#[trigger] q.rows[k], t.slots[p[k]]->0, out)
                &&& covered(d, table, index, key, out, map) matches Ok(q) && q.rows.len() == p.len()
                    && forall|k: int, j: int|
                    0 <= k < p.len() && 0 <= j < map.len() ==> {
                        let c = #[trigger] q.rows[k][j];
                        &&& map[j] == 0 ==> c == key
                        &&& 0 < map[j] <= x.included_columns.len() ==> has_at(
                            t.slots[p[k]]->0,
                            x.included_columns[map[j] - 1] as int,
                            c,
                        )
                    }
            },
{
    let p = lemma_rows_with(t, x, key, t.slots.len());
    let rows = rows_with(t, x, key, t.slots.len());
    let q = looked_up(d, table, index, key, out)->Ok_0;
    assert forall|k: int| 0 <= k < p.len() implies cells_at(
        #[trigger] q.rows[k],
        t.slots[p[k]]->0,
        out,
    ) by {
        assert(rows[k] == t.slots[p[k]]->0);
    }
    let g = covered(d, table, index, key, out, map)->Ok_0;
    assert forall|k: int, j: int| 0 <= k < p.len() && 0 <= j < map.len() implies {
        let c = #[trigger] g.rows[k][j];
        &&& map[j] == 0 ==> c == key
        &&& 0 < map[j] <= x.included_columns.len() ==> has_at(
            t.slots[p[k]]->0,
            x.included_columns[map[j] - 1] as int,
            c,
        )
    } by {
        assert(rows[k] == t.slots[p[k]]->0);
    }
}

/// Whether a value is no NULL, and lies behind a lower and before an upper bound, or on
/// one that counts.
pub open spec fn between(
    d: Datum,
    low: Option<Datum>,
    with_low: bool,
    high: Option<Datum>,
    with_high: bool,
) -> bool {
    &&& d != Datum::Null
    &&& match low {
        Some(l) => value_order(l, d) < 0 || with_low && value_order(l, d) == 0,
        None => true,
    }
    &&& match high {
        Some(h) => value_order(d, h) < 0 || with_high && value_order(d, h) == 0,
        None => true,
    }
}

/// Whether a row has in a column a value between bounds.
pub open spec fn lies(
    r: Seq<Datum>,
    c: int,
    low: Option<Datum>,
    with_low: bool,
    high: Option<Datum>,
    with_high: bool,
) -> bool {
    exists|d: Datum| #[trigger] has_at(r, c, d) && between(d, low, with_low, high, with_high)
}

/// Whether rows have in a column a value between bounds.
pub open spec fn within(
    c: int,
    low: Option<Datum>,
    with_low: bool,
    high: Option<Datum>,
    with_high: bool,
) -> spec_fn(Seq<Datum>) -> bool {
    |r: Seq<Datum>| lies(r, c, low, with_low, high, with_high)
}

proof fn lemma_rows_between(
    t: Tbl,
    x: IndexModel,
    low: Option<Datum>,
    with_low: bool,
    high: Option<Datum>,
    with_high: bool,
    out: Seq<usize>,
    n: nat,
) -> (p: Seq<int>)
    requires
        n <= t.slots.len(),
        x.key_columns.len() > 0,
    ensures
        chosen(
            t,
            within(x.key_columns[0] as int, low, with_low, high, with_high),
            p,
            n as int,
        ),
        rows_between(t, x, low, with_low, high, with_high, out, n).len() == p.len(),
        forall|k: int|
            0 <= k < p.len() ==> {
                let row = #[trigger] rows_between(t, x, low, with_low, high, with_high, out, n)[k];
                &&& row.len() == out.len() + 1
                &&& has_at(t.slots[p[k]]->0, x.key_columns[0] as int, row[0])
                &&& cells_at(row.subrange(1, row.len() as int), t.slots[p[k]]->0, out)
            },
    decreases n,
{
    let c = x.key_columns[0] as int;
    let want = within(c, low, with_low, high, with_high);
    if n == 0 {
        Seq::empty()
    } else {
        let m = n - 1;
        let p = lemma_rows_between(t, x, low, with_low, high, with_high, out, m as nat);
        let (before, all) = (
            rows_between(t, x, low, with_low, high, with_high, out, m as nat),
            rows_between(t, x, low, with_low, high, with_high, out, n),
        );
        lemma_chosen_more(t, want, p, m);
        if t.slots[m] is Some {
            let r = t.slots[m]->0;
            let d = cell_of(r, c);
            assert(has_at(r, c, d));
            if let Some(l) = low {
                law_order_flips(l, d);
            }
            assert(want(r) <==> between(d, low, with_low, high, with_high));
        }
        if t.slots[m] is Some && want(t.slots[m]->0) {
            let q = p.push(m);
            let r = t.slots[m]->0;
            let row = all.last();
            assert(all == before.push(row));
            assert(row.subrange(1, row.len() as int) =~= picked(r, out));
            assert forall|k: int| 0 <= k < q.len() implies {
                let row = #[trigger] all[k];
                &&& row.len() == out.len() + 1
                &&& has_at(t.slots[q[k]]->0, c, row[0])
                &&& cells_at(row.subrange(1, row.len() as int), t.slots[q[k]]->0, out)
            } by {
                if k < p.len() {
                    assert(all[k] == before[k]);
                }
            }
            q
        } else {
            assert(all == before);
            p
        }
    }
}

/// Whether rows have the cells of the live rows that a condition wants, each once, and
/// none stands before one with a smaller value in a column.
pub open spec fn key_rows(
    t: Tbl,
    c: int,
    want: spec_fn(Seq<Datum>) -> bool,
    out: Seq<usize>,
    rows: Seq<Seq<Datum>>,
    p: Seq<int>,
    s: Seq<usize>,
) -> bool {
    &&& chosen(t, want, p, t.slots.len() as int)
    &&& rows.len() == p.len() == s.len()
    &&& s.to_multiset() == span(0, p.len() as int).to_multiset()
    &&& forall|k: int|
        0 <= k < p.len() ==> s[k] < p.len() && cells_at(
            #[trigger] rows[k],
            t.slots[p[s[k] as int]]->0,
            out,
        )
    &&& forall|j: int, k: int, a: Datum, b: Datum|
        0 <= j < k < p.len() && #[trigger] has_at(t.slots[p[s[j] as int]]->0, c, a)
            && #[trigger] has_at(t.slots[p[s[k] as int]]->0, c, b) ==> value_order(a, b) <= 0
}

/// A lookup by bounds gives the live rows whose key lies between them, and no others: the
/// columns that are read, each row once, and no row before one with a smaller key.
pub proof fn law_range(
    d: Db,
    table: Seq<char>,
    index: Seq<char>,
    low: Option<Datum>,
    with_low: bool,
    high: Option<Datum>,
    with_high: bool,
    out: Seq<usize>,
    t: Tbl,
    x: IndexModel,
)
    requires
        indexed(d, table, index) == Ok::<(Tbl, IndexModel), Fault>((t, x)),
        x.key_columns.len() > 0,
        t.slots.len() <= usize::MAX,
        comparable(
            rows_between(t, x, low, with_low, high, with_high, out, t.slots.len()),
            seq![SortKey { column_index: 0, direction: SortDirection::Asc }],
        ),
    ensures
        ranged(d, table, index, low, with_low, high, with_high, out) matches Ok(q) && exists|
            p: Seq<int>,
            s: Seq<usize>,
        | #[trigger]
            key_rows(
                t,
                x.key_columns[0] as int,
                within(x.key_columns[0] as int, low, with_low, high, with_high),
                out,
                q.rows,
                p,
                s,
            ),
{
    let p = lemma_rows_between(t, x, low, with_low, high, with_high, out, t.slots.len());
    let rows = rows_between(t, x, low, with_low, high, with_high, out, t.slots.len());
    let keys = by_first();
    let ord = |a: Seq<Datum>, b: Seq<Datum>| row_order(a, b, keys, 0);
    let s = sorted_positions(rows, ord, 0, rows.len() as int);
    let c = x.key_columns[0] as int;
    lemma_chosen_few(p, t.slots.len() as int);
    law_rows_sorted(rows, keys);
    law_sort_permutes(rows, ord, 0, rows.len() as int);
    let q = ranged(d, table, index, low, with_low, high, with_high, out)->Ok_0;
    assert(q.rows == tails(rows_at(rows, s)));
    assert forall|k: int| 0 <= k < p.len() implies s[k] < p.len() && cells_at(
        #[trigger] q.rows[k],
        t.slots[p[s[k] as int]]->0,
        out,
    ) by {
        assert(0 <= s[k] < rows.len());
        let row = rows[s[k] as int];
        assert(row.len() == out.len() + 1);
        assert(q.rows[k] == row.subrange(1, row.len() as int));
    }
    assert forall|j: int, k: int, a: Datum, b: Datum|
        0 <= j < k < p.len() && #[trigger] has_at(t.slots[p[s[j] as int]]->0, c, a)
            && #[trigger] has_at(t.slots[p[s[k] as int]]->0, c, b) implies value_order(a, b) <= 0 by {
        assert(s[j] < p.len() && s[k] < p.len());
        let (m, n) = (rows[s[j] as int], rows[s[k] as int]);
        assert(m[0] == a && n[0] == b);
        assert(goes_before(rows, ord, s[j], s[k]));
        assert(row_order(m, n, keys, 1) == 0);
    }
    let want = within(c, low, with_low, high, with_high);
    assert(key_rows(t, c, want, out, q.rows, p, s));
}

/// Positions that grow below a bound are no more than that.
proof fn lemma_chosen_few(p: Seq<int>, n: int)
    requires
        0 <= n,
        forall|k: int| 0 <= k < p.len() ==> 0 <= (#[trigger] p[k]) < n,
        forall|j: int, k: int| 0 <= j < k < p.len() ==> (#[trigger] p[j]) < (#[trigger] p[k]),
    ensures
        p.len() <= n,
    decreases p.len(),
{
    if p.len() > 0 {
        let m = p.last();
        assert(m == p[p.len() - 1]);
        lemma_chosen_few(p.drop_last(), m);
    }
}

/// A lookup by the primary key gives the row that has it, whole or in the columns that
/// are read, and no row where none has it.
pub proof fn law_find(d: Db, table: Seq<char>, key: Datum, out: Seq<usize>, t: Tbl, c: int)
    requires
        table_of(d, table) == Some(t),
        is_key(t, c),
    ensures
        found_key(d, table, key, out) matches Ok(q) && {
            &&& q.rows.len() <= 1
            &&& q.rows.len() == 0 <==> forall|i: int|
                !#[trigger] lives_with(t, i, c, key)
            &&& q.rows.len() == 1 ==> exists|i: int| #[trigger]
                lives_with(t, i, c, key) && (if out.len() == 0 {
                    q.rows[0] == t.slots[i]->0
                } else {
                    cells_at(q.rows[0], t.slots[i]->0, out)
                })
        },
{
    law_key_is_found(t, key);
    lemma_key_column(t, c);
    match keyed(t, key) {
        Some(i) => {
            assert(lives_with(t, i, c, key));
        },
        None => {
            assert forall|i: int| !#[trigger] lives_with(t, i, c, key) by {
                if 0 <= i < t.slots.len() {
                    assert(t.slots[i] is Some ==> cell_of(
                        t.slots[i]->0,
                        c,
                    ) != key);
                }
            }
        },
    }
}

} // verus!
