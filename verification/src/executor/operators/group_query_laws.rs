//! What groups of rows give.
use vstd::prelude::*;

use crate::executor::env::{Answer, Question};
use crate::executor::operators::aggregate::{fresh, group_key, group_rows, grouped_chunks, AggState};
use crate::executor::operators::aggregate_laws::{agree, each_agree, law_merge_parts, taken_each};
use crate::executor::operators::group_laws::{
    law_group_is_met, law_groups, looked_up, states_in, states_of,
};
use crate::executor::operators::summary_laws::summary;
use crate::executor::key_index::row_position;
use crate::executor::physical_plan::AggregateFunc;
use crate::executor::vector::{col_at, Chunk};
use crate::value::Datum;

verus! {

/// Whether a row of a batch has a key in columns: the values there, and NULL for a column
/// that the batch lacks.
pub open spec fn has_key(c: Chunk, cols: Seq<usize>, i: int, key: Seq<Datum>) -> bool {
    &&& key.len() == cols.len()
    &&& forall|k: int|
        0 <= k < cols.len() ==> key[k] == if (#[trigger] cols[k]) < c.columns.len() {
            col_at(c.columns[cols[k] as int], i)
        } else {
            Datum::Null
        }
}

/// The values of a column in those of the first `n` rows of a batch that have a key.
pub open spec fn values_in(c: Chunk, cols: Seq<usize>, key: Seq<Datum>, col: usize, n: int) -> Seq<
    Datum,
>
    decreases n,
{
    if n <= 0 {
        Seq::empty()
    } else {
        let before = values_in(c, cols, key, col, n - 1);
        if has_key(c, cols, n - 1, key) && col < c.columns.len() {
            before.push(col_at(c.columns[col as int], n - 1))
        } else {
            before
        }
    }
}

/// The values of a column in the rows of batches that have a key.
pub open spec fn values_with(
    cs: Seq<Chunk>,
    cols: Seq<usize>,
    key: Seq<Datum>,
    col: usize,
    n: int,
) -> Seq<Datum>
    decreases n,
{
    if n <= 0 {
        Seq::empty()
    } else {
        values_with(cs, cols, key, col, n - 1) + values_in(
            cs[n - 1],
            cols,
            key,
            col,
            cs[n - 1].count as int,
        )
    }
}

proof fn lemma_key(c: Chunk, cols: Seq<usize>, i: int, key: Seq<Datum>)
    ensures
        group_key(c, cols, i) == key <==> has_key(c, cols, i, key),
{
    let g = group_key(c, cols, i);
    if g == key {
        assert forall|k: int| 0 <= k < cols.len() implies key[k] == if (#[trigger] cols[k])
            < c.columns.len() {
            col_at(c.columns[cols[k] as int], i)
        } else {
            Datum::Null
        } by {
            assert(g[k] == key[k]);
        }
    }
    if has_key(c, cols, i, key) {
        assert forall|k: int| 0 <= k < cols.len() implies g[k] == key[k] by {
            assert(cols[k] < c.columns.len() || cols[k] >= c.columns.len());
        }
        assert(g =~= key);
    }
}

proof fn lemma_states_in(
    o: spec_fn(Question) -> Answer,
    c: Chunk,
    cols: Seq<usize>,
    aggs: Seq<(AggregateFunc, usize, bool)>,
    key: Seq<Datum>,
    n: int,
    j: int,
)
    requires
        0 <= n,
        0 <= j < aggs.len(),
    ensures
        match states_in(o, c, cols, aggs, key, n) {
            Some(s) => s.len() == aggs.len() && s[j] == taken_each(
                o,
                fresh(aggs[j].0),
                values_in(c, cols, key, aggs[j].1, n),
                values_in(c, cols, key, aggs[j].1, n).len() as int,
            ),
            None => values_in(c, cols, key, aggs[j].1, n).len() == 0,
        },
    decreases n,
{
    if n > 0 {
        lemma_states_in(o, c, cols, aggs, key, n - 1, j);
        lemma_key(c, cols, n - 1, key);
        let before = values_in(c, cols, key, aggs[j].1, n - 1);
        let all = values_in(c, cols, key, aggs[j].1, n);
        if has_key(c, cols, n - 1, key) && aggs[j].1 < c.columns.len() {
            lemma_each_front(o, fresh(aggs[j].0), before, all, before.len() as int);
        }
    }
}

/// What is taken depends on the values that are taken only.
proof fn lemma_each_front(
    o: spec_fn(Question) -> Answer,
    s: AggState,
    xs: Seq<Datum>,
    ys: Seq<Datum>,
    n: int,
)
    requires
        0 <= n <= xs.len(),
        n <= ys.len(),
        forall|i: int| 0 <= i < n ==> #[trigger] xs[i] == ys[i],
    ensures
        taken_each(o, s, xs, n) == taken_each(o, s, ys, n),
    decreases n,
{
    if n > 0 {
        lemma_each_front(o, s, xs, ys, n - 1);
    }
}

proof fn lemma_states_of(
    o: spec_fn(Question) -> Answer,
    cs: Seq<Chunk>,
    cols: Seq<usize>,
    aggs: Seq<(AggregateFunc, usize, bool)>,
    key: Seq<Datum>,
    n: int,
    j: int,
)
    requires
        0 <= n <= cs.len(),
        0 <= j < aggs.len(),
        aggs[j].0 is Count || aggs[j].0 is Min || aggs[j].0 is Max,
        aggs[j].0 is Count || each_agree(values_with(cs, cols, key, aggs[j].1, n)),
    ensures
        match states_of(o, cs, cols, aggs, key, n) {
            Some(s) => s.len() == aggs.len() && s[j] == taken_each(
                o,
                fresh(aggs[j].0),
                values_with(cs, cols, key, aggs[j].1, n),
                values_with(cs, cols, key, aggs[j].1, n).len() as int,
            ),
            None => values_with(cs, cols, key, aggs[j].1, n).len() == 0,
        },
    decreases n,
{
    if n > 0 {
        let col = aggs[j].1;
        let before = values_with(cs, cols, key, col, n - 1);
        let xs = values_in(cs[n - 1], cols, key, col, cs[n - 1].count as int);
        let all = before + xs;
        if !(aggs[j].0 is Count) {
            assert forall|x: int, y: int| 0 <= x < before.len() && 0 <= y < before.len() implies agree(
                #[trigger] before[x],
                #[trigger] before[y],
            ) by {
                assert(all[x] == before[x] && all[y] == before[y]);
            }
        }
        lemma_states_of(o, cs, cols, aggs, key, n - 1, j);
        lemma_states_in(o, cs[n - 1], cols, aggs, key, cs[n - 1].count as int, j);
        law_merge_parts(o, aggs[j].0, before, xs);
        if before.len() == 0 {
            assert(all =~= xs);
        }
        if xs.len() == 0 {
            assert(all =~= before);
        }
    }
}

/// Each key that a row has makes one group, and no other key does. COUNT, MIN and MAX of
/// a group are those of the values in the rows that have its key, however the rows are
/// split into batches, and stand behind the key.
pub proof fn law_group_rows(
    o: spec_fn(Question) -> Answer,
    cs: Seq<Chunk>,
    cols: Seq<usize>,
    aggs: Seq<(AggregateFunc, usize, bool)>,
    key: Seq<Datum>,
    j: int,
)
    requires
        0 <= j < aggs.len(),
        aggs[j].0 is Count || aggs[j].0 is Min || aggs[j].0 is Max,
        aggs[j].0 is Count || each_agree(values_with(cs, cols, key, aggs[j].1, cs.len() as int)),
        key.len() == cols.len(),
    ensures
        ({
            let rows = group_rows(o, grouped_chunks(o, cs, cols, aggs, cs.len() as int));
            let met = exists|k: int, i: int|
                0 <= k < cs.len() && 0 <= i < cs[k].count && #[trigger] has_key(
                    cs[k],
                    cols,
                    i,
                    key,
                );
            &&& met <==> exists|p: int| 0 <= p < rows.len() && leads(#[trigger] rows[p], key)
            &&& forall|p: int, q: int|
                0 <= p < q < rows.len() && leads(#[trigger] rows[p], key) ==> !leads(
                    #[trigger] rows[q],
                    key,
                )
            &&& forall|p: int|
                0 <= p < rows.len() && leads(#[trigger] rows[p], key) ==> rows[p].len() == cols.len()
                    + aggs.len() && rows[p][cols.len() + j] == summary(
                    o,
                    aggs[j].0,
                    values_with(cs, cols, key, aggs[j].1, cs.len() as int),
                )
        }),
{
    let n = cs.len() as int;
    let g = grouped_chunks(o, cs, cols, aggs, n);
    let rows = group_rows(o, g);
    law_groups(o, cs, cols, aggs, key, n);
    law_group_is_met(o, cs, cols, aggs, key, n);
    lemma_states_of(o, cs, cols, aggs, key, n, j);
    lemma_key_widths(o, cs, cols, aggs, n);
    lemma_position(g.keys, key, 0);
    assert forall|p: int| 0 <= p < rows.len() implies (leads(#[trigger] rows[p], key)
        <==> g.keys[p] == key) by {
        assert(g.keys[p].len() == cols.len());
        assert(rows[p].subrange(0, cols.len() as int) =~= g.keys[p]);
    }
    if let Some(p) = row_position(g.keys, key, 0) {
        assert(leads(rows[p], key));
    }
    let met = exists|k: int, i: int|
        0 <= k < cs.len() && 0 <= i < cs[k].count && #[trigger] has_key(cs[k], cols, i, key);
    if met {
        let (k, i) = choose|k: int, i: int|
            0 <= k < cs.len() && 0 <= i < cs[k].count && #[trigger] has_key(cs[k], cols, i, key);
        lemma_key(cs[k], cols, i, key);
        assert(group_key(cs[k], cols, i) == key);
    }
    if exists|p: int| 0 <= p < rows.len() && leads(#[trigger] rows[p], key) {
        let (k, i) = choose|k: int, i: int|
            0 <= k < n && 0 <= i < cs[k].count && #[trigger] group_key(cs[k], cols, i) == key;
        lemma_key(cs[k], cols, i, key);
        assert(has_key(cs[k], cols, i, key));
    }
}

/// Whether a row begins with a key.
pub open spec fn leads(row: Seq<Datum>, key: Seq<Datum>) -> bool {
    key.len() <= row.len() && row.subrange(0, key.len() as int) == key
}

proof fn lemma_position(keys: Seq<Seq<Datum>>, key: Seq<Datum>, i: int)
    requires
        0 <= i,
    ensures
        match row_position(keys, key, i) {
            Some(p) => i <= p < keys.len() && keys[p] == key,
            None => forall|p: int| i <= p < keys.len() ==> #[trigger] keys[p] != key,
        },
    decreases keys.len() - i,
{
    if i < keys.len() && keys[i] != key {
        lemma_position(keys, key, i + 1);
    }
}

/// All keys are as long as there are columns.
proof fn lemma_key_widths(
    o: spec_fn(Question) -> Answer,
    cs: Seq<Chunk>,
    cols: Seq<usize>,
    aggs: Seq<(AggregateFunc, usize, bool)>,
    n: int,
)
    requires
        0 <= n <= cs.len(),
    ensures
        forall|p: int|
            0 <= p < grouped_chunks(o, cs, cols, aggs, n).keys.len() ==> (
            #[trigger] grouped_chunks(o, cs, cols, aggs, n).keys[p]).len() == cols.len(),
{
    let g = grouped_chunks(o, cs, cols, aggs, n);
    assert forall|p: int| 0 <= p < g.keys.len() implies (#[trigger] g.keys[p]).len()
        == cols.len() by {
        let key = g.keys[p];
        law_groups(o, cs, cols, aggs, key, n);
        law_group_is_met(o, cs, cols, aggs, key, n);
        lemma_position(g.keys, key, 0);
        assert(looked_up(g, key) is Some);
        let (k, i) = choose|k: int, i: int|
            0 <= k < n && 0 <= i < cs[k].count && #[trigger] group_key(cs[k], cols, i) == key;
        assert(group_key(cs[k], cols, i).len() == cols.len());
    }
}

} // verus!
