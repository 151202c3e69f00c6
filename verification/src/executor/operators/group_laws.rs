//! Which groups there are, and what is aggregated in each.
use vstd::prelude::*;

use crate::executor::env::{Answer, Question};
use crate::executor::key_index::{lemma_position_push, row_position};
use crate::executor::operators::aggregate::{
    fresh_states, group_key, grouped_chunk, grouped_chunks, merged, merged_group, merged_groups,
    taken_row, AggState, Groups,
};
use crate::executor::physical_plan::AggregateFunc;
use crate::executor::vector::Chunk;
use crate::value::Datum;

verus! {

/// The states of the rows of one key among the first `n` of a batch, nothing
/// where no row has the key.
pub open spec fn states_in(
    o: spec_fn(Question) -> Answer,
    c: Chunk,
    cols: Seq<usize>,
    aggs: Seq<(AggregateFunc, usize, bool)>,
    key: Seq<Datum>,
    n: int,
) -> Option<Seq<AggState>>
    decreases n,
{
    if n <= 0 {
        None
    } else {
        let before = states_in(o, c, cols, aggs, key, n - 1);
        if group_key(c, cols, n - 1) != key {
            before
        } else {
            Some(
                taken_row(
                    o,
                    match before {
                        Some(s) => s,
                        None => fresh_states(aggs),
                    },
                    c,
                    n - 1,
                    aggs,
                ),
            )
        }
    }
}

/// States put together one by one.
pub open spec fn both_states(
    o: spec_fn(Question) -> Answer,
    a: Option<Seq<AggState>>,
    b: Option<Seq<AggState>>,
) -> Option<Seq<AggState>> {
    match (a, b) {
        (None, _) => b,
        (_, None) => a,
        (Some(s), Some(t)) => Some(Seq::new(s.len(), |j: int| merged(o, s[j], t[j]))),
    }
}

/// The states of the rows of one key in the first `n` batches: those of each
/// batch, put together.
pub open spec fn states_of(
    o: spec_fn(Question) -> Answer,
    cs: Seq<Chunk>,
    cols: Seq<usize>,
    aggs: Seq<(AggregateFunc, usize, bool)>,
    key: Seq<Datum>,
    n: int,
) -> Option<Seq<AggState>>
    decreases n,
{
    if n <= 0 {
        None
    } else {
        both_states(
            o,
            states_of(o, cs, cols, aggs, key, n - 1),
            states_in(o, cs[n - 1], cols, aggs, key, cs[n - 1].count as int),
        )
    }
}

/// The states of a key among groups.
pub open spec fn looked_up(g: Groups, key: Seq<Datum>) -> Option<Seq<AggState>> {
    match row_position(g.keys, key, 0) {
        Some(p) => Some(g.states[p]),
        None => None,
    }
}

/// Whether no two groups have one key, and each has a state of every
/// aggregate.
pub open spec fn set_apart(g: Groups, width: nat) -> bool {
    &&& g.states.len() == g.keys.len()
    &&& g.keys.no_duplicates()
    &&& forall|i: int| 0 <= i < g.states.len() ==> (#[trigger] g.states[i]).len() == width
}

proof fn lemma_at(keys: Seq<Seq<Datum>>, key: Seq<Datum>, i: int)
    requires
        0 <= i,
    ensures
        match row_position(keys, key, i) {
            Some(p) => i <= p < keys.len() && keys[p] == key,
            None => forall|j: int| i <= j < keys.len() ==> keys[j] != key,
        },
    decreases keys.len() - i,
{
    if i < keys.len() && keys[i] != key {
        lemma_at(keys, key, i + 1);
    }
}

/// The groups of the first rows of a batch.
proof fn lemma_chunk_groups(
    o: spec_fn(Question) -> Answer,
    c: Chunk,
    cols: Seq<usize>,
    aggs: Seq<(AggregateFunc, usize, bool)>,
    key: Seq<Datum>,
    n: int,
)
    requires
        0 <= n,
    ensures
        set_apart(grouped_chunk(o, c, cols, aggs, n), aggs.len()),
        looked_up(grouped_chunk(o, c, cols, aggs, n), key) == states_in(
            o,
            c,
            cols,
            aggs,
            key,
            n,
        ),
    decreases n,
{
    if n > 0 {
        let k = group_key(c, cols, n - 1);
        lemma_chunk_groups(o, c, cols, aggs, key, n - 1);
        lemma_chunk_groups(o, c, cols, aggs, k, n - 1);
        let g = grouped_chunk(o, c, cols, aggs, n - 1);
        let h = grouped_chunk(o, c, cols, aggs, n);
        lemma_at(g.keys, k, 0);
        lemma_at(g.keys, key, 0);
        if row_position(g.keys, k, 0) is None {
            lemma_position_push(g.keys, k, key, 0);
            assert(h.keys.no_duplicates());
        }
        assert forall|i: int| 0 <= i < h.states.len() implies (#[trigger] h.states[i]).len()
            == aggs.len() by {
            if i < g.states.len() {
                assert(g.states[i].len() == aggs.len());
            }
        }
    }
}

/// Groups with one of other groups put in.
proof fn lemma_put_in(
    o: spec_fn(Question) -> Answer,
    g: Groups,
    k: Seq<Datum>,
    s: Seq<AggState>,
    key: Seq<Datum>,
    width: nat,
)
    requires
        set_apart(g, width),
        s.len() == width,
    ensures
        set_apart(merged_group(o, g, k, s), width),
        looked_up(merged_group(o, g, k, s), key) == if key == k {
            both_states(o, looked_up(g, key), Some(s))
        } else {
            looked_up(g, key)
        },
{
    let h = merged_group(o, g, k, s);
    lemma_at(g.keys, k, 0);
    lemma_at(g.keys, key, 0);
    match row_position(g.keys, k, 0) {
        Some(p) => {
            assert(g.states[p].len() == width);
            if key == k {
                assert(h.states[p] =~= Seq::new(width, |j: int| merged(o, g.states[p][j], s[j])));
            }
        },
        None => {
            lemma_position_push(g.keys, k, key, 0);
            assert(h.keys.no_duplicates());
        },
    }
    assert forall|i: int| 0 <= i < h.states.len() implies (#[trigger] h.states[i]).len() == width by {
        if i < g.states.len() {
            assert(g.states[i].len() == width);
        }
    }
}

/// Groups with the first of other groups put in.
proof fn lemma_put_all_in(
    o: spec_fn(Question) -> Answer,
    g: Groups,
    h: Groups,
    n: int,
    key: Seq<Datum>,
    width: nat,
)
    requires
        set_apart(g, width),
        set_apart(h, width),
        0 <= n <= h.keys.len(),
    ensures
        set_apart(merged_groups(o, g, h, n), width),
        looked_up(merged_groups(o, g, h, n), key) == match row_position(h.keys, key, 0) {
            Some(p) if p < n => both_states(o, looked_up(g, key), Some(h.states[p])),
            _ => looked_up(g, key),
        },
    decreases n,
{
    lemma_at(h.keys, key, 0);
    if n > 0 {
        lemma_put_all_in(o, g, h, n - 1, key, width);
        let before = merged_groups(o, g, h, n - 1);
        assert(h.states[n - 1].len() == width);
        lemma_put_in(o, before, h.keys[n - 1], h.states[n - 1], key, width);
    }
}

/// Rows fall into groups by their keys: no two groups have one key, and the
/// states of a group are those of the rows that have its key. A key that no row
/// has makes no group.
pub proof fn law_groups(
    o: spec_fn(Question) -> Answer,
    cs: Seq<Chunk>,
    cols: Seq<usize>,
    aggs: Seq<(AggregateFunc, usize, bool)>,
    key: Seq<Datum>,
    n: int,
)
    requires
        0 <= n <= cs.len(),
    ensures
        set_apart(grouped_chunks(o, cs, cols, aggs, n), aggs.len()),
        looked_up(grouped_chunks(o, cs, cols, aggs, n), key) == states_of(
            o,
            cs,
            cols,
            aggs,
            key,
            n,
        ),
    decreases n,
{
    if n > 0 {
        let c = cs[n - 1];
        law_groups(o, cs, cols, aggs, key, n - 1);
        lemma_chunk_groups(o, c, cols, aggs, key, c.count as int);
        let part = grouped_chunk(o, c, cols, aggs, c.count as int);
        lemma_at(part.keys, key, 0);
        lemma_put_all_in(
            o,
            grouped_chunks(o, cs, cols, aggs, n - 1),
            part,
            part.keys.len() as int,
            key,
            aggs.len(),
        );
    }
}

/// A key has states just where a row has the key.
pub proof fn law_group_is_met(
    o: spec_fn(Question) -> Answer,
    cs: Seq<Chunk>,
    cols: Seq<usize>,
    aggs: Seq<(AggregateFunc, usize, bool)>,
    key: Seq<Datum>,
    n: int,
)
    requires
        0 <= n <= cs.len(),
    ensures
        states_of(o, cs, cols, aggs, key, n) is Some <==> exists|k: int, i: int|
            0 <= k < n && 0 <= i < cs[k].count && #[trigger] group_key(cs[k], cols, i) == key,
    decreases n,
{
    if n > 0 {
        law_group_is_met(o, cs, cols, aggs, key, n - 1);
        lemma_met_in(o, cs[n - 1], cols, aggs, key, cs[n - 1].count as int);
        if states_in(o, cs[n - 1], cols, aggs, key, cs[n - 1].count as int) is Some {
            let i = choose|i: int|
                0 <= i < cs[n - 1].count && #[trigger] group_key(cs[n - 1], cols, i) == key;
            assert(group_key(cs[n - 1], cols, i) == key);
        }
    }
}

proof fn lemma_met_in(
    o: spec_fn(Question) -> Answer,
    c: Chunk,
    cols: Seq<usize>,
    aggs: Seq<(AggregateFunc, usize, bool)>,
    key: Seq<Datum>,
    n: int,
)
    requires
        0 <= n,
    ensures
        states_in(o, c, cols, aggs, key, n) is Some <==> exists|i: int|
            0 <= i < n && #[trigger] group_key(c, cols, i) == key,
    decreases n,
{
    if n > 0 {
        lemma_met_in(o, c, cols, aggs, key, n - 1);
        if group_key(c, cols, n - 1) != key {
            if states_in(o, c, cols, aggs, key, n - 1) is Some {
                let i = choose|i: int| 0 <= i < n - 1 && #[trigger] group_key(c, cols, i) == key;
                assert(group_key(c, cols, i) == key);
            }
        }
    }
}

} // verus!
