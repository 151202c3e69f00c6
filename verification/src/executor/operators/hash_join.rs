//! Joining two tables on equal keys. NULL keys match nothing.
use vstd::prelude::*;

use crate::common::error::EngramDbError;
use crate::executor::key_index::{
    equal_positions, key_int, lemma_equal_sound, GroupKeyType, IntPositions, KeyIndex,
};
use crate::executor::operators::aggregate::{cell, find_int_kind, int_keyed};
use crate::executor::operators::filter::all_aligned;
use crate::executor::operators::sort::clone_chunks;
use crate::executor::physical_plan::JoinType;
use crate::executor::vector::{
    aligned, all_cover, batches, chunks_wf, covers, flatten_to_rows, from_rows_batched,
    lemma_rectangular_fits, rectangular, rows_of, rows_of_all, Chunk, Column, DataChunk, Vector,
};
use crate::value::{clone_row, Datum};
use crate::Value;

verus! {

/// The key of a row; a column that is not there gives NULL.
pub open spec fn join_key(row: Seq<Datum>, cols: Seq<usize>) -> Seq<Datum> {
    Seq::new(
        cols.len(),
        |k: int|
            if cols[k] < row.len() {
                row[cols[k] as int]
            } else {
                Datum::Null
            },
    )
}

/// The keys of rows.
pub open spec fn join_keys(rows: Seq<Seq<Datum>>, cols: Seq<usize>) -> Seq<Seq<Datum>> {
    Seq::new(rows.len(), |i: int| join_key(rows[i], cols))
}

/// Whether a key holds NULL.
pub open spec fn has_null(key: Seq<Datum>) -> bool {
    exists|k: int| 0 <= k < key.len() && #[trigger] key[k] == Datum::Null
}

/// The positions of the rows that a key matches. A key with NULL matches none.
pub open spec fn hits(keys: Seq<Seq<Datum>>, key: Seq<Datum>) -> Seq<usize> {
    if has_null(key) {
        Seq::empty()
    } else {
        equal_positions(keys, key, keys.len() as int)
    }
}

/// `n` NULLs.
pub open spec fn nulls(n: nat) -> Seq<Datum> {
    Seq::new(n, |i: int| Datum::Null)
}

/// How many columns of each side go into the result.
pub struct Widths {
    pub probe: nat,
    pub build: nat,
}

/// The rows that one row gives: one for every match, or, in an outer join,
/// one with NULLs where nothing matches.
pub open spec fn joined_one(
    row: Seq<Datum>,
    build: Seq<Seq<Datum>>,
    found: Seq<usize>,
    w: Widths,
    outer: bool,
) -> Seq<Seq<Datum>> {
    if outer && found.len() == 0 {
        seq![row.subrange(0, w.probe as int) + nulls(w.build)]
    } else {
        Seq::new(
            found.len(),
            |i: int|
                row.subrange(0, w.probe as int) + build[found[i] as int].subrange(
                    0,
                    w.build as int,
                ),
        )
    }
}

/// The rows that the first `n` rows of the probing side give.
pub open spec fn joined_rows(
    probe: Seq<Seq<Datum>>,
    build: Seq<Seq<Datum>>,
    pk: Seq<usize>,
    bk: Seq<usize>,
    w: Widths,
    outer: bool,
    n: int,
) -> Seq<Seq<Datum>>
    decreases n,
{
    if n <= 0 {
        Seq::empty()
    } else {
        joined_rows(probe, build, pk, bk, w, outer, n - 1) + joined_one(
            probe[n - 1],
            build,
            hits(join_keys(build, bk), join_key(probe[n - 1], pk)),
            w,
            outer,
        )
    }
}

/// The first `n` rows that match no key, or that match one.
pub open spec fn matched_rows(
    rows: Seq<Seq<Datum>>,
    cols: Seq<usize>,
    keys: Seq<Seq<Datum>>,
    wanted: bool,
    n: int,
) -> Seq<Seq<Datum>>
    decreases n,
{
    if n <= 0 {
        Seq::empty()
    } else {
        let before = matched_rows(rows, cols, keys, wanted, n - 1);
        if (hits(keys, join_key(rows[n - 1], cols)).len() > 0) == wanted {
            before.push(rows[n - 1])
        } else {
            before
        }
    }
}

/// Rows behind NULLs for the other side.
pub open spec fn behind_nulls(rows: Seq<Seq<Datum>>, left: nat, right: nat) -> Seq<Seq<Datum>> {
    Seq::new(rows.len(), |i: int| nulls(left) + rows[i].subrange(0, right as int))
}

/// A batch with its first `n` columns moved behind the others.
pub open spec fn swapped(c: Chunk, n: nat) -> Chunk {
    if n >= c.columns.len() {
        c
    } else {
        Chunk {
            columns: c.columns.subrange(n as int, c.columns.len() as int) + c.columns.subrange(
                0,
                n as int,
            ),
            count: c.count,
        }
    }
}

/// Batches with their first `n` columns moved behind the others.
pub open spec fn swapped_all(cs: Seq<Chunk>, n: nat) -> Seq<Chunk> {
    Seq::new(cs.len(), |k: int| swapped(cs[k], n))
}

/// The number of rows in a batch of a semi or anti join.
pub const SEMI_BATCH: usize = 1024;

/// The value of column `j`, NULL where the row does not reach it.
pub open spec fn cell_of(row: Seq<Datum>, j: int) -> Datum {
    if j < row.len() {
        row[j]
    } else {
        Datum::Null
    }
}

/// The batch of the first `cols` columns of rows.
pub open spec fn cut_chunk(rows: Seq<Seq<Datum>>, cols: nat) -> Chunk {
    Chunk {
        columns: Seq::new(
            cols,
            |j: int| Column::Flat(Seq::new(rows.len(), |i: int| cell_of(rows[i], j))),
        ),
        count: rows.len(),
    }
}

/// The batches of the first `cols` columns of rows.
pub open spec fn cut_chunks(rows: Seq<Seq<Datum>>, cols: nat) -> Seq<Chunk> {
    Seq::new(
        ((rows.len() + SEMI_BATCH as nat - 1) as nat / SEMI_BATCH as nat),
        |k: int|
            cut_chunk(
                rows.subrange(
                    k * SEMI_BATCH,
                    if (k + 1) * SEMI_BATCH <= rows.len() {
                        (k + 1) * SEMI_BATCH
                    } else {
                        rows.len() as int
                    },
                ),
                cols,
            ),
    )
}

/// A batch with a NULL column behind, or before, its own.
pub open spec fn beside_null(c: Chunk, behind: bool) -> Chunk {
    let null = seq![Column::Constant(Datum::Null, c.count)];
    Chunk {
        columns: if behind {
            c.columns + null
        } else {
            null + c.columns
        },
        count: c.count,
    }
}

/// What a join gives where a side has no batch. One NULL column stands for
/// the side that is not there.
pub open spec fn joined_empty(l: Seq<Chunk>, r: Seq<Chunk>, t: JoinType) -> Seq<Chunk> {
    match t {
        JoinType::Inner => Seq::empty(),
        JoinType::Left => Seq::new(l.len(), |k: int| beside_null(l[k], true)),
        JoinType::Right => Seq::new(r.len(), |k: int| beside_null(r[k], false)),
        JoinType::Full => if l.len() == 0 {
            Seq::new(r.len(), |k: int| beside_null(r[k], false))
        } else {
            Seq::new(l.len(), |k: int| beside_null(l[k], true))
        },
        JoinType::Semi => Seq::empty(),
        JoinType::Anti => l,
    }
}

/// The join of two tables. The inner join walks the table with more rows, the
/// left one where they have equally many.
pub open spec fn joined(
    l: Seq<Chunk>,
    r: Seq<Chunk>,
    lk: Seq<usize>,
    rk: Seq<usize>,
    t: JoinType,
) -> Seq<Chunk> {
    if l.len() == 0 || r.len() == 0 {
        joined_empty(l, r, t)
    } else {
        let (a, b) = (rows_of_all(l), rows_of_all(r));
        let (m, n) = (a.len() as int, b.len() as int);
        let (lc, rc) = (l[0].columns.len(), r[0].columns.len());
        let w = Widths { probe: lc, build: rc };
        let v = Widths { probe: rc, build: lc };
        match t {
            JoinType::Inner => if n <= m {
                batches(joined_rows(a, b, lk, rk, w, false, m))
            } else {
                swapped_all(batches(joined_rows(b, a, rk, lk, v, false, n)), rc)
            },
            JoinType::Left => batches(joined_rows(a, b, lk, rk, w, true, m)),
            JoinType::Right => swapped_all(batches(joined_rows(b, a, rk, lk, v, true, n)), rc),
            JoinType::Full => batches(joined_rows(a, b, lk, rk, w, true, m)) + batches(
                behind_nulls(matched_rows(b, rk, join_keys(a, lk), false, n), lc, rc),
            ),
            JoinType::Semi => cut_chunks(matched_rows(a, lk, join_keys(b, rk), true, m), lc),
            JoinType::Anti => cut_chunks(matched_rows(a, lk, join_keys(b, rk), false, m), lc),
        }
    }
}

/// Whether every batch has at least the columns of the first.
pub open spec fn wide(cs: Seq<Chunk>) -> bool {
    forall|k: int| 0 <= k < cs.len() ==> (#[trigger] cs[k]).columns.len() >= cs[0].columns.len()
}

/// Whether every row has at least `n` values.
spec fn reach(rows: Seq<Seq<Datum>>, n: nat) -> bool {
    forall|i: int| 0 <= i < rows.len() ==> (#[trigger] rows[i]).len() >= n
}

proof fn lemma_rows_reach(cs: Seq<Chunk>, n: nat)
    requires
        forall|k: int| 0 <= k < cs.len() ==> (#[trigger] cs[k]).columns.len() >= n,
    ensures
        reach(rows_of_all(cs), n),
    decreases cs.len(),
{
    if cs.len() > 0 {
        let front = cs.drop_last();
        assert forall|k: int| 0 <= k < front.len() implies (#[trigger] front[k]).columns.len()
            >= n by {
            assert(front[k] == cs[k]);
        }
        lemma_rows_reach(front, n);
        let (a, b) = (rows_of_all(front), rows_of(cs.last()));
        let all = rows_of_all(cs);
        assert(cs.last() == cs[cs.len() - 1]);
        assert forall|i: int| 0 <= i < all.len() implies (#[trigger] all[i]).len() >= n by {
            if i < a.len() {
                assert(all[i] == a[i]);
            } else {
                assert(all[i] == b[i - a.len()]);
            }
        }
    }
}

/// Reads the key of a row.
pub fn extract_key_from_row(row: &Vec<Value>, keys: &Vec<usize>) -> (r: Vec<Value>)
    ensures
        r.deep_view() == join_key(row.deep_view(), keys@),
{
    let ghost rv = row.deep_view();
    let mut out: Vec<Value> = Vec::new();
    let mut k: usize = 0;
    while k < keys.len()
        invariant
            rv == row.deep_view(),
            k <= keys.len(),
            out.len() == k,
            forall|j: int| 0 <= j < k ==> (#[trigger] out[j]).deep_view() == join_key(rv, keys@)[j],
        decreases keys.len() - k,
    {
        let i: usize = keys[k];
        let v = if i < row.len() {
            assert(rv[i as int] == row[i as int].deep_view());
            row[i].clone()
        } else {
            Value::Null
        };
        out.push(v);
        k += 1;
    }
    assert(out.deep_view() =~= join_key(rv, keys@));
    out
}

fn key_has_null(key: &Vec<Value>) -> (r: bool)
    ensures
        r == has_null(key.deep_view()),
{
    let ghost kv = key.deep_view();
    let mut i: usize = 0;
    while i < key.len()
        invariant
            kv == key.deep_view(),
            i <= key.len(),
            forall|k: int| 0 <= k < i ==> #[trigger] kv[k] != Datum::Null,
        decreases key.len() - i,
    {
        assert(kv[i as int] == key[i as int].deep_view());
        if key[i].is_null() {
            return true;
        }
        i += 1;
    }
    false
}

/// The index of the keys of rows.
pub fn build_hash_table(rows: &Vec<Vec<Value>>, keys: &Vec<usize>) -> (r: KeyIndex)
    ensures
        r.wf(),
        r@ == join_keys(rows.deep_view(), keys@),
{
    let ghost rv = rows.deep_view();
    let ghost want = join_keys(rv, keys@);
    let mut index = KeyIndex::new();
    let mut i: usize = 0;
    assert(want.subrange(0, 0) =~= Seq::<Seq<Datum>>::empty());
    while i < rows.len()
        invariant
            rv == rows.deep_view(),
            want == join_keys(rv, keys@),
            i <= rows.len(),
            index.wf(),
            index@ == want.subrange(0, i as int),
        decreases rows.len() - i,
    {
        assert(rv[i as int] == rows[i as int].deep_view());
        let key = extract_key_from_row(&rows[i], keys);
        index.push(key);
        assert(want.subrange(0, i + 1) =~= want.subrange(0, i as int).push(want[i as int]));
        i += 1;
    }
    assert(want.subrange(0, i as int) =~= want);
    index
}

fn find_hits(index: &KeyIndex, key: &Vec<Value>) -> (r: Vec<usize>)
    requires
        index.wf(),
    ensures
        r@ == hits(index@, key.deep_view()),
{
    if key_has_null(key) {
        Vec::new()
    } else {
        index.find_all(key)
    }
}

fn take_front(row: &Vec<Value>, n: usize) -> (r: Vec<Value>)
    requires
        n <= row.len(),
    ensures
        r.deep_view() == row.deep_view().subrange(0, n as int),
{
    let mut r = clone_row(row);
    let ghost all = r.deep_view();
    r.truncate(n);
    assert(r.deep_view() =~= all.subrange(0, n as int));
    r
}

fn append_nulls(row: Vec<Value>, n: usize) -> (r: Vec<Value>)
    ensures
        r.deep_view() == row.deep_view() + nulls(n as nat),
{
    let ghost start = row.deep_view();
    let mut row = row;
    let mut i: usize = 0;
    assert(row.deep_view() =~= start + nulls(0));
    while i < n
        invariant
            i <= n,
            row.deep_view() == start + nulls(i as nat),
        decreases n - i,
    {
        let ghost before = row.deep_view();
        row.push(Value::Null);
        assert(row.deep_view() =~= before.push(Datum::Null));
        assert(row.deep_view() =~= start + nulls((i + 1) as nat));
        i += 1;
    }
    row
}

/// Appends the rows that one row gives.
fn push_joined(
    out: Vec<Vec<Value>>,
    row: &Vec<Value>,
    build: &Vec<Vec<Value>>,
    found: &Vec<usize>,
    pc: usize,
    bc: usize,
    outer: bool,
) -> (r: Vec<Vec<Value>>)
    requires
        pc <= row.len(),
        reach(build.deep_view(), bc as nat),
        forall|k: int| 0 <= k < found.len() ==> (#[trigger] found[k]) < build.len(),
    ensures
        r.deep_view() == out.deep_view() + joined_one(
            row.deep_view(),
            build.deep_view(),
            found@,
            (Widths { probe: pc as nat, build: bc as nat }),
            outer,
        ),
{
    let ghost start = out.deep_view();
    let ghost bv = build.deep_view();
    let ghost rv = row.deep_view();
    let ghost w = Widths { probe: pc as nat, build: bc as nat };
    let ghost want = joined_one(rv, bv, found@, w, outer);
    let mut out = out;
    if outer && found.len() == 0 {
        let one = append_nulls(take_front(row, pc), bc);
        let ghost ov = one.deep_view();
        out.push(one);
        assert(out.deep_view() =~= start.push(ov));
        assert(out.deep_view() =~= start + want);
        return out;
    }
    let mut i: usize = 0;
    assert(out.deep_view() =~= start + want.subrange(0, 0));
    while i < found.len()
        invariant
            bv == build.deep_view(),
            rv == row.deep_view(),
            pc <= row.len(),
            reach(bv, bc as nat),
            forall|k: int| 0 <= k < found.len() ==> (#[trigger] found[k]) < build.len(),
            want.len() == found.len(),
            forall|k: int|
                0 <= k < found.len() ==> #[trigger] want[k] == rv.subrange(0, pc as int) + bv[
                    found[k] as int].subrange(0, bc as int),
            i <= found.len(),
            out.deep_view() == start + want.subrange(0, i as int),
        decreases found.len() - i,
    {
        let p: usize = found[i];
        assert(found[i as int] < build.len());
        assert(bv[p as int] == build[p as int].deep_view());
        let mut one = take_front(row, pc);
        let mut tail = take_front(&build[p], bc);
        let ghost (a, b) = (one.deep_view(), tail.deep_view());
        let ghost (x, y) = (one@, tail@);
        one.append(&mut tail);
        assert(one@ == x + y);
        assert(one.deep_view() =~= a + b);
        let ghost before = out.deep_view();
        let ghost ov = one.deep_view();
        out.push(one);
        assert(out.deep_view() =~= before.push(ov));
        assert(out.deep_view() =~= start + want.subrange(0, i + 1)) by {
            assert(want[i as int] == ov);
        }
        i += 1;
    }
    assert(want.subrange(0, i as int) =~= want);
    out
}

/// The rows of a join, walking the probing side.
fn probe_rows(
    probe: &Vec<Vec<Value>>,
    build: &Vec<Vec<Value>>,
    probe_keys: &Vec<usize>,
    build_keys: &Vec<usize>,
    pc: usize,
    bc: usize,
    outer: bool,
) -> (r: Vec<Vec<Value>>)
    requires
        reach(probe.deep_view(), pc as nat),
        reach(build.deep_view(), bc as nat),
    ensures
        r.deep_view() == joined_rows(
            probe.deep_view(),
            build.deep_view(),
            probe_keys@,
            build_keys@,
            (Widths { probe: pc as nat, build: bc as nat }),
            outer,
            probe.len() as int,
        ),
{
    let ghost (pv, bv) = (probe.deep_view(), build.deep_view());
    let ghost w = Widths { probe: pc as nat, build: bc as nat };
    let index = build_hash_table(build, build_keys);
    let mut out: Vec<Vec<Value>> = Vec::new();
    let mut i: usize = 0;
    assert(out.deep_view() =~= Seq::<Seq<Datum>>::empty());
    while i < probe.len()
        invariant
            pv == probe.deep_view(),
            bv == build.deep_view(),
            reach(pv, pc as nat),
            reach(bv, bc as nat),
            w == (Widths { probe: pc as nat, build: bc as nat }),
            index.wf(),
            index@ == join_keys(bv, build_keys@),
            i <= probe.len(),
            out.deep_view() == joined_rows(
                pv,
                bv,
                probe_keys@,
                build_keys@,
                w,
                outer,
                i as int,
            ),
        decreases probe.len() - i,
    {
        assert(pv[i as int] == probe[i as int].deep_view());
        assert(pv[i as int].len() >= pc);
        let key = extract_key_from_row(&probe[i], probe_keys);
        let found = find_hits(&index, &key);
        let n: usize = build.len();
        proof {
            assert(index@.len() == n);
            lemma_equal_sound(index@, key.deep_view(), index@.len() as int);
            assert forall|k: int| 0 <= k < found.len() implies (#[trigger] found[k])
                < build.len() by {
                assert(found@[k] == hits(index@, key.deep_view())[k]);
            }
        }
        out = push_joined(out, &probe[i], build, &found, pc, bc, outer);
        i += 1;
    }
    out
}

proof fn lemma_joined_width(
    probe: Seq<Seq<Datum>>,
    build: Seq<Seq<Datum>>,
    pk: Seq<usize>,
    bk: Seq<usize>,
    w: Widths,
    outer: bool,
    n: int,
)
    requires
        0 <= n <= probe.len(),
        build.len() <= usize::MAX,
        reach(probe, w.probe),
        reach(build, w.build),
    ensures
        forall|i: int|
            0 <= i < joined_rows(probe, build, pk, bk, w, outer, n).len() ==> (
            #[trigger] joined_rows(probe, build, pk, bk, w, outer, n)[i]).len() == w.probe
                + w.build,
    decreases n,
{
    if n > 0 {
        lemma_joined_width(probe, build, pk, bk, w, outer, n - 1);
        let before = joined_rows(probe, build, pk, bk, w, outer, n - 1);
        let key = join_key(probe[n - 1], pk);
        let found = hits(join_keys(build, bk), key);
        let more = joined_one(probe[n - 1], build, found, w, outer);
        let after = joined_rows(probe, build, pk, bk, w, outer, n);
        lemma_equal_sound(join_keys(build, bk), key, build.len() as int);
        assert(probe[n - 1].len() >= w.probe);
        assert forall|i: int| 0 <= i < after.len() implies (#[trigger] after[i]).len() == w.probe
            + w.build by {
            if i < before.len() {
                assert(after[i] == before[i]);
            } else {
                assert(after[i] == more[i - before.len()]);
                if found.len() > 0 {
                    let p = found[i - before.len()];
                    assert(build[p as int].len() >= w.build);
                }
            }
        }
    }
}

pub fn batch_rows(rows: &Vec<Vec<Value>>) -> (r: Vec<DataChunk>)
    requires
        rectangular(rows.deep_view()),
    ensures
        chunks_wf(r@),
        r.deep_view() == batches(rows.deep_view()),
{
    proof {
        lemma_rectangular_fits(rows.deep_view());
    }
    let slice = rows.as_slice();
    assert(slice.deep_view() =~= rows.deep_view());
    from_rows_batched(slice)
}

pub fn flat_rows(chunks: &Vec<DataChunk>) -> (r: Vec<Vec<Value>>)
    requires
        chunks_wf(chunks@),
        all_cover(chunks.deep_view()),
    ensures
        r.deep_view() == rows_of_all(chunks.deep_view()),
{
    let slice = chunks.as_slice();
    assert(slice.deep_view() =~= chunks.deep_view());
    flatten_to_rows(slice)
}

/// Joins rows, and keeps the probing rows that match nothing in an outer
/// join.
fn hash_join_rows(
    probe: &Vec<Vec<Value>>,
    build: &Vec<Vec<Value>>,
    probe_keys: &Vec<usize>,
    build_keys: &Vec<usize>,
    pc: usize,
    bc: usize,
    outer: bool,
) -> (r: Vec<DataChunk>)
    requires
        reach(probe.deep_view(), pc as nat),
        reach(build.deep_view(), bc as nat),
    ensures
        chunks_wf(r@),
        r.deep_view() == batches(
            joined_rows(
                probe.deep_view(),
                build.deep_view(),
                probe_keys@,
                build_keys@,
                (Widths { probe: pc as nat, build: bc as nat }),
                outer,
                probe.len() as int,
            ),
        ),
{
    let rows = probe_rows(probe, build, probe_keys, build_keys, pc, bc, outer);
    let n: usize = build.len();
    proof {
        assert(build.deep_view().len() == n);
        lemma_joined_width(
            probe.deep_view(),
            build.deep_view(),
            probe_keys@,
            build_keys@,
            Widths { probe: pc as nat, build: bc as nat },
            outer,
            probe.len() as int,
        );
    }
    batch_rows(&rows)
}

/// The integer type of a column, where its values, but for NULL, are all 64-bit
/// integers or all timestamps.
fn join_kind(chunks: &Vec<DataChunk>, col: usize) -> (r: Option<GroupKeyType>)
    requires
        chunks_wf(chunks@),
        all_aligned(chunks.deep_view()),
    ensures
        r matches Some(t) ==> int_keyed(chunks.deep_view(), col, t),
{
    match find_int_kind(chunks, col) {
        Some(GroupKeyType::Int64) => Some(GroupKeyType::Int64),
        Some(GroupKeyType::Timestamp) => Some(GroupKeyType::Timestamp),
        _ => None,
    }
}

/// Whether the values of a column of rows are NULL or of an integer type.
spec fn rows_keyed(rows: Seq<Seq<Datum>>, col: usize, t: GroupKeyType) -> bool {
    forall|i: int|
        0 <= i < rows.len() ==> cell_of(#[trigger] rows[i], col as int) == Datum::Null || key_int(
            cell_of(rows[i], col as int),
            t,
        ) is Some
}

proof fn lemma_rows_keyed(cs: Seq<Chunk>, col: usize, t: GroupKeyType)
    requires
        int_keyed(cs, col, t),
    ensures
        rows_keyed(rows_of_all(cs), col, t),
    decreases cs.len(),
{
    if cs.len() > 0 {
        let front = cs.drop_last();
        assert forall|k: int, i: int|
            #![trigger cell(front[k], col, i)]
            0 <= k < front.len() && 0 <= i < front[k].count implies cell(front[k], col, i)
            == Datum::Null || key_int(cell(front[k], col, i), t) is Some by {
            assert(front[k] == cs[k]);
            assert(cell(cs[k], col, i) == cell(front[k], col, i));
        }
        lemma_rows_keyed(front, col, t);
        let (a, b) = (rows_of_all(front), rows_of(cs.last()));
        let all = rows_of_all(cs);
        assert forall|i: int| 0 <= i < all.len() implies cell_of(#[trigger] all[i], col as int)
            == Datum::Null || key_int(cell_of(all[i], col as int), t) is Some by {
            if i < a.len() {
                assert(all[i] == a[i]);
            } else {
                let j = i - a.len();
                assert(all[i] == b[j]);
                assert(cs[cs.len() - 1] == cs.last());
                assert(cell(cs[cs.len() - 1], col, j) == cell_of(b[j], col as int));
            }
        }
    }
}

pub fn read_cell(row: &Vec<Value>, col: usize) -> (r: Value)
    ensures
        r.deep_view() == cell_of(row.deep_view(), col as int),
{
    if col < row.len() {
        assert(row.deep_view()[col as int] == row[col as int].deep_view());
        row[col].clone()
    } else {
        Value::Null
    }
}

/// The positions of the values of a column.
fn int_table(rows: &Vec<Vec<Value>>, keys: &Vec<usize>, t: GroupKeyType) -> (r: IntPositions)
    requires
        keys.len() == 1,
        rows_keyed(rows.deep_view(), keys[0], t),
    ensures
        r.wf(),
        r.kind() == t,
        r@ == join_keys(rows.deep_view(), keys@),
{
    let ghost rv = rows.deep_view();
    let ghost want = join_keys(rv, keys@);
    let col: usize = keys[0];
    let mut table = IntPositions::new(t);
    let mut i: usize = 0;
    assert(want.subrange(0, 0) =~= Seq::<Seq<Datum>>::empty());
    while i < rows.len()
        invariant
            keys.len() == 1,
            col == keys[0],
            rv == rows.deep_view(),
            rows_keyed(rv, col, t),
            want == join_keys(rv, keys@),
            i <= rows.len(),
            table.wf(),
            table.kind() == t,
            table@ == want.subrange(0, i as int),
        decreases rows.len() - i,
    {
        assert(rv[i as int] == rows[i as int].deep_view());
        let v = read_cell(&rows[i], col);
        assert(cell_of(rv[i as int], col as int) == v.deep_view());
        assert(want[i as int] =~= seq![v.deep_view()]);
        table.push(&v, i);
        assert(want.subrange(0, i + 1) =~= want.subrange(0, i as int).push(want[i as int]));
        i += 1;
    }
    assert(want.subrange(0, i as int) =~= want);
    table
}

/// The inner join on one column of integers; gives nothing where the columns
/// do not hold integers of one type.
fn hash_join_inner_int(
    probe: &Vec<Vec<Value>>,
    build: &Vec<Vec<Value>>,
    probe_keys: &Vec<usize>,
    build_keys: &Vec<usize>,
    pc: usize,
    bc: usize,
    probe_kind: Option<GroupKeyType>,
    build_kind: Option<GroupKeyType>,
) -> (r: Option<Vec<DataChunk>>)
    requires
        probe_keys.len() == 1,
        build_keys.len() == 1,
        reach(probe.deep_view(), pc as nat),
        reach(build.deep_view(), bc as nat),
        probe_kind matches Some(t) ==> rows_keyed(probe.deep_view(), probe_keys[0], t),
        build_kind matches Some(t) ==> rows_keyed(build.deep_view(), build_keys[0], t),
    ensures
        r is Some <==> probe_kind is Some && probe_kind == build_kind,
        r matches Some(v) ==> chunks_wf(v@) && v.deep_view() == batches(
            joined_rows(
                probe.deep_view(),
                build.deep_view(),
                probe_keys@,
                build_keys@,
                (Widths { probe: pc as nat, build: bc as nat }),
                false,
                probe.len() as int,
            ),
        ),
{
    let kind = match (probe_kind, build_kind) {
        (Some(a), Some(b)) => {
            if a != b {
                return None;
            }
            a
        },
        _ => {
            return None;
        },
    };
    let ghost (pv, bv) = (probe.deep_view(), build.deep_view());
    let ghost w = Widths { probe: pc as nat, build: bc as nat };
    let table = int_table(build, build_keys, kind);
    let col: usize = probe_keys[0];
    let mut out: Vec<Vec<Value>> = Vec::new();
    let mut i: usize = 0;
    assert(out.deep_view() =~= Seq::<Seq<Datum>>::empty());
    while i < probe.len()
        invariant
            pv == probe.deep_view(),
            bv == build.deep_view(),
            reach(pv, pc as nat),
            reach(bv, bc as nat),
            w == (Widths { probe: pc as nat, build: bc as nat }),
            probe_keys.len() == 1,
            col == probe_keys[0],
            rows_keyed(pv, col, kind),
            table.wf(),
            table.kind() == kind,
            table@ == join_keys(bv, build_keys@),
            i <= probe.len(),
            out.deep_view() == joined_rows(pv, bv, probe_keys@, build_keys@, w, false, i as int),
        decreases probe.len() - i,
    {
        assert(pv[i as int] == probe[i as int].deep_view());
        assert(pv[i as int].len() >= pc);
        let v = read_cell(&probe[i], col);
        let ghost key = join_key(pv[i as int], probe_keys@);
        assert(key =~= seq![v.deep_view()]);
        assert(cell_of(pv[i as int], col as int) == v.deep_view());
        let n: usize = build.len();
        let found: Vec<usize> = if v.is_null() {
            assert(key[0] == Datum::Null);
            Vec::new()
        } else {
            table.find_all(&v)
        };
        proof {
            assert(has_null(key) <==> v.deep_view() == Datum::Null);
            assert(found@ =~= hits(table@, key));
            assert(table@.len() == n);
            lemma_equal_sound(table@, key, table@.len() as int);
            assert forall|k: int| 0 <= k < found.len() implies (#[trigger] found[k])
                < build.len() by {
                assert(found@[k] == hits(table@, key)[k]);
            }
        }
        out = push_joined(out, &probe[i], build, &found, pc, bc, false);
        i += 1;
    }
    let n: usize = build.len();
    proof {
        assert(bv.len() == n);
        lemma_joined_width(pv, bv, probe_keys@, build_keys@, w, false, pv.len() as int);
    }
    Some(batch_rows(&out))
}

/// Moves the first columns of a batch behind the others.
pub fn swap_join_columns(chunk: &mut DataChunk, first_part_cols: usize)
    requires
        old(chunk).wf(),
    ensures
        final(chunk).wf(),
        final(chunk).deep_view() == swapped(old(chunk).deep_view(), first_part_cols as nat),
{
    let ghost c = chunk.deep_view();
    if first_part_cols >= chunk.columns.len() {
        return;
    }
    let total: usize = chunk.columns.len();
    let mut columns: Vec<Vector> = Vec::new();
    let ghost want = swapped(c, first_part_cols as nat).columns;
    let mut i: usize = first_part_cols;
    while i < total
        invariant
            chunk.wf(),
            c == chunk.deep_view(),
            total == chunk.columns.len(),
            first_part_cols <= i <= total,
            want == c.columns.subrange(first_part_cols as int, total as int) + c.columns.subrange(
                0,
                first_part_cols as int,
            ),
            columns.len() == i - first_part_cols,
            forall|k: int|
                0 <= k < columns.len() ==> (#[trigger] columns[k]).deep_view() == want[k]
                    && columns[k].wf(),
        decreases total - i,
    {
        assert(chunk.columns[i as int].wf());
        assert(c.columns[i as int] == chunk.columns[i as int].deep_view());
        columns.push(chunk.columns[i].clone());
        i += 1;
    }
    let mut j: usize = 0;
    while j < first_part_cols
        invariant
            chunk.wf(),
            c == chunk.deep_view(),
            total == chunk.columns.len(),
            first_part_cols < total,
            j <= first_part_cols,
            want == c.columns.subrange(first_part_cols as int, total as int) + c.columns.subrange(
                0,
                first_part_cols as int,
            ),
            columns.len() == total - first_part_cols + j,
            forall|k: int|
                0 <= k < columns.len() ==> (#[trigger] columns[k]).deep_view() == want[k]
                    && columns[k].wf(),
        decreases first_part_cols - j,
    {
        assert(chunk.columns[j as int].wf());
        assert(c.columns[j as int] == chunk.columns[j as int].deep_view());
        columns.push(chunk.columns[j].clone());
        j += 1;
    }
    chunk.columns = columns;
    assert(chunk.deep_view().columns =~= want);
}

fn swap_all(chunks: Vec<DataChunk>, n: usize) -> (r: Vec<DataChunk>)
    requires
        chunks_wf(chunks@),
    ensures
        chunks_wf(r@),
        r.deep_view() == swapped_all(chunks.deep_view(), n as nat),
{
    let ghost cs = chunks.deep_view();
    let mut out: Vec<DataChunk> = Vec::new();
    let mut k: usize = 0;
    while k < chunks.len()
        invariant
            chunks_wf(chunks@),
            cs == chunks.deep_view(),
            k <= chunks.len(),
            out.len() == k,
            forall|i: int|
                0 <= i < k ==> (#[trigger] out[i]).deep_view() == swapped(cs[i], n as nat)
                    && out[i].wf(),
        decreases chunks.len() - k,
    {
        assert(chunks[k as int].wf());
        assert(cs[k as int] == chunks[k as int].deep_view());
        let mut c = chunks[k].clone();
        swap_join_columns(&mut c, n);
        out.push(c);
        k += 1;
    }
    assert(out.deep_view() =~= swapped_all(cs, n as nat));
    out
}

/// The rows that match a key of the other side, or that match none.
fn filter_matched(
    rows: &Vec<Vec<Value>>,
    cols: &Vec<usize>,
    index: &KeyIndex,
    wanted: bool,
) -> (r: Vec<Vec<Value>>)
    requires
        index.wf(),
    ensures
        r.deep_view() == matched_rows(
            rows.deep_view(),
            cols@,
            index@,
            wanted,
            rows.len() as int,
        ),
{
    let ghost rv = rows.deep_view();
    let mut out: Vec<Vec<Value>> = Vec::new();
    let mut i: usize = 0;
    assert(out.deep_view() =~= Seq::<Seq<Datum>>::empty());
    while i < rows.len()
        invariant
            index.wf(),
            rv == rows.deep_view(),
            i <= rows.len(),
            out.deep_view() == matched_rows(rv, cols@, index@, wanted, i as int),
        decreases rows.len() - i,
    {
        assert(rv[i as int] == rows[i as int].deep_view());
        let key = extract_key_from_row(&rows[i], cols);
        let found = find_hits(index, &key);
        if (found.len() > 0) == wanted {
            let row = clone_row(&rows[i]);
            let ghost before = out.deep_view();
            out.push(row);
            assert(out.deep_view() =~= before.push(rv[i as int]));
        }
        i += 1;
    }
    out
}

proof fn lemma_matched_reach(
    rows: Seq<Seq<Datum>>,
    cols: Seq<usize>,
    keys: Seq<Seq<Datum>>,
    wanted: bool,
    n: int,
    w: nat,
)
    requires
        0 <= n <= rows.len(),
        reach(rows, w),
    ensures
        reach(matched_rows(rows, cols, keys, wanted, n), w),
    decreases n,
{
    if n > 0 {
        lemma_matched_reach(rows, cols, keys, wanted, n - 1, w);
        let before = matched_rows(rows, cols, keys, wanted, n - 1);
        let after = matched_rows(rows, cols, keys, wanted, n);
        assert(rows[n - 1].len() >= w);
        assert forall|i: int| 0 <= i < after.len() implies (#[trigger] after[i]).len() >= w by {
            if i < before.len() {
                assert(after[i] == before[i]);
            }
        }
    }
}

/// The rows of the right side that match nothing, behind NULLs.
fn unmatched_behind_nulls(rows: &Vec<Vec<Value>>, left: usize, right: usize) -> (r: Vec<Vec<Value>>)
    requires
        reach(rows.deep_view(), right as nat),
    ensures
        r.deep_view() == behind_nulls(rows.deep_view(), left as nat, right as nat),
{
    let ghost rv = rows.deep_view();
    let mut out: Vec<Vec<Value>> = Vec::new();
    let mut i: usize = 0;
    while i < rows.len()
        invariant
            rv == rows.deep_view(),
            reach(rv, right as nat),
            i <= rows.len(),
            out.len() == i,
            forall|k: int|
                0 <= k < i ==> (#[trigger] out[k]).deep_view() == nulls(left as nat)
                    + rv[k].subrange(0, right as int),
        decreases rows.len() - i,
    {
        assert(rv[i as int] == rows[i as int].deep_view());
        assert(rv[i as int].len() >= right);
        let mut row = append_nulls(Vec::new(), left);
        let mut tail = take_front(&rows[i], right);
        let ghost (a, b) = (row.deep_view(), tail.deep_view());
        let ghost (x, y) = (row@, tail@);
        assert(a =~= nulls(left as nat));
        row.append(&mut tail);
        assert(row@ == x + y);
        assert(row.deep_view() =~= a + b);
        out.push(row);
        i += 1;
    }
    assert(out.deep_view() =~= behind_nulls(rv, left as nat, right as nat));
    out
}

/// The batch of the first columns of some rows.
pub fn cut_rows(rows: &Vec<Vec<Value>>, start: usize, end: usize, cols: usize) -> (r: DataChunk)
    requires
        start <= end <= rows.len(),
    ensures
        r.wf(),
        r.deep_view() == cut_chunk(
            rows.deep_view().subrange(start as int, end as int),
            cols as nat,
        ),
{
    let ghost rv = rows.deep_view();
    let ghost part = rv.subrange(start as int, end as int);
    let mut columns: Vec<Vector> = Vec::new();
    let mut j: usize = 0;
    while j < cols
        invariant
            start <= end <= rows.len(),
            rv == rows.deep_view(),
            part == rv.subrange(start as int, end as int),
            j <= cols,
            columns.len() == j,
            forall|k: int|
                0 <= k < j ==> (#[trigger] columns[k]).deep_view() == Column::Flat(
                    Seq::new(part.len(), |i: int| cell_of(part[i], k)),
                ) && columns[k].wf(),
        decreases cols - j,
    {
        let mut values: Vec<Value> = Vec::new();
        let mut i: usize = start;
        while i < end
            invariant
                start <= i <= end <= rows.len(),
                rv == rows.deep_view(),
                part == rv.subrange(start as int, end as int),
                values.len() == i - start,
                forall|k: int|
                    0 <= k < values.len() ==> (#[trigger] values[k]).deep_view() == cell_of(
                        part[k],
                        j as int,
                    ),
            decreases end - i,
        {
            assert(rv[i as int] == rows[i as int].deep_view());
            values.push(read_cell(&rows[i], j));
            i += 1;
        }
        assert(values.deep_view() =~= Seq::new(part.len(), |i: int| cell_of(part[i], j as int)));
        columns.push(Vector::Flat(values));
        j += 1;
    }
    let r = DataChunk { columns, count: end - start };
    assert(r.deep_view().columns =~= cut_chunk(part, cols as nat).columns);
    r
}

/// Cuts rows into batches of their first columns.
pub fn rows_to_chunks(rows: &Vec<Vec<Value>>, num_cols: usize) -> (r: Vec<DataChunk>)
    ensures
        chunks_wf(r@),
        r.deep_view() == cut_chunks(rows.deep_view(), num_cols as nat),
{
    let ghost rv = rows.deep_view();
    let ghost want = cut_chunks(rv, num_cols as nat);
    let mut out: Vec<DataChunk> = Vec::new();
    let mut start: usize = 0;
    let ghost mut k: int = 0;
    while start < rows.len()
        invariant
            rv == rows.deep_view(),
            want == cut_chunks(rv, num_cols as nat),
            start <= rows.len(),
            k == out.len(),
            start < rows.len() ==> start == k * SEMI_BATCH && k < want.len(),
            start == rows.len() ==> k == want.len(),
            0 <= k <= want.len(),
            forall|i: int|
                0 <= i < k ==> (#[trigger] out[i]).deep_view() == want[i] && out[i].wf(),
        decreases rows.len() - start,
    {
        let end: usize = if rows.len() - start <= SEMI_BATCH {
            rows.len()
        } else {
            start + SEMI_BATCH
        };
        let c = cut_rows(rows, start, end, num_cols);
        assert(c.deep_view() == want[k]);
        out.push(c);
        start = end;
        proof {
            k = k + 1;
        }
    }
    assert(out.deep_view() =~= want);
    out
}

fn with_null(chunks: &Vec<DataChunk>, behind: bool) -> (r: Vec<DataChunk>)
    requires
        chunks_wf(chunks@),
    ensures
        chunks_wf(r@),
        r.deep_view() == Seq::new(
            chunks.deep_view().len(),
            |k: int| beside_null(chunks.deep_view()[k], behind),
        ),
{
    let ghost cs = chunks.deep_view();
    let mut out: Vec<DataChunk> = Vec::new();
    let mut k: usize = 0;
    while k < chunks.len()
        invariant
            chunks_wf(chunks@),
            cs == chunks.deep_view(),
            k <= chunks.len(),
            out.len() == k,
            forall|i: int|
                0 <= i < k ==> (#[trigger] out[i]).deep_view() == beside_null(cs[i], behind)
                    && out[i].wf(),
        decreases chunks.len() - k,
    {
        assert(chunks[k as int].wf());
        assert(cs[k as int] == chunks[k as int].deep_view());
        let c = chunks[k].clone();
        let count: usize = c.count;
        let mut columns = c.columns;
        let ghost before = columns.deep_view();
        if behind {
            columns.push(Vector::Constant(Value::Null, count));
            assert(columns.deep_view() =~= beside_null(cs[k as int], behind).columns);
        } else {
            columns.insert(0, Vector::Constant(Value::Null, count));
            assert(columns.deep_view() =~= beside_null(cs[k as int], behind).columns);
        }
        let d = DataChunk { columns, count };
        assert(d.deep_view().columns =~= beside_null(cs[k as int], behind).columns);
        out.push(d);
        k += 1;
    }
    assert(out.deep_view() =~= Seq::new(cs.len(), |k: int| beside_null(cs[k], behind)));
    out
}

/// Joins where a side has no batch.
pub fn handle_empty_input(left: &Vec<DataChunk>, right: &Vec<DataChunk>, join_type: JoinType) -> (r:
    Vec<DataChunk>)
    requires
        chunks_wf(left@),
        chunks_wf(right@),
        left.len() == 0 || right.len() == 0,
    ensures
        chunks_wf(r@),
        r.deep_view() == joined_empty(left.deep_view(), right.deep_view(), join_type),
{
    match join_type {
        JoinType::Inner | JoinType::Semi => {
            let out: Vec<DataChunk> = Vec::new();
            assert(out.deep_view() =~= Seq::<Chunk>::empty());
            out
        },
        JoinType::Left => with_null(left, true),
        JoinType::Right => with_null(right, false),
        JoinType::Full => if left.len() == 0 {
            with_null(right, false)
        } else {
            with_null(left, true)
        },
        JoinType::Anti => clone_chunks(left),
    }
}

/// Aligned batches can be read row by row.
pub proof fn lemma_aligned_cover(cs: Seq<Chunk>)
    requires
        all_aligned(cs),
    ensures
        all_cover(cs),
{
    assert forall|k: int| 0 <= k < cs.len() implies covers(#[trigger] cs[k]) by {
        assert(aligned(cs[k]));
    }
}

/// Joins two tables on equal keys.
pub fn join_batches(
    left_chunks: &Vec<DataChunk>,
    right_chunks: &Vec<DataChunk>,
    left_keys: &Vec<usize>,
    right_keys: &Vec<usize>,
    join_type: JoinType,
) -> (r: Vec<DataChunk>)
    requires
        chunks_wf(left_chunks@),
        chunks_wf(right_chunks@),
        all_aligned(left_chunks.deep_view()),
        all_aligned(right_chunks.deep_view()),
        wide(left_chunks.deep_view()),
        wide(right_chunks.deep_view()),
    ensures
        chunks_wf(r@),
        r.deep_view() == joined(
            left_chunks.deep_view(),
            right_chunks.deep_view(),
            left_keys@,
            right_keys@,
            join_type,
        ),
{
    if left_chunks.len() == 0 || right_chunks.len() == 0 {
        return handle_empty_input(left_chunks, right_chunks, join_type);
    }
    let ghost (l, r) = (left_chunks.deep_view(), right_chunks.deep_view());
    let lc: usize = left_chunks[0].num_columns();
    let rc: usize = right_chunks[0].num_columns();
    assert(l[0].columns.len() == lc && r[0].columns.len() == rc);
    proof {
        lemma_aligned_cover(l);
        lemma_aligned_cover(r);
        lemma_rows_reach(l, lc as nat);
        lemma_rows_reach(r, rc as nat);
    }
    let left_rows = flat_rows(left_chunks);
    let right_rows = flat_rows(right_chunks);
    let ghost (a, b) = (left_rows.deep_view(), right_rows.deep_view());
    match join_type {
        JoinType::Inner => {
            let single = left_keys.len() == 1 && right_keys.len() == 1;
            let kinds: (Option<GroupKeyType>, Option<GroupKeyType>) = if single {
                (join_kind(left_chunks, left_keys[0]), join_kind(right_chunks, right_keys[0]))
            } else {
                (None, None)
            };
            proof {
                if let Some(t) = kinds.0 {
                    lemma_rows_keyed(l, left_keys@[0], t);
                }
                if let Some(t) = kinds.1 {
                    lemma_rows_keyed(r, right_keys@[0], t);
                }
            }
            if right_rows.len() <= left_rows.len() {
                if single {
                    if let Some(r) = hash_join_inner_int(
                        &left_rows,
                        &right_rows,
                        left_keys,
                        right_keys,
                        lc,
                        rc,
                        kinds.0,
                        kinds.1,
                    ) {
                        return r;
                    }
                }
                hash_join_rows(&left_rows, &right_rows, left_keys, right_keys, lc, rc, false)
            } else {
                if single {
                    if let Some(r) = hash_join_inner_int(
                        &right_rows,
                        &left_rows,
                        right_keys,
                        left_keys,
                        rc,
                        lc,
                        kinds.1,
                        kinds.0,
                    ) {
                        return swap_all(r, rc);
                    }
                }
                let r = hash_join_rows(
                    &right_rows,
                    &left_rows,
                    right_keys,
                    left_keys,
                    rc,
                    lc,
                    false,
                );
                swap_all(r, rc)
            }
        },
        JoinType::Left => hash_join_rows(
            &left_rows,
            &right_rows,
            left_keys,
            right_keys,
            lc,
            rc,
            true,
        ),
        JoinType::Right => {
            let r = hash_join_rows(&right_rows, &left_rows, right_keys, left_keys, rc, lc, true);
            swap_all(r, rc)
        },
        JoinType::Full => {
            let mut first = hash_join_rows(
                &left_rows,
                &right_rows,
                left_keys,
                right_keys,
                lc,
                rc,
                true,
            );
            let index = build_hash_table(&left_rows, left_keys);
            let rest = filter_matched(&right_rows, right_keys, &index, false);
            proof {
                lemma_matched_reach(
                    b,
                    right_keys@,
                    index@,
                    false,
                    b.len() as int,
                    rc as nat,
                );
            }
            let rows = unmatched_behind_nulls(&rest, lc, rc);
            proof {
                let v = rows.deep_view();
                assert forall|i: int| 0 <= i < v.len() implies (#[trigger] v[i]).len()
                    == v[0].len() by {
                    assert(rest.deep_view()[i].len() >= rc && rest.deep_view()[0].len() >= rc);
                }
            }
            let mut second = batch_rows(&rows);
            let ghost (x, y) = (first.deep_view(), second.deep_view());
            let ghost (p, q) = (first@, second@);
            first.append(&mut second);
            proof {
                assert(first@ == p + q);
                assert(first.deep_view() =~= x + y);
                assert forall|k: int| 0 <= k < first.len() implies (#[trigger] first[k]).wf() by {
                    if k < p.len() {
                        assert(first@[k] == p[k]);
                    } else {
                        assert(first@[k] == q[k - p.len()]);
                    }
                }
            }
            first
        },
        JoinType::Semi => {
            let index = build_hash_table(&right_rows, right_keys);
            let rows = filter_matched(&left_rows, left_keys, &index, true);
            rows_to_chunks(&rows, lc)
        },
        JoinType::Anti => {
            let index = build_hash_table(&right_rows, right_keys);
            let rows = filter_matched(&left_rows, left_keys, &index, false);
            rows_to_chunks(&rows, lc)
        },
    }
}

/// Joins two tables, as [`join_batches`] does. Nothing can fail.
pub fn execute(
    left_chunks: &Vec<DataChunk>,
    right_chunks: &Vec<DataChunk>,
    left_keys: &Vec<usize>,
    right_keys: &Vec<usize>,
    join_type: JoinType,
) -> (r: Result<Vec<DataChunk>, EngramDbError>)
    requires
        chunks_wf(left_chunks@),
        chunks_wf(right_chunks@),
        all_aligned(left_chunks.deep_view()),
        all_aligned(right_chunks.deep_view()),
        wide(left_chunks.deep_view()),
        wide(right_chunks.deep_view()),
    ensures
        r is Ok,
        chunks_wf(r->Ok_0@),
        r->Ok_0.deep_view() == joined(
            left_chunks.deep_view(),
            right_chunks.deep_view(),
            left_keys@,
            right_keys@,
            join_type,
        ),
{
    Ok(join_batches(left_chunks, right_chunks, left_keys, right_keys, join_type))
}

} // verus!
