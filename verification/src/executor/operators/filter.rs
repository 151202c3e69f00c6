//! Filtering: keeps the rows in which a condition is true.
use vstd::prelude::*;

use crate::common::error::{EngramDbError, Fault};
use crate::executor::env::{answers, oracle, Answer, Ask, Question, Reply};
use crate::executor::expression::draws::drawn;
use crate::executor::expression::eval::{
    boolean_to_selection, calm, eval, eval_vectorized, law_selection, true_rows,
};
use crate::executor::vector::{
    aligned, chunks_wf, lemma_select_all, positions, row_of, rows_of, select_chunk, Chunk, Column,
    DataChunk, LazyDataChunk, SelectionVector,
};
use crate::sql::ast::{Expr, Expression};

verus! {

/// The rows of a batch in which a condition is true.
pub open spec fn filtered(
    o: spec_fn(Question) -> Answer,
    c: Chunk,
    e: Expr,
    names: Seq<Seq<char>>,
) -> Result<Chunk, Fault> {
    match eval(o, e, c, names) {
        Err(x) => Err(x),
        Ok(b) => {
            let sel = true_rows(b, c.count);
            if sel.len() == 0 && c.count > 0 {
                Ok(
                    Chunk {
                        columns: Seq::new(c.columns.len(), |j: int| Column::Flat(Seq::empty())),
                        count: 0,
                    },
                )
            } else {
                Ok(select_chunk(c, sel))
            }
        },
    }
}

/// The batches filtered, without those of which no row is left. An error
/// comes from the first batch that has one.
pub open spec fn filtered_all(
    o: spec_fn(Question) -> Answer,
    cs: Seq<Chunk>,
    e: Expr,
    names: Seq<Seq<char>>,
) -> Result<Seq<Chunk>, Fault>
    decreases cs.len(),
{
    if cs.len() == 0 {
        Ok(Seq::empty())
    } else {
        match (filtered_all(o, cs.drop_last(), e, names), filtered(o, cs.last(), e, names)) {
            (Err(x), _) => Err(x),
            (_, Err(x)) => Err(x),
            (Ok(done), Ok(c)) => Ok(
                if c.count == 0 {
                    done
                } else {
                    done.push(c)
                },
            ),
        }
    }
}

/// The batches that were left, and one more.
pub open spec fn and_left(done: Result<Seq<Chunk>, Fault>, next: Result<Chunk, Fault>) -> Result<
    Seq<Chunk>,
    Fault,
> {
    match (done, next) {
        (Err(x), _) => Err(x),
        (_, Err(x)) => Err(x),
        (Ok(done), Ok(c)) => Ok(
            if c.count == 0 {
                done
            } else {
                done.push(c)
            },
        ),
    }
}

/// Whether batches can be filtered to a result: as [`filtered_all`] says, with
/// numbers of its own for every batch in place of the calls of RANDOM.
pub open spec fn can_filter(
    o: spec_fn(Question) -> Answer,
    cs: Seq<Chunk>,
    e: Expr,
    names: Seq<Seq<char>>,
    r: Result<Seq<Chunk>, Fault>,
) -> bool
    decreases cs.len(),
{
    if cs.len() == 0 {
        r == Ok::<Seq<Chunk>, Fault>(Seq::empty())
    } else {
        exists|done: Result<Seq<Chunk>, Fault>, p: Expr|
            can_filter(o, cs.drop_last(), e, names, done) && drawn(e, p) && r
                == #[trigger] and_left(done, filtered(o, cs.last(), p, names))
    }
}

/// Whether all batches are aligned.
pub open spec fn all_aligned(cs: Seq<Chunk>) -> bool {
    forall|k: int| 0 <= k < cs.len() ==> aligned(#[trigger] cs[k])
}

/// Whether a batch, or the error, is what the model says.
pub open spec fn gives_chunk(r: Result<DataChunk, EngramDbError>, m: Result<Chunk, Fault>) -> bool {
    match r {
        Ok(c) => m == Ok::<Chunk, Fault>(c.deep_view()),
        Err(e) => m == Err::<Chunk, Fault>(e.deep_view()),
    }
}

/// Whether batches, or the error, are what the model says.
pub open spec fn gives_chunks(
    r: Result<Vec<DataChunk>, EngramDbError>,
    m: Result<Seq<Chunk>, Fault>,
) -> bool {
    match r {
        Ok(c) => m == Ok::<Seq<Chunk>, Fault>(c.deep_view()),
        Err(e) => m == Err::<Seq<Chunk>, Fault>(e.deep_view()),
    }
}

/// The model of batches, or of the error.
pub open spec fn told_chunks(r: Result<Vec<DataChunk>, EngramDbError>) -> Result<
    Seq<Chunk>,
    Fault,
> {
    match r {
        Ok(c) => Ok(c.deep_view()),
        Err(e) => Err(e.deep_view()),
    }
}

/// Whether batches that came out are well formed and aligned.
pub open spec fn sound_chunks(r: Result<Vec<DataChunk>, EngramDbError>) -> bool {
    r matches Ok(v) ==> chunks_wf(v@) && all_aligned(v.deep_view())
}

/// A selection of an aligned batch is aligned.
pub proof fn lemma_select_aligned(c: Chunk, sel: Seq<usize>)
    requires
        aligned(c),
    ensures
        aligned(select_chunk(c, sel)),
{
}

/// What is left of a batch are its rows in which the condition is true, in
/// order.
pub proof fn law_filter_rows(
    o: spec_fn(Question) -> Answer,
    c: Chunk,
    e: Expr,
    names: Seq<Seq<char>>,
)
    requires
        aligned(c),
        c.count <= usize::MAX,
        eval(o, e, c, names) is Ok,
    ensures
        ({
            let sel = true_rows(eval(o, e, c, names)->Ok_0, c.count);
            rows_of(filtered(o, c, e, names)->Ok_0) == Seq::new(
                sel.len(),
                |i: int| row_of(c, sel[i] as int),
            )
        }),
{
    let b = eval(o, e, c, names)->Ok_0;
    let sel = true_rows(b, c.count);
    let f = filtered(o, c, e, names)->Ok_0;
    let want = Seq::new(sel.len(), |i: int| row_of(c, sel[i] as int));
    law_selection(b, c.count);
    if sel.len() > 0 {
        assert forall|i: int| 0 <= i < sel.len() implies #[trigger] rows_of(f)[i]
            == want[i] by {
            assert(rows_of(f)[i] =~= row_of(c, sel[i] as int));
        }
    }
    assert(rows_of(f) =~= want);
}

/// An ascending selection of `n` rows below `n` selects all.
proof fn lemma_full_selection(sel: Seq<usize>, n: nat, i: int)
    requires
        sel.len() == n,
        0 <= i < n,
        forall|k: int| 0 <= k < sel.len() ==> (#[trigger] sel[k]) < n,
        forall|a: int, b: int| 0 <= a < b < sel.len() ==> sel[a] < sel[b],
    ensures
        sel[i] == i,
{
    lemma_ascends(sel, 0, i);
    lemma_ascends(sel, i, n - 1);
}

proof fn lemma_ascends(sel: Seq<usize>, a: int, b: int)
    requires
        0 <= a <= b < sel.len(),
        forall|a: int, b: int| 0 <= a < b < sel.len() ==> sel[a] < sel[b],
    ensures
        sel[b] - sel[a] >= b - a,
    decreases b - a,
{
    if a < b {
        lemma_ascends(sel, a, b - 1);
    }
}

/// Filters one batch.
pub fn filter_chunk<E: Fn(Ask) -> Reply>(
    chunk: &DataChunk,
    condition: &Expression,
    column_names: &Vec<String>,
    env: &E,
) -> (r: Result<DataChunk, EngramDbError>)
    requires
        answers(*env),
        chunk.wf(),
        aligned(chunk.deep_view()),
    ensures
        r matches Ok(c) ==> c.wf() && aligned(c.deep_view()),
        calm(condition.deep_view()) ==> gives_chunk(
            r,
            filtered(
                oracle(*env),
                chunk.deep_view(),
                condition.deep_view(),
                column_names.deep_view(),
            ),
        ),
        exists|p: Expr| #[trigger]
            drawn(condition.deep_view(), p) && gives_chunk(
                r,
                filtered(oracle(*env), chunk.deep_view(), p, column_names.deep_view()),
            ),
{
    let bools = match eval_vectorized(condition, chunk, column_names, env) {
        Ok(v) => v,
        Err(e) => {
            return Err(e);
        },
    };
    let sel = boolean_to_selection(&bools);
    proof {
        law_selection(bools.deep_view(), chunk.count as nat);
        lemma_select_aligned(chunk.deep_view(), sel@);
        if sel.len() == chunk.count {
            assert forall|i: int| 0 <= i < sel@.len() implies sel@[i] == i by {
                lemma_full_selection(sel@, chunk.count as nat, i);
            }
            assert(sel@ =~= positions(chunk.count as nat));
            lemma_select_all(chunk.deep_view());
        }
    }
    if sel.len() == chunk.count {
        Ok(chunk.clone())
    } else if sel.len() == 0 {
        Ok(DataChunk::new(chunk.num_columns()))
    } else {
        let sel = SelectionVector::from_indices(sel);
        Ok(sel.apply_to_chunk(chunk))
    }
}

/// Filters batches, and leaves out those of which no row is left.
pub fn execute<E: Fn(Ask) -> Reply>(
    input: &Vec<DataChunk>,
    condition: &Expression,
    column_names: &Vec<String>,
    env: &E,
) -> (r: Result<Vec<DataChunk>, EngramDbError>)
    requires
        answers(*env),
        chunks_wf(input@),
        all_aligned(input.deep_view()),
    ensures
        sound_chunks(r),
        calm(condition.deep_view()) ==> gives_chunks(
            r,
            filtered_all(
                oracle(*env),
                input.deep_view(),
                condition.deep_view(),
                column_names.deep_view(),
            ),
        ),
        can_filter(
            oracle(*env),
            input.deep_view(),
            condition.deep_view(),
            column_names.deep_view(),
            told_chunks(r),
        ),
{
    let ghost all = input.deep_view();
    let ghost e = condition.deep_view();
    let ghost names = column_names.deep_view();
    let ghost o = oracle(*env);
    let mut out: Vec<DataChunk> = Vec::new();
    let mut i: usize = 0;
    assert(out.deep_view() =~= Seq::<Chunk>::empty());
    while i < input.len()
        invariant
            answers(*env),
            o == oracle(*env),
            chunks_wf(input@),
            all == input.deep_view(),
            all_aligned(all),
            e == condition.deep_view(),
            names == column_names.deep_view(),
            i <= input.len(),
            chunks_wf(out@),
            all_aligned(out.deep_view()),
            calm(e) ==> filtered_all(o, all.subrange(0, i as int), e, names) == Ok::<
                Seq<Chunk>,
                Fault,
            >(out.deep_view()),
            can_filter(o, all.subrange(0, i as int), e, names, Ok(out.deep_view())),
        decreases input.len() - i,
    {
        assert(input[i as int].wf());
        let ghost done = Ok::<Seq<Chunk>, Fault>(out.deep_view());
        assert(all[i as int] == input[i as int].deep_view());
        let ghost next = all.subrange(0, i + 1);
        assert(next.drop_last() =~= all.subrange(0, i as int));
        let kept = filter_chunk(&input[i], condition, column_names, env);
        proof {
            let p = choose|p: Expr| #[trigger]
                drawn(e, p) && gives_chunk(kept, filtered(o, all[i as int], p, names));
            assert(can_filter(o, next.drop_last(), e, names, done) && drawn(e, p));
            assert(can_filter(
                o,
                next,
                e,
                names,
                and_left(done, filtered(o, all[i as int], p, names)),
            ));
        }
        match kept {
            Ok(c) => {
                if !c.is_empty() {
                    let ghost before = out.deep_view();
                    out.push(c);
                    assert(out.deep_view() =~= before.push(c.deep_view()));
                }
            },
            Err(x) => {
                proof {
                    if calm(e) {
                        lemma_filter_fails(o, all, e, names, i + 1);
                    }
                    lemma_can_fail(o, all, e, names, i + 1, x.deep_view());
                }
                return Err(x);
            },
        }
        i += 1;
    }
    assert(all.subrange(0, i as int) =~= all);
    Ok(out)
}

/// An error in the first batches is the error of all.
proof fn lemma_filter_fails(
    o: spec_fn(Question) -> Answer,
    cs: Seq<Chunk>,
    e: Expr,
    names: Seq<Seq<char>>,
    k: int,
)
    requires
        0 <= k <= cs.len(),
        filtered_all(o, cs.subrange(0, k), e, names) is Err,
    ensures
        filtered_all(o, cs, e, names) == filtered_all(o, cs.subrange(0, k), e, names),
    decreases cs.len() - k,
{
    if k == cs.len() {
        assert(cs.subrange(0, k) =~= cs);
    } else {
        assert(cs.subrange(0, k + 1).drop_last() =~= cs.subrange(0, k));
        lemma_filter_fails(o, cs, e, names, k + 1);
    }
}

/// An error that the first batches can give, all can give.
proof fn lemma_can_fail(
    o: spec_fn(Question) -> Answer,
    cs: Seq<Chunk>,
    e: Expr,
    names: Seq<Seq<char>>,
    k: int,
    x: Fault,
)
    requires
        0 <= k <= cs.len(),
        can_filter(o, cs.subrange(0, k), e, names, Err(x)),
    ensures
        can_filter(o, cs, e, names, Err(x)),
    decreases cs.len() - k,
{
    if k == cs.len() {
        assert(cs.subrange(0, k) =~= cs);
    } else {
        let next = cs.subrange(0, k + 1);
        assert(next.drop_last() =~= cs.subrange(0, k));
        let done = Err::<Seq<Chunk>, Fault>(x);
        assert(can_filter(o, next.drop_last(), e, names, done) && drawn(e, e));
        assert(Err::<Seq<Chunk>, Fault>(x) == and_left(done, filtered(o, next.last(), e, names)));
        lemma_can_fail(o, cs, e, names, k + 1, x);
    }
}

/// Whether a batch has its rows in which a column is true noted.
pub open spec fn notes(
    r: Result<LazyDataChunk, EngramDbError>,
    m: Result<Column, Fault>,
    count: nat,
) -> bool {
    match (r, m) {
        (Ok(l), Ok(b)) => {
            let sel = true_rows(b, count);
            if sel.len() < count {
                l.selection matches Some(s) && s@ == sel
            } else {
                l.selection is None
            }
        },
        (Err(x), Err(y)) => x.deep_view() == y,
        _ => false,
    }
}

/// Filters one batch without moving its rows: the rows that pass are noted as
/// a selection, unless all pass.
pub fn execute_lazy<E: Fn(Ask) -> Reply>(
    chunk: DataChunk,
    condition: &Expression,
    column_names: &Vec<String>,
    env: &E,
) -> (r: Result<LazyDataChunk, EngramDbError>)
    requires
        answers(*env),
        chunk.wf(),
        aligned(chunk.deep_view()),
    ensures
        r matches Ok(l) ==> l.chunk == chunk,
        calm(condition.deep_view()) ==> notes(
            r,
            eval(
                oracle(*env),
                condition.deep_view(),
                chunk.deep_view(),
                column_names.deep_view(),
            ),
            chunk.count as nat,
        ),
        exists|p: Expr| #[trigger]
            drawn(condition.deep_view(), p) && notes(
                r,
                eval(oracle(*env), p, chunk.deep_view(), column_names.deep_view()),
                chunk.count as nat,
            ),
{
    let bools = match eval_vectorized(condition, &chunk, column_names, env) {
        Ok(v) => v,
        Err(e) => {
            return Err(e);
        },
    };
    let sel = boolean_to_selection(&bools);
    let mut lazy = LazyDataChunk::new(chunk);
    if sel.len() < lazy.chunk.count {
        lazy.selection = Some(SelectionVector::from_indices(sel));
    }
    Ok(lazy)
}

} // verus!
