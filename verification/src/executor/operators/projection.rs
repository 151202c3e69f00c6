//! Projection: computes expressions over batches.
use vstd::prelude::*;

use crate::common::error::{EngramDbError, Fault};
use crate::executor::env::{answers, oracle, Answer, Ask, Question, Reply};
use crate::executor::expression::draws::all_drawn;
use crate::executor::expression::eval::{all_calm, calm, eval_every, eval_list};
use crate::executor::operators::delete::{one_row, row_chunk};
use crate::executor::operators::filter::{
    all_aligned, and_left, gives_chunk, gives_chunks, sound_chunks, told_chunks,
};
use crate::executor::operators::hash_join::{cut_chunk, cut_rows};
use crate::executor::subquery::{
    any_subquery, lemma_resolved_calm, plain, resolve_list, resolved_expr,
};
use crate::executor::vector::{aligned, chunks_wf, row_of, rows_of, Chunk, DataChunk};
use crate::query::{Query, QueryResult};
use crate::sql::ast::{Expr, Expression};
use crate::value::Datum;
use crate::Value;

verus! {

/// The batch of the columns that expressions give.
pub open spec fn projected(
    o: spec_fn(Question) -> Answer,
    c: Chunk,
    exprs: Seq<Expr>,
    names: Seq<Seq<char>>,
) -> Result<Chunk, Fault> {
    match eval_list(o, exprs, 0, 1, c, names) {
        Ok(columns) => Ok(Chunk { columns, count: c.count }),
        Err(x) => Err(x),
    }
}

/// The batches projected, without those that have no row. An error comes from
/// the first batch that has one.
pub open spec fn projected_all(
    o: spec_fn(Question) -> Answer,
    cs: Seq<Chunk>,
    exprs: Seq<Expr>,
    names: Seq<Seq<char>>,
) -> Result<Seq<Chunk>, Fault>
    decreases cs.len(),
{
    if cs.len() == 0 {
        Ok(Seq::empty())
    } else {
        match (projected_all(o, cs.drop_last(), exprs, names), projected(o, cs.last(), exprs, names)) {
            (Err(x), _) => Err(x),
            (_, Err(x)) => Err(x),
            (Ok(done), Ok(c)) => Ok(
                if c.count == 0 {
                    done
                } else {
                    done.push(c)
                },
            ),
        }
    }
}

/// Whether batches can be projected to a result: as [`projected_all`] says,
/// with numbers of its own for every batch in place of the calls of RANDOM.
pub open spec fn can_project(
    o: spec_fn(Question) -> Answer,
    cs: Seq<Chunk>,
    exprs: Seq<Expr>,
    names: Seq<Seq<char>>,
    r: Result<Seq<Chunk>, Fault>,
) -> bool
    decreases cs.len(),
{
    if cs.len() == 0 {
        r == Ok::<Seq<Chunk>, Fault>(Seq::empty())
    } else {
        exists|done: Result<Seq<Chunk>, Fault>, ps: Seq<Expr>|
            can_project(o, cs.drop_last(), exprs, names, done) && all_drawn(exprs, ps) && r
                == #[trigger] and_left(done, projected(o, cs.last(), ps, names))
    }
}

/// An error that the first batches can give, all can give.
proof fn lemma_can_fail(
    o: spec_fn(Question) -> Answer,
    cs: Seq<Chunk>,
    exprs: Seq<Expr>,
    names: Seq<Seq<char>>,
    k: int,
    x: Fault,
)
    requires
        0 <= k <= cs.len(),
        can_project(o, cs.subrange(0, k), exprs, names, Err(x)),
    ensures
        can_project(o, cs, exprs, names, Err(x)),
    decreases cs.len() - k,
{
    if k == cs.len() {
        assert(cs.subrange(0, k) =~= cs);
    } else {
        let next = cs.subrange(0, k + 1);
        assert(next.drop_last() =~= cs.subrange(0, k));
        let done = Err::<Seq<Chunk>, Fault>(x);
        assert(can_project(o, next.drop_last(), exprs, names, done) && all_drawn(exprs, exprs));
        assert(done == and_left(done, projected(o, next.last(), exprs, names)));
        lemma_can_fail(o, cs, exprs, names, k + 1, x);
    }
}

/// An error in the first batches is the error of all.
proof fn lemma_project_fails(
    o: spec_fn(Question) -> Answer,
    cs: Seq<Chunk>,
    exprs: Seq<Expr>,
    names: Seq<Seq<char>>,
    k: int,
)
    requires
        0 <= k <= cs.len(),
        projected_all(o, cs.subrange(0, k), exprs, names) is Err,
    ensures
        projected_all(o, cs, exprs, names) == projected_all(o, cs.subrange(0, k), exprs, names),
    decreases cs.len() - k,
{
    if k == cs.len() {
        assert(cs.subrange(0, k) =~= cs);
    } else {
        assert(cs.subrange(0, k + 1).drop_last() =~= cs.subrange(0, k));
        lemma_project_fails(o, cs, exprs, names, k + 1);
    }
}

/// Projects one batch.
pub fn project_chunk<E: Fn(Ask) -> Reply>(
    chunk: &DataChunk,
    expressions: &Vec<Expression>,
    input_columns: &Vec<String>,
    env: &E,
) -> (r: Result<DataChunk, EngramDbError>)
    requires
        answers(*env),
        chunk.wf(),
        aligned(chunk.deep_view()),
    ensures
        r matches Ok(c) ==> c.wf() && aligned(c.deep_view()) && c.count == chunk.count
            && c.columns.len() == expressions.len(),
        all_calm(expressions.deep_view()) ==> gives_chunk(
            r,
            projected(
                oracle(*env),
                chunk.deep_view(),
                expressions.deep_view(),
                input_columns.deep_view(),
            ),
        ),
        exists|ps: Seq<Expr>| #[trigger]
            all_drawn(expressions.deep_view(), ps) && gives_chunk(
                r,
                projected(oracle(*env), chunk.deep_view(), ps, input_columns.deep_view()),
            ),
{
    match eval_every(expressions, 0, 1, chunk, input_columns, env) {
        Ok(columns) => {
            let r = DataChunk { columns, count: chunk.count };
            proof {
                assert forall|j: int| 0 <= j < r.columns.len() implies (
                #[trigger] r.columns[j]).wf() by {
                    assert(columns@[j].wf());
                }
                assert forall|j: int| 0 <= j < r.deep_view().columns.len() implies
                    crate::executor::vector::col_len(#[trigger] r.deep_view().columns[j])
                    == chunk.count by {
                    assert(columns@[j].wf());
                }
            }
            Ok(r)
        },
        Err(e) => Err(e),
    }
}

/// Projects batches, and leaves out those that have no row.
pub fn execute<E: Fn(Ask) -> Reply>(
    input: &Vec<DataChunk>,
    expressions: &Vec<Expression>,
    input_columns: &Vec<String>,
    env: &E,
) -> (r: Result<Vec<DataChunk>, EngramDbError>)
    requires
        answers(*env),
        chunks_wf(input@),
        all_aligned(input.deep_view()),
    ensures
        sound_chunks(r),
        all_calm(expressions.deep_view()) ==> gives_chunks(
            r,
            projected_all(
                oracle(*env),
                input.deep_view(),
                expressions.deep_view(),
                input_columns.deep_view(),
            ),
        ),
        can_project(
            oracle(*env),
            input.deep_view(),
            expressions.deep_view(),
            input_columns.deep_view(),
            told_chunks(r),
        ),
{
    let ghost all = input.deep_view();
    let ghost es = expressions.deep_view();
    let ghost names = input_columns.deep_view();
    let ghost o = oracle(*env);
    let mut out: Vec<DataChunk> = Vec::new();
    let mut i: usize = 0;
    assert(out.deep_view() =~= Seq::<Chunk>::empty());
    while i < input.len()
        invariant
            answers(*env),
            o == oracle(*env),
            chunks_wf(input@),
            all == input.deep_view(),
            all_aligned(all),
            es == expressions.deep_view(),
            names == input_columns.deep_view(),
            i <= input.len(),
            chunks_wf(out@),
            all_aligned(out.deep_view()),
            all_calm(es) ==> projected_all(o, all.subrange(0, i as int), es, names) == Ok::<
                Seq<Chunk>,
                Fault,
            >(out.deep_view()),
            can_project(o, all.subrange(0, i as int), es, names, Ok(out.deep_view())),
        decreases input.len() - i,
    {
        assert(input[i as int].wf());
        let ghost done = Ok::<Seq<Chunk>, Fault>(out.deep_view());
        assert(all[i as int] == input[i as int].deep_view());
        let ghost next = all.subrange(0, i + 1);
        assert(next.drop_last() =~= all.subrange(0, i as int));
        let made = project_chunk(&input[i], expressions, input_columns, env);
        proof {
            let ps = choose|ps: Seq<Expr>| #[trigger]
                all_drawn(es, ps) && gives_chunk(made, projected(o, all[i as int], ps, names));
            assert(can_project(o, next.drop_last(), es, names, done) && all_drawn(es, ps));
            assert(can_project(
                o,
                next,
                es,
                names,
                and_left(done, projected(o, all[i as int], ps, names)),
            ));
        }
        match made {
            Ok(c) => {
                if !c.is_empty() {
                    let ghost before = out.deep_view();
                    out.push(c);
                    assert(out.deep_view() =~= before.push(c.deep_view()));
                }
            },
            Err(x) => {
                proof {
                    if all_calm(es) {
                        lemma_project_fails(o, all, es, names, i + 1);
                    }
                    lemma_can_fail(o, all, es, names, i + 1, x.deep_view());
                }
                return Err(x);
            },
        }
        i += 1;
    }
    assert(all.subrange(0, i as int) =~= all);
    Ok(out)
}

/// The batches projected, also those that have no row. An error comes from
/// the first batch that has one.
pub open spec fn projected_each(
    o: spec_fn(Question) -> Answer,
    cs: Seq<Chunk>,
    exprs: Seq<Expr>,
    names: Seq<Seq<char>>,
    n: nat,
) -> Result<Seq<Chunk>, Fault>
    decreases n,
{
    if n == 0 {
        Ok(Seq::empty())
    } else {
        match projected_each(o, cs, exprs, names, (n - 1) as nat) {
            Err(x) => Err(x),
            Ok(done) => match projected(o, cs[n - 1], exprs, names) {
                Err(x) => Err(x),
                Ok(c) => Ok(done.push(c)),
            },
        }
    }
}

/// What the subqueries gave before row `k` was read.
pub open spec fn given_at(given: Seq<Seq<Query>>, k: nat) -> Seq<Query> {
    if k < given.len() {
        given[k as int]
    } else {
        Seq::empty()
    }
}

/// The expressions without subqueries.
pub open spec fn resolved_list(given: Seq<Query>, exprs: Seq<Expr>) -> Seq<Expr> {
    Seq::new(exprs.len(), |i: int| resolved_expr(given, exprs[i]))
}

/// The values of expressions on one row, with what the subqueries gave for it.
pub open spec fn projected_row(
    o: spec_fn(Question) -> Answer,
    row: Seq<Datum>,
    exprs: Seq<Expr>,
    names: Seq<Seq<char>>,
    given: Seq<Query>,
) -> Result<Seq<Datum>, Fault> {
    match projected(o, row_chunk(row), resolved_list(given, exprs), names) {
        Err(x) => Err(x),
        Ok(c) => Ok(row_of(c, 0)),
    }
}

/// The values of expressions on the first `n` rows, of which the first has
/// number `base`, or the first error.
pub open spec fn projected_rows(
    o: spec_fn(Question) -> Answer,
    rows: Seq<Seq<Datum>>,
    base: nat,
    exprs: Seq<Expr>,
    names: Seq<Seq<char>>,
    given: Seq<Seq<Query>>,
    n: nat,
) -> Result<Seq<Seq<Datum>>, Fault>
    decreases n,
{
    if n == 0 {
        Ok(Seq::empty())
    } else {
        match projected_rows(o, rows, base, exprs, names, given, (n - 1) as nat) {
            Err(x) => Err(x),
            Ok(done) => match projected_row(
                o,
                rows[n - 1],
                exprs,
                names,
                given_at(given, (base + n - 1) as nat),
            ) {
                Err(x) => Err(x),
                Ok(row) => Ok(done.push(row)),
            },
        }
    }
}

/// The number of rows of the first `n` batches.
pub open spec fn rows_before(cs: Seq<Chunk>, n: nat) -> nat
    decreases n,
{
    if n == 0 {
        0
    } else {
        rows_before(cs, (n - 1) as nat) + cs[n - 1].count
    }
}

/// The first `n` batches projected row by row, or the first error.
pub open spec fn correlated(
    o: spec_fn(Question) -> Answer,
    cs: Seq<Chunk>,
    exprs: Seq<Expr>,
    names: Seq<Seq<char>>,
    given: Seq<Seq<Query>>,
    n: nat,
) -> Result<Seq<Chunk>, Fault>
    decreases n,
{
    if n == 0 {
        Ok(Seq::empty())
    } else {
        match correlated(o, cs, exprs, names, given, (n - 1) as nat) {
            Err(x) => Err(x),
            Ok(done) => match projected_rows(
                o,
                rows_of(cs[n - 1]),
                rows_before(cs, (n - 1) as nat),
                exprs,
                names,
                given,
                cs[n - 1].count,
            ) {
                Err(x) => Err(x),
                Ok(rows) => Ok(done.push(cut_chunk(rows, exprs.len()))),
            },
        }
    }
}

/// Whether there is a row, and an expression with a subquery.
pub open spec fn row_by_row(cs: Seq<Chunk>, exprs: Seq<Expr>) -> bool {
    (exists|k: int| 0 <= k < cs.len() && (#[trigger] cs[k]).count > 0) && exists|i: int|
        0 <= i < exprs.len() && !plain(#[trigger] exprs[i])
}

/// An error among the first batches is the error of all.
proof fn lemma_each_fails(
    o: spec_fn(Question) -> Answer,
    cs: Seq<Chunk>,
    exprs: Seq<Expr>,
    names: Seq<Seq<char>>,
    k: nat,
    n: nat,
)
    requires
        k <= n,
        projected_each(o, cs, exprs, names, k) is Err,
    ensures
        projected_each(o, cs, exprs, names, n) == projected_each(o, cs, exprs, names, k),
    decreases n - k,
{
    if k < n {
        lemma_each_fails(o, cs, exprs, names, k, (n - 1) as nat);
    }
}

/// An error among the first rows is the error of all.
proof fn lemma_rows_fail(
    o: spec_fn(Question) -> Answer,
    rows: Seq<Seq<Datum>>,
    base: nat,
    exprs: Seq<Expr>,
    names: Seq<Seq<char>>,
    given: Seq<Seq<Query>>,
    k: nat,
    n: nat,
)
    requires
        k <= n,
        projected_rows(o, rows, base, exprs, names, given, k) is Err,
    ensures
        projected_rows(o, rows, base, exprs, names, given, n) == projected_rows(
            o,
            rows,
            base,
            exprs,
            names,
            given,
            k,
        ),
    decreases n - k,
{
    if k < n {
        lemma_rows_fail(o, rows, base, exprs, names, given, k, (n - 1) as nat);
    }
}

/// An error among the first batches is the error of all.
proof fn lemma_correlated_fails(
    o: spec_fn(Question) -> Answer,
    cs: Seq<Chunk>,
    exprs: Seq<Expr>,
    names: Seq<Seq<char>>,
    given: Seq<Seq<Query>>,
    k: nat,
    n: nat,
)
    requires
        k <= n,
        correlated(o, cs, exprs, names, given, k) is Err,
    ensures
        correlated(o, cs, exprs, names, given, n) == correlated(o, cs, exprs, names, given, k),
    decreases n - k,
{
    if k < n {
        lemma_correlated_fails(o, cs, exprs, names, given, k, (n - 1) as nat);
    }
}

/// Batches, or the error, on the way to more.
pub open spec fn so_far(r: Result<Seq<Chunk>, Fault>) -> bool {
    true
}

/// Rows, or the error, on the way to more.
pub open spec fn rows_so_far(r: Result<Seq<Seq<Datum>>, Fault>) -> bool {
    true
}

/// A row, or the error, on the way to more.
pub open spec fn next_row(r: Result<Seq<Datum>, Fault>) -> bool {
    true
}

/// Whether the first `n` batches can be projected to a result: as
/// [`projected_each`] says, with numbers of its own for every batch in place of
/// the calls of RANDOM.
pub open spec fn can_project_each(
    o: spec_fn(Question) -> Answer,
    cs: Seq<Chunk>,
    exprs: Seq<Expr>,
    names: Seq<Seq<char>>,
    n: nat,
    r: Result<Seq<Chunk>, Fault>,
) -> bool
    decreases n,
{
    if n == 0 {
        r == Ok::<Seq<Chunk>, Fault>(Seq::empty())
    } else {
        exists|done: Result<Seq<Chunk>, Fault>| #[trigger]
            so_far(done) && can_project_each(o, cs, exprs, names, (n - 1) as nat, done)
                && match done {
                Err(_) => r == done,
                Ok(done) => exists|ps: Seq<Expr>| #[trigger]
                    all_drawn(exprs, ps) && r == match projected(o, cs[n - 1], ps, names) {
                        Err(x) => Err(x),
                        Ok(c) => Ok(done.push(c)),
                    },
            }
    }
}

/// Whether expressions can have values on a row: as [`projected_row`] says,
/// with numbers in place of the calls of RANDOM.
pub open spec fn can_project_row(
    o: spec_fn(Question) -> Answer,
    row: Seq<Datum>,
    exprs: Seq<Expr>,
    names: Seq<Seq<char>>,
    given: Seq<Query>,
    r: Result<Seq<Datum>, Fault>,
) -> bool {
    exists|ps: Seq<Expr>| #[trigger]
        all_drawn(resolved_list(given, exprs), ps) && r == match projected(
            o,
            row_chunk(row),
            ps,
            names,
        ) {
            Err(x) => Err(x),
            Ok(c) => Ok(row_of(c, 0)),
        }
}

/// The rows so far, and one more.
pub open spec fn and_row(done: Seq<Seq<Datum>>, row: Result<Seq<Datum>, Fault>) -> Result<
    Seq<Seq<Datum>>,
    Fault,
> {
    match row {
        Err(x) => Err(x),
        Ok(row) => Ok(done.push(row)),
    }
}

/// Whether expressions can have values on the first `n` rows: as
/// [`projected_rows`] says, with numbers of its own for every row in place of
/// the calls of RANDOM.
pub open spec fn can_project_rows(
    o: spec_fn(Question) -> Answer,
    rows: Seq<Seq<Datum>>,
    base: nat,
    exprs: Seq<Expr>,
    names: Seq<Seq<char>>,
    given: Seq<Seq<Query>>,
    n: nat,
    r: Result<Seq<Seq<Datum>>, Fault>,
) -> bool
    decreases n,
{
    if n == 0 {
        r == Ok::<Seq<Seq<Datum>>, Fault>(Seq::empty())
    } else {
        exists|done: Result<Seq<Seq<Datum>>, Fault>| #[trigger]
            rows_so_far(done) && can_project_rows(
                o,
                rows,
                base,
                exprs,
                names,
                given,
                (n - 1) as nat,
                done,
            ) && match done {
                Err(_) => r == done,
                Ok(done) => exists|row: Result<Seq<Datum>, Fault>| #[trigger]
                    next_row(row) && can_project_row(
                        o,
                        rows[n - 1],
                        exprs,
                        names,
                        given_at(given, (base + n - 1) as nat),
                        row,
                    ) && r == and_row(done, row),
            }
    }
}

/// The batches so far, and one more of rows of a width.
pub open spec fn and_cut(
    done: Seq<Chunk>,
    rows: Result<Seq<Seq<Datum>>, Fault>,
    width: nat,
) -> Result<Seq<Chunk>, Fault> {
    match rows {
        Err(x) => Err(x),
        Ok(rows) => Ok(done.push(cut_chunk(rows, width))),
    }
}

/// Whether the first `n` batches can be projected row by row to a result: as
/// [`correlated`] says, with numbers of its own for every row in place of the
/// calls of RANDOM.
pub open spec fn can_correlate(
    o: spec_fn(Question) -> Answer,
    cs: Seq<Chunk>,
    exprs: Seq<Expr>,
    names: Seq<Seq<char>>,
    given: Seq<Seq<Query>>,
    n: nat,
    r: Result<Seq<Chunk>, Fault>,
) -> bool
    decreases n,
{
    if n == 0 {
        r == Ok::<Seq<Chunk>, Fault>(Seq::empty())
    } else {
        exists|done: Result<Seq<Chunk>, Fault>| #[trigger]
            so_far(done) && can_correlate(o, cs, exprs, names, given, (n - 1) as nat, done)
                && match done {
                Err(_) => r == done,
                Ok(done) => exists|rows: Result<Seq<Seq<Datum>>, Fault>| #[trigger]
                    rows_so_far(rows) && can_project_rows(
                        o,
                        rows_of(cs[n - 1]),
                        rows_before(cs, (n - 1) as nat),
                        exprs,
                        names,
                        given,
                        cs[n - 1].count,
                        rows,
                    ) && r == and_cut(done, rows, exprs.len()),
            }
    }
}

/// An error that the first batches can give, all can give.
proof fn lemma_can_each_fail(
    o: spec_fn(Question) -> Answer,
    cs: Seq<Chunk>,
    exprs: Seq<Expr>,
    names: Seq<Seq<char>>,
    k: nat,
    n: nat,
    x: Fault,
)
    requires
        k <= n,
        can_project_each(o, cs, exprs, names, k, Err(x)),
    ensures
        can_project_each(o, cs, exprs, names, n, Err(x)),
    decreases n - k,
{
    if k < n {
        lemma_can_each_fail(o, cs, exprs, names, k, (n - 1) as nat, x);
        assert(so_far(Err(x)));
    }
}

/// An error that the first rows can give, all can give.
proof fn lemma_can_rows_fail(
    o: spec_fn(Question) -> Answer,
    rows: Seq<Seq<Datum>>,
    base: nat,
    exprs: Seq<Expr>,
    names: Seq<Seq<char>>,
    given: Seq<Seq<Query>>,
    k: nat,
    n: nat,
    x: Fault,
)
    requires
        k <= n,
        can_project_rows(o, rows, base, exprs, names, given, k, Err(x)),
    ensures
        can_project_rows(o, rows, base, exprs, names, given, n, Err(x)),
    decreases n - k,
{
    if k < n {
        lemma_can_rows_fail(o, rows, base, exprs, names, given, k, (n - 1) as nat, x);
        assert(rows_so_far(Err(x)));
    }
}

/// An error that the first batches can give row by row, all can give.
proof fn lemma_can_correlate_fail(
    o: spec_fn(Question) -> Answer,
    cs: Seq<Chunk>,
    exprs: Seq<Expr>,
    names: Seq<Seq<char>>,
    given: Seq<Seq<Query>>,
    k: nat,
    n: nat,
    x: Fault,
)
    requires
        k <= n,
        can_correlate(o, cs, exprs, names, given, k, Err(x)),
    ensures
        can_correlate(o, cs, exprs, names, given, n, Err(x)),
    decreases n - k,
{
    if k < n {
        lemma_can_correlate_fail(o, cs, exprs, names, given, k, (n - 1) as nat, x);
        assert(so_far(Err(x)));
    }
}

/// One more row.
proof fn lemma_next_row(
    o: spec_fn(Question) -> Answer,
    rows: Seq<Seq<Datum>>,
    base: nat,
    exprs: Seq<Expr>,
    names: Seq<Seq<char>>,
    given: Seq<Seq<Query>>,
    n: nat,
    done: Seq<Seq<Datum>>,
    row: Result<Seq<Datum>, Fault>,
)
    requires
        n > 0,
        can_project_rows(o, rows, base, exprs, names, given, (n - 1) as nat, Ok(done)),
        can_project_row(
            o,
            rows[n - 1],
            exprs,
            names,
            given_at(given, (base + n - 1) as nat),
            row,
        ),
    ensures
        can_project_rows(o, rows, base, exprs, names, given, n, and_row(done, row)),
{
    let before = Ok::<Seq<Seq<Datum>>, Fault>(done);
    assert(rows_so_far(before) && next_row(row));
}

/// One more batch.
proof fn lemma_next_batch(
    o: spec_fn(Question) -> Answer,
    cs: Seq<Chunk>,
    exprs: Seq<Expr>,
    names: Seq<Seq<char>>,
    given: Seq<Seq<Query>>,
    n: nat,
    done: Seq<Chunk>,
    rows: Result<Seq<Seq<Datum>>, Fault>,
)
    requires
        n > 0,
        can_correlate(o, cs, exprs, names, given, (n - 1) as nat, Ok(done)),
        can_project_rows(
            o,
            rows_of(cs[n - 1]),
            rows_before(cs, (n - 1) as nat),
            exprs,
            names,
            given,
            cs[n - 1].count,
            rows,
        ),
    ensures
        can_correlate(o, cs, exprs, names, given, n, and_cut(done, rows, exprs.len())),
{
    let before = Ok::<Seq<Chunk>, Fault>(done);
    assert(so_far(before) && rows_so_far(rows));
}

/// Projects batches, also those that have no row.
fn project_each<E: Fn(Ask) -> Reply>(
    input: &Vec<DataChunk>,
    expressions: &Vec<Expression>,
    input_columns: &Vec<String>,
    env: &E,
) -> (r: Result<Vec<DataChunk>, EngramDbError>)
    requires
        answers(*env),
        chunks_wf(input@),
        all_aligned(input.deep_view()),
    ensures
        sound_chunks(r),
        all_calm(expressions.deep_view()) ==> gives_chunks(
            r,
            projected_each(
                oracle(*env),
                input.deep_view(),
                expressions.deep_view(),
                input_columns.deep_view(),
                input.deep_view().len(),
            ),
        ),
        can_project_each(
            oracle(*env),
            input.deep_view(),
            expressions.deep_view(),
            input_columns.deep_view(),
            input.deep_view().len(),
            told_chunks(r),
        ),
{
    let ghost all = input.deep_view();
    let ghost es = expressions.deep_view();
    let ghost names = input_columns.deep_view();
    let ghost o = oracle(*env);
    let mut out: Vec<DataChunk> = Vec::new();
    let mut i: usize = 0;
    assert(out.deep_view() =~= Seq::<Chunk>::empty());
    while i < input.len()
        invariant
            answers(*env),
            o == oracle(*env),
            chunks_wf(input@),
            all == input.deep_view(),
            all_aligned(all),
            es == expressions.deep_view(),
            names == input_columns.deep_view(),
            i <= input.len(),
            chunks_wf(out@),
            all_aligned(out.deep_view()),
            all_calm(es) ==> projected_each(o, all, es, names, i as nat) == Ok::<Seq<Chunk>, Fault>(
                out.deep_view(),
            ),
            can_project_each(o, all, es, names, i as nat, Ok(out.deep_view())),
        decreases input.len() - i,
    {
        assert(input[i as int].wf());
        assert(all[i as int] == input[i as int].deep_view());
        assert(so_far(Ok(out.deep_view())));
        match project_chunk(&input[i], expressions, input_columns, env) {
            Ok(c) => {
                let ghost before = out.deep_view();
                out.push(c);
                assert(out.deep_view() =~= before.push(c.deep_view()));
            },
            Err(x) => {
                proof {
                    if all_calm(es) {
                        lemma_each_fails(o, all, es, names, (i + 1) as nat, all.len());
                    }
                    lemma_can_each_fail(
                        o,
                        all,
                        es,
                        names,
                        (i + 1) as nat,
                        all.len(),
                        x.deep_view(),
                    );
                }
                return Err(x);
            },
        }
        i += 1;
    }
    Ok(out)
}

/// The values of expressions on one row.
fn project_row<E: Fn(Ask) -> Reply>(
    row: &Vec<Value>,
    expressions: &Vec<Expression>,
    input_columns: &Vec<String>,
    given: &Vec<QueryResult>,
    env: &E,
) -> (r: Result<Vec<Value>, EngramDbError>)
    requires
        answers(*env),
    ensures
        all_calm(expressions.deep_view()) ==> gives_row(
            r,
            projected_row(
                oracle(*env),
                row.deep_view(),
                expressions.deep_view(),
                input_columns.deep_view(),
                given.deep_view(),
            ),
        ),
        can_project_row(
            oracle(*env),
            row.deep_view(),
            expressions.deep_view(),
            input_columns.deep_view(),
            given.deep_view(),
            told_row(r),
        ),
{
    let one = one_row(row);
    let resolved = resolve_list(expressions, given);
    let ghost es = expressions.deep_view();
    proof {
        assert(resolved.deep_view() =~= resolved_list(given.deep_view(), es));
        if all_calm(es) {
            assert forall|i: int| #![trigger resolved.deep_view()[i]]
                0 <= i < resolved.deep_view().len() implies calm(resolved.deep_view()[i]) by {
                assert(calm(es[i]));
                lemma_resolved_calm(given.deep_view(), es[i]);
            }
        }
    }
    match project_chunk(&one, &resolved, input_columns, env) {
        Err(e) => Err(e),
        Ok(c) => Ok(c.row(0)),
    }
}

/// The model of a row, or of the error.
pub open spec fn told_row(r: Result<Vec<Value>, EngramDbError>) -> Result<Seq<Datum>, Fault> {
    match r {
        Ok(v) => Ok(v.deep_view()),
        Err(e) => Err(e.deep_view()),
    }
}

/// The model of rows, or of the error.
pub open spec fn told_rows(r: Result<Vec<Vec<Value>>, EngramDbError>) -> Result<
    Seq<Seq<Datum>>,
    Fault,
> {
    match r {
        Ok(v) => Ok(v.deep_view()),
        Err(e) => Err(e.deep_view()),
    }
}

/// Whether a row, or the error, is what the model says.
pub open spec fn gives_row(
    r: Result<Vec<Value>, EngramDbError>,
    m: Result<Seq<Datum>, Fault>,
) -> bool {
    match (r, m) {
        (Ok(v), Ok(x)) => v.deep_view() == x,
        (Err(e), Err(f)) => e.deep_view() == f,
        _ => false,
    }
}

/// Projects one batch row by row.
fn project_rows<E: Fn(Ask) -> Reply>(
    chunk: &DataChunk,
    base: usize,
    Ghost(first): Ghost<nat>,
    expressions: &Vec<Expression>,
    input_columns: &Vec<String>,
    given: &Vec<Vec<QueryResult>>,
    env: &E,
) -> (r: Result<Vec<Vec<Value>>, EngramDbError>)
    requires
        answers(*env),
        chunk.wf(),
        aligned(chunk.deep_view()),
        base as nat == first || base == usize::MAX && first > usize::MAX,
    ensures
        r matches Ok(v) ==> v.len() == chunk.count,
        all_calm(expressions.deep_view()) ==> gives_rows(
            r,
            projected_rows(
                oracle(*env),
                rows_of(chunk.deep_view()),
                first,
                expressions.deep_view(),
                input_columns.deep_view(),
                given.deep_view(),
                chunk.count as nat,
            ),
        ),
        can_project_rows(
            oracle(*env),
            rows_of(chunk.deep_view()),
            first,
            expressions.deep_view(),
            input_columns.deep_view(),
            given.deep_view(),
            chunk.count as nat,
            told_rows(r),
        ),
{
    let ghost rows = rows_of(chunk.deep_view());
    let ghost es = expressions.deep_view();
    let ghost names = input_columns.deep_view();
    let ghost g = given.deep_view();
    let ghost o = oracle(*env);
    let nothing: Vec<QueryResult> = Vec::new();
    assert(nothing.deep_view() =~= Seq::empty());
    let mut out: Vec<Vec<Value>> = Vec::new();
    let mut i: usize = 0;
    assert(out.deep_view() =~= Seq::empty());
    while i < chunk.count
        invariant
            answers(*env),
            o == oracle(*env),
            chunk.wf(),
            aligned(chunk.deep_view()),
            rows == rows_of(chunk.deep_view()),
            es == expressions.deep_view(),
            names == input_columns.deep_view(),
            g == given.deep_view(),
            nothing.deep_view() == Seq::<Query>::empty(),
            base as nat == first || base == usize::MAX && first > usize::MAX,
            i <= chunk.count,
            out.len() == i,
            all_calm(es) ==> projected_rows(o, rows, first, es, names, g, i as nat) == Ok::<
                Seq<Seq<Datum>>,
                Fault,
            >(out.deep_view()),
            can_project_rows(o, rows, first, es, names, g, i as nat, Ok(out.deep_view())),
        decreases chunk.count - i,
    {
        let row = chunk.row(i);
        assert(rows[i as int] == row.deep_view());
        let k: usize = if base <= usize::MAX - i {
            base + i
        } else {
            usize::MAX
        };
        let now: &Vec<QueryResult> = if k < given.len() {
            assert(g[k as int] == given[k as int].deep_view());
            &given[k]
        } else {
            &nothing
        };
        assert(now.deep_view() == given_at(g, (first + i) as nat));
        let made = project_row(&row, expressions, input_columns, now, env);
        proof {
            lemma_next_row(
                o,
                rows,
                first,
                es,
                names,
                g,
                (i + 1) as nat,
                out.deep_view(),
                told_row(made),
            );
        }
        match made {
            Ok(v) => {
                let ghost before = out.deep_view();
                out.push(v);
                assert(out.deep_view() =~= before.push(v.deep_view()));
            },
            Err(e) => {
                proof {
                    if all_calm(es) {
                        lemma_rows_fail(
                            o,
                            rows,
                            first,
                            es,
                            names,
                            g,
                            (i + 1) as nat,
                            chunk.count as nat,
                        );
                    }
                    lemma_can_rows_fail(
                        o,
                        rows,
                        first,
                        es,
                        names,
                        g,
                        (i + 1) as nat,
                        chunk.count as nat,
                        e.deep_view(),
                    );
                }
                return Err(e);
            },
        }
        i += 1;
    }
    Ok(out)
}

/// Whether rows, or the error, are what the model says.
pub open spec fn gives_rows(
    r: Result<Vec<Vec<Value>>, EngramDbError>,
    m: Result<Seq<Seq<Datum>>, Fault>,
) -> bool {
    match (r, m) {
        (Ok(v), Ok(x)) => v.deep_view() == x,
        (Err(e), Err(f)) => e.deep_view() == f,
        _ => false,
    }
}

/// Projects batches by expressions whose subqueries can depend on the row.
/// `given` holds for every row, by its number, what the subqueries gave. Without
/// a subquery, or without a row, whole batches are projected.
pub fn execute_with_db<E: Fn(Ask) -> Reply>(
    input: &Vec<DataChunk>,
    expressions: &Vec<Expression>,
    input_columns: &Vec<String>,
    given: &Vec<Vec<QueryResult>>,
    env: &E,
) -> (r: Result<Vec<DataChunk>, EngramDbError>)
    requires
        answers(*env),
        chunks_wf(input@),
        all_aligned(input.deep_view()),
    ensures
        sound_chunks(r),
        all_calm(expressions.deep_view()) ==> gives_chunks(
            r,
            if row_by_row(input.deep_view(), expressions.deep_view()) {
                correlated(
                    oracle(*env),
                    input.deep_view(),
                    expressions.deep_view(),
                    input_columns.deep_view(),
                    given.deep_view(),
                    input.deep_view().len(),
                )
            } else {
                projected_each(
                    oracle(*env),
                    input.deep_view(),
                    expressions.deep_view(),
                    input_columns.deep_view(),
                    input.deep_view().len(),
                )
            },
        ),
        if row_by_row(input.deep_view(), expressions.deep_view()) {
            can_correlate(
                oracle(*env),
                input.deep_view(),
                expressions.deep_view(),
                input_columns.deep_view(),
                given.deep_view(),
                input.deep_view().len(),
                told_chunks(r),
            )
        } else {
            can_project_each(
                oracle(*env),
                input.deep_view(),
                expressions.deep_view(),
                input_columns.deep_view(),
                input.deep_view().len(),
                told_chunks(r),
            )
        },
{
    let ghost all = input.deep_view();
    let ghost es = expressions.deep_view();
    let ghost names = input_columns.deep_view();
    let ghost g = given.deep_view();
    let ghost o = oracle(*env);
    if !has_rows(input) || !any_subquery(expressions) {
        return project_each(input, expressions, input_columns, env);
    }
    let mut out: Vec<DataChunk> = Vec::new();
    let mut base: usize = 0;
    let mut i: usize = 0;
    assert(out.deep_view() =~= Seq::<Chunk>::empty());
    while i < input.len()
        invariant
            answers(*env),
            o == oracle(*env),
            chunks_wf(input@),
            all == input.deep_view(),
            all_aligned(all),
            es == expressions.deep_view(),
            names == input_columns.deep_view(),
            g == given.deep_view(),
            row_by_row(all, es),
            i <= input.len(),
            chunks_wf(out@),
            all_aligned(out.deep_view()),
            base as nat == rows_before(all, i as nat) || base == usize::MAX && rows_before(
                all,
                i as nat,
            ) > usize::MAX,
            all_calm(es) ==> correlated(o, all, es, names, g, i as nat) == Ok::<
                Seq<Chunk>,
                Fault,
            >(out.deep_view()),
            can_correlate(o, all, es, names, g, i as nat, Ok(out.deep_view())),
        decreases input.len() - i,
    {
        assert(input[i as int].wf());
        assert(all[i as int] == input[i as int].deep_view());
        let chunk = &input[i];
        let made = project_rows(
            chunk,
            base,
            Ghost(rows_before(all, i as nat)),
            expressions,
            input_columns,
            given,
            env,
        );
        proof {
            lemma_next_batch(
                o,
                all,
                es,
                names,
                g,
                (i + 1) as nat,
                out.deep_view(),
                told_rows(made),
            );
        }
        match made {
            Ok(rows) => {
                let c = cut_rows(&rows, 0, rows.len(), expressions.len());
                assert(rows.deep_view().subrange(0, rows.len() as int) =~= rows.deep_view());
                let ghost before = out.deep_view();
                out.push(c);
                assert(out.deep_view() =~= before.push(c.deep_view()));
            },
            Err(x) => {
                proof {
                    if all_calm(es) {
                        lemma_correlated_fails(o, all, es, names, g, (i + 1) as nat, all.len());
                    }
                    lemma_can_correlate_fail(
                        o,
                        all,
                        es,
                        names,
                        g,
                        (i + 1) as nat,
                        all.len(),
                        x.deep_view(),
                    );
                }
                return Err(x);
            },
        }
        base = if base <= usize::MAX - chunk.count {
            base + chunk.count
        } else {
            usize::MAX
        };
        i += 1;
    }
    Ok(out)
}

/// Whether a batch has a row.
fn has_rows(input: &Vec<DataChunk>) -> (r: bool)
    ensures
        r == exists|k: int|
            0 <= k < input.deep_view().len() && (#[trigger] input.deep_view()[k]).count > 0,
{
    let ghost all = input.deep_view();
    let mut i: usize = 0;
    while i < input.len()
        invariant
            all == input.deep_view(),
            i <= input.len(),
            forall|k: int| 0 <= k < i ==> (#[trigger] all[k]).count == 0,
        decreases input.len() - i,
    {
        assert(all[i as int] == input[i as int].deep_view());
        if input[i].count > 0 {
            return true;
        }
        i += 1;
    }
    false
}

} // verus!
