//! What a projection of many batches has in each of its rows.
use vstd::prelude::*;

use crate::common::error::Fault;
use crate::executor::env::{Answer, Question};
use crate::executor::expression::operator_laws::cell;
use crate::executor::operators::delete::row_chunk;
use crate::executor::operators::hash_join::cell_of;
use crate::executor::operators::projection::{
    correlated, projected, projected_each, projected_row, projected_rows, resolved_list,
    rows_before,
};
use crate::executor::operators::write_laws::{law_projection, on_row};
use crate::executor::subquery::resolved_expr;
use crate::executor::vector::{row_of, rows_of, rows_of_all, Chunk};
use crate::query::Query;
use crate::sql::ast::Expr;
use crate::value::Datum;

verus! {

/// Projecting many batches projects each of them, in their order.
pub proof fn law_projected_each(
    o: spec_fn(Question) -> Answer,
    cs: Seq<Chunk>,
    es: Seq<Expr>,
    names: Seq<Seq<char>>,
    n: nat,
    k: int,
)
    requires
        0 <= k < n <= cs.len(),
        forall|j: int| 0 <= j < n ==> projected(o, #[trigger] cs[j], es, names) is Ok,
    ensures
        projected_each(o, cs, es, names, n) matches Ok(out) && out.len() == n && projected(
            o,
            cs[k],
            es,
            names,
        ) == Ok::<Chunk, Fault>(out[k]),
    decreases n,
{
    let m = (n - 1) as nat;
    if k < m {
        law_projected_each(o, cs, es, names, m, k);
    } else if m > 0 {
        law_projected_each(o, cs, es, names, m, 0);
    }
    assert(projected(o, cs[m as int], es, names) is Ok);
}

/// The rows of the batches before one are as many as its first row's number.
pub proof fn law_rows_before(cs: Seq<Chunk>, n: nat)
    requires
        n <= cs.len(),
    ensures
        rows_before(cs, n) == rows_of_all(cs.subrange(0, n as int)).len(),
    decreases n,
{
    if n > 0 {
        law_rows_before(cs, (n - 1) as nat);
        let front = cs.subrange(0, n as int);
        assert(front.drop_last() =~= cs.subrange(0, n - 1));
    }
}

/// Whether all expressions are known on a row, with what the subqueries gave
/// before it.
pub open spec fn known_on(
    o: spec_fn(Question) -> Answer,
    row: Seq<Datum>,
    es: Seq<Expr>,
    names: Seq<Seq<char>>,
    given: Seq<Query>,
) -> bool {
    forall|j: int|
        0 <= j < es.len() ==> on_row(o, resolved_expr(given, #[trigger] es[j]), row, names) is Some
}

/// Whether a row holds what the expressions are on another, with what the
/// subqueries gave before it.
pub open spec fn computed(
    o: spec_fn(Question) -> Answer,
    row: Seq<Datum>,
    es: Seq<Expr>,
    names: Seq<Seq<char>>,
    given: Seq<Query>,
    r: Seq<Datum>,
) -> bool {
    &&& r.len() == es.len()
    &&& forall|j: int|
        0 <= j < es.len() ==> on_row(o, resolved_expr(given, #[trigger] es[j]), row, names) == Some(
            r[j],
        )
}

proof fn lemma_row(
    o: spec_fn(Question) -> Answer,
    row: Seq<Datum>,
    es: Seq<Expr>,
    names: Seq<Seq<char>>,
    given: Seq<Query>,
)
    requires
        known_on(o, row, es, names, given),
    ensures
        projected_row(o, row, es, names, given) matches Ok(r) && computed(
            o,
            row,
            es,
            names,
            given,
            r,
        ),
{
    let c = row_chunk(row);
    let list = resolved_list(given, es);
    assert forall|j: int| 0 <= j < list.len() implies cell(o, #[trigger] list[j], c, names, 0)
        is Some by {
        assert(list[j] == resolved_expr(given, es[j]));
        assert(on_row(o, resolved_expr(given, es[j]), row, names) is Some);
    }
    law_projection(o, c, list, names, 0);
    let r = row_of(projected(o, c, list, names)->Ok_0, 0);
    assert forall|j: int| 0 <= j < es.len() implies on_row(
        o,
        resolved_expr(given, #[trigger] es[j]),
        row,
        names,
    ) == Some(r[j]) by {
        assert(cell(o, list[j], c, names, 0) == Some(r[j]));
    }
}

/// The answers of the subqueries before a row of a number, of which there may
/// be none.
pub open spec fn answers_at(given: Seq<Seq<Query>>, k: int) -> Seq<Query> {
    if 0 <= k < given.len() {
        given[k]
    } else {
        Seq::empty()
    }
}

proof fn lemma_rows(
    o: spec_fn(Question) -> Answer,
    rows: Seq<Seq<Datum>>,
    base: nat,
    es: Seq<Expr>,
    names: Seq<Seq<char>>,
    given: Seq<Seq<Query>>,
    n: nat,
)
    requires
        n <= rows.len(),
        forall|i: int|
            0 <= i < n ==> known_on(
                o,
                #[trigger] rows[i],
                es,
                names,
                answers_at(given, base + i),
            ),
    ensures
        projected_rows(o, rows, base, es, names, given, n) matches Ok(out) && out.len() == n
            && forall|i: int|
            0 <= i < n ==> computed(
                o,
                rows[i],
                es,
                names,
                answers_at(given, base + i),
                #[trigger] out[i],
            ),
    decreases n,
{
    if n > 0 {
        lemma_rows(o, rows, base, es, names, given, (n - 1) as nat);
        assert(known_on(o, rows[n - 1], es, names, answers_at(given, base + n - 1)));
        lemma_row(o, rows[n - 1], es, names, answers_at(given, base + n - 1));
    }
}

/// Whether all expressions are known on all rows of a batch.
pub open spec fn known_in(
    o: spec_fn(Question) -> Answer,
    c: Chunk,
    base: int,
    es: Seq<Expr>,
    names: Seq<Seq<char>>,
    given: Seq<Seq<Query>>,
) -> bool {
    forall|i: int|
        0 <= i < c.count ==> known_on(
            o,
            #[trigger] row_of(c, i),
            es,
            names,
            answers_at(given, base + i),
        )
}

/// A projection with subqueries reads row by row: each row holds what the
/// expressions are there with the answers that the subqueries gave before it,
/// by its number among the rows of all batches.
pub proof fn law_correlated(
    o: spec_fn(Question) -> Answer,
    cs: Seq<Chunk>,
    es: Seq<Expr>,
    names: Seq<Seq<char>>,
    given: Seq<Seq<Query>>,
    n: nat,
    k: int,
    i: int,
)
    requires
        0 <= k < n <= cs.len(),
        0 <= i < cs[k].count,
        forall|j: int|
            0 <= j < n ==> known_in(
                o,
                #[trigger] cs[j],
                rows_of_all(cs.subrange(0, j)).len() as int,
                es,
                names,
                given,
            ),
    ensures
        correlated(o, cs, es, names, given, n) matches Ok(out) && {
            &&& out.len() == n
            &&& out[k].count == cs[k].count
            &&& computed(
                o,
                row_of(cs[k], i),
                es,
                names,
                answers_at(given, rows_of_all(cs.subrange(0, k)).len() + i),
                row_of(out[k], i),
            )
        },
{
    lemma_correlated(o, cs, es, names, given, n);
    let out = correlated(o, cs, es, names, given, n)->Ok_0;
    assert(made_of(o, cs, k, es, names, given, out[k]));
    assert(computed(
        o,
        row_of(cs[k], i),
        es,
        names,
        answers_at(given, rows_of_all(cs.subrange(0, k)).len() + i),
        row_of(out[k], i),
    ));
}

spec fn made_of(
    o: spec_fn(Question) -> Answer,
    cs: Seq<Chunk>,
    k: int,
    es: Seq<Expr>,
    names: Seq<Seq<char>>,
    given: Seq<Seq<Query>>,
    p: Chunk,
) -> bool {
    &&& p.count == cs[k].count
    &&& forall|i: int|
        0 <= i < p.count ==> computed(
            o,
            row_of(cs[k], i),
            es,
            names,
            answers_at(given, rows_of_all(cs.subrange(0, k)).len() + i),
            #[trigger] row_of(p, i),
        )
}

proof fn lemma_correlated(
    o: spec_fn(Question) -> Answer,
    cs: Seq<Chunk>,
    es: Seq<Expr>,
    names: Seq<Seq<char>>,
    given: Seq<Seq<Query>>,
    n: nat,
)
    requires
        n <= cs.len(),
        forall|j: int|
            0 <= j < n ==> known_in(
                o,
                #[trigger] cs[j],
                rows_of_all(cs.subrange(0, j)).len() as int,
                es,
                names,
                given,
            ),
    ensures
        correlated(o, cs, es, names, given, n) matches Ok(out) && out.len() == n && forall|k: int|
            0 <= k < n ==> made_of(o, cs, k, es, names, given, #[trigger] out[k]),
    decreases n,
{
    if n > 0 {
        let m = (n - 1) as nat;
        lemma_correlated(o, cs, es, names, given, m);
        law_rows_before(cs, m);
        let base = rows_before(cs, m);
        let rows = rows_of(cs[m as int]);
        assert(known_in(o, cs[m as int], base as int, es, names, given));
        assert forall|i: int| 0 <= i < rows.len() implies known_on(
            o,
            #[trigger] rows[i],
            es,
            names,
            answers_at(given, base + i),
        ) by {
            assert(rows[i] == row_of(cs[m as int], i));
        }
        lemma_rows(o, rows, base, es, names, given, rows.len());
        let made = projected_rows(o, rows, base, es, names, given, rows.len())->Ok_0;
        let out = correlated(o, cs, es, names, given, n)->Ok_0;
        let p = out[m as int];
        assert forall|i: int| 0 <= i < p.count implies computed(
            o,
            row_of(cs[m as int], i),
            es,
            names,
            answers_at(given, base + i),
            #[trigger] row_of(p, i),
        ) by {
            assert(computed(
                o,
                rows[i],
                es,
                names,
                answers_at(given, base + i),
                made[i],
            ));
            assert(row_of(p, i) =~= made[i]) by {
                assert forall|j: int| 0 <= j < es.len() implies row_of(p, i)[j] == made[i][j] by {
                    assert(row_of(p, i)[j] == cell_of(made[i], j));
                }
            }
        }
        assert(made_of(o, cs, m as int, es, names, given, p));
    }
}

} // verus!
