//! Which rows a selection holds, what is read through it, and which filters can
//! be read as a comparison.
use vstd::prelude::*;

use crate::executor::expression::eval::name_at;
use crate::executor::operators::table_scan::filter_info;
use crate::executor::vector::{
    col_at, col_len, kept, row_of, rows_of, select_chunk, select_column, Chunk,
};
use crate::sql::ast::{BinaryOperator, Expr};
use crate::value::Datum;

verus! {

/// Whether `r` holds the marked elements of `s` and no others, in their order:
/// `p` gives the place in `s` of each.
pub open spec fn picks(s: Seq<usize>, keep: Seq<bool>, r: Seq<usize>, p: Seq<int>) -> bool {
    &&& p.len() == r.len()
    &&& forall|k: int|
        0 <= k < p.len() ==> 0 <= #[trigger] p[k] < s.len() && keep[p[k]] && r[k] == s[p[k]]
    &&& forall|j: int, k: int| 0 <= j < k < p.len() ==> #[trigger] p[j] < #[trigger] p[k]
    &&& forall|i: int| 0 <= i < s.len() && #[trigger] keep[i] ==> p.contains(i)
}

/// Filtering keeps the rows that pass, each once and in order, and drops the
/// others.
pub proof fn law_filter_keeps(s: Seq<usize>, keep: Seq<bool>) -> (p: Seq<int>)
    requires
        keep.len() == s.len(),
    ensures
        picks(s, keep, kept(s, keep), p),
{
    lemma_picks(s, keep)
}

proof fn lemma_picks(s: Seq<usize>, keep: Seq<bool>) -> (p: Seq<int>)
    requires
        keep.len() >= s.len(),
    ensures
        picks(s, keep, kept(s, keep), p),
    decreases s.len(),
{
    if s.len() == 0 {
        Seq::empty()
    } else {
        let front = s.drop_last();
        let p = lemma_picks(front, keep);
        let last = s.len() - 1;
        if keep[last] {
            let q = p.push(last);
            assert forall|i: int| 0 <= i < s.len() && #[trigger] keep[i] implies q.contains(i) by {
                if i < last {
                    let k = choose|k: int| 0 <= k < p.len() && p[k] == i;
                    assert(q[k] == i);
                } else {
                    assert(q[p.len() as int] == i);
                }
            }
            q
        } else {
            p
        }
    }
}

/// Reading row `i` through a selection reads the row whose place stands there,
/// in every column.
pub proof fn law_select(c: Chunk, sel: Seq<usize>, i: int, j: int)
    requires
        0 <= i < sel.len(),
        0 <= j < c.columns.len(),
    ensures
        select_chunk(c, sel).count == sel.len(),
        select_chunk(c, sel).columns.len() == c.columns.len(),
        col_len(select_chunk(c, sel).columns[j]) == sel.len(),
        col_at(select_chunk(c, sel).columns[j], i) == col_at(c.columns[j], sel[i] as int),
        rows_of(select_chunk(c, sel))[i] == row_of(c, sel[i] as int),
{
    assert(select_chunk(c, sel).columns[j] == select_column(c.columns[j], sel));
    assert(row_of(select_chunk(c, sel), i) =~= row_of(c, sel[i] as int)) by {
        assert forall|k: int| 0 <= k < c.columns.len() implies row_of(select_chunk(c, sel), i)[k]
            == row_of(c, sel[i] as int)[k] by {
            assert(select_chunk(c, sel).columns[k] == select_column(c.columns[k], sel));
        }
    }
}

/// A comparison of a column with a literal is read as the first column of that
/// name, the operator and the literal. Nothing else is read as one.
pub proof fn law_filter_info(
    table: Option<Seq<char>>,
    name: Seq<char>,
    op: BinaryOperator,
    d: Datum,
    e: Expr,
    names: Seq<Seq<char>>,
)
    requires
        e == Expr::Binary(
            Box::new(Expr::ColumnRef(table, name)),
            op,
            Box::new(Expr::Literal(d)),
        ),
    ensures
        match filter_info(e, names) {
            Some((i, p, v)) => {
                &&& 0 <= i < names.len() && names[i] == name
                &&& forall|j: int| 0 <= j < i ==> #[trigger] names[j] != name
                &&& p == op && v == d
            },
            None => !names.contains(name),
        },
{
    lemma_first_name(names, name, 0);
}

/// What is no comparison of a column with a literal is not read as one.
pub proof fn law_no_filter_info(e: Expr, names: Seq<Seq<char>>)
    ensures
        filter_info(e, names) is Some ==> (e matches Expr::Binary(l, op, r) && *l is ColumnRef && *r
            is Literal),
{
}

proof fn lemma_first_name(names: Seq<Seq<char>>, name: Seq<char>, i: int)
    requires
        0 <= i <= names.len(),
    ensures
        match name_at(names, name, i) {
            Some(k) => i <= k < names.len() && names[k] == name && forall|j: int|
                i <= j < k ==> #[trigger] names[j] != name,
            None => forall|j: int| i <= j < names.len() ==> #[trigger] names[j] != name,
        },
    decreases names.len() - i,
{
    if i < names.len() {
        lemma_first_name(names, name, i + 1);
    }
}

} // verus!
