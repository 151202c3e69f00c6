//! The result of a statement.
use vstd::prelude::*;

use crate::value::Datum;
use crate::Value;

verus! {

/// Named columns of rows, and how many rows a statement changed.
#[derive(Debug)]
pub struct QueryResult {
    pub columns: Vec<String>,
    pub rows: Vec<Vec<Value>>,
    pub rows_affected: u64,
}

/// The model of a [`QueryResult`].
#[verifier::ext_equal]
pub struct Query {
    pub columns: Seq<Seq<char>>,
    pub rows: Seq<Seq<Datum>>,
    pub rows_affected: u64,
}

impl DeepView for QueryResult {
    type V = Query;

    open spec fn deep_view(&self) -> Query {
        Query {
            columns: self.columns.deep_view(),
            rows: self.rows.deep_view(),
            rows_affected: self.rows_affected,
        }
    }
}

/// A result of one column and one row.
pub open spec fn single(column: Seq<char>, d: Datum, rows_affected: u64) -> Query {
    Query { columns: seq![column], rows: seq![seq![d]], rows_affected }
}

/// A result that only says what was done.
pub open spec fn status(text: Seq<char>) -> Query {
    single("status"@, Datum::Varchar(text), 0)
}

/// Rows under their column names.
pub open spec fn listed(columns: Seq<Seq<char>>, rows: Seq<Seq<Datum>>) -> Query {
    Query { columns, rows, rows_affected: 0 }
}

/// A result of one column and one row.
pub fn one_value(column: &str, v: Value, rows_affected: u64) -> (r: QueryResult)
    ensures
        r.deep_view() == single(column@, v.deep_view(), rows_affected),
{
    let ghost d = v.deep_view();
    let mut columns: Vec<String> = Vec::new();
    columns.push(column.to_owned());
    assert(columns.deep_view() =~= seq![column@]);
    let mut row: Vec<Value> = Vec::new();
    row.push(v);
    assert(row.deep_view() =~= seq![d]);
    let mut rows: Vec<Vec<Value>> = Vec::new();
    rows.push(row);
    assert(rows.deep_view() =~= seq![seq![d]]);
    QueryResult { columns, rows, rows_affected }
}

/// A result that only says what was done.
pub fn status_result(text: String) -> (r: QueryResult)
    ensures
        r.deep_view() == status(text@),
{
    one_value("status", Value::Varchar(text), 0)
}

} // verus!
