//! The nodes of a physical plan.
use vstd::prelude::*;

use crate::common::types::{TableDef, TableModel};
use crate::float::F32;
use crate::sql::ast::{
    AlterTableStmt, Expr, Expression, OnConflictClause, PragmaStmt, SelectItem, WindowSpec,
};
use crate::Value;

verus! {

/// The aggregate functions.
#[derive(Debug, Clone, Copy, PartialEq, Eq, Structural)]
pub enum AggregateFunc {
    Count,
    Sum,
    Avg,
    Min,
    Max,
}

/// An aggregate: a function, the position of its input column, and whether
/// equal values count once.
#[derive(Debug, Clone, Copy, PartialEq, Eq, Structural)]
pub struct AggregateExpr {
    pub func: AggregateFunc,
    pub input: usize,
    pub distinct: bool,
}

/// The kinds of joins.
#[derive(Debug, Clone, Copy, PartialEq, Eq, Structural)]
pub enum JoinType {
    /// The pairs of rows that match.
    Inner,
    /// All left rows, with NULLs where none matches.
    Left,
    /// All right rows, with NULLs where none matches.
    Right,
    /// All rows of both sides, with NULLs where none matches.
    Full,
    /// The left rows that match.
    Semi,
    /// The left rows that match nothing.
    Anti,
}

/// The direction of a sort key.
#[derive(Debug, Clone, Copy, PartialEq, Eq, Structural)]
pub enum SortDirection {
    Asc,
    Desc,
}

/// A column to sort by.
#[derive(Debug, Clone, Copy, PartialEq, Eq, Structural)]
pub struct SortKey {
    pub column_index: usize,
    pub direction: SortDirection,
}

/// How the rows of two queries are put together.
#[derive(Debug, Clone, Copy, PartialEq, Eq, Structural)]
pub enum SetUnionOp {
    Union,
    UnionAll,
    Intersect,
    Except,
}

/// The functions over a window.
#[derive(Debug, Clone, Copy, PartialEq, Eq, Structural)]
pub enum WindowFuncType {
    RowNumber,
    Rank,
    DenseRank,
    Lag(usize),
    Lead(usize),
    FirstValue,
    LastValue,
    Count,
    Sum,
    Avg,
    Min,
    Max,
    NthValue(usize),
}

/// A function over a window, and the position of its input column.
#[derive(Debug)]
pub struct WindowFunctionExpr {
    pub func: WindowFuncType,
    pub input_column: Option<usize>,
    pub window_spec: WindowSpec,
    pub output_name: String,
}

/// A plan: what is to be done, and what is read for it.
#[allow(inconsistent_fields)]
#[derive(Debug)]
pub enum PhysicalPlan {
    TableScan { table_name: String, column_indices: Vec<usize> },
    /// The rows with a key, read from an index that holds all their columns.
    IndexOnlyScan {
        table_name: String,
        index_name: String,
        key_value: Value,
        output_column_indices: Vec<usize>,
        /// 0 for the key, and one more than its position for an included
        /// column.
        output_col_map: Vec<usize>,
    },
    /// The rows with a key, found through an index.
    IndexScan {
        table_name: String,
        index_name: String,
        key_value: Value,
        output_column_indices: Vec<usize>,
    },
    /// The rows with a key between two bounds, found through an index.
    IndexRangeScan {
        table_name: String,
        index_name: String,
        low: Option<Value>,
        low_inclusive: bool,
        high: Option<Value>,
        high_inclusive: bool,
        output_column_indices: Vec<usize>,
    },
    Filter { input: Box<PhysicalPlan>, condition: Expression },
    Projection {
        input: Box<PhysicalPlan>,
        expressions: Vec<Expression>,
        column_names: Vec<String>,
    },
    Aggregate {
        input: Box<PhysicalPlan>,
        group_by: Vec<usize>,
        aggregates: Vec<AggregateExpr>,
    },
    Insert {
        table_name: String,
        rows: Vec<Vec<Value>>,
        returning: Option<Vec<SelectItem>>,
        on_conflict: Option<OnConflictClause>,
    },
    /// The insertion of rows that are given as columns.
    InsertColumns { table_name: String, columns: Vec<Vec<Value>> },
    InsertSelect { table_name: String, columns: Option<Vec<String>>, source: Box<PhysicalPlan> },
    CreateTable { table_def: TableDef },
    CreateTableAs { table_def: TableDef, source: Box<PhysicalPlan> },
    CreateIndex {
        table_name: String,
        index_name: String,
        key_columns: Vec<usize>,
        included_columns: Vec<usize>,
        unique: bool,
        using: Option<String>,
        with_options: Vec<(String, String)>,
    },
    Delete { table_name: String, condition: Option<Expression> },
    Update {
        table_name: String,
        assignments: Vec<(usize, Expression)>,
        condition: Option<Expression>,
    },
    Sort { input: Box<PhysicalPlan>, sort_keys: Vec<SortKey>, limit: Option<usize> },
    HashJoin {
        left: Box<PhysicalPlan>,
        right: Box<PhysicalPlan>,
        join_type: JoinType,
        left_keys: Vec<usize>,
        right_keys: Vec<usize>,
    },
    CrossJoin { left: Box<PhysicalPlan>, right: Box<PhysicalPlan> },
    Limit { input: Box<PhysicalPlan>, limit: usize },
    SetUnion { op: SetUnionOp, left: Box<PhysicalPlan>, right: Box<PhysicalPlan> },
    Analyze { table_name: String, column_indices: Vec<usize> },
    CreateMaterializedView {
        view_name: String,
        query: Box<PhysicalPlan>,
        column_names: Vec<String>,
        with_data: bool,
    },
    RefreshMaterializedView { view_name: String, concurrently: bool },
    DropMaterializedView { view_name: String, if_exists: bool },
    /// A number of rows that is known.
    CountStar { output_name: String, count: i64 },
    /// The row with a primary key; no columns stand for all.
    PrimaryKeyLookup {
        table_name: String,
        pk_value: Value,
        output_column_indices: Vec<usize>,
    },
    BeginTransaction,
    Commit,
    Rollback,
    Savepoint { name: String },
    ReleaseSavepoint { name: String },
    RollbackToSavepoint { name: String },
    /// The nearest rows to a vector.
    VectorSearch { table_name: String, index_name: String, query_vector: Vec<F32>, k: usize },
    AlterTable(AlterTableStmt),
    TruncateTable { table_name: String },
    Pragma(PragmaStmt),
    Distinct { input: Box<PhysicalPlan> },
    Explain { analyze: bool, plan: Box<PhysicalPlan> },
    Window {
        input: Box<PhysicalPlan>,
        window_functions: Vec<WindowFunctionExpr>,
        column_names: Vec<String>,
    },
    SubqueryScan { plan: Box<PhysicalPlan> },
}

/// The model of a [`PhysicalPlan`]. A plan that reads no other plan stands for
/// itself.
#[verifier::ext_equal]
pub enum Plan {
    Leaf(PhysicalPlan),
    Filter(Box<Plan>, Expr),
    Projection(Box<Plan>, Seq<Expr>, Seq<Seq<char>>),
    Aggregate(Box<Plan>, Seq<usize>, Seq<AggregateExpr>),
    Sort(Box<Plan>, Seq<SortKey>, Option<usize>),
    Limit(Box<Plan>, usize),
    Window(Box<Plan>, Seq<WindowFunctionExpr>, Seq<Seq<char>>),
    Distinct(Box<Plan>),
    SubqueryScan(Box<Plan>),
    HashJoin(Box<Plan>, Box<Plan>, JoinType, Seq<usize>, Seq<usize>),
    CrossJoin(Box<Plan>, Box<Plan>),
    SetUnion(SetUnionOp, Box<Plan>, Box<Plan>),
    CreateTableAs(TableModel, Box<Plan>),
    InsertSelect(Seq<char>, Option<Seq<Seq<char>>>, Box<Plan>),
    Explain(bool, Box<Plan>),
}

/// The names of an optional list.
pub open spec fn opt_names(names: Option<Vec<String>>) -> Option<Seq<Seq<char>>> {
    match names {
        Some(v) => Some(v.deep_view()),
        None => None,
    }
}

/// The model of a plan.
pub open spec fn plan_model(p: PhysicalPlan) -> Plan
    decreases p,
{
    match p {
        PhysicalPlan::Filter { input, condition } => Plan::Filter(
            Box::new(plan_model(*input)),
            condition.deep_view(),
        ),
        PhysicalPlan::Projection { input, expressions, column_names } => Plan::Projection(
            Box::new(plan_model(*input)),
            expressions.deep_view(),
            column_names.deep_view(),
        ),
        PhysicalPlan::Aggregate { input, group_by, aggregates } => Plan::Aggregate(
            Box::new(plan_model(*input)),
            group_by@,
            aggregates@,
        ),
        PhysicalPlan::Sort { input, sort_keys, limit } => Plan::Sort(
            Box::new(plan_model(*input)),
            sort_keys@,
            limit,
        ),
        PhysicalPlan::Limit { input, limit } => Plan::Limit(Box::new(plan_model(*input)), limit),
        PhysicalPlan::Window { input, window_functions, column_names } => Plan::Window(
            Box::new(plan_model(*input)),
            window_functions@,
            column_names.deep_view(),
        ),
        PhysicalPlan::Distinct { input } => Plan::Distinct(Box::new(plan_model(*input))),
        PhysicalPlan::SubqueryScan { plan } => Plan::SubqueryScan(Box::new(plan_model(*plan))),
        PhysicalPlan::HashJoin { left, right, join_type, left_keys, right_keys } => Plan::HashJoin(
            Box::new(plan_model(*left)),
            Box::new(plan_model(*right)),
            join_type,
            left_keys@,
            right_keys@,
        ),
        PhysicalPlan::CrossJoin { left, right } => Plan::CrossJoin(
            Box::new(plan_model(*left)),
            Box::new(plan_model(*right)),
        ),
        PhysicalPlan::SetUnion { op, left, right } => Plan::SetUnion(
            op,
            Box::new(plan_model(*left)),
            Box::new(plan_model(*right)),
        ),
        PhysicalPlan::CreateTableAs { table_def, source } => Plan::CreateTableAs(
            table_def.deep_view(),
            Box::new(plan_model(*source)),
        ),
        PhysicalPlan::InsertSelect { table_name, columns, source } => Plan::InsertSelect(
            table_name@,
            opt_names(columns),
            Box::new(plan_model(*source)),
        ),
        PhysicalPlan::Explain { analyze, plan } => Plan::Explain(
            analyze,
            Box::new(plan_model(*plan)),
        ),
        _ => Plan::Leaf(p),
    }
}

impl DeepView for PhysicalPlan {
    type V = Plan;

    open spec fn deep_view(&self) -> Plan {
        plan_model(*self)
    }
}

} // verus!
