//! Plans as text.
use vstd::prelude::*;

use crate::executor::physical_plan::{
    AggregateExpr, AggregateFunc, JoinType, PhysicalPlan, Plan, SortKey,
};
use crate::text::{dec, dec_int, i64_text, join2, join3, join_text, joined, usize_text};

verus! {

/// The name of the kind of a plan.
pub open spec fn node_name(p: Plan) -> Seq<char> {
    match p {
        Plan::Filter(_, _) => "Filter"@,
        Plan::Projection(_, _, _) => "Projection"@,
        Plan::Aggregate(_, _, _) => "Aggregate"@,
        Plan::Sort(_, _, _) => "Sort"@,
        Plan::Limit(_, _) => "Limit"@,
        Plan::Window(_, _, _) => "Window"@,
        Plan::Distinct(_) => "Distinct"@,
        Plan::SubqueryScan(_) => "SubqueryScan"@,
        Plan::HashJoin(_, _, _, _, _) => "HashJoin"@,
        Plan::CrossJoin(_, _) => "CrossJoin"@,
        Plan::SetUnion(_, _, _) => "SetUnion"@,
        Plan::CreateTableAs(_, _) => "CreateTableAs"@,
        Plan::InsertSelect(_, _, _) => "InsertSelect"@,
        Plan::Explain(_, _) => "Explain"@,
        Plan::Leaf(x) => match x {
            PhysicalPlan::TableScan { .. } => "TableScan"@,
            PhysicalPlan::IndexOnlyScan { .. } => "IndexOnlyScan"@,
            PhysicalPlan::IndexScan { .. } => "IndexScan"@,
            PhysicalPlan::IndexRangeScan { .. } => "IndexRangeScan"@,
            PhysicalPlan::Insert { .. } => "Insert"@,
            PhysicalPlan::InsertColumns { .. } => "InsertColumns"@,
            PhysicalPlan::CreateTable { .. } => "CreateTable"@,
            PhysicalPlan::CreateIndex { .. } => "CreateIndex"@,
            PhysicalPlan::Delete { .. } => "Delete"@,
            PhysicalPlan::Update { .. } => "Update"@,
            PhysicalPlan::Analyze { .. } => "Analyze"@,
            PhysicalPlan::CreateMaterializedView { .. } => "CreateMaterializedView"@,
            PhysicalPlan::RefreshMaterializedView { .. } => "RefreshMaterializedView"@,
            PhysicalPlan::DropMaterializedView { .. } => "DropMaterializedView"@,
            PhysicalPlan::CountStar { .. } => "CountStar"@,
            PhysicalPlan::PrimaryKeyLookup { .. } => "PrimaryKeyLookup"@,
            PhysicalPlan::BeginTransaction => "BeginTransaction"@,
            PhysicalPlan::Commit => "Commit"@,
            PhysicalPlan::Rollback => "Rollback"@,
            PhysicalPlan::AlterTable(_) => "AlterTable"@,
            PhysicalPlan::Pragma(_) => "Pragma"@,
            PhysicalPlan::TruncateTable { .. } => "TruncateTable"@,
            PhysicalPlan::Savepoint { .. } => "Savepoint"@,
            PhysicalPlan::ReleaseSavepoint { .. } => "ReleaseSavepoint"@,
            PhysicalPlan::RollbackToSavepoint { .. } => "RollbackToSavepoint"@,
            _ => "VectorSearch"@,
        },
    }
}

/// The name of an aggregate function.
pub open spec fn func_name(f: AggregateFunc) -> Seq<char> {
    match f {
        AggregateFunc::Count => "Count"@,
        AggregateFunc::Sum => "Sum"@,
        AggregateFunc::Avg => "Avg"@,
        AggregateFunc::Min => "Min"@,
        AggregateFunc::Max => "Max"@,
    }
}

/// The name of a kind of join.
pub open spec fn join_name(t: JoinType) -> Seq<char> {
    match t {
        JoinType::Inner => "Inner"@,
        JoinType::Left => "Left"@,
        JoinType::Right => "Right"@,
        JoinType::Full => "Full"@,
        JoinType::Semi => "Semi"@,
        JoinType::Anti => "Anti"@,
    }
}

/// Columns by position.
pub open spec fn col_names(at: Seq<usize>) -> Seq<Seq<char>> {
    Seq::new(at.len(), |i: int| "col"@ + dec(at[i] as nat))
}

/// The columns of sort keys by position.
pub open spec fn key_columns(keys: Seq<SortKey>) -> Seq<usize> {
    Seq::new(keys.len(), |i: int| keys[i].column_index)
}

/// The functions of aggregates.
pub open spec fn func_names(a: Seq<AggregateExpr>) -> Seq<Seq<char>> {
    Seq::new(a.len(), |i: int| func_name(a[i].func))
}

/// What is shown of a plan beside its kind.
pub open spec fn detail(p: Plan) -> Seq<char> {
    match p {
        Plan::Projection(_, _, names) => " ["@ + joined(names, ", "@) + "]"@,
        Plan::Aggregate(_, g, a) => " [group_by: "@ + joined(col_names(g), ","@) + ", agg: "@
            + joined(func_names(a), ","@) + "]"@,
        Plan::Sort(_, k, _) => " [sort: "@ + joined(col_names(key_columns(k)), ","@) + "]"@,
        Plan::HashJoin(_, _, t, _, _) => " ["@ + join_name(t) + "]"@,
        Plan::Limit(_, n) => " [limit: "@ + dec(n as nat) + "]"@,
        Plan::Leaf(x) => match x {
            PhysicalPlan::TableScan { table_name, column_indices } => " ["@ + table_name@ + "."@
                + dec(column_indices@.len()) + " cols]"@,
            PhysicalPlan::Insert { table_name, .. } => " [table: "@ + table_name@ + "]"@,
            PhysicalPlan::Delete { table_name, .. } => " [table: "@ + table_name@ + "]"@,
            PhysicalPlan::Update { table_name, .. } => " [table: "@ + table_name@ + "]"@,
            PhysicalPlan::PrimaryKeyLookup { table_name, .. } => " [table: "@ + table_name@
                + "]"@,
            PhysicalPlan::CountStar { output_name, count } => " ["@ + output_name@ + ": "@
                + dec_int(count as int) + "]"@,
            _ => Seq::empty(),
        },
        _ => Seq::empty(),
    }
}

/// Two blanks for each level.
pub open spec fn blanks(n: nat) -> Seq<char>
    decreases n,
{
    if n == 0 {
        Seq::empty()
    } else {
        blanks((n - 1) as nat) + "  "@
    }
}

/// The line of a plan behind a margin.
pub open spec fn line(p: Plan, margin: Seq<char>) -> Seq<char> {
    margin + node_name(p) + detail(p) + "\n"@
}

/// A plan as text behind a margin: its line, and behind it the plans that it
/// reads, each two blanks further in.
pub open spec fn tree(p: Plan, margin: Seq<char>) -> Seq<char>
    decreases p,
{
    match p {
        Plan::Filter(x, _) => line(p, margin) + tree(*x, margin + "  "@),
        Plan::Projection(x, _, _) => line(p, margin) + tree(*x, margin + "  "@),
        Plan::Aggregate(x, _, _) => line(p, margin) + tree(*x, margin + "  "@),
        Plan::Sort(x, _, _) => line(p, margin) + tree(*x, margin + "  "@),
        Plan::Limit(x, _) => line(p, margin) + tree(*x, margin + "  "@),
        Plan::Window(x, _, _) => line(p, margin) + tree(*x, margin + "  "@),
        Plan::Distinct(x) => line(p, margin) + tree(*x, margin + "  "@),
        Plan::SubqueryScan(x) => line(p, margin) + tree(*x, margin + "  "@),
        Plan::InsertSelect(_, _, x) => line(p, margin) + tree(*x, margin + "  "@),
        Plan::HashJoin(l, r, _, _, _) => line(p, margin) + tree(*l, margin + "  "@) + tree(
            *r,
            margin + "  "@,
        ),
        Plan::CrossJoin(l, r) => line(p, margin) + tree(*l, margin + "  "@) + tree(*r, margin + "  "@),
        Plan::SetUnion(_, l, r) => line(p, margin) + tree(*l, margin + "  "@) + tree(*r, margin + "  "@),
        _ => line(p, margin),
    }
}

/// The name of the kind of a plan.
pub fn plan_node_name(plan: &PhysicalPlan) -> (r: &'static str)
    ensures
        r@ == node_name(plan.deep_view()),
{
    match plan {
        PhysicalPlan::TableScan { .. } => "TableScan",
        PhysicalPlan::IndexOnlyScan { .. } => "IndexOnlyScan",
        PhysicalPlan::IndexScan { .. } => "IndexScan",
        PhysicalPlan::IndexRangeScan { .. } => "IndexRangeScan",
        PhysicalPlan::Filter { .. } => "Filter",
        PhysicalPlan::Projection { .. } => "Projection",
        PhysicalPlan::Aggregate { .. } => "Aggregate",
        PhysicalPlan::Insert { .. } => "Insert",
        PhysicalPlan::InsertColumns { .. } => "InsertColumns",
        PhysicalPlan::InsertSelect { .. } => "InsertSelect",
        PhysicalPlan::CreateTable { .. } => "CreateTable",
        PhysicalPlan::CreateIndex { .. } => "CreateIndex",
        PhysicalPlan::Delete { .. } => "Delete",
        PhysicalPlan::Update { .. } => "Update",
        PhysicalPlan::Sort { .. } => "Sort",
        PhysicalPlan::HashJoin { .. } => "HashJoin",
        PhysicalPlan::CrossJoin { .. } => "CrossJoin",
        PhysicalPlan::Limit { .. } => "Limit",
        PhysicalPlan::Analyze { .. } => "Analyze",
        PhysicalPlan::CreateMaterializedView { .. } => "CreateMaterializedView",
        PhysicalPlan::RefreshMaterializedView { .. } => "RefreshMaterializedView",
        PhysicalPlan::DropMaterializedView { .. } => "DropMaterializedView",
        PhysicalPlan::CountStar { .. } => "CountStar",
        PhysicalPlan::PrimaryKeyLookup { .. } => "PrimaryKeyLookup",
        PhysicalPlan::BeginTransaction => "BeginTransaction",
        PhysicalPlan::Commit => "Commit",
        PhysicalPlan::Rollback => "Rollback",
        PhysicalPlan::AlterTable(_) => "AlterTable",
        PhysicalPlan::Pragma(_) => "Pragma",
        PhysicalPlan::Distinct { .. } => "Distinct",
        PhysicalPlan::Explain { .. } => "Explain",
        PhysicalPlan::Window { .. } => "Window",
        PhysicalPlan::SubqueryScan { .. } => "SubqueryScan",
        PhysicalPlan::SetUnion { .. } => "SetUnion",
        PhysicalPlan::TruncateTable { .. } => "TruncateTable",
        PhysicalPlan::CreateTableAs { .. } => "CreateTableAs",
        PhysicalPlan::Savepoint { .. } => "Savepoint",
        PhysicalPlan::ReleaseSavepoint { .. } => "ReleaseSavepoint",
        PhysicalPlan::RollbackToSavepoint { .. } => "RollbackToSavepoint",
        PhysicalPlan::VectorSearch { .. } => "VectorSearch",
    }
}

/// The name of an aggregate function.
pub fn aggregate_name(f: AggregateFunc) -> (r: &'static str)
    ensures
        r@ == func_name(f),
{
    match f {
        AggregateFunc::Count => "Count",
        AggregateFunc::Sum => "Sum",
        AggregateFunc::Avg => "Avg",
        AggregateFunc::Min => "Min",
        AggregateFunc::Max => "Max",
    }
}

/// The name of a kind of join.
fn join_type_name(t: JoinType) -> (r: &'static str)
    ensures
        r@ == join_name(t),
{
    match t {
        JoinType::Inner => "Inner",
        JoinType::Left => "Left",
        JoinType::Right => "Right",
        JoinType::Full => "Full",
        JoinType::Semi => "Semi",
        JoinType::Anti => "Anti",
    }
}

/// Columns by position.
fn show_columns(at: &Vec<usize>) -> (r: Vec<String>)
    ensures
        r.deep_view() == col_names(at@),
{
    let ghost m = col_names(at@);
    let mut out: Vec<String> = Vec::new();
    let mut i: usize = 0;
    while i < at.len()
        invariant
            i <= at.len(),
            m == col_names(at@),
            out.deep_view() == m.subrange(0, i as int),
        decreases at.len() - i,
    {
        let n = usize_text(at[i]);
        let s = join2("col", n.as_str());
        let ghost before = out.deep_view();
        out.push(s);
        assert(out.deep_view() =~= before.push(s@));
        i += 1;
        assert(out.deep_view() =~= m.subrange(0, i as int));
    }
    assert(out.deep_view() =~= m);
    out
}

/// The columns of sort keys by position.
fn columns_of_keys(keys: &Vec<SortKey>) -> (r: Vec<usize>)
    ensures
        r@ == key_columns(keys@),
{
    let mut out: Vec<usize> = Vec::new();
    let mut i: usize = 0;
    while i < keys.len()
        invariant
            i <= keys.len(),
            out@ == key_columns(keys@).subrange(0, i as int),
        decreases keys.len() - i,
    {
        out.push(keys[i].column_index);
        i += 1;
        assert(out@ =~= key_columns(keys@).subrange(0, i as int));
    }
    assert(out@ =~= key_columns(keys@));
    out
}

/// The functions of aggregates.
fn show_functions(a: &Vec<AggregateExpr>) -> (r: Vec<String>)
    ensures
        r.deep_view() == func_names(a@),
{
    let ghost m = func_names(a@);
    let mut out: Vec<String> = Vec::new();
    let mut i: usize = 0;
    while i < a.len()
        invariant
            i <= a.len(),
            m == func_names(a@),
            out.deep_view() == m.subrange(0, i as int),
        decreases a.len() - i,
    {
        let s = aggregate_name(a[i].func).to_owned();
        let ghost before = out.deep_view();
        out.push(s);
        assert(out.deep_view() =~= before.push(s@));
        i += 1;
        assert(out.deep_view() =~= m.subrange(0, i as int));
    }
    assert(out.deep_view() =~= m);
    out
}

/// What is shown of a plan beside its kind.
fn plan_detail(plan: &PhysicalPlan) -> (r: String)
    ensures
        r@ == detail(plan.deep_view()),
{
    match plan {
        PhysicalPlan::TableScan { table_name, column_indices } => {
            let head = join3(" [", table_name.as_str(), ".");
            let n = usize_text(column_indices.len());
            join3(head.as_str(), n.as_str(), " cols]")
        },
        PhysicalPlan::Projection { column_names, .. } => {
            let names = join_text(column_names, ", ");
            join3(" [", names.as_str(), "]")
        },
        PhysicalPlan::Aggregate { group_by, aggregates, .. } => {
            let g = show_columns(group_by);
            let g = join_text(&g, ",");
            let a = show_functions(aggregates);
            let a = join_text(&a, ",");
            let head = join3(" [group_by: ", g.as_str(), ", agg: ");
            join3(head.as_str(), a.as_str(), "]")
        },
        PhysicalPlan::Sort { sort_keys, .. } => {
            let at = columns_of_keys(sort_keys);
            let k = show_columns(&at);
            let k = join_text(&k, ",");
            join3(" [sort: ", k.as_str(), "]")
        },
        PhysicalPlan::HashJoin { join_type, .. } => join3(" [", join_type_name(*join_type), "]"),
        PhysicalPlan::Limit { limit, .. } => {
            let n = usize_text(*limit);
            join3(" [limit: ", n.as_str(), "]")
        },
        PhysicalPlan::Insert { table_name, .. } => join3(" [table: ", table_name.as_str(), "]"),
        PhysicalPlan::Delete { table_name, .. } => join3(" [table: ", table_name.as_str(), "]"),
        PhysicalPlan::Update { table_name, .. } => join3(" [table: ", table_name.as_str(), "]"),
        PhysicalPlan::PrimaryKeyLookup { table_name, .. } => join3(
            " [table: ",
            table_name.as_str(),
            "]",
        ),
        PhysicalPlan::CountStar { output_name, count } => {
            let head = join3(" [", output_name.as_str(), ": ");
            let n = i64_text(*count);
            join3(head.as_str(), n.as_str(), "]")
        },
        _ => String::new(),
    }
}

/// Two blanks for each level.
fn indentation(n: usize) -> (r: String)
    ensures
        r@ == blanks(n as nat),
{
    let mut s = String::new();
    let mut i: usize = 0;
    while i < n
        invariant
            i <= n,
            s@ == blanks(i as nat),
        decreases n - i,
    {
        s = join2(s.as_str(), "  ");
        i += 1;
    }
    s
}

/// Shows a plan as text behind a margin.
fn format_behind(plan: &PhysicalPlan, margin: &str) -> (r: String)
    ensures
        r@ == tree(plan.deep_view(), margin@),
    decreases plan,
{
    let text = plan_detail(plan);
    let head = join3(margin, plan_node_name(plan), text.as_str());
    let top = join2(head.as_str(), "\n");
    let deeper = join2(margin, "  ");
    match plan {
        PhysicalPlan::Filter { input, .. } => {
            let x = format_behind(input, deeper.as_str());
            join2(top.as_str(), x.as_str())
        },
        PhysicalPlan::Projection { input, .. } => {
            let x = format_behind(input, deeper.as_str());
            join2(top.as_str(), x.as_str())
        },
        PhysicalPlan::Aggregate { input, .. } => {
            let x = format_behind(input, deeper.as_str());
            join2(top.as_str(), x.as_str())
        },
        PhysicalPlan::Sort { input, .. } => {
            let x = format_behind(input, deeper.as_str());
            join2(top.as_str(), x.as_str())
        },
        PhysicalPlan::Limit { input, .. } => {
            let x = format_behind(input, deeper.as_str());
            join2(top.as_str(), x.as_str())
        },
        PhysicalPlan::Window { input, .. } => {
            let x = format_behind(input, deeper.as_str());
            join2(top.as_str(), x.as_str())
        },
        PhysicalPlan::Distinct { input } => {
            let x = format_behind(input, deeper.as_str());
            join2(top.as_str(), x.as_str())
        },
        PhysicalPlan::SubqueryScan { plan: input } => {
            let x = format_behind(input, deeper.as_str());
            join2(top.as_str(), x.as_str())
        },
        PhysicalPlan::InsertSelect { source, .. } => {
            let x = format_behind(source, deeper.as_str());
            join2(top.as_str(), x.as_str())
        },
        PhysicalPlan::HashJoin { left, right, .. } => {
            let x = format_behind(left, deeper.as_str());
            let y = format_behind(right, deeper.as_str());
            join3(top.as_str(), x.as_str(), y.as_str())
        },
        PhysicalPlan::CrossJoin { left, right } => {
            let x = format_behind(left, deeper.as_str());
            let y = format_behind(right, deeper.as_str());
            join3(top.as_str(), x.as_str(), y.as_str())
        },
        PhysicalPlan::SetUnion { left, right, .. } => {
            let x = format_behind(left, deeper.as_str());
            let y = format_behind(right, deeper.as_str());
            join3(top.as_str(), x.as_str(), y.as_str())
        },
        _ => top,
    }
}

/// Shows a plan as text, from a level on.
pub fn format_plan_tree(plan: &PhysicalPlan, indent: usize) -> (r: String)
    ensures
        r@ == tree(plan.deep_view(), blanks(indent as nat)),
{
    let margin = indentation(indent);
    format_behind(plan, margin.as_str())
}

} // verus!
