//! Expressions and statements.
use vstd::prelude::*;

use crate::common::types::{opt_text, ColumnModel, DataType};
use crate::value::Datum;
use crate::Value;

verus! {

/// Operators with two operands.
#[derive(Debug, Clone, Copy, PartialEq, Eq, Structural)]
pub enum BinaryOperator {
    Plus,
    Minus,
    Multiply,
    Divide,
    Modulo,
    Eq,
    NotEq,
    Lt,
    LtEq,
    Gt,
    GtEq,
    And,
    Or,
    Concat,
}

/// Operators with one operand.
#[derive(Debug, Clone, Copy, PartialEq, Eq, Structural)]
pub enum UnaryOperator {
    Not,
    Negate,
}

/// An expression. Subqueries, placeholders and windows stand in it by their
/// number in the statement.
#[allow(inconsistent_fields)]
#[derive(Debug)]
pub enum Expression {
    Literal(Value),
    ColumnRef { table: Option<String>, column: String },
    BinaryOp { left: Box<Expression>, op: BinaryOperator, right: Box<Expression> },
    UnaryOp { op: UnaryOperator, expr: Box<Expression> },
    IsNull(Box<Expression>),
    IsNotNull(Box<Expression>),
    Cast { expr: Box<Expression>, data_type: DataType },
    InList { expr: Box<Expression>, list: Vec<Expression> },
    Like { expr: Box<Expression>, pattern: Box<Expression> },
    Case { when_then: Vec<(Expression, Expression)>, else_expr: Option<Box<Expression>> },
    Function {
        name: String,
        args: Vec<Expression>,
        distinct: bool,
        count_star: bool,
        over: Option<usize>,
    },
    Placeholder(usize),
    Subquery(usize),
    Exists { subquery: usize, negated: bool },
    InSubquery { expr: Box<Expression>, subquery: usize, negated: bool },
}

/// The model of an [`Expression`].
#[verifier::ext_equal]
pub enum Expr {
    Literal(Datum),
    ColumnRef(Option<Seq<char>>, Seq<char>),
    Binary(Box<Expr>, BinaryOperator, Box<Expr>),
    Unary(UnaryOperator, Box<Expr>),
    IsNull(Box<Expr>),
    IsNotNull(Box<Expr>),
    Cast(Box<Expr>, DataType),
    InList(Box<Expr>, Seq<Expr>),
    Like(Box<Expr>, Box<Expr>),
    Case(Seq<(Expr, Expr)>, Option<Box<Expr>>),
    Function(Seq<char>, Seq<Expr>, bool, bool, Option<usize>),
    Placeholder(usize),
    Subquery(usize),
    Exists(usize, bool),
    InSubquery(Box<Expr>, usize, bool),
}

/// The model of an expression.
pub open spec fn expr_model(e: Expression) -> Expr
    decreases e,
{
    match e {
        Expression::Literal(v) => Expr::Literal(v.deep_view()),
        Expression::ColumnRef { table, column } => Expr::ColumnRef(opt_text(table), column@),
        Expression::BinaryOp { left, op, right } => Expr::Binary(
            Box::new(expr_model(*left)),
            op,
            Box::new(expr_model(*right)),
        ),
        Expression::UnaryOp { op, expr } => Expr::Unary(op, Box::new(expr_model(*expr))),
        Expression::IsNull(x) => Expr::IsNull(Box::new(expr_model(*x))),
        Expression::IsNotNull(x) => Expr::IsNotNull(Box::new(expr_model(*x))),
        Expression::Cast { expr, data_type } => Expr::Cast(Box::new(expr_model(*expr)), data_type),
        Expression::InList { expr, list } => Expr::InList(
            Box::new(expr_model(*expr)),
            Seq::new(
                list@.len(),
                |i: int|
                    if 0 <= i < list@.len() {
                        expr_model(list@[i])
                    } else {
                        arbitrary()
                    },
            ),
        ),
        Expression::Like { expr, pattern } => Expr::Like(
            Box::new(expr_model(*expr)),
            Box::new(expr_model(*pattern)),
        ),
        Expression::Case { when_then, else_expr } => Expr::Case(
            Seq::new(
                when_then@.len(),
                |i: int|
                    if 0 <= i < when_then@.len() {
                        (expr_model(when_then@[i].0), expr_model(when_then@[i].1))
                    } else {
                        arbitrary()
                    },
            ),
            match else_expr {
                Some(x) => Some(Box::new(expr_model(*x))),
                None => None,
            },
        ),
        Expression::Function { name, args, distinct, count_star, over } => Expr::Function(
            name@,
            Seq::new(
                args@.len(),
                |i: int|
                    if 0 <= i < args@.len() {
                        expr_model(args@[i])
                    } else {
                        arbitrary()
                    },
            ),
            distinct,
            count_star,
            over,
        ),
        Expression::Placeholder(n) => Expr::Placeholder(n),
        Expression::Subquery(n) => Expr::Subquery(n),
        Expression::Exists { subquery, negated } => Expr::Exists(subquery, negated),
        Expression::InSubquery { expr, subquery, negated } => Expr::InSubquery(
            Box::new(expr_model(*expr)),
            subquery,
            negated,
        ),
    }
}

impl DeepView for Expression {
    type V = Expr;

    open spec fn deep_view(&self) -> Expr {
        expr_model(*self)
    }
}

/// Copies a list of expressions.
fn clone_list(list: &Vec<Expression>) -> (r: Vec<Expression>)
    ensures
        r.deep_view() == list.deep_view(),
    decreases list,
{
    let mut out: Vec<Expression> = Vec::new();
    let mut i: usize = 0;
    while i < list.len()
        invariant
            i <= list.len(),
            out.len() == i,
            forall|k: int| 0 <= k < i ==> (#[trigger] out[k]).deep_view() == list[k].deep_view(),
        decreases list.len() - i,
    {
        let e = clone_expression(&list[i]);
        out.push(e);
        i += 1;
    }
    assert(out.deep_view() =~= list.deep_view());
    out
}

/// Copies an expression.
pub fn clone_expression(e: &Expression) -> (r: Expression)
    ensures
        r.deep_view() == e.deep_view(),
    decreases e,
{
    match e {
        Expression::Literal(v) => Expression::Literal(v.clone()),
        Expression::ColumnRef { table, column } => {
            let table: Option<String> = match table {
                Some(t) => Some(t.clone()),
                None => None,
            };
            Expression::ColumnRef { table, column: column.clone() }
        },
        Expression::BinaryOp { left, op, right } => Expression::BinaryOp {
            left: Box::new(clone_expression(left)),
            op: *op,
            right: Box::new(clone_expression(right)),
        },
        Expression::UnaryOp { op, expr } => Expression::UnaryOp {
            op: *op,
            expr: Box::new(clone_expression(expr)),
        },
        Expression::IsNull(x) => Expression::IsNull(Box::new(clone_expression(x))),
        Expression::IsNotNull(x) => Expression::IsNotNull(Box::new(clone_expression(x))),
        Expression::Cast { expr, data_type } => Expression::Cast {
            expr: Box::new(clone_expression(expr)),
            data_type: *data_type,
        },
        Expression::InList { expr, list } => {
            let l = clone_list(list);
            let r = Expression::InList { expr: Box::new(clone_expression(expr)), list: l };
            assert(r.deep_view()->InList_1 =~= l.deep_view());
            assert(e.deep_view()->InList_1 =~= list.deep_view());
            r
        },
        Expression::Like { expr, pattern } => Expression::Like {
            expr: Box::new(clone_expression(expr)),
            pattern: Box::new(clone_expression(pattern)),
        },
        Expression::Case { when_then, else_expr } => {
            let mut out: Vec<(Expression, Expression)> = Vec::new();
            let mut i: usize = 0;
            while i < when_then.len()
                invariant
                    i <= when_then.len(),
                    out.len() == i,
                    forall|k: int|
                        0 <= k < i ==> (#[trigger] out[k]).0.deep_view()
                            == when_then[k].0.deep_view() && out[k].1.deep_view()
                            == when_then[k].1.deep_view(),
                    decreases_to!(e => when_then),
                decreases when_then.len() - i,
            {
                assert(decreases_to!(when_then => when_then@[i as int]));
                let w = clone_expression(&when_then[i].0);
                let t = clone_expression(&when_then[i].1);
                out.push((w, t));
                i += 1;
            }
            let other: Option<Box<Expression>> = match else_expr {
                Some(x) => Some(Box::new(clone_expression(x))),
                None => None,
            };
            let r = Expression::Case { when_then: out, else_expr: other };
            assert(r.deep_view()->Case_0 =~= e.deep_view()->Case_0);
            r
        },
        Expression::Function { name, args, distinct, count_star, over } => {
            let l = clone_list(args);
            let r = Expression::Function {
                name: name.clone(),
                args: l,
                distinct: *distinct,
                count_star: *count_star,
                over: *over,
            };
            assert(r.deep_view()->Function_1 =~= l.deep_view());
            assert(e.deep_view()->Function_1 =~= args.deep_view());
            r
        },
        Expression::Placeholder(n) => Expression::Placeholder(*n),
        Expression::Subquery(n) => Expression::Subquery(*n),
        Expression::Exists { subquery, negated } => Expression::Exists {
            subquery: *subquery,
            negated: *negated,
        },
        Expression::InSubquery { expr, subquery, negated } => Expression::InSubquery {
            expr: Box::new(clone_expression(expr)),
            subquery: *subquery,
            negated: *negated,
        },
    }
}

impl Clone for Expression {
    fn clone(&self) -> (r: Self)
        ensures
            r.deep_view() == self.deep_view(),
    {
        clone_expression(self)
    }
}

/// One key of an ORDER BY.
#[derive(Debug)]
pub struct OrderByItem {
    pub expr: Expression,
    pub ascending: bool,
}

impl DeepView for OrderByItem {
    type V = (Expr, bool);

    open spec fn deep_view(&self) -> (Expr, bool) {
        (self.expr.deep_view(), self.ascending)
    }
}

/// An end of a window frame.
#[derive(Debug, Clone, Copy, PartialEq, Eq, Structural)]
pub enum WindowFrameBound {
    UnboundedPreceding,
    NPreceding(usize),
    CurrentRow,
    NFollowing(usize),
    UnboundedFollowing,
}

/// The rows around a row that a window function reads.
#[derive(Debug, Clone, Copy, PartialEq, Eq, Structural)]
pub struct WindowFrame {
    pub start: WindowFrameBound,
    pub end: Option<WindowFrameBound>,
}

/// How the rows of a window are grouped and ordered.
#[derive(Debug)]
pub struct WindowSpec {
    pub partition_by: Vec<Expression>,
    pub order_by: Vec<OrderByItem>,
    pub window_frame: Option<WindowFrame>,
}

/// An item of a list of results.
#[derive(Debug)]
pub enum SelectItem {
    Wildcard,
    /// An expression and its alias.
    Expression(Expression, Option<String>),
}

/// The model of a [`SelectItem`].
#[verifier::ext_equal]
pub enum Item {
    Wildcard,
    Expression(Expr, Option<Seq<char>>),
}

impl DeepView for SelectItem {
    type V = Item;

    open spec fn deep_view(&self) -> Item {
        match self {
            SelectItem::Wildcard => Item::Wildcard,
            SelectItem::Expression(e, a) => Item::Expression(e.deep_view(), opt_text(*a)),
        }
    }
}

/// What an insertion does with a row that is there already.
#[derive(Debug)]
pub enum OnConflictAction {
    DoNothing,
    Replace,
    DoUpdate { assignments: Vec<(String, Expression)> },
}

/// The model of an [`OnConflictAction`].
#[verifier::ext_equal]
pub enum ConflictAction {
    DoNothing,
    Replace,
    DoUpdate(Seq<(Seq<char>, Expr)>),
}

impl DeepView for OnConflictAction {
    type V = ConflictAction;

    open spec fn deep_view(&self) -> ConflictAction {
        match self {
            OnConflictAction::DoNothing => ConflictAction::DoNothing,
            OnConflictAction::Replace => ConflictAction::Replace,
            OnConflictAction::DoUpdate { assignments } => ConflictAction::DoUpdate(
                assignments.deep_view(),
            ),
        }
    }
}

/// The columns that tell rows apart, and what is done when they do not.
#[derive(Debug)]
pub struct OnConflictClause {
    pub conflict_columns: Vec<String>,
    pub action: OnConflictAction,
}

/// The model of an [`OnConflictClause`].
#[verifier::ext_equal]
pub struct Conflict {
    pub columns: Seq<Seq<char>>,
    pub action: ConflictAction,
}

impl DeepView for OnConflictClause {
    type V = Conflict;

    open spec fn deep_view(&self) -> Conflict {
        Conflict {
            columns: self.conflict_columns.deep_view(),
            action: self.action.deep_view(),
        }
    }
}

/// A column in a statement.
#[derive(Debug)]
pub struct ColumnDef {
    pub name: String,
    pub data_type: DataType,
    pub nullable: bool,
    pub primary_key: bool,
    pub auto_increment: bool,
    pub unique: bool,
}

/// A change of a table.
#[derive(Debug)]
pub enum AlterTableOp {
    AddColumn { column_def: ColumnDef },
    DropColumn { column_name: String },
    RenameColumn { old_name: String, new_name: String },
    RenameTable { new_name: String },
}

/// The model of an [`AlterTableOp`]. Of a new column, what the table keeps.
#[verifier::ext_equal]
pub enum Alteration {
    AddColumn(ColumnModel),
    DropColumn(Seq<char>),
    RenameColumn(Seq<char>, Seq<char>),
    RenameTable(Seq<char>),
}

impl DeepView for AlterTableOp {
    type V = Alteration;

    open spec fn deep_view(&self) -> Alteration {
        match self {
            AlterTableOp::AddColumn { column_def } => Alteration::AddColumn(
                ColumnModel {
                    name: column_def.name@,
                    data_type: column_def.data_type,
                    nullable: column_def.nullable,
                    is_primary_key: column_def.primary_key,
                    default_value: None,
                    auto_increment: false,
                },
            ),
            AlterTableOp::DropColumn { column_name } => Alteration::DropColumn(column_name@),
            AlterTableOp::RenameColumn { old_name, new_name } => Alteration::RenameColumn(
                old_name@,
                new_name@,
            ),
            AlterTableOp::RenameTable { new_name } => Alteration::RenameTable(new_name@),
        }
    }
}

/// A statement that changes a table.
#[derive(Debug)]
pub struct AlterTableStmt {
    pub table_name: String,
    pub operation: AlterTableOp,
}

impl DeepView for AlterTableStmt {
    type V = (Seq<char>, Alteration);

    open spec fn deep_view(&self) -> (Seq<char>, Alteration) {
        (self.table_name@, self.operation.deep_view())
    }
}

/// A statement that reads or sets a property of the database.
#[derive(Debug)]
pub struct PragmaStmt {
    pub name: String,
    pub arg: Option<String>,
}

impl DeepView for PragmaStmt {
    type V = (Seq<char>, Option<Seq<char>>);

    open spec fn deep_view(&self) -> (Seq<char>, Option<Seq<char>>) {
        (self.name@, opt_text(self.arg))
    }
}

} // verus!
