//! Changes of tables.
use vstd::prelude::*;

use crate::common::error::{EngramDbError, Fault};
use crate::common::types::{lemma_first_from, name_index, ColumnDef, ColumnModel, TableModel};
use crate::query::{status, status_result, Query, QueryResult};
use crate::sql::ast::{Alteration, AlterTableOp, AlterTableStmt};
use crate::storage::database::{named, renamed, with_table, Database, Db};
use crate::storage::table::Tbl;
use crate::text::{join2, join3};

verus! {

/// A table with other columns.
pub open spec fn with_columns(t: Tbl, columns: Seq<ColumnModel>) -> Tbl {
    Tbl { def: TableModel { columns, ..t.def }, ..t }
}

/// The change of a table. Only the definition changes: the rows stay as they
/// were stored.
pub open spec fn altered(d: Db, table: Seq<char>, op: Alteration) -> (Result<Query, Fault>, Db) {
    match op {
        Alteration::AddColumn(c) => match named(d, table) {
            None => (Err(Fault::TableNotFound(table)), d),
            Some(k) => (
                Ok(status("Column added to "@ + table)),
                with_table(d, k, with_columns(d.tables[k], d.tables[k].def.columns.push(c))),
            ),
        },
        Alteration::DropColumn(c) => match named(d, table) {
            None => (Err(Fault::TableNotFound(table)), d),
            Some(k) => match name_index(d.tables[k].def.columns, c) {
                None => (Err(Fault::ColumnNotFound(c)), d),
                Some(j) => (
                    Ok(status("Column '"@ + c + "' dropped from "@ + table)),
                    with_table(d, k, with_columns(d.tables[k], d.tables[k].def.columns.remove(j))),
                ),
            },
        },
        Alteration::RenameColumn(a, b) => match named(d, table) {
            None => (Err(Fault::TableNotFound(table)), d),
            Some(k) => match name_index(d.tables[k].def.columns, a) {
                None => (Err(Fault::ColumnNotFound(a)), d),
                Some(j) => {
                    let columns = d.tables[k].def.columns;
                    (
                        Ok(status("Column '"@ + a + "' renamed to '"@ + b + "'"@)),
                        with_table(
                            d,
                            k,
                            with_columns(
                                d.tables[k],
                                columns.update(j, ColumnModel { name: b, ..columns[j] }),
                            ),
                        ),
                    )
                },
            },
        },
        Alteration::RenameTable(b) => match renamed(d, table, b) {
            Err(f) => (Err(f), d),
            Ok(u) => (Ok(status("Table renamed to '"@ + b + "'"@)), u),
        },
    }
}

/// Whether a result and the database are what the model says.
pub open spec fn answered(
    r: Result<QueryResult, EngramDbError>,
    after: Db,
    m: (Result<Query, Fault>, Db),
) -> bool {
    &&& after == m.1
    &&& match (r, m.0) {
        (Ok(q), Ok(x)) => q.deep_view() == x,
        (Err(e), Err(f)) => e.deep_view() == f,
        _ => false,
    }
}

/// Changes a table.
pub fn execute(db: &mut Database, stmt: &AlterTableStmt) -> (r: Result<QueryResult, EngramDbError>)
    requires
        old(db).wf(),
    ensures
        final(db).wf(),
        answered(
            r,
            final(db).deep_view(),
            altered(old(db).deep_view(), stmt.deep_view().0, stmt.deep_view().1),
        ),
{
    let table = stmt.table_name.as_str();
    match &stmt.operation {
        AlterTableOp::AddColumn { column_def } => {
            let k: usize = match db.find_table(table) {
                Some(k) => k,
                None => {
                    return Err(EngramDbError::TableNotFound(stmt.table_name.clone()));
                },
            };
            let def = ColumnDef {
                name: column_def.name.clone(),
                data_type: column_def.data_type,
                nullable: column_def.nullable,
                is_primary_key: column_def.primary_key,
                default_value: None,
                auto_increment: false,
            };
            let ghost c = def.deep_view();
            let mut t = db.take_table(k);
            let ghost was = t.def.columns.deep_view();
            t.def.columns.push(def);
            assert(t.def.columns.deep_view() =~= was.push(c));
            db.put_table(k, t);
            Ok(status_result(join2("Column added to ", table)))
        },
        AlterTableOp::DropColumn { column_name } => {
            let k: usize = match db.find_table(table) {
                Some(k) => k,
                None => {
                    return Err(EngramDbError::TableNotFound(stmt.table_name.clone()));
                },
            };
            let j: usize = match db.tables[k].def.column_index(column_name.as_str()) {
                Some(j) => j,
                None => {
                    return Err(EngramDbError::ColumnNotFound(column_name.clone()));
                },
            };
            proof {
                let n = column_name@;
                lemma_first_from(
                    db.tables[k as int].def.deep_view().columns,
                    |x: ColumnModel| x.name == n,
                    0,
                );
            }
            let mut t = db.take_table(k);
            let ghost was = t.def.columns.deep_view();
            let gone = t.def.columns.remove(j);
            assert(t.def.columns.deep_view() =~= was.remove(j as int));
            db.put_table(k, t);
            let head = join3("Column '", column_name.as_str(), "' dropped from ");
            Ok(status_result(join2(head.as_str(), table)))
        },
        AlterTableOp::RenameColumn { old_name, new_name } => {
            let k: usize = match db.find_table(table) {
                Some(k) => k,
                None => {
                    return Err(EngramDbError::TableNotFound(stmt.table_name.clone()));
                },
            };
            let j: usize = match db.tables[k].def.column_index(old_name.as_str()) {
                Some(j) => j,
                None => {
                    return Err(EngramDbError::ColumnNotFound(old_name.clone()));
                },
            };
            proof {
                let n = old_name@;
                lemma_first_from(
                    db.tables[k as int].def.deep_view().columns,
                    |x: ColumnModel| x.name == n,
                    0,
                );
            }
            let mut t = db.take_table(k);
            let ghost was = t.def.columns.deep_view();
            let mut c = t.def.columns[j].clone();
            assert(was[j as int] == t.def.columns[j as int].deep_view());
            c.name = new_name.clone();
            let ghost m = c.deep_view();
            t.def.columns.set(j, c);
            assert(t.def.columns.deep_view() =~= was.update(j as int, m));
            db.put_table(k, t);
            let head = join3("Column '", old_name.as_str(), "' renamed to '");
            Ok(status_result(join3(head.as_str(), new_name.as_str(), "'")))
        },
        AlterTableOp::RenameTable { new_name } => match db.rename_table(
            table,
            new_name.as_str(),
        ) {
            Err(e) => Err(e),
            Ok(_) => Ok(status_result(join3("Table renamed to '", new_name.as_str(), "'"))),
        },
    }
}

} // verus!
