//! Deletion.
use vstd::prelude::*;

use crate::common::error::{EngramDbError, Fault};
use crate::common::types::{ColumnDef, ColumnModel};
use crate::executor::env::{answers, oracle, Answer, Ask, Question, Reply};
use crate::executor::expression::draws::drawn;
use crate::executor::expression::eval::calm;
use crate::executor::operators::filter::{filter_chunk, filtered, gives_chunk};
use crate::executor::operators::insert::{applied, apply_to_storage, ticked};
use crate::executor::vector::{aligned, Chunk, Column, DataChunk, Vector};
use crate::sql::ast::{Expr, Expression};
use crate::storage::database::{named, Database, Db};
use crate::storage::table::live;
use crate::storage::txn::{law_commit_hands_out_writes, ApplyOp, Op};
use crate::value::Datum;
use crate::Value;

verus! {

/// The batch of one row.
pub open spec fn row_chunk(row: Seq<Datum>) -> Chunk {
    Chunk { columns: Seq::new(row.len(), |j: int| Column::Flat(seq![row[j]])), count: 1 }
}

/// The names of columns.
pub open spec fn column_names(columns: Seq<ColumnModel>) -> Seq<Seq<char>> {
    Seq::new(columns.len(), |j: int| columns[j].name)
}

/// Whether a condition is true of a row. No condition is true of every row.
pub open spec fn meets(
    o: spec_fn(Question) -> Answer,
    row: Seq<Datum>,
    cond: Option<Expr>,
    names: Seq<Seq<char>>,
) -> Result<bool, Fault> {
    match cond {
        None => Ok(true),
        Some(e) => match filtered(o, row_chunk(row), e, names) {
            Ok(c) => Ok(c.count > 0),
            Err(f) => Err(f),
        },
    }
}

/// The deletions of the first `n` rows of which the condition is true, or
/// the first error.
pub open spec fn deletions(
    o: spec_fn(Question) -> Answer,
    table_id: u32,
    rows: Seq<(u64, Seq<Datum>)>,
    cond: Option<Expr>,
    names: Seq<Seq<char>>,
    n: nat,
) -> Result<Seq<Op>, Fault>
    decreases n,
{
    if n == 0 {
        Ok(Seq::empty())
    } else {
        match deletions(o, table_id, rows, cond, names, (n - 1) as nat) {
            Err(f) => Err(f),
            Ok(done) => match meets(o, rows[n - 1].1, cond, names) {
                Err(f) => Err(f),
                Ok(b) => Ok(
                    if b {
                        done.push(Op::Delete(table_id, rows[n - 1].0))
                    } else {
                        done
                    },
                ),
            },
        }
    }
}

/// A database after writes, through a transaction of their own where the
/// configuration asks for one, and the number of writes. No writes need no
/// transaction.
pub open spec fn ran_writes(d: Db, ops: Seq<Op>) -> (Result<u64, Fault>, Db) {
    if ops.len() == 0 {
        (Ok(0), d)
    } else {
        let start = if d.config.enable_transaction && d.txns.ready {
            Db { txns: ticked(d.txns), ..d }
        } else {
            d
        };
        let a = applied(start, ops, ops.len());
        (
            match a.1 {
                Some(f) => Err(f),
                None => Ok(ops.len() as u64),
            },
            a.0,
        )
    }
}

/// The deletion of the rows of which a condition is true.
pub open spec fn deleted(
    o: spec_fn(Question) -> Answer,
    d: Db,
    name: Seq<char>,
    cond: Option<Expr>,
) -> (Result<u64, Fault>, Db) {
    match named(d, name) {
        None => (Err(Fault::TableNotFound(name)), d),
        Some(k) => {
            let t = d.tables[k];
            let rows = live(t.slots, t.slots.len());
            if t.def.columns.len() == 0 {
                (Ok(0), d)
            } else {
                match deletions(
                    o,
                    k as u32,
                    rows,
                    cond,
                    column_names(t.def.columns),
                    rows.len(),
                ) {
                    Err(f) => (Err(f), d),
                    Ok(ops) => ran_writes(d, ops),
                }
            }
        },
    }
}

/// The model of an optional expression.
pub open spec fn opt_expr(e: Option<Expression>) -> Option<Expr> {
    match e {
        Some(x) => Some(x.deep_view()),
        None => None,
    }
}

/// Whether an optional condition gives equal results on equal rows.
pub open spec fn opt_calm(e: Option<Expr>) -> bool {
    e matches Some(x) ==> calm(x)
}

/// Whether an optional condition is another with numbers in place of calls of
/// RANDOM.
pub open spec fn opt_drawn(e: Option<Expr>, p: Option<Expr>) -> bool {
    match (e, p) {
        (Some(x), Some(y)) => drawn(x, y),
        (None, None) => true,
        _ => false,
    }
}

/// Whether a result is what the model says.
pub open spec fn decides(r: Result<bool, EngramDbError>, m: Result<bool, Fault>) -> bool {
    match (r, m) {
        (Ok(a), Ok(b)) => a == b,
        (Err(e), Err(f)) => e.deep_view() == f,
        _ => false,
    }
}

/// The deletions so far, and that of one more row where it is chosen.
pub open spec fn and_deletion(
    done: Result<Seq<Op>, Fault>,
    table_id: u32,
    id: u64,
    chosen: Result<bool, Fault>,
) -> Result<Seq<Op>, Fault> {
    match (done, chosen) {
        (Err(f), _) => Err(f),
        (_, Err(f)) => Err(f),
        (Ok(done), Ok(b)) => Ok(
            if b {
                done.push(Op::Delete(table_id, id))
            } else {
                done
            },
        ),
    }
}

/// Whether the first `n` rows can give deletions: as [`deletions`] says, with
/// numbers of its own for every row in place of the calls of RANDOM.
pub open spec fn can_choose(
    o: spec_fn(Question) -> Answer,
    table_id: u32,
    rows: Seq<(u64, Seq<Datum>)>,
    cond: Option<Expr>,
    names: Seq<Seq<char>>,
    n: nat,
    r: Result<Seq<Op>, Fault>,
) -> bool
    decreases n,
{
    if n == 0 {
        r == Ok::<Seq<Op>, Fault>(Seq::empty())
    } else {
        exists|done: Result<Seq<Op>, Fault>, p: Option<Expr>|
            can_choose(o, table_id, rows, cond, names, (n - 1) as nat, done) && opt_drawn(cond, p)
                && r == #[trigger] and_deletion(
                done,
                table_id,
                rows[n - 1].0,
                meets(o, rows[n - 1].1, p, names),
            )
    }
}

/// Whether a deletion can end so: as [`deleted`] says, with numbers of its own
/// for every row in place of the calls of RANDOM.
pub open spec fn can_delete(
    o: spec_fn(Question) -> Answer,
    d: Db,
    name: Seq<char>,
    cond: Option<Expr>,
    m: (Result<u64, Fault>, Db),
) -> bool {
    match named(d, name) {
        None => m == (Err::<u64, Fault>(Fault::TableNotFound(name)), d),
        Some(k) => {
            let t = d.tables[k];
            let rows = live(t.slots, t.slots.len());
            if t.def.columns.len() == 0 {
                m == (Ok::<u64, Fault>(0), d)
            } else {
                exists|ops: Result<Seq<Op>, Fault>| #[trigger]
                    can_choose(
                        o,
                        k as u32,
                        rows,
                        cond,
                        column_names(t.def.columns),
                        rows.len(),
                        ops,
                    ) && m == (match ops {
                        Err(f) => (Err(f), d),
                        Ok(ops) => ran_writes(d, ops),
                    })
            }
        },
    }
}

/// An error that the first rows can give, all can give.
proof fn lemma_can_fail(
    o: spec_fn(Question) -> Answer,
    table_id: u32,
    rows: Seq<(u64, Seq<Datum>)>,
    cond: Option<Expr>,
    names: Seq<Seq<char>>,
    k: nat,
    n: nat,
    f: Fault,
)
    requires
        k <= n,
        can_choose(o, table_id, rows, cond, names, k, Err(f)),
    ensures
        can_choose(o, table_id, rows, cond, names, n, Err(f)),
    decreases n - k,
{
    if k < n {
        lemma_can_fail(o, table_id, rows, cond, names, k, (n - 1) as nat, f);
        let done = Err::<Seq<Op>, Fault>(f);
        assert(opt_drawn(cond, cond));
        assert(done == and_deletion(
            done,
            table_id,
            rows[n - 1].0,
            meets(o, rows[n - 1].1, cond, names),
        ));
    }
}

/// The batch of one row.
pub fn one_row(row: &Vec<Value>) -> (r: DataChunk)
    ensures
        r.wf(),
        r.deep_view() == row_chunk(row.deep_view()),
        aligned(r.deep_view()),
{
    let ghost m = row_chunk(row.deep_view());
    let mut columns: Vec<Vector> = Vec::new();
    let mut j: usize = 0;
    while j < row.len()
        invariant
            j <= row.len(),
            m == row_chunk(row.deep_view()),
            columns.deep_view() == m.columns.subrange(0, j as int),
            forall|k: int| 0 <= k < columns.len() ==> (#[trigger] columns[k]).wf(),
        decreases row.len() - j,
    {
        let v = row[j].clone();
        assert(row.deep_view()[j as int] == row[j as int].deep_view());
        let mut cell: Vec<Value> = Vec::new();
        let ghost dv = v.deep_view();
        cell.push(v);
        assert(cell.deep_view() =~= seq![dv]);
        let c = Vector::Flat(cell);
        let ghost before = columns.deep_view();
        columns.push(c);
        assert(columns.deep_view() =~= before.push(c.deep_view()));
        j += 1;
        assert(columns.deep_view() =~= m.columns.subrange(0, j as int));
    }
    assert(columns.deep_view() =~= m.columns);
    let r = DataChunk { columns, count: 1 };
    assert(r.deep_view() =~= m);
    r
}

/// The names of columns.
pub fn names_of(columns: &Vec<ColumnDef>) -> (r: Vec<String>)
    ensures
        r.deep_view() == column_names(columns.deep_view()),
{
    let ghost m = column_names(columns.deep_view());
    let mut out: Vec<String> = Vec::new();
    let mut j: usize = 0;
    while j < columns.len()
        invariant
            j <= columns.len(),
            m == column_names(columns.deep_view()),
            out.deep_view() == m.subrange(0, j as int),
        decreases columns.len() - j,
    {
        assert(columns.deep_view()[j as int] == columns[j as int].deep_view());
        let s = columns[j].name.clone();
        let ghost before = out.deep_view();
        out.push(s);
        assert(out.deep_view() =~= before.push(s@));
        j += 1;
        assert(out.deep_view() =~= m.subrange(0, j as int));
    }
    assert(out.deep_view() =~= m);
    out
}

/// Whether a condition is true of a row.
pub fn row_meets<E: Fn(Ask) -> Reply>(
    row: &Vec<Value>,
    condition: &Option<Expression>,
    names: &Vec<String>,
    env: &E,
) -> (r: Result<bool, EngramDbError>)
    requires
        answers(*env),
    ensures
        opt_calm(opt_expr(*condition)) ==> decides(
            r,
            meets(oracle(*env), row.deep_view(), opt_expr(*condition), names.deep_view()),
        ),
        exists|p: Option<Expr>| #[trigger]
            opt_drawn(opt_expr(*condition), p) && decides(
                r,
                meets(oracle(*env), row.deep_view(), p, names.deep_view()),
            ),
{
    match condition {
        None => {
            assert(opt_drawn(None, None));
            Ok(true)
        },
        Some(e) => {
            let chunk = one_row(row);
            let kept = filter_chunk(&chunk, e, names, env);
            proof {
                let p = choose|p: Expr| #[trigger]
                    drawn(e.deep_view(), p) && gives_chunk(
                        kept,
                        filtered(oracle(*env), chunk.deep_view(), p, names.deep_view()),
                    );
                assert(opt_drawn(opt_expr(*condition), Some(p)));
            }
            match kept {
                Ok(c) => Ok(c.count > 0),
                Err(x) => Err(x),
            }
        },
    }
}

/// Whether a result and the database are what the model says.
pub open spec fn numbers(
    r: Result<usize, EngramDbError>,
    after: Db,
    m: (Result<u64, Fault>, Db),
) -> bool {
    &&& after == m.1
    &&& match (r, m.0) {
        (Ok(a), Ok(b)) => a as u64 == b,
        (Err(e), Err(f)) => e.deep_view() == f,
        _ => false,
    }
}

/// Applies writes, through a transaction of their own where the
/// configuration asks for one.
pub fn run_writes(db: &mut Database, ops: Vec<ApplyOp>) -> (r: Result<usize, EngramDbError>)
    requires
        old(db).wf(),
    ensures
        final(db).wf(),
        numbers(
            r,
            final(db).deep_view(),
            ran_writes(old(db).deep_view(), ops.deep_view()),
        ),
{
    let ghost d = db.deep_view();
    let n: usize = ops.len();
    if n == 0 {
        return Ok(0);
    }
    if db.config.enable_transaction && db.txns.is_ready() {
        let isolation = db.config.default_isolation_level;
        let id: u64 = db.txns.begin(isolation);
        proof {
            law_commit_hands_out_writes(d.txns, ops.deep_view());
        }
        match db.txns.add(id, ops) {
            Ok(_) => {},
            Err(e) => {
                return Err(e);
            },
        }
        let done = match db.txns.commit(id) {
            Ok(c) => c,
            Err(e) => {
                return Err(e);
            },
        };
        assert(db.deep_view() =~= Db { txns: ticked(d.txns), ..d });
        match apply_to_storage(db, &done.apply_ops) {
            Ok(_) => Ok(n),
            Err(e) => Err(e),
        }
    } else {
        match apply_to_storage(db, &ops) {
            Ok(_) => Ok(n),
            Err(e) => Err(e),
        }
    }
}

/// Deletes the rows of which a condition is true, and gives their number.
pub fn execute<E: Fn(Ask) -> Reply>(
    db: &mut Database,
    table_name: &str,
    condition: &Option<Expression>,
    env: &E,
) -> (r: Result<usize, EngramDbError>)
    requires
        answers(*env),
        old(db).wf(),
    ensures
        final(db).wf(),
        opt_calm(opt_expr(*condition)) ==> numbers(
            r,
            final(db).deep_view(),
            deleted(oracle(*env), old(db).deep_view(), table_name@, opt_expr(*condition)),
        ),
        exists|m: (Result<u64, Fault>, Db)| #[trigger]
            can_delete(
                oracle(*env),
                old(db).deep_view(),
                table_name@,
                opt_expr(*condition),
                m,
            ) && numbers(r, final(db).deep_view(), m),
{
    let ghost o = oracle(*env);
    let ghost d = db.deep_view();
    let ghost cond = opt_expr(*condition);
    let k: usize = match db.find_table(table_name) {
        Some(k) => k,
        None => {
            let e = EngramDbError::TableNotFound(table_name.to_owned());
            assert(can_delete(o, d, table_name@, cond, (Err(e.deep_view()), d)));
            return Err(e);
        },
    };
    if db.tables[k].def.columns.len() == 0 {
        assert(can_delete(o, d, table_name@, cond, (Ok(0), d)));
        return Ok(0);
    }
    let names = names_of(&db.tables[k].def.columns);
    let rows = db.tables[k].collect_mutable_rows();
    let ghost all = rows.deep_view();
    let mut ops: Vec<ApplyOp> = Vec::new();
    assert(ops.deep_view() =~= Seq::empty());
    let mut i: usize = 0;
    while i < rows.len()
        invariant
            answers(*env),
            o == oracle(*env),
            cond == opt_expr(*condition),
            db.wf(),
            *db == *old(db),
            k < db.tables.len(),
            named(db.deep_view(), table_name@) == Some(k as int),
            db.deep_view().tables[k as int].def.columns.len() > 0,
            names.deep_view() == column_names(db.deep_view().tables[k as int].def.columns),
            all == rows.deep_view(),
            all == live(
                db.deep_view().tables[k as int].slots,
                db.deep_view().tables[k as int].slots.len(),
            ),
            i <= rows.len(),
            opt_calm(cond) ==> deletions(o, k as u32, all, cond, names.deep_view(), i as nat) == Ok::<
                Seq<Op>,
                Fault,
            >(ops.deep_view()),
            d == old(db).deep_view(),
            can_choose(
                o,
                k as u32,
                all,
                cond,
                names.deep_view(),
                i as nat,
                Ok(ops.deep_view()),
            ),
        decreases rows.len() - i,
    {
        assert(all[i as int] == rows[i as int].deep_view());
        let chosen = row_meets(&rows[i].1, condition, &names, env);
        proof {
            let row = all[i as int].1;
            let p = choose|p: Option<Expr>| #[trigger]
                opt_drawn(cond, p) && decides(chosen, meets(o, row, p, names.deep_view()));
            let done = Ok::<Seq<Op>, Fault>(ops.deep_view());
            assert(can_choose(
                o,
                k as u32,
                all,
                cond,
                names.deep_view(),
                (i + 1) as nat,
                and_deletion(
                    done,
                    k as u32,
                    all[i as int].0,
                    meets(o, row, p, names.deep_view()),
                ),
            ));
        }
        match chosen {
            Ok(b) => {
                if b {
                    let op = ApplyOp::Delete { table_id: k as u32, row_id: rows[i].0 };
                    let ghost before = ops.deep_view();
                    ops.push(op);
                    assert(ops.deep_view() =~= before.push(op.deep_view()));
                }
            },
            Err(e) => {
                proof {
                    if opt_calm(cond) {
                        lemma_deletions_fail(
                            o,
                            k as u32,
                            all,
                            cond,
                            names.deep_view(),
                            (i + 1) as nat,
                            all.len(),
                        );
                    }
                    let f = e.deep_view();
                    lemma_can_fail(
                        o,
                        k as u32,
                        all,
                        cond,
                        names.deep_view(),
                        (i + 1) as nat,
                        all.len(),
                        f,
                    );
                    assert(can_delete(o, d, table_name@, cond, (Err(f), d)));
                }
                return Err(e);
            },
        }
        i += 1;
    }
    assert(can_delete(o, d, table_name@, cond, ran_writes(d, ops.deep_view())));
    run_writes(db, ops)
}

/// An error among the first rows is the error of all.
proof fn lemma_deletions_fail(
    o: spec_fn(Question) -> Answer,
    table_id: u32,
    rows: Seq<(u64, Seq<Datum>)>,
    cond: Option<Expr>,
    names: Seq<Seq<char>>,
    k: nat,
    n: nat,
)
    requires
        k <= n,
        deletions(o, table_id, rows, cond, names, k) is Err,
    ensures
        deletions(o, table_id, rows, cond, names, n) == deletions(
            o,
            table_id,
            rows,
            cond,
            names,
            k,
        ),
    decreases n - k,
{
    if k < n {
        lemma_deletions_fail(o, table_id, rows, cond, names, k, (n - 1) as nat);
    }
}

} // verus!
