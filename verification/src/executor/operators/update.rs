//! Update.
use vstd::prelude::*;

use crate::common::error::{EngramDbError, Fault};
use crate::common::types::EngineType;
use crate::executor::env::{answers, oracle, Answer, Ask, Question, Reply};
use crate::executor::expression::draws::{drawn, told};
use crate::executor::expression::eval::{calm, eval, eval_vectorized};
use crate::executor::operators::delete::{
    column_names, meets, names_of, numbers, one_row, opt_calm, opt_drawn, opt_expr, ran_writes,
    row_chunk, row_meets, run_writes,
};
use crate::executor::vector::col_at;
use crate::sql::ast::{Expr, Expression};
use crate::storage::database::{named, Database, Db};
use crate::storage::table::live;
use crate::storage::txn::{ApplyOp, Op};
use crate::value::{clone_row, Datum};
use crate::Value;

verus! {

/// The value of an expression on a row.
pub open spec fn value_on(
    o: spec_fn(Question) -> Answer,
    row: Seq<Datum>,
    e: Expr,
    names: Seq<Seq<char>>,
) -> Result<Datum, Fault> {
    match eval(o, e, row_chunk(row), names) {
        Ok(c) => Ok(col_at(c, 0)),
        Err(f) => Err(f),
    }
}

/// A row after the first `n` assignments, each of which reads the row as it
/// was, and whether one of them hit a column.
pub open spec fn rewritten(
    o: spec_fn(Question) -> Answer,
    row: Seq<Datum>,
    names: Seq<Seq<char>>,
    sets: Seq<(usize, Expr)>,
    n: nat,
) -> Result<(Seq<Datum>, bool), Fault>
    decreases n,
{
    if n == 0 {
        Ok((row, false))
    } else {
        match rewritten(o, row, names, sets, (n - 1) as nat) {
            Err(f) => Err(f),
            Ok(done) => match value_on(o, row, sets[n - 1].1, names) {
                Err(f) => Err(f),
                Ok(d) => Ok(
                    if sets[n - 1].0 < done.0.len() {
                        (done.0.update(sets[n - 1].0 as int, d), true)
                    } else {
                        done
                    },
                ),
            },
        }
    }
}

/// The update of a row, where a condition is true of it and an assignment
/// hits a column.
pub open spec fn changed_row(
    o: spec_fn(Question) -> Answer,
    row: Seq<Datum>,
    sets: Seq<(usize, Expr)>,
    cond: Option<Expr>,
    names: Seq<Seq<char>>,
) -> Result<Option<Seq<Datum>>, Fault> {
    match meets(o, row, cond, names) {
        Err(f) => Err(f),
        Ok(b) => if b {
            match rewritten(o, row, names, sets, sets.len()) {
                Err(f) => Err(f),
                Ok(w) => Ok(
                    if w.1 {
                        Some(w.0)
                    } else {
                        None
                    },
                ),
            }
        } else {
            Ok(None)
        },
    }
}

/// The updates of the first `n` rows, or the first error.
pub open spec fn changes(
    o: spec_fn(Question) -> Answer,
    table_id: u32,
    rows: Seq<(u64, Seq<Datum>)>,
    sets: Seq<(usize, Expr)>,
    cond: Option<Expr>,
    names: Seq<Seq<char>>,
    n: nat,
) -> Result<Seq<Op>, Fault>
    decreases n,
{
    if n == 0 {
        Ok(Seq::empty())
    } else {
        match changes(o, table_id, rows, sets, cond, names, (n - 1) as nat) {
            Err(f) => Err(f),
            Ok(done) => match changed_row(o, rows[n - 1].1, sets, cond, names) {
                Err(f) => Err(f),
                Ok(None) => Ok(done),
                Ok(Some(row)) => Ok(done.push(Op::Update(table_id, rows[n - 1].0, row))),
            },
        }
    }
}

/// The error of a table that is only appended to.
pub open spec fn append_only() -> Fault {
    Fault::NotSupported("LogEngine 不支持 UPDATE（追加式时间序列引擎）"@)
}

/// The update of the rows of which a condition is true. Without transactions
/// a table that is only appended to cannot be updated.
pub open spec fn updated_rows(
    o: spec_fn(Question) -> Answer,
    d: Db,
    name: Seq<char>,
    sets: Seq<(usize, Expr)>,
    cond: Option<Expr>,
) -> (Result<u64, Fault>, Db) {
    match named(d, name) {
        None => (Err(Fault::TableNotFound(name)), d),
        Some(k) => {
            let t = d.tables[k];
            let rows = live(t.slots, t.slots.len());
            if t.def.columns.len() == 0 {
                (Ok(0), d)
            } else if !(d.config.enable_transaction && d.txns.ready) && t.def.engine
                == EngineType::Log {
                (Err(append_only()), d)
            } else {
                match changes(
                    o,
                    k as u32,
                    rows,
                    sets,
                    cond,
                    column_names(t.def.columns),
                    rows.len(),
                ) {
                    Err(f) => (Err(f), d),
                    Ok(ops) => ran_writes(d, ops),
                }
            }
        },
    }
}

/// Whether all assigned expressions give equal results on equal rows.
pub open spec fn sets_calm(sets: Seq<(usize, Expr)>) -> bool {
    forall|i: int| 0 <= i < sets.len() ==> calm(#[trigger] sets[i].1)
}

/// Whether assignments are others with numbers in place of calls of RANDOM.
pub open spec fn sets_drawn(sets: Seq<(usize, Expr)>, ps: Seq<(usize, Expr)>) -> bool {
    sets.len() == ps.len() && forall|i: int|
        #![trigger sets[i]]
        0 <= i < sets.len() ==> sets[i].0 == ps[i].0 && drawn(sets[i].1, ps[i].1)
}

/// Whether a rewritten row is what the model says.
pub open spec fn rewrites(
    r: Result<Option<Vec<Value>>, EngramDbError>,
    m: Result<(Seq<Datum>, bool), Fault>,
) -> bool {
    match (r, m) {
        (Ok(Some(v)), Ok(w)) => w.1 && v.deep_view() == w.0,
        (Ok(None), Ok(w)) => !w.1,
        (Err(e), Err(f)) => e.deep_view() == f,
        _ => false,
    }
}

/// Whether the update of a row is what the model says.
pub open spec fn alters(
    r: Result<Option<Vec<Value>>, EngramDbError>,
    m: Result<Option<Seq<Datum>>, Fault>,
) -> bool {
    match (r, m) {
        (Ok(Some(v)), Ok(Some(w))) => v.deep_view() == w,
        (Ok(None), Ok(None)) => true,
        (Err(e), Err(f)) => e.deep_view() == f,
        _ => false,
    }
}

/// The updates so far, and that of one more row.
pub open spec fn and_change(
    done: Result<Seq<Op>, Fault>,
    table_id: u32,
    id: u64,
    row: Result<Option<Seq<Datum>>, Fault>,
) -> Result<Seq<Op>, Fault> {
    match (done, row) {
        (Err(f), _) => Err(f),
        (_, Err(f)) => Err(f),
        (Ok(done), Ok(None)) => Ok(done),
        (Ok(done), Ok(Some(row))) => Ok(done.push(Op::Update(table_id, id, row))),
    }
}

/// Whether the first `n` rows can give updates: as [`changes`] says, with
/// numbers of its own for every row in place of the calls of RANDOM.
pub open spec fn can_change(
    o: spec_fn(Question) -> Answer,
    table_id: u32,
    rows: Seq<(u64, Seq<Datum>)>,
    sets: Seq<(usize, Expr)>,
    cond: Option<Expr>,
    names: Seq<Seq<char>>,
    n: nat,
    r: Result<Seq<Op>, Fault>,
) -> bool
    decreases n,
{
    if n == 0 {
        r == Ok::<Seq<Op>, Fault>(Seq::empty())
    } else {
        exists|done: Result<Seq<Op>, Fault>, ps: Seq<(usize, Expr)>, p: Option<Expr>|
            can_change(o, table_id, rows, sets, cond, names, (n - 1) as nat, done) && sets_drawn(
                sets,
                ps,
            ) && opt_drawn(cond, p) && r == #[trigger] and_change(
                done,
                table_id,
                rows[n - 1].0,
                changed_row(o, rows[n - 1].1, ps, p, names),
            )
    }
}

/// Whether an update can end so: as [`updated_rows`] says, with numbers of its
/// own for every row in place of the calls of RANDOM.
pub open spec fn can_update(
    o: spec_fn(Question) -> Answer,
    d: Db,
    name: Seq<char>,
    sets: Seq<(usize, Expr)>,
    cond: Option<Expr>,
    m: (Result<u64, Fault>, Db),
) -> bool {
    match named(d, name) {
        None => m == (Err::<u64, Fault>(Fault::TableNotFound(name)), d),
        Some(k) => {
            let t = d.tables[k];
            let rows = live(t.slots, t.slots.len());
            if t.def.columns.len() == 0 {
                m == (Ok::<u64, Fault>(0), d)
            } else if !(d.config.enable_transaction && d.txns.ready) && t.def.engine
                == EngineType::Log {
                m == (Err::<u64, Fault>(append_only()), d)
            } else {
                exists|ops: Result<Seq<Op>, Fault>| #[trigger]
                    can_change(
                        o,
                        k as u32,
                        rows,
                        sets,
                        cond,
                        column_names(t.def.columns),
                        rows.len(),
                        ops,
                    ) && m == (match ops {
                        Err(f) => (Err(f), d),
                        Ok(ops) => ran_writes(d, ops),
                    })
            }
        },
    }
}

/// An error that the first rows can give, all can give.
proof fn lemma_can_fail(
    o: spec_fn(Question) -> Answer,
    table_id: u32,
    rows: Seq<(u64, Seq<Datum>)>,
    sets: Seq<(usize, Expr)>,
    cond: Option<Expr>,
    names: Seq<Seq<char>>,
    k: nat,
    n: nat,
    f: Fault,
)
    requires
        k <= n,
        can_change(o, table_id, rows, sets, cond, names, k, Err(f)),
    ensures
        can_change(o, table_id, rows, sets, cond, names, n, Err(f)),
    decreases n - k,
{
    if k < n {
        lemma_can_fail(o, table_id, rows, sets, cond, names, k, (n - 1) as nat, f);
        let done = Err::<Seq<Op>, Fault>(f);
        assert(opt_drawn(cond, cond) && sets_drawn(sets, sets));
        assert(done == and_change(
            done,
            table_id,
            rows[n - 1].0,
            changed_row(o, rows[n - 1].1, sets, cond, names),
        ));
    }
}

/// A row after the first assignments depends on those alone.
proof fn lemma_rewritten_first(
    o: spec_fn(Question) -> Answer,
    row: Seq<Datum>,
    names: Seq<Seq<char>>,
    ps: Seq<(usize, Expr)>,
    qs: Seq<(usize, Expr)>,
    n: nat,
)
    requires
        forall|i: int| 0 <= i < n ==> ps[i] == qs[i],
    ensures
        rewritten(o, row, names, ps, n) == rewritten(o, row, names, qs, n),
    decreases n,
{
    if n > 0 {
        lemma_rewritten_first(o, row, names, ps, qs, (n - 1) as nat);
    }
}

/// A row after assignments, where one of them hits a column.
fn rewrite_row<E: Fn(Ask) -> Reply>(
    row: &Vec<Value>,
    assignments: &Vec<(usize, Expression)>,
    names: &Vec<String>,
    env: &E,
) -> (r: Result<Option<Vec<Value>>, EngramDbError>)
    requires
        answers(*env),
    ensures
        sets_calm(assignments.deep_view()) ==> rewrites(
            r,
            rewritten(
                oracle(*env),
                row.deep_view(),
                names.deep_view(),
                assignments.deep_view(),
                assignments.deep_view().len(),
            ),
        ),
        exists|ps: Seq<(usize, Expr)>| #[trigger]
            sets_drawn(assignments.deep_view(), ps) && rewrites(
                r,
                rewritten(
                    oracle(*env),
                    row.deep_view(),
                    names.deep_view(),
                    ps,
                    ps.len(),
                ),
            ),
{
    let ghost o = oracle(*env);
    let ghost old_row = row.deep_view();
    let ghost ns = names.deep_view();
    let ghost sets = assignments.deep_view();
    let chunk = one_row(row);
    let mut new_row = clone_row(row);
    let mut hit: bool = false;
    let ghost mut ps = sets;
    let mut i: usize = 0;
    while i < assignments.len()
        invariant
            answers(*env),
            o == oracle(*env),
            chunk.wf(),
            chunk.count == 1,
            old_row == row.deep_view(),
            chunk.deep_view() == row_chunk(old_row),
            crate::executor::vector::aligned(chunk.deep_view()),
            ns == names.deep_view(),
            sets == assignments.deep_view(),
            i <= assignments.len(),
            sets_calm(sets) ==> rewritten(o, old_row, ns, sets, i as nat) == Ok::<
                (Seq<Datum>, bool),
                Fault,
            >((new_row.deep_view(), hit)),
            sets_drawn(sets, ps),
            rewritten(o, old_row, ns, ps, i as nat) == Ok::<(Seq<Datum>, bool), Fault>(
                (new_row.deep_view(), hit),
            ),
        decreases assignments.len() - i,
    {
        assert(sets[i as int] == assignments[i as int].deep_view());
        let given = eval_vectorized(&assignments[i].1, &chunk, names, env);
        proof {
            let e = sets[i as int].1;
            let p = choose|p: Expr| #[trigger]
                drawn(e, p) && eval(o, p, row_chunk(old_row), ns) == told(given);
            let qs = ps.update(i as int, (sets[i as int].0, p));
            lemma_rewritten_first(o, old_row, ns, ps, qs, i as nat);
            ps = qs;
        }
        match given {
            Ok(c) => {
                let v = c.get(0);
                let at: usize = assignments[i].0;
                if at < new_row.len() {
                    let ghost before = new_row.deep_view();
                    let ghost dv = v.deep_view();
                    new_row.set(at, v);
                    assert(new_row.deep_view() =~= before.update(at as int, dv));
                    hit = true;
                }
            },
            Err(e) => {
                proof {
                    if sets_calm(sets) {
                        lemma_rewritten_fails(o, old_row, ns, sets, (i + 1) as nat, sets.len());
                    }
                    assert(ps[i as int].0 == sets[i as int].0);
                    assert(value_on(o, old_row, ps[i as int].1, ns) == Err::<Datum, Fault>(
                        e.deep_view(),
                    ));
                    lemma_rewritten_fails(o, old_row, ns, ps, (i + 1) as nat, ps.len());
                    assert(sets_drawn(sets, ps));
                }
                return Err(e);
            },
        }
        i += 1;
    }
    Ok(
        if hit {
            Some(new_row)
        } else {
            None
        },
    )
}

/// An error among the first assignments is the error of all.
proof fn lemma_rewritten_fails(
    o: spec_fn(Question) -> Answer,
    row: Seq<Datum>,
    names: Seq<Seq<char>>,
    sets: Seq<(usize, Expr)>,
    k: nat,
    n: nat,
)
    requires
        k <= n,
        rewritten(o, row, names, sets, k) is Err,
    ensures
        rewritten(o, row, names, sets, n) == rewritten(o, row, names, sets, k),
    decreases n - k,
{
    if k < n {
        lemma_rewritten_fails(o, row, names, sets, k, (n - 1) as nat);
    }
}

/// An error among the first rows is the error of all.
proof fn lemma_changes_fail(
    o: spec_fn(Question) -> Answer,
    table_id: u32,
    rows: Seq<(u64, Seq<Datum>)>,
    sets: Seq<(usize, Expr)>,
    cond: Option<Expr>,
    names: Seq<Seq<char>>,
    k: nat,
    n: nat,
)
    requires
        k <= n,
        changes(o, table_id, rows, sets, cond, names, k) is Err,
    ensures
        changes(o, table_id, rows, sets, cond, names, n) == changes(
            o,
            table_id,
            rows,
            sets,
            cond,
            names,
            k,
        ),
    decreases n - k,
{
    if k < n {
        lemma_changes_fail(o, table_id, rows, sets, cond, names, k, (n - 1) as nat);
    }
}

/// The update of a row.
fn change_row<E: Fn(Ask) -> Reply>(
    row: &Vec<Value>,
    assignments: &Vec<(usize, Expression)>,
    condition: &Option<Expression>,
    names: &Vec<String>,
    env: &E,
) -> (r: Result<Option<Vec<Value>>, EngramDbError>)
    requires
        answers(*env),
    ensures
        opt_calm(opt_expr(*condition)) && sets_calm(assignments.deep_view()) ==> alters(
            r,
            changed_row(
                oracle(*env),
                row.deep_view(),
                assignments.deep_view(),
                opt_expr(*condition),
                names.deep_view(),
            ),
        ),
        exists|ps: Seq<(usize, Expr)>, p: Option<Expr>|
            #![trigger sets_drawn(assignments.deep_view(), ps), opt_drawn(opt_expr(*condition), p)]
            sets_drawn(assignments.deep_view(), ps) && opt_drawn(opt_expr(*condition), p) && alters(
                r,
                changed_row(oracle(*env), row.deep_view(), ps, p, names.deep_view()),
            ),
{
    assert(sets_drawn(assignments.deep_view(), assignments.deep_view()));
    match row_meets(row, condition, names, env) {
        Ok(b) => if b {
            rewrite_row(row, assignments, names, env)
        } else {
            Ok(None)
        },
        Err(e) => Err(e),
    }
}

/// The updates of rows.
fn collect_changes<E: Fn(Ask) -> Reply>(
    table_id: u32,
    rows: &Vec<(u64, Vec<Value>)>,
    assignments: &Vec<(usize, Expression)>,
    condition: &Option<Expression>,
    names: &Vec<String>,
    env: &E,
) -> (r: Result<Vec<ApplyOp>, EngramDbError>)
    requires
        answers(*env),
    ensures
        opt_calm(opt_expr(*condition)) && sets_calm(assignments.deep_view()) ==> match (
            r,
            changes(
                oracle(*env),
                table_id,
                rows.deep_view(),
                assignments.deep_view(),
                opt_expr(*condition),
                names.deep_view(),
                rows.deep_view().len(),
            ),
        ) {
            (Ok(v), Ok(w)) => v.deep_view() == w,
            (Err(e), Err(f)) => e.deep_view() == f,
            _ => false,
        },
        can_change(
            oracle(*env),
            table_id,
            rows.deep_view(),
            assignments.deep_view(),
            opt_expr(*condition),
            names.deep_view(),
            rows.deep_view().len(),
            match r {
                Ok(v) => Ok(v.deep_view()),
                Err(e) => Err(e.deep_view()),
            },
        ),
{
    let ghost o = oracle(*env);
    let ghost cond = opt_expr(*condition);
    let ghost sets = assignments.deep_view();
    let ghost all = rows.deep_view();
    let ghost ns = names.deep_view();
    let mut ops: Vec<ApplyOp> = Vec::new();
    assert(ops.deep_view() =~= Seq::empty());
    let mut i: usize = 0;
    while i < rows.len()
        invariant
            answers(*env),
            o == oracle(*env),
            cond == opt_expr(*condition),
            sets == assignments.deep_view(),
            all == rows.deep_view(),
            ns == names.deep_view(),
            i <= rows.len(),
            opt_calm(cond) && sets_calm(sets) ==> changes(
                o,
                table_id,
                all,
                sets,
                cond,
                ns,
                i as nat,
            ) == Ok::<Seq<Op>, Fault>(ops.deep_view()),
            can_change(o, table_id, all, sets, cond, ns, i as nat, Ok(ops.deep_view())),
        decreases rows.len() - i,
    {
        assert(all[i as int] == rows[i as int].deep_view());
        let made = change_row(&rows[i].1, assignments, condition, names, env);
        proof {
            let row = all[i as int].1;
            let (ps, p) = choose|ps: Seq<(usize, Expr)>, p: Option<Expr>|
                #![trigger sets_drawn(sets, ps), opt_drawn(cond, p)]
                sets_drawn(sets, ps) && opt_drawn(cond, p) && alters(
                    made,
                    changed_row(o, row, ps, p, ns),
                );
            let done = Ok::<Seq<Op>, Fault>(ops.deep_view());
            assert(can_change(
                o,
                table_id,
                all,
                sets,
                cond,
                ns,
                (i + 1) as nat,
                and_change(done, table_id, all[i as int].0, changed_row(o, row, ps, p, ns)),
            ));
        }
        match made {
            Ok(Some(row)) => {
                let op = ApplyOp::Update { table_id, row_id: rows[i].0, new_row: row };
                let ghost before = ops.deep_view();
                ops.push(op);
                assert(ops.deep_view() =~= before.push(op.deep_view()));
            },
            Ok(None) => {},
            Err(e) => {
                proof {
                    if opt_calm(cond) && sets_calm(sets) {
                        lemma_changes_fail(
                            o,
                            table_id,
                            all,
                            sets,
                            cond,
                            ns,
                            (i + 1) as nat,
                            all.len(),
                        );
                    }
                    lemma_can_fail(
                        o,
                        table_id,
                        all,
                        sets,
                        cond,
                        ns,
                        (i + 1) as nat,
                        all.len(),
                        e.deep_view(),
                    );
                }
                return Err(e);
            },
        }
        i += 1;
    }
    Ok(ops)
}

/// Updates the rows of which a condition is true, and gives their number.
pub fn execute<E: Fn(Ask) -> Reply>(
    db: &mut Database,
    table_name: &str,
    assignments: &Vec<(usize, Expression)>,
    condition: &Option<Expression>,
    env: &E,
) -> (r: Result<usize, EngramDbError>)
    requires
        answers(*env),
        old(db).wf(),
    ensures
        final(db).wf(),
        opt_calm(opt_expr(*condition)) && sets_calm(assignments.deep_view()) ==> numbers(
            r,
            final(db).deep_view(),
            updated_rows(
                oracle(*env),
                old(db).deep_view(),
                table_name@,
                assignments.deep_view(),
                opt_expr(*condition),
            ),
        ),
        exists|m: (Result<u64, Fault>, Db)| #[trigger]
            can_update(
                oracle(*env),
                old(db).deep_view(),
                table_name@,
                assignments.deep_view(),
                opt_expr(*condition),
                m,
            ) && numbers(r, final(db).deep_view(), m),
{
    let ghost o = oracle(*env);
    let ghost d = db.deep_view();
    let ghost sets = assignments.deep_view();
    let ghost cond = opt_expr(*condition);
    let k: usize = match db.find_table(table_name) {
        Some(k) => k,
        None => {
            let e = EngramDbError::TableNotFound(table_name.to_owned());
            assert(can_update(o, d, table_name@, sets, cond, (Err(e.deep_view()), d)));
            return Err(e);
        },
    };
    if db.tables[k].def.columns.len() == 0 {
        assert(can_update(o, d, table_name@, sets, cond, (Ok(0), d)));
        return Ok(0);
    }
    if !(db.config.enable_transaction && db.txns.is_ready()) && db.tables[k].def.engine
        == EngineType::Log {
        let e = EngramDbError::NotSupported(
            "LogEngine 不支持 UPDATE（追加式时间序列引擎）".to_owned(),
        );
        assert(can_update(o, d, table_name@, sets, cond, (Err(e.deep_view()), d)));
        return Err(e);
    }
    let names = names_of(&db.tables[k].def.columns);
    let rows = db.tables[k].collect_mutable_rows();
    match collect_changes(k as u32, &rows, assignments, condition, &names, env) {
        Ok(ops) => {
            assert(can_update(o, d, table_name@, sets, cond, ran_writes(d, ops.deep_view())));
            run_writes(db, ops)
        },
        Err(e) => {
            assert(can_update(o, d, table_name@, sets, cond, (Err(e.deep_view()), d)));
            Err(e)
        },
    }
}

} // verus!
