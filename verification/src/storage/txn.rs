//! Transactions: the writes that they collect until they commit.
use vstd::prelude::*;

use crate::common::config::IsolationLevel;
use crate::common::error::{EngramDbError, Fault};
use crate::text::{dec, join3, same_text, u64_text};
use crate::value::Datum;
use crate::Value;

verus! {

/// A write to a table, to be applied at commit.
#[derive(Debug)]
pub enum ApplyOp {
    Insert { table_id: u32, row_id: u64, row: Vec<Value> },
    /// Rows as columns of values.
    InsertBatch { table_id: u32, base_row_id: u64, columns: Vec<Vec<Value>> },
    Update { table_id: u32, row_id: u64, new_row: Vec<Value> },
    Delete { table_id: u32, row_id: u64 },
}

/// The model of an [`ApplyOp`].
#[verifier::ext_equal]
pub enum Op {
    Insert(u32, u64, Seq<Datum>),
    InsertBatch(u32, u64, Seq<Seq<Datum>>),
    Update(u32, u64, Seq<Datum>),
    Delete(u32, u64),
}

impl DeepView for ApplyOp {
    type V = Op;

    open spec fn deep_view(&self) -> Op {
        match self {
            ApplyOp::Insert { table_id, row_id, row } => Op::Insert(
                *table_id,
                *row_id,
                row.deep_view(),
            ),
            ApplyOp::InsertBatch { table_id, base_row_id, columns } => Op::InsertBatch(
                *table_id,
                *base_row_id,
                columns.deep_view(),
            ),
            ApplyOp::Update { table_id, row_id, new_row } => Op::Update(
                *table_id,
                *row_id,
                new_row.deep_view(),
            ),
            ApplyOp::Delete { table_id, row_id } => Op::Delete(*table_id, *row_id),
        }
    }
}

/// A named point in a transaction: how many writes stood before it.
#[derive(Debug)]
pub struct Savepoint {
    pub name: String,
    pub writes: usize,
}

impl DeepView for Savepoint {
    type V = (Seq<char>, usize);

    open spec fn deep_view(&self) -> (Seq<char>, usize) {
        (self.name@, self.writes)
    }
}

/// An open transaction.
#[derive(Debug)]
pub struct Transaction {
    pub id: u64,
    pub ops: Vec<ApplyOp>,
    pub savepoints: Vec<Savepoint>,
}

/// The model of a [`Transaction`].
#[verifier::ext_equal]
pub struct Txn {
    pub id: u64,
    pub ops: Seq<Op>,
    pub savepoints: Seq<(Seq<char>, usize)>,
}

impl DeepView for Transaction {
    type V = Txn;

    open spec fn deep_view(&self) -> Txn {
        Txn { id: self.id, ops: self.ops.deep_view(), savepoints: self.savepoints.deep_view() }
    }
}

/// What a commit leaves to be done.
#[derive(Debug)]
pub struct CommitResult {
    pub commit_ts: u64,
    pub apply_ops: Vec<ApplyOp>,
}

/// The transactions of a database.
#[derive(Debug)]
pub struct TxnManager {
    pub ready: bool,
    pub last: u64,
    pub clock: u64,
    pub open: Vec<Transaction>,
}

/// The model of a [`TxnManager`].
#[verifier::ext_equal]
pub struct Txns {
    pub ready: bool,
    pub last: u64,
    pub clock: u64,
    pub open: Seq<Txn>,
}

impl DeepView for TxnManager {
    type V = Txns;

    open spec fn deep_view(&self) -> Txns {
        Txns {
            ready: self.ready,
            last: self.last,
            clock: self.clock,
            open: self.open.deep_view(),
        }
    }
}

/// No transactions.
pub open spec fn no_txns(ready: bool) -> Txns {
    Txns { ready, last: 0, clock: 0, open: Seq::empty() }
}

/// The transactions after the start of one, whose number is the next one.
pub open spec fn begun(t: Txns) -> (Txns, u64) {
    let id = t.last.wrapping_add(1);
    (
        Txns {
            last: id,
            open: t.open.push(Txn { id, ops: Seq::empty(), savepoints: Seq::empty() }),
            ..t
        },
        id,
    )
}

/// The place of the last open transaction of that number among the first `n`.
pub open spec fn open_at(open: Seq<Txn>, id: u64, n: nat) -> Option<int>
    decreases n,
{
    if n == 0 {
        None
    } else if open[n - 1].id == id {
        Some(n - 1)
    } else {
        open_at(open, id, (n - 1) as nat)
    }
}

/// The place of an open transaction.
pub open spec fn place(t: Txns, id: u64) -> Option<int> {
    open_at(t.open, id, t.open.len())
}

/// The error about a transaction that is not open.
pub open spec fn no_txn(id: u64) -> Fault {
    Fault::Transaction("Transaction "@ + dec(id as nat) + " not found"@)
}

/// The error about a savepoint that is not there.
pub open spec fn no_savepoint(name: Seq<char>) -> Fault {
    Fault::Transaction("Savepoint '"@ + name + "' not found"@)
}

/// The transactions with writes added to one.
pub open spec fn written(t: Txns, id: u64, ops: Seq<Op>) -> Result<Txns, Fault> {
    match place(t, id) {
        Some(k) => Ok(
            Txns { open: t.open.update(k, Txn { ops: t.open[k].ops + ops, ..t.open[k] }), ..t },
        ),
        None => Err(no_txn(id)),
    }
}

/// One insertion for each row, numbered from `base` on.
pub open spec fn row_inserts(table_id: u32, base: u64, rows: Seq<Seq<Datum>>) -> Seq<Op> {
    Seq::new(
        rows.len(),
        |i: int| Op::Insert(table_id, base.wrapping_add(i as u64), rows[i]),
    )
}

/// The transactions without one.
pub open spec fn closed(t: Txns, id: u64) -> Result<Txns, Fault> {
    match place(t, id) {
        Some(k) => Ok(Txns { open: t.open.remove(k), ..t }),
        None => Err(no_txn(id)),
    }
}

/// The transactions after a commit, with the writes to apply.
pub open spec fn committed(t: Txns, id: u64) -> Result<(Txns, Seq<Op>), Fault> {
    match place(t, id) {
        Some(k) => Ok(
            (
                Txns { clock: t.clock.wrapping_add(1), open: t.open.remove(k), ..t },
                t.open[k].ops,
            ),
        ),
        None => Err(no_txn(id)),
    }
}

/// The last savepoint of that name among the first `n`.
pub open spec fn saved_at(s: Seq<(Seq<char>, usize)>, name: Seq<char>, n: nat) -> Option<int>
    decreases n,
{
    if n == 0 {
        None
    } else if s[n - 1].0 == name {
        Some(n - 1)
    } else {
        saved_at(s, name, (n - 1) as nat)
    }
}

/// The transactions after a savepoint was set.
pub open spec fn saved(t: Txns, id: u64, name: Seq<char>) -> Result<Txns, Fault> {
    match place(t, id) {
        Some(k) => Ok(
            Txns {
                open: t.open.update(
                    k,
                    Txn {
                        savepoints: t.open[k].savepoints.push((name, t.open[k].ops.len() as usize)),
                        ..t.open[k]
                    },
                ),
                ..t
            },
        ),
        None => Err(no_txn(id)),
    }
}

/// The transactions after a savepoint, and those behind it, were released.
pub open spec fn released(t: Txns, id: u64, name: Seq<char>) -> Result<Txns, Fault> {
    match place(t, id) {
        Some(k) => match saved_at(t.open[k].savepoints, name, t.open[k].savepoints.len()) {
            Some(j) => Ok(
                Txns {
                    open: t.open.update(
                        k,
                        Txn {
                            savepoints: t.open[k].savepoints.subrange(0, j),
                            ..t.open[k]
                        },
                    ),
                    ..t
                },
            ),
            None => Err(no_savepoint(name)),
        },
        None => Err(no_txn(id)),
    }
}

/// The first `n` of a sequence, or all of a shorter one.
pub open spec fn front<A>(s: Seq<A>, n: int) -> Seq<A> {
    if 0 <= n <= s.len() {
        s.subrange(0, n)
    } else {
        s
    }
}

/// The transactions after the return of one to a savepoint, which stays.
pub open spec fn returned(t: Txns, id: u64, name: Seq<char>) -> Result<Txns, Fault> {
    match place(t, id) {
        Some(k) => match saved_at(t.open[k].savepoints, name, t.open[k].savepoints.len()) {
            Some(j) => Ok(
                Txns {
                    open: t.open.update(
                        k,
                        Txn {
                            ops: front(t.open[k].ops, t.open[k].savepoints[j].1 as int),
                            savepoints: t.open[k].savepoints.subrange(0, j + 1),
                            ..t.open[k]
                        },
                    ),
                    ..t
                },
            ),
            None => Err(no_savepoint(name)),
        },
        None => Err(no_txn(id)),
    }
}

/// Whether the outcome of a change is what the model says.
pub open spec fn changed(
    r: Result<(), EngramDbError>,
    before: Txns,
    after: Txns,
    m: Result<Txns, Fault>,
) -> bool {
    match (r, m) {
        (Ok(_), Ok(t)) => after == t,
        (Err(e), Err(f)) => e.deep_view() == f && after == before,
        _ => false,
    }
}

/// The error about a transaction that is not open.
fn missing_txn(id: u64) -> (r: EngramDbError)
    ensures
        r.deep_view() == no_txn(id),
{
    let n = u64_text(id);
    EngramDbError::Transaction(join3("Transaction ", n.as_str(), " not found"))
}

/// The error about a savepoint that is not there.
fn missing_savepoint(name: &str) -> (r: EngramDbError)
    ensures
        r.deep_view() == no_savepoint(name@),
{
    EngramDbError::Transaction(join3("Savepoint '", name, "' not found"))
}

impl TxnManager {
    /// A manager without transactions.
    pub fn new() -> (r: Self)
        ensures
            r.deep_view() == no_txns(true),
    {
        let open: Vec<Transaction> = Vec::new();
        assert(open.deep_view() =~= Seq::empty());
        TxnManager { ready: true, last: 0, clock: 0, open }
    }

    /// Whether transactions can be started.
    pub fn is_ready(&self) -> (r: bool)
        ensures
            r == self.deep_view().ready,
    {
        self.ready
    }

    /// The place of an open transaction.
    fn find(&self, id: u64) -> (r: Option<usize>)
        ensures
            match (r, place(self.deep_view(), id)) {
                (Some(i), Some(k)) => i == k && i < self.open.len(),
                (None, None) => true,
                _ => false,
            },
    {
        let ghost open = self.deep_view().open;
        let mut n: usize = self.open.len();
        while n > 0
            invariant
                n <= self.open.len(),
                open == self.open.deep_view(),
                place(self.deep_view(), id) == open_at(open, id, n as nat),
            decreases n,
        {
            assert(open[n - 1] == self.open[n - 1].deep_view());
            if self.open[n - 1].id == id {
                return Some(n - 1);
            }
            n -= 1;
        }
        None
    }

    /// Starts a transaction. Every level reads a snapshot of the tables.
    pub fn begin(&mut self, isolation: IsolationLevel) -> (id: u64)
        ensures
            (final(self).deep_view(), id) == begun(old(self).deep_view()),
    {
        let ghost t = self.deep_view();
        let id: u64 = self.last.wrapping_add(1);
        self.last = id;
        let ops: Vec<ApplyOp> = Vec::new();
        let savepoints: Vec<Savepoint> = Vec::new();
        assert(ops.deep_view() =~= Seq::empty());
        assert(savepoints.deep_view() =~= Seq::empty());
        let x = Transaction { id, ops, savepoints };
        let ghost m = x.deep_view();
        self.open.push(x);
        assert(self.open.deep_view() =~= t.open.push(m));
        id
    }

    /// Adds writes to a transaction.
    pub fn add(&mut self, id: u64, ops: Vec<ApplyOp>) -> (r: Result<(), EngramDbError>)
        ensures
            changed(
                r,
                old(self).deep_view(),
                final(self).deep_view(),
                written(old(self).deep_view(), id, ops.deep_view()),
            ),
    {
        let ghost t = self.deep_view();
        let ghost new = ops.deep_view();
        match self.find(id) {
            Some(k) => {
                let mut ops = ops;
                let ghost (x, y) = (self.open[k as int].ops@, ops@);
                assert(t.open[k as int] == self.open[k as int].deep_view());
                let ghost was = self.open[k as int];
                let mut all: Vec<ApplyOp> = Vec::new();
                std::mem::swap(&mut all, &mut self.open[k].ops);
                all.append(&mut ops);
                assert(all@ == x + y);
                assert(all.deep_view() =~= was.ops.deep_view() + new);
                std::mem::swap(&mut all, &mut self.open[k].ops);
                assert(self.open.deep_view() =~= t.open.update(
                    k as int,
                    Txn { ops: t.open[k as int].ops + new, ..t.open[k as int] },
                )) by {
                    assert(self.open[k as int].deep_view() == (Txn {
                        ops: t.open[k as int].ops + new,
                        ..t.open[k as int]
                    }));
                    assert forall|i: int| 0 <= i < self.open.len() && i != k implies (
                    #[trigger] self.open.deep_view()[i]) == t.open[i] by {}
                }
                Ok(())
            },
            None => Err(missing_txn(id)),
        }
    }

    /// Adds the insertion of rows to a transaction.
    pub fn batch_insert(&mut self, id: u64, table_id: u32, base_row_id: u64, rows: Vec<Vec<Value>>)
        -> (r: Result<(), EngramDbError>)
        ensures
            changed(
                r,
                old(self).deep_view(),
                final(self).deep_view(),
                written(
                    old(self).deep_view(),
                    id,
                    row_inserts(table_id, base_row_id, rows.deep_view()),
                ),
            ),
    {
        let ghost all = rows.deep_view();
        let ghost m = row_inserts(table_id, base_row_id, all);
        let mut ops: Vec<ApplyOp> = Vec::new();
        let mut i: usize = 0;
        while i < rows.len()
            invariant
                all == rows.deep_view(),
                m == row_inserts(table_id, base_row_id, all),
                i <= rows.len(),
                ops.deep_view() == m.subrange(0, i as int),
            decreases rows.len() - i,
        {
            assert(all[i as int] == rows[i as int].deep_view());
            let row = crate::value::clone_row(&rows[i]);
            let op = ApplyOp::Insert {
                table_id,
                row_id: base_row_id.wrapping_add(i as u64),
                row,
            };
            let ghost before = ops.deep_view();
            ops.push(op);
            assert(ops.deep_view() =~= before.push(op.deep_view()));
            i += 1;
            assert(ops.deep_view() =~= m.subrange(0, i as int));
        }
        assert(ops.deep_view() =~= m);
        self.add(id, ops)
    }

    /// Ends a transaction, and hands out its writes.
    pub fn commit(&mut self, id: u64) -> (r: Result<CommitResult, EngramDbError>)
        ensures
            match (r, committed(old(self).deep_view(), id)) {
                (Ok(c), Ok(m)) => final(self).deep_view() == m.0 && c.apply_ops.deep_view() == m.1
                    && c.commit_ts == m.0.clock,
                (Err(e), Err(f)) => e.deep_view() == f && final(self).deep_view() == old(
                    self,
                ).deep_view(),
                _ => false,
            },
    {
        let ghost t = self.deep_view();
        match self.find(id) {
            Some(k) => {
                assert(t.open[k as int] == self.open[k as int].deep_view());
                let x = self.open.remove(k);
                assert(self.open.deep_view() =~= t.open.remove(k as int));
                self.clock = self.clock.wrapping_add(1);
                Ok(CommitResult { commit_ts: self.clock, apply_ops: x.ops })
            },
            None => Err(missing_txn(id)),
        }
    }

    /// Ends a transaction, and drops its writes.
    pub fn rollback(&mut self, id: u64) -> (r: Result<(), EngramDbError>)
        ensures
            changed(
                r,
                old(self).deep_view(),
                final(self).deep_view(),
                closed(old(self).deep_view(), id),
            ),
    {
        let ghost t = self.deep_view();
        match self.find(id) {
            Some(k) => {
                let x = self.open.remove(k);
                assert(self.open.deep_view() =~= t.open.remove(k as int));
                Ok(())
            },
            None => Err(missing_txn(id)),
        }
    }

    /// The last savepoint of that name in the transaction at a place.
    fn find_savepoint(&self, k: usize, name: &str) -> (r: Option<usize>)
        requires
            k < self.open.len(),
        ensures
            match (
                r,
                saved_at(
                    self.deep_view().open[k as int].savepoints,
                    name@,
                    self.deep_view().open[k as int].savepoints.len(),
                ),
            ) {
                (Some(i), Some(j)) => i == j && i < self.open[k as int].savepoints.len(),
                (None, None) => true,
                _ => false,
            },
    {
        let ghost s = self.deep_view().open[k as int].savepoints;
        assert(self.deep_view().open[k as int] == self.open[k as int].deep_view());
        let mut n: usize = self.open[k].savepoints.len();
        while n > 0
            invariant
                k < self.open.len(),
                n <= self.open[k as int].savepoints.len(),
                s == self.open[k as int].savepoints.deep_view(),
                saved_at(s, name@, s.len()) == saved_at(s, name@, n as nat),
            decreases n,
        {
            assert(s[n - 1] == self.open[k as int].savepoints[n - 1].deep_view());
            if same_text(self.open[k].savepoints[n - 1].name.as_str(), name) {
                return Some(n - 1);
            }
            n -= 1;
        }
        None
    }

    /// Puts another transaction in a place.
    fn put(&mut self, k: usize, x: Transaction)
        requires
            k < old(self).open.len(),
        ensures
            final(self).deep_view() == (Txns {
                open: old(self).deep_view().open.update(k as int, x.deep_view()),
                ..old(self).deep_view()
            }),
    {
        let ghost t = self.deep_view();
        let ghost m = x.deep_view();
        self.open.set(k, x);
        assert(self.open.deep_view() =~= t.open.update(k as int, m));
    }

    /// Sets a savepoint.
    pub fn savepoint(&mut self, id: u64, name: &str) -> (r: Result<(), EngramDbError>)
        ensures
            changed(
                r,
                old(self).deep_view(),
                final(self).deep_view(),
                saved(old(self).deep_view(), id, name@),
            ),
    {
        let ghost t = self.deep_view();
        match self.find(id) {
            Some(k) => {
                assert(t.open[k as int] == self.open[k as int].deep_view());
                let mut x = Transaction { id: 0, ops: Vec::new(), savepoints: Vec::new() };
                let ghost was = self.open[k as int];
                std::mem::swap(&mut x, &mut self.open[k]);
                assert(x == was);
                let writes: usize = x.ops.len();
                x.savepoints.push(Savepoint { name: name.to_owned(), writes });
                assert(x.savepoints.deep_view() =~= was.savepoints.deep_view().push(
                    (name@, writes),
                ));
                self.put(k, x);
                assert(self.deep_view().open =~= saved(t, id, name@)->Ok_0.open);
                Ok(())
            },
            None => Err(missing_txn(id)),
        }
    }

    /// Forgets a savepoint and those behind it.
    pub fn release_savepoint(&mut self, id: u64, name: &str) -> (r: Result<(), EngramDbError>)
        ensures
            changed(
                r,
                old(self).deep_view(),
                final(self).deep_view(),
                released(old(self).deep_view(), id, name@),
            ),
    {
        let ghost t = self.deep_view();
        let k: usize = match self.find(id) {
            Some(k) => k,
            None => {
                return Err(missing_txn(id));
            },
        };
        match self.find_savepoint(k, name) {
            Some(j) => {
                assert(t.open[k as int] == self.open[k as int].deep_view());
                let mut x = Transaction { id: 0, ops: Vec::new(), savepoints: Vec::new() };
                let ghost was = self.open[k as int];
                std::mem::swap(&mut x, &mut self.open[k]);
                x.savepoints.truncate(j);
                assert(x.savepoints.deep_view() =~= was.savepoints.deep_view().subrange(
                    0,
                    j as int,
                ));
                self.put(k, x);
                assert(self.deep_view().open =~= released(t, id, name@)->Ok_0.open);
                Ok(())
            },
            None => Err(missing_savepoint(name)),
        }
    }

    /// Drops the writes behind a savepoint.
    pub fn rollback_to_savepoint(&mut self, id: u64, name: &str) -> (r: Result<(), EngramDbError>)
        ensures
            changed(
                r,
                old(self).deep_view(),
                final(self).deep_view(),
                returned(old(self).deep_view(), id, name@),
            ),
    {
        let ghost t = self.deep_view();
        let k: usize = match self.find(id) {
            Some(k) => k,
            None => {
                return Err(missing_txn(id));
            },
        };
        match self.find_savepoint(k, name) {
            Some(j) => {
                assert(t.open[k as int] == self.open[k as int].deep_view());
                let mut x = Transaction { id: 0, ops: Vec::new(), savepoints: Vec::new() };
                let ghost was = self.open[k as int];
                std::mem::swap(&mut x, &mut self.open[k]);
                let n: usize = x.savepoints[j].writes;
                assert(was.savepoints.deep_view()[j as int]
                    == was.savepoints[j as int].deep_view());
                if n <= x.ops.len() {
                    x.ops.truncate(n);
                }
                assert(x.ops.deep_view() =~= front(was.ops.deep_view(), n as int));
                x.savepoints.truncate(j + 1);
                assert(x.savepoints.deep_view() =~= was.savepoints.deep_view().subrange(
                    0,
                    j + 1,
                ));
                self.put(k, x);
                assert(self.deep_view().open =~= returned(t, id, name@)->Ok_0.open);
                Ok(())
            },
            None => Err(missing_savepoint(name)),
        }
    }
}

/// The place that is found is that of a transaction of that number.
pub proof fn lemma_open_at(open: Seq<Txn>, id: u64, n: nat)
    requires
        n <= open.len(),
    ensures
        match open_at(open, id, n) {
            Some(k) => 0 <= k < n && open[k].id == id,
            None => forall|k: int| 0 <= k < n ==> (#[trigger] open[k]).id != id,
        },
    decreases n,
{
    if n > 0 {
        lemma_open_at(open, id, (n - 1) as nat);
    }
}

/// A transaction that was just started can be written to and committed, and
/// its commit hands out what was written, leaving the other transactions as
/// they were.
pub proof fn law_commit_hands_out_writes(t: Txns, ops: Seq<Op>)
    ensures
        ({
            let (u, id) = begun(t);
            written(u, id, ops) matches Ok(w) && committed(w, id) matches Ok(c) && c.1 == ops
                && c.0.open == t.open
        }),
{
    let (u, id) = begun(t);
    let w = written(u, id, ops)->Ok_0;
    assert(Seq::<Op>::empty() + ops =~= ops);
    assert(w.open.remove(t.open.len() as int) =~= t.open);
}

/// A rollback to a savepoint undoes what was written since.
pub proof fn law_savepoint_undoes(t: Txns, id: u64, name: Seq<char>, ops: Seq<Op>)
    requires
        place(t, id) is Some,
        t.open[place(t, id)->0].ops.len() <= usize::MAX,
    ensures
        saved(t, id, name) matches Ok(s) && written(s, id, ops) matches Ok(w) && returned(
            w,
            id,
            name,
        ) == Ok::<Txns, Fault>(s),
{
    lemma_open_at(t.open, id, t.open.len());
    let k = place(t, id)->0;
    let s = saved(t, id, name)->Ok_0;
    lemma_open_same(t.open, s.open, id, t.open.len());
    let w = written(s, id, ops)->Ok_0;
    lemma_open_same(s.open, w.open, id, t.open.len());
    let back = returned(w, id, name)->Ok_0;
    assert(w.open[k].ops.subrange(0, s.open[k].ops.len() as int) =~= s.open[k].ops);
    assert(w.open[k].savepoints.subrange(0, w.open[k].savepoints.len() as int)
        =~= s.open[k].savepoints);
    assert(back.open =~= s.open);
}

/// The place depends on the numbers only.
proof fn lemma_open_same(a: Seq<Txn>, b: Seq<Txn>, id: u64, n: nat)
    requires
        n <= a.len(),
        a.len() == b.len(),
        forall|i: int| 0 <= i < n ==> (#[trigger] a[i]).id == b[i].id,
    ensures
        open_at(a, id, n) == open_at(b, id, n),
    decreases n,
{
    if n > 0 {
        lemma_open_same(a, b, id, (n - 1) as nat);
    }
}

} // verus!
