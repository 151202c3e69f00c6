//! The tables that a query engine can name.
use vstd::prelude::*;

use crate::datafusion_ext::table_provider::{provided, HybridDBTable, Provider};
use crate::storage::database::{Database, Db};
use crate::text::same_text;

verus! {

/// Tables by name. No name occurs twice.
#[derive(Debug)]
pub struct EngramDBSchema {
    pub tables: Vec<(String, HybridDBTable)>,
}

/// Tables by name, as a sequence.
pub open spec fn entries(t: Seq<(String, HybridDBTable)>) -> Seq<(Seq<char>, Provider)> {
    Seq::new(t.len(), |i: int| (t[i].0@, t[i].1.deep_view()))
}

/// The tables of a schema.
pub open spec fn tables_of(s: Seq<(Seq<char>, Provider)>) -> Map<Seq<char>, Provider>
    decreases s.len(),
{
    if s.len() == 0 {
        Map::empty()
    } else {
        tables_of(s.drop_last()).insert(s.last().0, s.last().1)
    }
}

impl View for EngramDBSchema {
    type V = Map<Seq<char>, Provider>;

    open spec fn view(&self) -> Map<Seq<char>, Provider> {
        tables_of(entries(self.tables@))
    }
}

/// Whether no name occurs twice.
pub open spec fn names_apart(s: Seq<(Seq<char>, Provider)>) -> bool {
    forall|i: int, j: int| 0 <= i < j < s.len() ==> (#[trigger] s[i]).0 != (#[trigger] s[j]).0
}

/// A table that stands in the sequence is found under its name, and one that
/// does not is not.
proof fn lemma_tables_of(s: Seq<(Seq<char>, Provider)>)
    requires
        names_apart(s),
    ensures
        forall|i: int|
            0 <= i < s.len() ==> tables_of(s).dom().contains((#[trigger] s[i]).0)
                && tables_of(s)[s[i].0] == s[i].1,
        forall|n: Seq<char>|
            #[trigger] tables_of(s).dom().contains(n) ==> exists|i: int|
                0 <= i < s.len() && (#[trigger] s[i]).0 == n,
    decreases s.len(),
{
    if s.len() > 0 {
        let front = s.drop_last();
        assert(names_apart(front)) by {
            assert forall|i: int, j: int| 0 <= i < j < front.len() implies (
            #[trigger] front[i]).0 != (#[trigger] front[j]).0 by {
                assert(front[i] == s[i] && front[j] == s[j]);
            }
        }
        lemma_tables_of(front);
        assert forall|i: int| 0 <= i < s.len() implies tables_of(s).dom().contains(
            (#[trigger] s[i]).0,
        ) && tables_of(s)[s[i].0] == s[i].1 by {
            if i < front.len() {
                assert(front[i] == s[i]);
                assert(s[i].0 != s[s.len() - 1].0);
            }
        }
        assert forall|n: Seq<char>| #[trigger] tables_of(s).dom().contains(n) implies exists|i: int|
            0 <= i < s.len() && (#[trigger] s[i]).0 == n by {
            if n == s.last().0 {
                assert(s[s.len() - 1].0 == n);
            } else {
                assert(tables_of(front).dom().contains(n));
                let i = choose|i: int| 0 <= i < front.len() && (#[trigger] front[i]).0 == n;
                assert(s[i].0 == n);
            }
        }
    }
}

/// The tables of a database by name.
pub open spec fn database_tables(d: Db, n: nat) -> Map<Seq<char>, Provider>
    decreases n,
{
    if n == 0 {
        Map::empty()
    } else {
        database_tables(d, (n - 1) as nat).insert(
            d.tables[n - 1].def.name,
            provided(d.tables[n - 1]),
        )
    }
}

impl EngramDBSchema {
    /// Whether no name occurs twice, and each table has the schema of its columns.
    pub open spec fn wf(&self) -> bool {
        &&& names_apart(entries(self.tables@))
        &&& forall|i: int| 0 <= i < self.tables@.len() ==> (#[trigger] self.tables@[i]).1.wf()
    }

    /// A schema without tables.
    pub fn new() -> (r: Self)
        ensures
            r.wf(),
            r@ == Map::<Seq<char>, Provider>::empty(),
    {
        let tables: Vec<(String, HybridDBTable)> = Vec::new();
        assert(entries(tables@) =~= Seq::empty());
        EngramDBSchema { tables }
    }

    /// The place of a table.
    fn find(&self, name: &str) -> (r: Option<usize>)
        requires
            self.wf(),
        ensures
            match r {
                Some(i) => i < self.tables.len() && self.tables[i as int].0@ == name@,
                None => forall|k: int|
                    0 <= k < self.tables.len() ==> (#[trigger] self.tables[k]).0@ != name@,
            },
            r is Some == self@.dom().contains(name@),
            r matches Some(i) ==> self@[name@] == self.tables[i as int].1.deep_view(),
    {
        let ghost s = entries(self.tables@);
        proof {
            lemma_tables_of(s);
        }
        let mut i: usize = 0;
        while i < self.tables.len()
            invariant
                s == entries(self.tables@),
                i <= self.tables.len(),
                forall|k: int| 0 <= k < s.len() ==> self@.dom().contains((#[trigger] s[k]).0)
                    && self@[s[k].0] == s[k].1,
                forall|k: int| 0 <= k < i ==> (#[trigger] self.tables[k]).0@ != name@,
            decreases self.tables.len() - i,
        {
            if same_text(self.tables[i].0.as_str(), name) {
                assert(s[i as int].0 == name@);
                return Some(i);
            }
            i += 1;
        }
        proof {
            if self@.dom().contains(name@) {
                let k = choose|k: int| 0 <= k < s.len() && (#[trigger] s[k]).0 == name@;
                assert(self.tables[k].0@ == name@);
            }
        }
        None
    }

    /// Adds a table, in the place of one of the same name.
    pub fn register_table(&mut self, name: String, table: HybridDBTable)
        requires
            old(self).wf(),
            table.wf(),
        ensures
            final(self).wf(),
            final(self)@ == old(self)@.insert(name@, table.deep_view()),
    {
        let ghost s = entries(self.tables@);
        let ghost m = table.deep_view();
        let ghost was = self@;
        match self.find(name.as_str()) {
            Some(i) => {
                let gone = self.tables.remove(i);
                let ghost t = entries(self.tables@);
                proof {
                    assert(t =~= s.remove(i as int));
                    lemma_tables_of(s);
                    assert(names_apart(t)) by {
                        assert forall|a: int, b: int| 0 <= a < b < t.len() implies (
                        #[trigger] t[a]).0 != (#[trigger] t[b]).0 by {
                            let x = if a < i {
                                a
                            } else {
                                a + 1
                            };
                            let y = if b < i {
                                b
                            } else {
                                b + 1
                            };
                            assert(t[a] == s[x] && t[b] == s[y]);
                        }
                    }
                    lemma_tables_of(t);
                    lemma_removed(s, i as int);
                    assert forall|k: int| 0 <= k < t.len() implies (#[trigger] t[k]).0 != name@ by {
                        let x = if k < i {
                            k
                        } else {
                            k + 1
                        };
                        assert(t[k] == s[x]);
                        assert(s[i as int].0 == name@);
                        if x < i {
                            assert(s[x].0 != s[i as int].0);
                        } else {
                            assert(s[i as int].0 != s[x].0);
                        }
                    }
                }
                let ghost n = name@;
                self.tables.push((name, table));
                assert(entries(self.tables@) =~= t.push((n, m)));
                assert(t.push((n, m)).drop_last() =~= t);
                assert(self@ =~= was.insert(n, m));
            },
            None => {
                let ghost n = name@;
                self.tables.push((name, table));
                assert(entries(self.tables@) =~= s.push((n, m)));
                assert(s.push((n, m)).drop_last() =~= s);
                assert(self.wf()) by {
                    assert forall|a: int, b: int| 0 <= a < b < entries(self.tables@).len() implies (
                    #[trigger] entries(self.tables@)[a]).0 != (
                    #[trigger] entries(self.tables@)[b]).0 by {
                        if b < s.len() {
                            assert(s[a].0 != s[b].0);
                        }
                    }
                }
            },
        }
    }

    /// A table by its name.
    pub fn get_table(&self, name: &str) -> (r: Option<&HybridDBTable>)
        requires
            self.wf(),
        ensures
            match r {
                Some(t) => self@.dom().contains(name@) && t.deep_view() == self@[name@] && t.wf(),
                None => !self@.dom().contains(name@),
            },
    {
        match self.find(name) {
            Some(i) => Some(&self.tables[i].1),
            None => None,
        }
    }

    /// Whether there is a table of that name.
    pub fn table_exist(&self, name: &str) -> (r: bool)
        requires
            self.wf(),
        ensures
            r == self@.dom().contains(name@),
    {
        self.find(name).is_some()
    }

    /// The names of the tables.
    pub fn table_names(&self) -> (r: Vec<String>)
        requires
            self.wf(),
        ensures
            r.deep_view().to_set() == self@.dom(),
            r.deep_view().no_duplicates(),
    {
        let ghost s = entries(self.tables@);
        let mut out: Vec<String> = Vec::new();
        let mut i: usize = 0;
        while i < self.tables.len()
            invariant
                s == entries(self.tables@),
                i <= self.tables.len(),
                out.deep_view() == Seq::new(i as nat, |k: int| s[k].0),
            decreases self.tables.len() - i,
        {
            let ghost before = out.deep_view();
            out.push(self.tables[i].0.clone());
            assert(out.deep_view() =~= before.push(s[i as int].0));
            i += 1;
            assert(out.deep_view() =~= Seq::new(i as nat, |k: int| s[k].0));
        }
        proof {
            lemma_tables_of(s);
            let v = out.deep_view();
            assert forall|n: Seq<char>| v.to_set().contains(n) == self@.dom().contains(n) by {
                if v.to_set().contains(n) {
                    let k = choose|k: int| 0 <= k < v.len() && v[k] == n;
                    assert(s[k].0 == n);
                }
                if self@.dom().contains(n) {
                    let k = choose|k: int| 0 <= k < s.len() && (#[trigger] s[k]).0 == n;
                    assert(v[k] == n);
                }
            }
            assert(v.to_set() =~= self@.dom());
            assert forall|a: int, b: int|
                0 <= a < v.len() && 0 <= b < v.len() && a != b implies v[a] != v[b] by {
                if a < b {
                    assert(s[a].0 != s[b].0);
                } else {
                    assert(s[b].0 != s[a].0);
                }
            }
        }
        out
    }

    /// The tables of a database.
    pub fn from_database(db: &Database) -> (r: Self)
        requires
            db.wf(),
        ensures
            r.wf(),
            r@ == database_tables(db.deep_view(), db.deep_view().tables.len()),
    {
        let ghost d = db.deep_view();
        let mut r = EngramDBSchema::new();
        let mut i: usize = 0;
        while i < db.tables.len()
            invariant
                db.wf(),
                d == db.deep_view(),
                i <= db.tables.len(),
                r.wf(),
                r@ == database_tables(d, i as nat),
            decreases db.tables.len() - i,
        {
            assert(d.tables[i as int] == db.tables[i as int].deep_view());
            let t = HybridDBTable::from_storage_table(&db.tables[i]);
            r.register_table(db.tables[i].def.name.clone(), t);
            i += 1;
        }
        r
    }
}

/// Without an entry, the tables are those without its name.
proof fn lemma_removed(s: Seq<(Seq<char>, Provider)>, i: int)
    requires
        names_apart(s),
        names_apart(s.remove(i)),
        0 <= i < s.len(),
    ensures
        tables_of(s.remove(i)) == tables_of(s).remove(s[i].0),
{
    let t = s.remove(i);
    lemma_tables_of(s);
    lemma_tables_of(t);
    let (a, b) = (tables_of(t), tables_of(s).remove(s[i].0));
    assert forall|n: Seq<char>| a.dom().contains(n) == b.dom().contains(n) by {
        if a.dom().contains(n) {
            let k = choose|k: int| 0 <= k < t.len() && (#[trigger] t[k]).0 == n;
            let x = if k < i {
                k
            } else {
                k + 1
            };
            assert(t[k] == s[x]);
            assert(s[x].0 != s[i].0);
        }
        if b.dom().contains(n) {
            let x = choose|x: int| 0 <= x < s.len() && (#[trigger] s[x]).0 == n;
            let k = if x < i {
                x
            } else {
                x - 1
            };
            assert(t[k] == s[x]);
        }
    }
    assert forall|n: Seq<char>| #[trigger] a.dom().contains(n) implies a[n] == b[n] by {
        let k = choose|k: int| 0 <= k < t.len() && (#[trigger] t[k]).0 == n;
        let x = if k < i {
            k
        } else {
            k + 1
        };
        assert(t[k] == s[x]);
    }
    assert(a =~= b);
}

/// The schemas that a query engine can name: there is one, `public`.
#[derive(Debug)]
pub struct EngramDBCatalog {
    pub public: EngramDBSchema,
}

impl EngramDBCatalog {
    /// Whether the schema is well formed.
    pub open spec fn wf(&self) -> bool {
        self.public.wf()
    }

    /// A catalog whose schema has no tables.
    pub fn new() -> (r: Self)
        ensures
            r.wf(),
            r.public@ == Map::<Seq<char>, Provider>::empty(),
    {
        EngramDBCatalog { public: EngramDBSchema::new() }
    }

    /// The catalog of the tables of a database.
    pub fn from_database(db: &Database) -> (r: Self)
        requires
            db.wf(),
        ensures
            r.wf(),
            r.public@ == database_tables(db.deep_view(), db.deep_view().tables.len()),
    {
        EngramDBCatalog { public: EngramDBSchema::from_database(db) }
    }

    /// Adds a table to the schema.
    pub fn register_table(&mut self, name: &str, table: HybridDBTable)
        requires
            old(self).wf(),
            table.wf(),
        ensures
            final(self).wf(),
            final(self).public@ == old(self).public@.insert(name@, table.deep_view()),
    {
        self.public.register_table(name.to_owned(), table);
    }

    /// The names of the schemas.
    pub fn schema_names(&self) -> (r: Vec<String>)
        ensures
            r.deep_view() == seq!["public"@],
    {
        let r = vec!["public".to_owned()];
        assert(r.deep_view() =~= seq!["public"@]);
        r
    }

    /// A schema by its name.
    pub fn schema(&self, name: &str) -> (r: Option<&EngramDBSchema>)
        ensures
            match r {
                Some(s) => name@ == "public"@ && *s == self.public,
                None => name@ != "public"@,
            },
    {
        if same_text(name, "public") {
            Some(&self.public)
        } else {
            None
        }
    }
}

impl Default for EngramDBCatalog {
    fn default() -> (r: Self)
        ensures
            r.wf(),
            r.public@ == Map::<Seq<char>, Provider>::empty(),
    {
        EngramDBCatalog::new()
    }
}

impl Default for EngramDBSchema {
    fn default() -> (r: Self)
        ensures
            r.wf(),
            r@ == Map::<Seq<char>, Provider>::empty(),
    {
        EngramDBSchema::new()
    }
}

} // verus!
