//! Column types and table definitions.
use vstd::prelude::*;

use crate::text::{join3, same_text};
use crate::value::Datum;
use crate::Value;

verus! {

/// The type of a column.
#[derive(Debug, Clone, Copy, PartialEq, Eq, Hash, Structural)]
pub enum DataType {
    Boolean,
    Int32,
    Int64,
    Float32,
    Float64,
    Varchar,
    Json,
    /// Single precision vector; dimension 0 leaves the dimension open.
    Vector { dim: usize },
    /// Vector quantized to one byte per element.
    VectorInt8 { dim: usize },
    Blob,
    /// Unix milliseconds.
    Timestamp,
}

/// The SQL name of a type.
pub open spec fn sql_name(t: DataType) -> Seq<char> {
    match t {
        DataType::Boolean => "BOOLEAN"@,
        DataType::Int32 => "INT"@,
        DataType::Int64 => "BIGINT"@,
        DataType::Float32 => "FLOAT"@,
        DataType::Float64 => "DOUBLE"@,
        DataType::Varchar => "VARCHAR"@,
        DataType::Json => "JSON"@,
        DataType::Vector { .. } => "VECTOR"@,
        DataType::VectorInt8 { .. } => "VECTOR_INT8"@,
        DataType::Blob => "BLOB"@,
        DataType::Timestamp => "TIMESTAMP"@,
    }
}

/// The width in bytes of the types that have one.
pub open spec fn type_width(t: DataType) -> Option<usize> {
    match t {
        DataType::Boolean => Some(1),
        DataType::Int32 | DataType::Float32 => Some(4),
        DataType::Int64 | DataType::Float64 | DataType::Timestamp => Some(8),
        _ => None,
    }
}

impl DataType {
    /// The SQL name.
    pub fn name(&self) -> (r: &'static str)
        ensures
            r@ == sql_name(*self),
    {
        match self {
            DataType::Boolean => "BOOLEAN",
            DataType::Int32 => "INT",
            DataType::Int64 => "BIGINT",
            DataType::Float32 => "FLOAT",
            DataType::Float64 => "DOUBLE",
            DataType::Varchar => "VARCHAR",
            DataType::Json => "JSON",
            DataType::Vector { .. } => "VECTOR",
            DataType::VectorInt8 { .. } => "VECTOR_INT8",
            DataType::Blob => "BLOB",
            DataType::Timestamp => "TIMESTAMP",
        }
    }

    /// The width in bytes, for types of fixed width.
    pub fn fixed_size(&self) -> (r: Option<usize>)
        ensures
            r == type_width(*self),
    {
        match self {
            DataType::Boolean => Some(1),
            DataType::Int32 => Some(4),
            DataType::Int64 => Some(8),
            DataType::Float32 => Some(4),
            DataType::Float64 => Some(8),
            DataType::Varchar => None,
            DataType::Json => None,
            DataType::Vector { .. } => None,
            DataType::VectorInt8 { .. } => None,
            DataType::Blob => None,
            DataType::Timestamp => Some(8),
        }
    }

    /// The SQL name as an owned string.
    pub fn to_string(&self) -> (r: String)
        ensures
            r@ == sql_name(*self),
    {
        self.name().to_owned()
    }
}

/// How a table stores its rows.
#[derive(Debug, Clone, Copy, PartialEq, Eq, Hash, Structural)]
pub enum EngineType {
    Columnar,
    Memory,
    Log,
}

/// A column of a table.
#[derive(Debug)]
pub struct ColumnDef {
    pub name: String,
    pub data_type: DataType,
    pub nullable: bool,
    pub is_primary_key: bool,
    pub default_value: Option<String>,
    pub auto_increment: bool,
}

/// The model of a [`ColumnDef`].
#[verifier::ext_equal]
pub struct ColumnModel {
    pub name: Seq<char>,
    pub data_type: DataType,
    pub nullable: bool,
    pub is_primary_key: bool,
    pub default_value: Option<Seq<char>>,
    pub auto_increment: bool,
}

/// The characters of an optional string.
pub open spec fn opt_text(s: Option<String>) -> Option<Seq<char>> {
    match s {
        Some(t) => Some(t@),
        None => None,
    }
}

impl DeepView for ColumnDef {
    type V = ColumnModel;

    open spec fn deep_view(&self) -> ColumnModel {
        ColumnModel {
            name: self.name@,
            data_type: self.data_type,
            nullable: self.nullable,
            is_primary_key: self.is_primary_key,
            default_value: opt_text(self.default_value),
            auto_increment: self.auto_increment,
        }
    }
}

impl Clone for ColumnDef {
    fn clone(&self) -> (r: Self)
        ensures
            r.deep_view() == self.deep_view(),
    {
        let default_value: Option<String> = match &self.default_value {
            Some(s) => Some(s.clone()),
            None => None,
        };
        ColumnDef {
            name: self.name.clone(),
            data_type: self.data_type,
            nullable: self.nullable,
            is_primary_key: self.is_primary_key,
            default_value,
            auto_increment: self.auto_increment,
        }
    }
}

impl ColumnDef {
    /// A nullable column without constraints.
    pub fn new(name: &str, data_type: DataType) -> (r: Self)
        ensures
            r.deep_view() == (ColumnModel {
                name: name@,
                data_type,
                nullable: true,
                is_primary_key: false,
                default_value: None,
                auto_increment: false,
            }),
    {
        ColumnDef {
            name: name.to_owned(),
            data_type,
            nullable: true,
            is_primary_key: false,
            default_value: None,
            auto_increment: false,
        }
    }

    /// The column as primary key, which also forbids NULL.
    pub fn primary_key(self) -> (r: Self)
        ensures
            r.deep_view() == (ColumnModel {
                is_primary_key: true,
                nullable: false,
                ..self.deep_view()
            }),
    {
        let mut c = self;
        c.is_primary_key = true;
        c.nullable = false;
        c
    }

    /// The column without NULL.
    pub fn not_null(self) -> (r: Self)
        ensures
            r.deep_view() == (ColumnModel { nullable: false, ..self.deep_view() }),
    {
        let mut c = self;
        c.nullable = false;
        c
    }

    /// The column with a default value.
    pub fn default(self, val: &str) -> (r: Self)
        ensures
            r.deep_view() == (ColumnModel { default_value: Some(val@), ..self.deep_view() }),
    {
        let mut c = self;
        c.default_value = Some(val.to_owned());
        c
    }

    /// The column with automatically assigned numbers.
    pub fn auto_inc(self) -> (r: Self)
        ensures
            r.deep_view() == (ColumnModel { auto_increment: true, ..self.deep_view() }),
    {
        let mut c = self;
        c.auto_increment = true;
        c
    }
}

/// An index of a table.
#[derive(Debug)]
pub struct IndexDef {
    pub name: String,
    pub key_columns: Vec<usize>,
    pub included_columns: Vec<usize>,
    pub unique: bool,
    pub index_type: String,
}

/// The model of an [`IndexDef`].
#[verifier::ext_equal]
pub struct IndexModel {
    pub name: Seq<char>,
    pub key_columns: Seq<usize>,
    pub included_columns: Seq<usize>,
    pub unique: bool,
    pub index_type: Seq<char>,
}

impl DeepView for IndexDef {
    type V = IndexModel;

    open spec fn deep_view(&self) -> IndexModel {
        IndexModel {
            name: self.name@,
            key_columns: self.key_columns@,
            included_columns: self.included_columns@,
            unique: self.unique,
            index_type: self.index_type@,
        }
    }
}

/// Copies a list of positions.
pub fn copy_positions(v: &Vec<usize>) -> (r: Vec<usize>)
    ensures
        r@ == v@,
{
    let w = v.clone();
    assert(w@ =~= v@);
    w
}

impl Clone for IndexDef {
    fn clone(&self) -> (r: Self)
        ensures
            r.deep_view() == self.deep_view(),
    {
        IndexDef {
            name: self.name.clone(),
            key_columns: copy_positions(&self.key_columns),
            included_columns: copy_positions(&self.included_columns),
            unique: self.unique,
            index_type: self.index_type.clone(),
        }
    }
}

/// What happens to referring rows.
#[derive(Debug, Clone, Copy, PartialEq, Eq, Structural)]
pub enum ForeignKeyAction {
    NoAction,
    Restrict,
    Cascade,
    SetNull,
    SetDefault,
}

/// A reference to another table.
#[derive(Debug)]
pub struct ForeignKeyDef {
    pub local_columns: Vec<usize>,
    pub foreign_table: String,
    pub foreign_columns: Vec<usize>,
    pub on_delete: ForeignKeyAction,
    pub on_update: ForeignKeyAction,
}

/// The model of a [`ForeignKeyDef`].
#[verifier::ext_equal]
pub struct ForeignKeyModel {
    pub local_columns: Seq<usize>,
    pub foreign_table: Seq<char>,
    pub foreign_columns: Seq<usize>,
    pub on_delete: ForeignKeyAction,
    pub on_update: ForeignKeyAction,
}

impl DeepView for ForeignKeyDef {
    type V = ForeignKeyModel;

    open spec fn deep_view(&self) -> ForeignKeyModel {
        ForeignKeyModel {
            local_columns: self.local_columns@,
            foreign_table: self.foreign_table@,
            foreign_columns: self.foreign_columns@,
            on_delete: self.on_delete,
            on_update: self.on_update,
        }
    }
}

impl Clone for ForeignKeyDef {
    fn clone(&self) -> (r: Self)
        ensures
            r.deep_view() == self.deep_view(),
    {
        ForeignKeyDef {
            local_columns: copy_positions(&self.local_columns),
            foreign_table: self.foreign_table.clone(),
            foreign_columns: copy_positions(&self.foreign_columns),
            on_delete: self.on_delete,
            on_update: self.on_update,
        }
    }
}

/// The definition of a table.
#[derive(Debug)]
pub struct TableDef {
    pub id: u32,
    pub name: String,
    pub columns: Vec<ColumnDef>,
    pub row_count: u64,
    pub indexes: Vec<IndexDef>,
    pub cluster_key: Option<usize>,
    pub foreign_keys: Vec<ForeignKeyDef>,
    pub engine: EngineType,
    /// The next number that an automatically numbered column gets.
    pub next_auto_increment_id: u64,
    /// Lifetime of a row in seconds; rows live forever without one.
    pub ttl_seconds: Option<u64>,
    /// The timestamp column that the lifetime counts from.
    pub ttl_column: Option<usize>,
}

/// The model of a [`TableDef`].
#[verifier::ext_equal]
pub struct TableModel {
    pub id: u32,
    pub name: Seq<char>,
    pub columns: Seq<ColumnModel>,
    pub row_count: u64,
    pub indexes: Seq<IndexModel>,
    pub cluster_key: Option<usize>,
    pub foreign_keys: Seq<ForeignKeyModel>,
    pub engine: EngineType,
    pub next_auto_increment_id: u64,
    pub ttl_seconds: Option<u64>,
    pub ttl_column: Option<usize>,
}

impl DeepView for TableDef {
    type V = TableModel;

    open spec fn deep_view(&self) -> TableModel {
        TableModel {
            id: self.id,
            name: self.name@,
            columns: self.columns.deep_view(),
            row_count: self.row_count,
            indexes: self.indexes.deep_view(),
            cluster_key: self.cluster_key,
            foreign_keys: self.foreign_keys.deep_view(),
            engine: self.engine,
            next_auto_increment_id: self.next_auto_increment_id,
            ttl_seconds: self.ttl_seconds,
            ttl_column: self.ttl_column,
        }
    }
}

impl Clone for TableDef {
    fn clone(&self) -> (r: Self)
        ensures
            r.deep_view() == self.deep_view(),
    {
        let columns = self.columns.clone();
        let indexes = self.indexes.clone();
        let foreign_keys = self.foreign_keys.clone();
        assert(columns.deep_view() =~= self.columns.deep_view());
        assert(indexes.deep_view() =~= self.indexes.deep_view());
        assert(foreign_keys.deep_view() =~= self.foreign_keys.deep_view());
        TableDef {
            id: self.id,
            name: self.name.clone(),
            columns,
            row_count: self.row_count,
            indexes,
            cluster_key: self.cluster_key,
            foreign_keys,
            engine: self.engine,
            next_auto_increment_id: self.next_auto_increment_id,
            ttl_seconds: self.ttl_seconds,
            ttl_column: self.ttl_column,
        }
    }
}

/// The position of the first element of `s` from `i` on for which `f` holds.
pub open spec fn first_from<A>(s: Seq<A>, f: spec_fn(A) -> bool, i: int) -> Option<int>
    decreases s.len() - i,
{
    if i < 0 || i >= s.len() {
        None
    } else if f(s[i]) {
        Some(i)
    } else {
        first_from(s, f, i + 1)
    }
}

/// The position of the first column that is a primary key.
pub open spec fn pk_index(columns: Seq<ColumnModel>) -> Option<int> {
    first_from(columns, |c: ColumnModel| c.is_primary_key, 0)
}

/// The position of the first column of the given name.
pub open spec fn name_index(columns: Seq<ColumnModel>, name: Seq<char>) -> Option<int> {
    first_from(columns, |c: ColumnModel| c.name == name, 0)
}

/// What is found is the first hit, and nothing is found only where there is
/// none.
pub proof fn lemma_first_from<A>(s: Seq<A>, f: spec_fn(A) -> bool, i: int)
    requires
        0 <= i <= s.len(),
    ensures
        match first_from(s, f, i) {
            Some(k) => i <= k < s.len() && f(s[k]) && forall|j: int| i <= j < k ==> !f(s[j]),
            None => forall|j: int| i <= j < s.len() ==> !f(s[j]),
        },
    decreases s.len() - i,
{
    if i < s.len() && !f(s[i]) {
        lemma_first_from(s, f, i + 1);
    }
}

/// A position in an executable list as a mathematical one.
pub open spec fn pos(p: Option<usize>) -> Option<int> {
    match p {
        Some(i) => Some(i as int),
        None => None,
    }
}

/// Whether a row stamped `created_ms` has outlived `ttl` seconds at `now_ms`.
pub open spec fn outlived(now_ms: int, created_ms: int, ttl: int) -> bool {
    now_ms - created_ms > ttl * 1000
}

impl TableDef {
    /// An empty columnar table without indexes.
    pub fn new(id: u32, name: &str, columns: Vec<ColumnDef>) -> (r: Self)
        ensures
            r.deep_view() == (TableModel {
                id,
                name: name@,
                columns: columns.deep_view(),
                row_count: 0,
                indexes: Seq::empty(),
                cluster_key: None,
                foreign_keys: Seq::empty(),
                engine: EngineType::Columnar,
                next_auto_increment_id: 1,
                ttl_seconds: None,
                ttl_column: None,
            }),
    {
        let r = TableDef {
            id,
            name: name.to_owned(),
            columns,
            row_count: 0,
            indexes: Vec::new(),
            cluster_key: None,
            foreign_keys: Vec::new(),
            engine: EngineType::Columnar,
            next_auto_increment_id: 1,
            ttl_seconds: None,
            ttl_column: None,
        };
        assert(r.indexes.deep_view() =~= Seq::empty());
        assert(r.foreign_keys.deep_view() =~= Seq::empty());
        r
    }

    /// The first primary key column.
    pub fn primary_key_index(&self) -> (r: Option<usize>)
        ensures
            pos(r) == pk_index(self.deep_view().columns),
    {
        let ghost f = |c: ColumnModel| c.is_primary_key;
        let mut i: usize = 0;
        while i < self.columns.len()
            invariant
                i <= self.columns.len(),
                f == (|c: ColumnModel| c.is_primary_key),
                first_from(self.columns.deep_view(), f, 0) == first_from(
                    self.columns.deep_view(),
                    f,
                    i as int,
                ),
            decreases self.columns.len() - i,
        {
            assert(self.columns.deep_view()[i as int] == self.columns[i as int].deep_view());
            if self.columns[i].is_primary_key {
                return Some(i);
            }
            i += 1;
        }
        None
    }

    /// The first column of the given name.
    pub fn column_index(&self, name: &str) -> (r: Option<usize>)
        ensures
            pos(r) == name_index(self.deep_view().columns, name@),
    {
        let ghost f = |c: ColumnModel| c.name == name@;
        let mut i: usize = 0;
        while i < self.columns.len()
            invariant
                i <= self.columns.len(),
                f == (|c: ColumnModel| c.name == name@),
                first_from(self.columns.deep_view(), f, 0) == first_from(
                    self.columns.deep_view(),
                    f,
                    i as int,
                ),
            decreases self.columns.len() - i,
        {
            assert(self.columns.deep_view()[i as int] == self.columns[i as int].deep_view());
            if same_text(self.columns[i].name.as_str(), name) {
                return Some(i);
            }
            i += 1;
        }
        None
    }

    /// Makes the named column the cluster key. An unknown name leaves the
    /// table as it is.
    pub fn set_cluster_key(&mut self, column_name: &str) -> (r: Result<(), String>)
        ensures
            match name_index(old(self).deep_view().columns, column_name@) {
                Some(i) => r is Ok && final(self).deep_view() == (TableModel {
                    cluster_key: Some(i as usize),
                    ..old(self).deep_view()
                }),
                None => {
                    &&& r is Err
                    &&& r->Err_0@ == "column '"@ + column_name@ + "' not found"@
                    &&& final(self).deep_view() == old(self).deep_view()
                },
            },
    {
        match self.column_index(column_name) {
            Some(idx) => {
                self.cluster_key = Some(idx);
                Ok(())
            },
            None => Err(join3("column '", column_name, "' not found")),
        }
    }

    /// Whether rows have a lifetime.
    pub fn has_ttl(&self) -> (r: bool)
        ensures
            r == (self.ttl_seconds is Some),
    {
        self.ttl_seconds.is_some()
    }

    /// The lifetime of a row in seconds.
    pub fn ttl(&self) -> (r: Option<u64>)
        ensures
            r == self.ttl_seconds,
    {
        self.ttl_seconds
    }

    /// Whether a row has outlived its lifetime at the time `now_ms`. Without
    /// a lifetime, or where the lifetime column holds no timestamp, it has not.
    pub fn is_expired(&self, row: &[Value], now_ms: i64) -> (r: bool)
        ensures
            r == match (self.ttl_seconds, self.ttl_column) {
                (Some(ttl), Some(c)) => c < row.len() && match row.deep_view()[c as int] {
                    Datum::Timestamp(created) => outlived(now_ms as int, created as int, ttl as int),
                    _ => false,
                },
                _ => false,
            },
    {
        match self.ttl_seconds {
            Some(ttl) => {
                if let Some(ttl_col) = self.ttl_column {
                    if ttl_col < row.len() {
                        assert(row.deep_view()[ttl_col as int] == row[ttl_col as int].deep_view());
                        if let Value::Timestamp(created_ms) = &row[ttl_col] {
                            return now_ms as i128 - *created_ms as i128 > ttl as i128 * 1000;
                        }
                    }
                }
                false
            },
            None => false,
        }
    }
}

} // verus!
