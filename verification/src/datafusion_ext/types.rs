//! Column types as Arrow types.
use vstd::prelude::*;

use crate::common::types::DataType;

verus! {

/// The Arrow types that columns are exchanged in.
#[derive(Debug, Clone, Copy, PartialEq, Eq, Structural)]
pub enum ArrowType {
    Boolean,
    Int8,
    Int16,
    Int32,
    Int64,
    UInt8,
    UInt16,
    UInt32,
    UInt64,
    Float32,
    Float64,
    Utf8,
    Binary,
    Null,
}

/// The Arrow type of a column. Timestamps are numbers, documents are text,
/// and vectors are bytes.
pub open spec fn arrow_of(t: DataType) -> ArrowType {
    match t {
        DataType::Boolean => ArrowType::Boolean,
        DataType::Int32 => ArrowType::Int32,
        DataType::Int64 => ArrowType::Int64,
        DataType::Float32 => ArrowType::Float32,
        DataType::Float64 => ArrowType::Float64,
        DataType::Varchar => ArrowType::Utf8,
        DataType::Json => ArrowType::Utf8,
        DataType::Vector { .. } => ArrowType::Binary,
        DataType::VectorInt8 { .. } => ArrowType::Binary,
        DataType::Blob => ArrowType::Binary,
        DataType::Timestamp => ArrowType::Int64,
    }
}

/// The column type of an Arrow type, where there is one.
pub open spec fn column_type_of(t: ArrowType) -> Option<DataType> {
    match t {
        ArrowType::Boolean => Some(DataType::Boolean),
        ArrowType::Int32 => Some(DataType::Int32),
        ArrowType::Int64 => Some(DataType::Int64),
        ArrowType::Float32 => Some(DataType::Float32),
        ArrowType::Float64 => Some(DataType::Float64),
        ArrowType::Utf8 => Some(DataType::Varchar),
        ArrowType::Binary => Some(DataType::Blob),
        _ => None,
    }
}

/// The Arrow type of a column.
pub fn to_arrow_type(dt: &DataType) -> (r: ArrowType)
    ensures
        r == arrow_of(*dt),
{
    match dt {
        DataType::Boolean => ArrowType::Boolean,
        DataType::Int32 => ArrowType::Int32,
        DataType::Int64 => ArrowType::Int64,
        DataType::Float32 => ArrowType::Float32,
        DataType::Float64 => ArrowType::Float64,
        DataType::Varchar => ArrowType::Utf8,
        DataType::Json => ArrowType::Utf8,
        DataType::Vector { .. } => ArrowType::Binary,
        DataType::VectorInt8 { .. } => ArrowType::Binary,
        DataType::Blob => ArrowType::Binary,
        DataType::Timestamp => ArrowType::Int64,
    }
}

/// The column type of an Arrow type, where there is one.
pub fn from_arrow_type(at: &ArrowType) -> (r: Option<DataType>)
    ensures
        r == column_type_of(*at),
{
    match at {
        ArrowType::Boolean => Some(DataType::Boolean),
        ArrowType::Int32 => Some(DataType::Int32),
        ArrowType::Int64 => Some(DataType::Int64),
        ArrowType::Float32 => Some(DataType::Float32),
        ArrowType::Float64 => Some(DataType::Float64),
        ArrowType::Utf8 => Some(DataType::Varchar),
        ArrowType::Binary => Some(DataType::Blob),
        _ => None,
    }
}

/// Types come back from Arrow as they went, but for those that share an Arrow
/// type with another.
pub proof fn law_arrow_roundtrip(t: DataType)
    requires
        !(t is Json || t is Vector || t is VectorInt8 || t is Timestamp),
    ensures
        column_type_of(arrow_of(t)) == Some(t),
{
}

/// A named and typed column of a schema.
#[derive(Debug)]
pub struct ArrowField {
    pub name: String,
    pub data_type: ArrowType,
    pub nullable: bool,
}

impl DeepView for ArrowField {
    type V = (Seq<char>, ArrowType, bool);

    open spec fn deep_view(&self) -> (Seq<char>, ArrowType, bool) {
        (self.name@, self.data_type, self.nullable)
    }
}

/// Makes a field.
pub fn make_field(name: &str, dt: &DataType, nullable: bool) -> (r: ArrowField)
    ensures
        r.deep_view() == (name@, arrow_of(*dt), nullable),
{
    ArrowField { name: name.to_owned(), data_type: to_arrow_type(dt), nullable }
}

/// The columns as a sequence of names, types and nullability.
pub open spec fn columns_view(columns: Seq<(String, DataType, bool)>) -> Seq<
    (Seq<char>, DataType, bool),
> {
    Seq::new(columns.len(), |i: int| (columns[i].0@, columns[i].1, columns[i].2))
}

/// The schema of columns.
pub open spec fn schema_of(columns: Seq<(Seq<char>, DataType, bool)>) -> Seq<
    (Seq<char>, ArrowType, bool),
> {
    Seq::new(columns.len(), |i: int| (columns[i].0, arrow_of(columns[i].1), columns[i].2))
}

/// Makes the schema of columns.
pub fn columns_to_schema(columns: &Vec<(String, DataType, bool)>) -> (r: Vec<ArrowField>)
    ensures
        r.deep_view() == schema_of(columns_view(columns@)),
{
    let ghost m = schema_of(columns_view(columns@));
    let mut out: Vec<ArrowField> = Vec::new();
    let mut i: usize = 0;
    while i < columns.len()
        invariant
            m == schema_of(columns_view(columns@)),
            i <= columns.len(),
            out.deep_view() == m.subrange(0, i as int),
        decreases columns.len() - i,
    {
        let f = make_field(columns[i].0.as_str(), &columns[i].1, columns[i].2);
        let ghost before = out.deep_view();
        out.push(f);
        assert(out.deep_view() =~= before.push(f.deep_view()));
        i += 1;
        assert(out.deep_view() =~= m.subrange(0, i as int));
    }
    assert(out.deep_view() =~= m);
    out
}

} // verus!
