//! The library's error type.
use vstd::prelude::*;

use crate::text::{join2, join3};

verus! {

/// `std::io::Error`, carried through unread.
#[verifier::external_type_specification]
#[verifier::external_body]
pub struct ExIoError(std::io::Error);

/// Everything that can go wrong in the database.
#[derive(Debug)]
pub enum EngramDbError {
    Io(std::io::Error),
    Serialization(String),
    Parse(String),
    InvalidFormat(String),
    TableNotFound(String),
    NotSupported(String),
    ColumnNotFound(String),
    IndexNotFound(String),
    TypeMismatch { expected: String, actual: String },
    Transaction(String),
    ConstraintViolation(String),
    NotImplemented(String),
    Internal(String),
}

/// The model of [`EngramDbError`]: its kind and its text.
#[verifier::ext_equal]
pub enum Fault {
    Io,
    Serialization(Seq<char>),
    Parse(Seq<char>),
    InvalidFormat(Seq<char>),
    TableNotFound(Seq<char>),
    NotSupported(Seq<char>),
    ColumnNotFound(Seq<char>),
    IndexNotFound(Seq<char>),
    TypeMismatch { expected: Seq<char>, actual: Seq<char> },
    Transaction(Seq<char>),
    ConstraintViolation(Seq<char>),
    NotImplemented(Seq<char>),
    Internal(Seq<char>),
}

impl DeepView for EngramDbError {
    type V = Fault;

    open spec fn deep_view(&self) -> Fault {
        match self {
            EngramDbError::Io(_) => Fault::Io,
            EngramDbError::Serialization(s) => Fault::Serialization(s@),
            EngramDbError::Parse(s) => Fault::Parse(s@),
            EngramDbError::InvalidFormat(s) => Fault::InvalidFormat(s@),
            EngramDbError::TableNotFound(s) => Fault::TableNotFound(s@),
            EngramDbError::NotSupported(s) => Fault::NotSupported(s@),
            EngramDbError::ColumnNotFound(s) => Fault::ColumnNotFound(s@),
            EngramDbError::IndexNotFound(s) => Fault::IndexNotFound(s@),
            EngramDbError::TypeMismatch { expected, actual } => Fault::TypeMismatch {
                expected: expected@,
                actual: actual@,
            },
            EngramDbError::Transaction(s) => Fault::Transaction(s@),
            EngramDbError::ConstraintViolation(s) => Fault::ConstraintViolation(s@),
            EngramDbError::NotImplemented(s) => Fault::NotImplemented(s@),
            EngramDbError::Internal(s) => Fault::Internal(s@),
        }
    }
}

impl From<std::io::Error> for EngramDbError {
    fn from(e: std::io::Error) -> (r: Self) {
        EngramDbError::Io(e)
    }
}

impl vstd::std_specs::convert::FromSpecImpl<std::io::Error> for EngramDbError {
    open spec fn obeys_from_spec() -> bool {
        true
    }

    open spec fn from_spec(e: std::io::Error) -> Self {
        EngramDbError::Io(e)
    }
}

/// The text of an I/O error, as `Display` of `std::io::Error` writes it. The
/// text comes from the operating system, so nothing is claimed of it.
#[verifier::external_body]
fn io_error_text(e: &std::io::Error) -> (r: String) {
    e.to_string()
}

/// What [`EngramDbError::to_string`] writes for an error that is no I/O error.
pub open spec fn fault_text(f: Fault) -> Seq<char> {
    match f {
        Fault::Io => "IO error: "@,
        Fault::Serialization(s) => "Serialization error: "@ + s,
        Fault::Parse(s) => "Parse error: "@ + s,
        Fault::InvalidFormat(s) => "Invalid file format: "@ + s,
        Fault::TableNotFound(s) => "Table not found: "@ + s,
        Fault::NotSupported(s) => "Operation not supported by engine: "@ + s,
        Fault::ColumnNotFound(s) => "Column not found: "@ + s,
        Fault::IndexNotFound(s) => "Index not found: "@ + s,
        Fault::TypeMismatch { expected, actual } => "Type mismatch: expected "@ + expected
            + ", got "@ + actual,
        Fault::Transaction(s) => "Transaction error: "@ + s,
        Fault::ConstraintViolation(s) => "Constraint violation: "@ + s,
        Fault::NotImplemented(s) => "Not implemented: "@ + s,
        Fault::Internal(s) => "Internal error: "@ + s,
    }
}

impl EngramDbError {
    /// The message shown to users. For an I/O error the fixed prefix is
    /// followed by the operating system's text, which no clause speaks of.
    pub fn to_string(&self) -> (r: String)
        ensures
            !(self is Io) ==> r@ == fault_text(self.deep_view()),
            self is Io ==> fault_text(Fault::Io).is_prefix_of(r@),
    {
        match self {
            EngramDbError::Io(e) => {
                let t = io_error_text(e);
                join2("IO error: ", t.as_str())
            },
            EngramDbError::Serialization(s) => join2("Serialization error: ", s.as_str()),
            EngramDbError::Parse(s) => join2("Parse error: ", s.as_str()),
            EngramDbError::InvalidFormat(s) => join2("Invalid file format: ", s.as_str()),
            EngramDbError::TableNotFound(s) => join2("Table not found: ", s.as_str()),
            EngramDbError::NotSupported(s) => join2(
                "Operation not supported by engine: ",
                s.as_str(),
            ),
            EngramDbError::ColumnNotFound(s) => join2("Column not found: ", s.as_str()),
            EngramDbError::IndexNotFound(s) => join2("Index not found: ", s.as_str()),
            EngramDbError::TypeMismatch { expected, actual } => {
                let head = join3("Type mismatch: expected ", expected.as_str(), ", got ");
                join2(head.as_str(), actual.as_str())
            },
            EngramDbError::Transaction(s) => join2("Transaction error: ", s.as_str()),
            EngramDbError::ConstraintViolation(s) => join2("Constraint violation: ", s.as_str()),
            EngramDbError::NotImplemented(s) => join2("Not implemented: ", s.as_str()),
            EngramDbError::Internal(s) => join2("Internal error: ", s.as_str()),
        }
    }
}

} // verus!
