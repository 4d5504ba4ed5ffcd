//! The errors that the store and its front ends report.

use vstd::prelude::*;

verus! {

/// What can go wrong in the store or in one of its front ends.
#[derive(Debug, Clone, PartialEq, Eq)]
pub enum DbError {
    DatabaseExists,
    DatabaseNotFound,
    NoDatabaseSelected,
    InvalidPrimaryKey,
    InvalidPrimaryKeyType,
    TableNotFound,
    NoTableSelected,
    ColumnCountMismatch,
    TypeMismatch { column: String },
    UnsupportedExpression,
    UnsupportedStatement,
    UnsupportedFilter,
    ParseError(String),
    UnexpectedToken { expected: String, found: String },
    InvalidDataType,
    DuplicatePrimaryKey,
    PrimaryKeyMissing,
    /// Bytes of a record, an index or a row that do not follow their format.
    Corrupt(String),
    /// A key or a value longer than the 32-bit length fields can say.
    RecordTooLarge,
    /// No 32-bit number is left for one more segment.
    OutOfSegments,
    /// The manifest names no segment of that name.
    SegmentNotFound,
    /// Bytes that should be a string and are not well-formed UTF-8.
    Utf8,
}

} // verus!
