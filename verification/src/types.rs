//! The plain data that the store and its front ends hand around.

use vstd::prelude::*;
use vstd::string::StringExecFns;
use crate::error::DbError;
use crate::record::{copy_range, key_bytes};
use crate::decimal::{format_i64, signed_decimal};
use crate::segment_name::{active_placed, names_numbered};
use crate::utils::{be64, encode_u64};

verus! {

/// Which segments the store has, in the order in which reads consult them
/// (the last one first), which of them is written to, and when the store was
/// last compacted.
#[derive(Debug, Clone, PartialEq, Eq)]
pub struct Manifest {
    pub active_segment: String,
    pub segments: Vec<String>,
    pub last_compaction: Option<String>,
}

impl Manifest {
    /// The names of the segments, in order.
    pub open spec fn names(&self) -> Seq<Seq<char>> {
        Seq::new(self.segments@.len(), |i: int| self.segments@[i]@)
    }

    /// The segments are numbered in growing order, and the active segment
    /// is the last of them, or the first of two.
    pub open spec fn wf(&self) -> bool {
        &&& names_numbered(self.names())
        &&& exists|i: int|
            active_placed(i, self.segments@.len() as int) && self.segments@[i]@
                == self.active_segment@
    }
}

/// A table: its name, its columns in order, and the position of the column
/// that is the primary key.
#[derive(Debug, Clone, PartialEq, Eq)]
pub struct TableSchema {
    pub name: String,
    pub columns: Vec<Column>,
    pub primary_key: usize,
}

/// A column: its name and the type of its values.
#[derive(Debug, Clone, PartialEq, Eq)]
pub struct Column {
    pub name: String,
    pub dtype: DataType,
}

/// The types that a column's values can have.
#[derive(Debug, Clone, Copy, PartialEq, Eq)]
pub enum DataType {
    Int,
    Float,
    Bool,
    String,
}

/// A value of a row. A floating-point number is held as the 64 bits of its
/// IEEE 754 form.
#[derive(Debug, Clone, PartialEq, Eq)]
pub enum Value {
    Int(i64),
    Float(u64),
    Bool(bool),
    String(String),
    Null,
}

/// A value as the row format sees it: a string as its UTF-8 bytes.
pub ghost enum Cell {
    Int(i64),
    Float(u64),
    Bool(bool),
    Text(Seq<u8>),
    Null,
}

impl View for Value {
    type V = Cell;

    open spec fn view(&self) -> Cell {
        match *self {
            Value::Int(v) => Cell::Int(v),
            Value::Float(bits) => Cell::Float(bits),
            Value::Bool(b) => Cell::Bool(b),
            Value::String(s) => Cell::Text(key_bytes(s@)),
            Value::Null => Cell::Null,
        }
    }
}

/// The values of a row as the row format sees them.
pub open spec fn cells_of(row: Seq<Value>) -> Seq<Cell> {
    Seq::new(row.len(), |i: int| row[i]@)
}

/// Whether a value may stand in a column of type `dtype`: a value of that
/// type, or no value.
pub open spec fn value_matches(value: Value, dtype: DataType) -> bool {
    match (value, dtype) {
        (Value::Int(_), DataType::Int) => true,
        (Value::Float(_), DataType::Float) => true,
        (Value::Bool(_), DataType::Bool) => true,
        (Value::String(_), DataType::String) => true,
        (Value::Null, _) => true,
        _ => false,
    }
}

/// The text of a value that is no floating-point number.
pub open spec fn value_text(value: Value) -> Seq<char> {
    match value {
        Value::Int(v) => "i:"@ + signed_decimal(v as int),
        Value::Float(_) => Seq::empty(),
        Value::Bool(b) => if b {
            "b:true"@
        } else {
            "b:false"@
        },
        Value::String(s) => "s:"@ + s@,
        Value::Null => Seq::empty(),
    }
}

/// The bits of `v` in two's complement.
pub open spec fn int_bits(v: i64) -> u64 {
    if v >= 0 {
        v as u64
    } else {
        (v + 0x1_0000_0000_0000_0000) as u64
    }
}

/// The number whose two's complement bits are `bits`.
pub open spec fn int_of_bits(bits: u64) -> i64 {
    if bits < 0x8000_0000_0000_0000 {
        bits as i64
    } else {
        (bits - 0x1_0000_0000_0000_0000) as i64
    }
}

/// The bits of `v` in two's complement.
pub fn i64_to_bits(v: i64) -> (res: u64)
    ensures
        res == int_bits(v),
        int_of_bits(res) == v,
{
    if v >= 0 {
        v as u64
    } else {
        let low: u64 = ((v + 1) + i64::MAX) as u64;
        low + 0x8000_0000_0000_0000
    }
}

/// The number whose two's complement bits are `bits`.
pub fn i64_from_bits(bits: u64) -> (res: i64)
    ensures
        res == int_of_bits(bits),
        int_bits(res) == bits,
{
    if bits < 0x8000_0000_0000_0000 {
        bits as i64
    } else {
        let low: i64 = (bits - 0x8000_0000_0000_0000) as i64;
        (low - i64::MAX) - 1
    }
}

impl Column {
    /// A column named `name` with values of type `dtype`.
    pub fn new(name: &str, dtype: DataType) -> (res: Self)
        ensures
            res.name@ == name@,
            res.dtype == dtype,
    {
        Column { name: name.to_owned(), dtype }
    }
}

impl Value {
    /// Whether the value may stand in a column of type `dtype`.
    pub fn matches(&self, dtype: &DataType) -> (res: bool)
        ensures
            res == value_matches(*self, *dtype),
    {
        match (self, dtype) {
            (Value::Int(_), DataType::Int) => true,
            (Value::Float(_), DataType::Float) => true,
            (Value::Bool(_), DataType::Bool) => true,
            (Value::String(_), DataType::String) => true,
            (Value::Null, _) => true,
            _ => false,
        }
    }

    /// The bytes under which the value serves as a primary key: the eight
    /// big-endian bytes of a whole number, the UTF-8 bytes of a string.
    /// Fails with `InvalidPrimaryKeyType` for any other value.
    pub fn to_key_bytes(&self) -> (res: Result<Vec<u8>, DbError>)
        ensures
            match res {
                Ok(bytes) => match *self {
                    Value::Int(v) => bytes@ == be64(int_bits(v)),
                    Value::String(s) => bytes@ == key_bytes(s@),
                    _ => false,
                },
                Err(e) => e is InvalidPrimaryKeyType && !(*self is Int) && !(*self is String),
            },
    {
        match self {
            Value::Int(v) => {
                let bytes = encode_u64(i64_to_bits(*v));
                Ok(copy_range(bytes.as_slice(), 0, 8))
            },
            Value::String(s) => {
                let bytes = s.as_str().as_bytes();
                let res = copy_range(bytes, 0, bytes.len());
                assert(res@ =~= key_bytes(s@));
                Ok(res)
            },
            _ => Err(DbError::InvalidPrimaryKeyType),
        }
    }

    /// The value as text: `i:` and the number, `b:` and `true` or `false`,
    /// `s:` and the string, nothing for no value. A floating-point number
    /// has no text here: its digits are made outside this library.
    pub fn text(&self) -> (res: Option<String>)
        ensures
            match res {
                Some(t) => !(*self is Float) && t@ == value_text(*self),
                None => *self is Float,
            },
    {
        match self {
            Value::Int(v) => {
                let digits = format_i64(*v);
                let mut t = String::from_str("i:");
                t.append(digits.as_str());
                Some(t)
            },
            Value::Float(_) => None,
            Value::Bool(b) => Some(
                if *b {
                    String::from_str("b:true")
                } else {
                    String::from_str("b:false")
                },
            ),
            Value::String(s) => {
                let mut t = String::from_str("s:");
                t.append(s.as_str());
                Some(t)
            },
            Value::Null => Some(String::new()),
        }
    }

    /// A second value equal to this one.
    pub fn copy(&self) -> (res: Self)
        ensures
            res@ == self@,
    {
        match self {
            Value::Int(v) => Value::Int(*v),
            Value::Float(v) => Value::Float(*v),
            Value::Bool(v) => Value::Bool(*v),
            Value::String(s) => Value::String(s.clone()),
            Value::Null => Value::Null,
        }
    }
}

} // verus!
