//! The binary form of a row: for each value one byte that is 0 for no value
//! and 1 otherwise, followed by the value. A whole number and a
//! floating-point number take eight bytes, a truth value one, a string its
//! length in four bytes and its UTF-8 bytes. All numbers are big-endian.

use vstd::prelude::*;
use vstd::slice::slice_subrange;
use vstd::utf8::{decode_utf8_encode_utf8, valid_utf8};
use crate::error::DbError;
use crate::record::{append_bytes, copy_range, string_from_utf8};
use crate::types::{
    cells_of, i64_from_bits, i64_to_bits, int_bits, int_of_bits, Cell, DataType, TableSchema,
    Value,
};
use crate::utils::{
    be32, be64, decode_u32, decode_u64, encode_u32, encode_u64, from_be32, from_be64,
};

verus! {

/// Rows to bytes and back.
pub struct RowCodec;

/// The binary form of one value.
pub open spec fn encode_cell(c: Cell) -> Seq<u8> {
    match c {
        Cell::Null => seq![0u8],
        Cell::Int(v) => seq![1u8] + be64(int_bits(v)),
        Cell::Float(bits) => seq![1u8] + be64(bits),
        Cell::Bool(b) => seq![1u8, if b { 1u8 } else { 0u8 }],
        Cell::Text(t) => seq![1u8] + be32(t.len() as u32) + t,
    }
}

/// The binary form of a row: the forms of its values, one after another.
pub open spec fn encode_cells(row: Seq<Cell>) -> Seq<u8>
    decreases row.len(),
{
    if row.len() == 0 {
        Seq::empty()
    } else {
        encode_cells(row.drop_last()) + encode_cell(row.last())
    }
}

/// The value has a binary form: a string's length has room in 32 bits.
pub open spec fn cell_fits(c: Cell) -> bool {
    c matches Cell::Text(t) ==> t.len() <= u32::MAX
}

/// The types of the columns of `schema`, in order.
pub open spec fn column_types(schema: TableSchema) -> Seq<DataType> {
    Seq::new(schema.columns@.len(), |i: int| schema.columns@[i].dtype)
}

/// The value of type `dtype` at the start of `bytes`, and the number of
/// bytes it takes; nothing where the bytes end too early or a string is no
/// UTF-8.
pub open spec fn decode_cell(bytes: Seq<u8>, dtype: DataType) -> Option<(Cell, int)> {
    if bytes.len() < 1 {
        None
    } else if bytes[0] == 0 {
        Some((Cell::Null, 1))
    } else {
        match dtype {
            DataType::Int => if bytes.len() < 9 {
                None
            } else {
                Some((Cell::Int(int_of_bits(from_be64(bytes.subrange(1, 9)))), 9))
            },
            DataType::Float => if bytes.len() < 9 {
                None
            } else {
                Some((Cell::Float(from_be64(bytes.subrange(1, 9))), 9))
            },
            DataType::Bool => if bytes.len() < 2 {
                None
            } else {
                Some((Cell::Bool(bytes[1] != 0), 2))
            },
            DataType::String => if bytes.len() < 5 {
                None
            } else {
                let len = from_be32(bytes.subrange(1, 5)) as int;
                if bytes.len() < 5 + len || !valid_utf8(bytes.subrange(5, 5 + len)) {
                    None
                } else {
                    Some((Cell::Text(bytes.subrange(5, 5 + len)), 5 + len))
                }
            },
        }
    }
}

/// The string at the start of `bytes` is there in full and is no UTF-8.
pub open spec fn bad_text(bytes: Seq<u8>, dtype: DataType) -> bool {
    &&& dtype is String
    &&& bytes.len() >= 5
    &&& bytes[0] != 0
    &&& bytes.len() >= 5 + from_be32(bytes.subrange(1, 5))
    &&& !valid_utf8(bytes.subrange(5, 5 + from_be32(bytes.subrange(1, 5))))
}

/// The first value of the row that cannot be read is a string that is
/// there in full and is no UTF-8.
pub open spec fn fails_on_text(bytes: Seq<u8>, dtypes: Seq<DataType>) -> bool
    decreases dtypes.len(),
{
    if dtypes.len() == 0 {
        false
    } else {
        match decode_cell(bytes, dtypes[0]) {
            None => bad_text(bytes, dtypes[0]),
            Some((cell, n)) => fails_on_text(bytes.skip(n), dtypes.drop_first()),
        }
    }
}

/// The row whose values, of the types `dtypes`, stand one after another at
/// the start of `bytes`.
pub open spec fn decode_cells(bytes: Seq<u8>, dtypes: Seq<DataType>) -> Option<Seq<Cell>>
    decreases dtypes.len(),
{
    if dtypes.len() == 0 {
        Some(Seq::empty())
    } else {
        match decode_cell(bytes, dtypes[0]) {
            None => None,
            Some((cell, n)) => match decode_cells(bytes.skip(n), dtypes.drop_first()) {
                None => None,
                Some(rest) => Some(seq![cell] + rest),
            },
        }
    }
}

/// The value may stand in a column of type `dtype`, has a binary form, and
/// a string in it is UTF-8.
pub open spec fn cell_of_type(c: Cell, dtype: DataType) -> bool {
    match c {
        Cell::Null => true,
        Cell::Int(_) => dtype is Int,
        Cell::Float(_) => dtype is Float,
        Cell::Bool(_) => dtype is Bool,
        Cell::Text(t) => dtype is String && t.len() <= u32::MAX && valid_utf8(t),
    }
}

/// The binary form of a value, whatever follows it, reads back as the
/// value.
pub proof fn lemma_cell_roundtrip(c: Cell, dtype: DataType, rest: Seq<u8>)
    requires
        cell_of_type(c, dtype),
    ensures
        decode_cell(encode_cell(c) + rest, dtype) == Some((c, encode_cell(c).len() as int)),
{
    let bytes = encode_cell(c) + rest;
    match c {
        Cell::Null => {},
        Cell::Int(v) => {
            crate::utils::lemma_be64_roundtrip(int_bits(v));
            assert(bytes.subrange(1, 9) =~= be64(int_bits(v)));
        },
        Cell::Float(bits) => {
            crate::utils::lemma_be64_roundtrip(bits);
            assert(bytes.subrange(1, 9) =~= be64(bits));
        },
        Cell::Bool(b) => {},
        Cell::Text(t) => {
            crate::utils::lemma_be32_roundtrip(t.len() as u32);
            assert(bytes.subrange(1, 5) =~= be32(t.len() as u32));
            assert(bytes.subrange(5, 5 + t.len() as int) =~= t);
        },
    }
}

/// The binary form of a row begins with that of its first value.
pub proof fn lemma_encode_cells_first(row: Seq<Cell>)
    requires
        row.len() > 0,
    ensures
        encode_cells(row) == encode_cell(row[0]) + encode_cells(row.drop_first()),
    decreases row.len(),
{
    if row.len() == 1 {
        assert(row.drop_last() =~= Seq::<Cell>::empty());
        assert(row.drop_first() =~= Seq::<Cell>::empty());
        assert(encode_cells(row) =~= encode_cell(row[0]) + encode_cells(row.drop_first()));
    } else {
        let front = row.drop_last();
        lemma_encode_cells_first(front);
        assert(front.drop_first() =~= row.drop_first().drop_last());
        assert(row.drop_first().last() == row.last());
        assert(encode_cells(row) =~= encode_cell(row[0]) + encode_cells(row.drop_first()));
    }
}

/// A row reads as its first value followed by the rest of the row.
pub proof fn lemma_decode_cells_step(
    bytes: Seq<u8>,
    dtypes: Seq<DataType>,
    first: Cell,
    taken: int,
    rest: Seq<Cell>,
)
    requires
        dtypes.len() > 0,
        decode_cell(bytes, dtypes[0]) == Some((first, taken)),
        decode_cells(bytes.skip(taken), dtypes.drop_first()) == Some(rest),
    ensures
        decode_cells(bytes, dtypes) == Some(seq![first] + rest),
{
}

/// Writing a row and reading it back gives the row: the binary form of a
/// row whose values are of the types `dtypes`, whatever follows it, reads
/// back as the row.
pub proof fn law_row_roundtrip(row: Seq<Cell>, dtypes: Seq<DataType>, rest: Seq<u8>)
    requires
        row.len() == dtypes.len(),
        forall|i: int| 0 <= i < row.len() ==> cell_of_type(#[trigger] row[i], dtypes[i]),
    ensures
        decode_cells(encode_cells(row) + rest, dtypes) == Some(row),
    decreases row.len(),
{
    if row.len() == 0 {
        assert(row =~= Seq::<Cell>::empty());
    } else {
        let first = encode_cell(row[0]);
        let tail = row.drop_first();
        let types = dtypes.drop_first();
        let after = encode_cells(tail) + rest;
        let all = encode_cells(row) + rest;
        assert(all == first + after) by {
            lemma_encode_cells_first(row);
            assert(all =~= first + after);
        }
        assert(decode_cell(all, dtypes[0]) == Some((row[0], first.len() as int))) by {
            assert(cell_of_type(row[0], dtypes[0]));
            lemma_cell_roundtrip(row[0], dtypes[0], after);
        }
        assert(decode_cells(after, types) == Some(tail)) by {
            assert forall|i: int| 0 <= i < tail.len() implies cell_of_type(
                #[trigger] tail[i],
                types[i],
            ) by {
                assert(tail[i] == row[i + 1]);
                assert(types[i] == dtypes[i + 1]);
                assert(cell_of_type(row[i + 1], dtypes[i + 1]));
            }
            law_row_roundtrip(tail, types, rest);
        }
        assert(all.skip(first.len() as int) == after) by {
            assert(all.skip(first.len() as int) =~= after);
        }
        lemma_decode_cells_step(all, dtypes, row[0], first.len() as int, tail);
        assert(seq![row[0]] + tail =~= row);
    }
}

impl RowCodec {
    /// The binary form of `row`. Fails with `RecordTooLarge` where a string
    /// is longer than 32 bits can say.
    pub fn encode(row: &[Value]) -> (res: Result<Vec<u8>, DbError>)
        ensures
            match res {
                Ok(bytes) => bytes@ == encode_cells(cells_of(row@)) && forall|i: int|
                    0 <= i < row@.len() ==> cell_fits(#[trigger] row@[i]@),
                Err(e) => e is RecordTooLarge && exists|i: int|
                    0 <= i < row@.len() && !cell_fits(#[trigger] row@[i]@),
            },
    {
        let mut buf: Vec<u8> = Vec::new();
        let mut i: usize = 0;
        proof {
            assert(cells_of(row@).subrange(0, 0) =~= Seq::empty());
        }
        while i < row.len()
            invariant
                i <= row@.len(),
                buf@ == encode_cells(cells_of(row@).subrange(0, i as int)),
                forall|j: int| 0 <= j < i ==> cell_fits(#[trigger] row@[j]@),
            decreases row@.len() - i,
        {
            let ghost before = buf@;
            match &row[i] {
                Value::Null => {
                    buf.push(0);
                },
                Value::Int(v) => {
                    buf.push(1);
                    let bytes = encode_u64(i64_to_bits(*v));
                    append_bytes(&mut buf, bytes.as_slice());
                },
                Value::Float(bits) => {
                    buf.push(1);
                    let bytes = encode_u64(*bits);
                    append_bytes(&mut buf, bytes.as_slice());
                },
                Value::Bool(b) => {
                    buf.push(1);
                    buf.push(if *b { 1u8 } else { 0u8 });
                },
                Value::String(s) => {
                    let bytes = s.as_str().as_bytes();
                    if bytes.len() as u64 > u32::MAX as u64 {
                        return Err(DbError::RecordTooLarge);
                    }
                    buf.push(1);
                    let len = encode_u32(bytes.len() as u32);
                    append_bytes(&mut buf, len.as_slice());
                    append_bytes(&mut buf, bytes);
                },
            }
            proof {
                let cells = cells_of(row@);
                assert(cells.subrange(0, i + 1).drop_last() =~= cells.subrange(0, i as int));
                assert(cells.subrange(0, i + 1).last() == row@[i as int]@);
                assert(buf@ =~= before + encode_cell(row@[i as int]@));
            }
            i += 1;
        }
        proof {
            assert(cells_of(row@).subrange(0, i as int) =~= cells_of(row@));
        }
        Ok(buf)
    }

    /// Reads one value of type `dtype` that begins at `cursor` in `bytes`,
    /// and says how many bytes it takes.
    pub fn decode_value(bytes: &[u8], cursor: usize, dtype: DataType) -> (res: Result<
        (Value, usize),
        DbError,
    >)
        requires
            cursor <= bytes@.len(),
        ensures
            match res {
                Ok((value, taken)) => decode_cell(bytes@.skip(cursor as int), dtype) == Some(
                    (value@, taken as int),
                ) && cursor + taken <= bytes@.len() && cursor + taken <= usize::MAX,
                Err(e) => decode_cell(bytes@.skip(cursor as int), dtype) is None && if bad_text(
                    bytes@.skip(cursor as int),
                    dtype,
                ) {
                    e is Utf8
                } else {
                    e is Corrupt
                },
            },
    {
        let ghost rem = bytes@.skip(cursor as int);
        let left: usize = bytes.len() - cursor;
        if left < 1 {
            return Err(DbError::Corrupt("row ends before its last value".to_string()));
        }
        let flag = bytes[cursor];
        assert(flag == rem[0]);
        if flag == 0 {
            return Ok((Value::Null, 1));
        }
        match dtype {
            DataType::Int => {
                if left < 9 {
                    return Err(DbError::Corrupt("row ends within a number".to_string()));
                }
                let bits = decode_u64(slice_subrange(bytes, cursor + 1, cursor + 9));
                assert(bytes@.subrange(cursor + 1, cursor + 9) =~= rem.subrange(1, 9));
                Ok((Value::Int(i64_from_bits(bits)), 9))
            },
            DataType::Float => {
                if left < 9 {
                    return Err(DbError::Corrupt("row ends within a number".to_string()));
                }
                let bits = decode_u64(slice_subrange(bytes, cursor + 1, cursor + 9));
                assert(bytes@.subrange(cursor + 1, cursor + 9) =~= rem.subrange(1, 9));
                Ok((Value::Float(bits), 9))
            },
            DataType::Bool => {
                if left < 2 {
                    return Err(DbError::Corrupt("row ends within a truth value".to_string()));
                }
                assert(bytes@[cursor + 1] == rem[1]);
                Ok((Value::Bool(bytes[cursor + 1] != 0), 2))
            },
            DataType::String => {
                if left < 5 {
                    return Err(DbError::Corrupt("row ends within a string's length".to_string()));
                }
                let len = decode_u32(slice_subrange(bytes, cursor + 1, cursor + 5));
                assert(bytes@.subrange(cursor + 1, cursor + 5) =~= rem.subrange(1, 5));
                if (left as u64) < 5 + len as u64 {
                    return Err(DbError::Corrupt("row ends within a string".to_string()));
                }
                let end: usize = cursor + 5 + len as usize;
                let text = copy_range(bytes, cursor + 5, end);
                assert(text@ =~= rem.subrange(5, 5 + len as int));
                match string_from_utf8(text) {
                    None => Err(DbError::Utf8),
                    Some(s) => {
                        proof {
                            decode_utf8_encode_utf8(rem.subrange(5, 5 + len as int));
                        }
                        Ok((Value::String(s), 5 + len as usize))
                    },
                }
            },
        }
    }

    /// Reads a row of the table `schema` from the start of `bytes`. Fails
    /// with `Corrupt` where the bytes end before the row does, and with
    /// `Utf8` where a string is no UTF-8.
    pub fn decode(bytes: &[u8], schema: &TableSchema) -> (res: Result<Vec<Value>, DbError>)
        ensures
            match res {
                Ok(row) => decode_cells(bytes@, column_types(*schema)) == Some(cells_of(row@)),
                Err(e) => decode_cells(bytes@, column_types(*schema)) is None && if fails_on_text(
                    bytes@,
                    column_types(*schema),
                ) {
                    e is Utf8
                } else {
                    e is Corrupt
                },
            },
    {
        let mut row: Vec<Value> = Vec::new();
        let mut cursor: usize = 0;
        let mut i: usize = 0;
        let ghost dtypes = column_types(*schema);
        proof {
            assert(bytes@.skip(0) =~= bytes@);
            assert(dtypes.skip(0) =~= dtypes);
            assert(cells_of(row@) =~= Seq::empty());
        }
        while i < schema.columns.len()
            invariant
                dtypes == column_types(*schema),
                i <= schema.columns@.len(),
                cursor <= bytes@.len(),
                decode_cells(bytes@, dtypes) == match decode_cells(
                    bytes@.skip(cursor as int),
                    dtypes.skip(i as int),
                ) {
                    None => None,
                    Some(rest) => Some(cells_of(row@) + rest),
                },
                fails_on_text(bytes@, dtypes) == fails_on_text(
                    bytes@.skip(cursor as int),
                    dtypes.skip(i as int),
                ),
            decreases schema.columns@.len() - i,
        {
            let ghost rem = bytes@.skip(cursor as int);
            let ghost types = dtypes.skip(i as int);
            let ghost before = cells_of(row@);
            proof {
                assert(types[0] == schema.columns@[i as int].dtype);
                assert(types.drop_first() =~= dtypes.skip(i + 1));
            }
            let (value, taken) = match Self::decode_value(bytes, cursor, schema.columns[i].dtype) {
                Ok(read) => read,
                Err(e) => {
                    return Err(e);
                },
            };
            proof {
                assert(rem.skip(taken as int) =~= bytes@.skip(cursor + taken));
                match decode_cells(bytes@.skip(cursor + taken), dtypes.skip(i + 1)) {
                    None => {},
                    Some(rest) => {
                        assert(before + (seq![value@] + rest) =~= before.push(value@) + rest);
                    },
                }
            }
            row.push(value);
            proof {
                assert(cells_of(row@) =~= before.push(value@));
            }
            cursor = cursor + taken;
            i += 1;
        }
        proof {
            assert(dtypes.skip(i as int) =~= Seq::<DataType>::empty());
            assert(cells_of(row@) + Seq::<Cell>::empty() =~= cells_of(row@));
        }
        Ok(row)
    }
}

} // verus!
