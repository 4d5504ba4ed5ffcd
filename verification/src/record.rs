//! The log entry and its binary form.
//!
//! An entry is a 17-byte header followed by the key and the value:
//! the key's length and the value's length as 32-bit numbers, the time stamp
//! as a 64-bit number, one byte that is 1 for a tombstone and 0 otherwise.
//! All numbers are big-endian.

use vstd::prelude::*;
use vstd::slice::slice_subrange;
use vstd::utf8::*;
use crate::error::DbError;
use crate::utils::{
    be32, be64, decode_u32, decode_u64, encode_u32, encode_u64, from_be32, from_be64,
    lemma_be32_roundtrip, lemma_be64_roundtrip, lemma_from_be32_roundtrip,
    lemma_from_be64_roundtrip,
};

verus! {

/// The length of an entry's header.
pub const HEADER_LEN: usize = 17;

/// One log entry.
#[derive(Debug, Clone, PartialEq, Eq)]
pub struct Record {
    pub key: String,
    pub value: Vec<u8>,
    pub timestamp: u64,
    pub deleted: bool,
}

/// A log entry as the file format sees it: the key as its UTF-8 bytes.
pub ghost struct RecordView {
    pub key: Seq<u8>,
    pub value: Seq<u8>,
    pub timestamp: u64,
    pub deleted: bool,
}

/// The UTF-8 bytes of a string, by which the store finds and orders keys.
pub open spec fn key_bytes(key: Seq<char>) -> Seq<u8> {
    encode_utf8(key)
}

impl View for Record {
    type V = RecordView;

    open spec fn view(&self) -> RecordView {
        RecordView {
            key: key_bytes(self.key@),
            value: self.value@,
            timestamp: self.timestamp,
            deleted: self.deleted,
        }
    }
}

impl RecordView {
    /// Both lengths have room in the header's 32-bit fields.
    pub open spec fn fits(self) -> bool {
        self.key.len() <= u32::MAX && self.value.len() <= u32::MAX
    }

    /// The entry can be written and read back: it fits and its key is UTF-8.
    pub open spec fn valid(self) -> bool {
        self.fits() && valid_utf8(self.key)
    }

    /// The number of bytes of the entry's binary form.
    pub open spec fn encoded_len(self) -> int {
        17 + self.key.len() as int + self.value.len() as int
    }
}

/// The flag byte of an entry.
pub open spec fn flag_byte(deleted: bool) -> u8 {
    if deleted {
        1u8
    } else {
        0u8
    }
}

/// The binary form of an entry.
pub open spec fn encode_record(r: RecordView) -> Seq<u8> {
    be32(r.key.len() as u32) + be32(r.value.len() as u32) + be64(r.timestamp) + seq![
        flag_byte(r.deleted),
    ] + r.key + r.value
}

/// The length that the header at the start of `buf` declares for its entry.
pub open spec fn declared_len(buf: Seq<u8>) -> int
    recommends
        buf.len() >= 8,
{
    17 + from_be32(buf.subrange(0, 4)) + from_be32(buf.subrange(4, 8))
}

/// The entry at the start of `buf`, if `buf` starts with a well-formed one.
/// Bytes after the entry are not looked at.
pub open spec fn decode_record(buf: Seq<u8>) -> Option<RecordView> {
    if buf.len() < 17 {
        None
    } else {
        let klen = from_be32(buf.subrange(0, 4)) as int;
        let vlen = from_be32(buf.subrange(4, 8)) as int;
        let key = buf.subrange(17, 17 + klen);
        if buf.len() < 17 + klen + vlen || buf[16] > 1 || !valid_utf8(key) {
            None
        } else {
            Some(
                RecordView {
                    key,
                    value: buf.subrange(17 + klen, 17 + klen + vlen),
                    timestamp: from_be64(buf.subrange(8, 16)),
                    deleted: buf[16] == 1,
                },
            )
        }
    }
}

/// The binary form of a valid entry, whatever follows it, decodes to that entry.
pub proof fn lemma_decode_encode(r: RecordView, rest: Seq<u8>)
    requires
        r.valid(),
    ensures
        encode_record(r).len() == r.encoded_len(),
        declared_len(encode_record(r) + rest) == r.encoded_len(),
        decode_record(encode_record(r) + rest) == Some(r),
{
    let klen = r.key.len() as u32;
    let vlen = r.value.len() as u32;
    let buf = encode_record(r) + rest;
    lemma_be32_roundtrip(klen);
    lemma_be32_roundtrip(vlen);
    lemma_be64_roundtrip(r.timestamp);
    assert(buf.subrange(0, 4) =~= be32(klen));
    assert(buf.subrange(4, 8) =~= be32(vlen));
    assert(buf.subrange(8, 16) =~= be64(r.timestamp));
    assert(buf[16] == flag_byte(r.deleted));
    assert(buf.subrange(17, 17 + klen as int) =~= r.key);
    assert(buf.subrange(17 + klen as int, 17 + klen as int + vlen as int) =~= r.value);
}

/// What decodes to an entry is a valid entry, and starts with its binary form.
pub proof fn lemma_encode_decode(buf: Seq<u8>)
    requires
        decode_record(buf) is Some,
    ensures
        decode_record(buf)->0.valid(),
        decode_record(buf)->0.encoded_len() == declared_len(buf),
        declared_len(buf) <= buf.len(),
        encode_record(decode_record(buf)->0) == buf.subrange(0, declared_len(buf)),
{
    let r = decode_record(buf)->0;
    lemma_from_be32_roundtrip(buf.subrange(0, 4));
    lemma_from_be32_roundtrip(buf.subrange(4, 8));
    lemma_from_be64_roundtrip(buf.subrange(8, 16));
    assert(encode_record(r) =~= buf.subrange(0, declared_len(buf)));
}

/// The view of a stored entry has a UTF-8 key.
pub proof fn lemma_record_key_utf8(r: Record)
    ensures
        valid_utf8(r@.key),
        r@.fits() ==> r@.valid(),
{
    encode_utf8_valid_utf8(r.key@);
}

/// Two strings with the same UTF-8 bytes are the same string.
pub proof fn lemma_key_bytes_injective(a: Seq<char>, b: Seq<char>)
    requires
        key_bytes(a) == key_bytes(b),
    ensures
        a == b,
{
    encode_utf8_decode_utf8(a);
    encode_utf8_decode_utf8(b);
}

/// `String::from_utf8`: the string that `bytes` encode, where they are
/// well-formed UTF-8, and nothing where they are not.
#[verifier::external_body]
pub(crate) fn string_from_utf8(bytes: Vec<u8>) -> (res: Option<String>)
    ensures
        res is Some <==> valid_utf8(bytes@),
        res matches Some(s) ==> s@ == decode_utf8(bytes@),
{
    String::from_utf8(bytes).ok()
}

/// Appends `src` to `dst`.
pub fn append_bytes(dst: &mut Vec<u8>, src: &[u8])
    ensures
        final(dst)@ == old(dst)@ + src@,
{
    let mut i: usize = 0;
    while i < src.len()
        invariant
            i <= src@.len(),
            dst@ == old(dst)@ + src@.subrange(0, i as int),
        decreases src@.len() - i,
    {
        dst.push(src[i]);
        i += 1;
        assert(dst@ =~= old(dst)@ + src@.subrange(0, i as int));
    }
    assert(src@.subrange(0, i as int) =~= src@);
}

/// A copy of the bytes of `src` from `from` up to `to`.
pub fn copy_range(src: &[u8], from: usize, to: usize) -> (res: Vec<u8>)
    requires
        from <= to <= src@.len(),
    ensures
        res@ == src@.subrange(from as int, to as int),
{
    let mut res: Vec<u8> = Vec::new();
    let mut i: usize = from;
    while i < to
        invariant
            from <= i <= to <= src@.len(),
            res@ == src@.subrange(from as int, i as int),
        decreases to - i,
    {
        res.push(src[i]);
        i += 1;
        assert(res@ =~= src@.subrange(from as int, i as int));
    }
    res
}

impl Record {
    /// An entry of the four parts given.
    pub fn new(key: String, value: Vec<u8>, timestamp: u64, deleted: bool) -> (res: Self)
        ensures
            res.key == key,
            res.value == value,
            res.timestamp == timestamp,
            res.deleted == deleted,
    {
        Self { key, value, timestamp, deleted }
    }

    /// A second entry with the same four parts.
    pub fn copy(&self) -> (res: Self)
        ensures
            res@ == self@,
            res.key@ == self.key@,
    {
        let value = copy_range(self.value.as_slice(), 0, self.value.len());
        assert(value@ =~= self.value@);
        Record { key: self.key.clone(), value, timestamp: self.timestamp, deleted: self.deleted }
    }

    /// Whether key and value are short enough for the header's length fields.
    pub fn fits(&self) -> (res: bool)
        ensures
            res == self@.fits(),
    {
        let key = self.key.as_str().as_bytes();
        key.len() as u64 <= u32::MAX as u64 && self.value.len() as u64 <= u32::MAX as u64
    }

    /// The binary form of the entry.
    pub fn serialize(&self) -> (bytes: Vec<u8>)
        requires
            self@.fits(),
        ensures
            bytes@ == encode_record(self@),
            bytes@.len() == self@.encoded_len(),
    {
        let mut bytes: Vec<u8> = Vec::new();
        let key = self.key.as_str().as_bytes();
        let klen = encode_u32(key.len() as u32);
        let vlen = encode_u32(self.value.len() as u32);
        let stamp = encode_u64(self.timestamp);
        append_bytes(&mut bytes, klen.as_slice());
        append_bytes(&mut bytes, vlen.as_slice());
        append_bytes(&mut bytes, stamp.as_slice());
        bytes.push(if self.deleted { 1u8 } else { 0u8 });
        append_bytes(&mut bytes, key);
        append_bytes(&mut bytes, self.value.as_slice());
        proof {
            lemma_be32_roundtrip(self@.key.len() as u32);
            lemma_be32_roundtrip(self@.value.len() as u32);
            lemma_be64_roundtrip(self.timestamp);
            assert(bytes@ =~= encode_record(self@));
        }
        bytes
    }

    /// Reads the entry at the start of `buf`. Fails with `Corrupt` where `buf`
    /// is shorter than its header declares, where the flag byte is neither 0
    /// nor 1, and where the key is not UTF-8.
    pub fn deserialize(buf: &[u8]) -> (res: Result<Self, DbError>)
        ensures
            match res {
                Ok(r) => decode_record(buf@) == Some(r@),
                Err(e) => decode_record(buf@) is None && e is Corrupt,
            },
    {
        if buf.len() < HEADER_LEN {
            return Err(DbError::Corrupt("record shorter than its header".to_string()));
        }
        let klen = decode_u32(slice_subrange(buf, 0, 4));
        let vlen = decode_u32(slice_subrange(buf, 4, 8));
        let timestamp = decode_u64(slice_subrange(buf, 8, 16));
        let flag = buf[16];
        let total: u64 = 17 + klen as u64 + vlen as u64;
        if (buf.len() as u64) < total {
            return Err(DbError::Corrupt("record shorter than it declares".to_string()));
        }
        if flag > 1 {
            return Err(DbError::Corrupt("tombstone flag is neither 0 nor 1".to_string()));
        }
        let key_end: usize = 17 + klen as usize;
        let val_end: usize = key_end + vlen as usize;
        let key_vec = copy_range(buf, 17, key_end);
        match string_from_utf8(key_vec) {
            None => Err(DbError::Corrupt("key is not UTF-8".to_string())),
            Some(key) => {
                let value = copy_range(buf, key_end, val_end);
                proof {
                    decode_utf8_encode_utf8(buf@.subrange(17, key_end as int));
                }
                Ok(Record { key, value, timestamp, deleted: flag == 1 })
            },
        }
    }
}

/// Writing an entry and reading it back gives the entry, field by field.
pub proof fn law_record_roundtrip(r: Record)
    requires
        r@.fits(),
    ensures
        decode_record(encode_record(r@)) == Some(r@),
        forall|q: Record| q@ == r@ ==> q.key@ == r.key@ && q.value@ == r.value@ && q.timestamp
            == r.timestamp && q.deleted == r.deleted,
{
    encode_utf8_valid_utf8(r.key@);
    lemma_decode_encode(r@, Seq::<u8>::empty());
    assert(encode_record(r@) + Seq::<u8>::empty() =~= encode_record(r@));
    assert forall|q: Record| q@ == r@ implies q.key@ == r.key@ by {
        lemma_key_bytes_injective(q.key@, r.key@);
    }
}

} // verus!
