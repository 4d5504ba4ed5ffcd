//! The sidecar index of a segment: for every entry appended to the segment's
//! log, a triple of the key's length (32 bits), the key, and the offset at
//! which the entry begins (64 bits), big-endian.

use vstd::prelude::*;
use vstd::slice::slice_subrange;
use vstd::utf8::{decode_utf8_encode_utf8, valid_utf8};
use crate::assoc::{lemma_pairs_map_push, pairs_map};
use crate::error::DbError;
use crate::record::{append_bytes, copy_range, key_bytes, string_from_utf8};
use crate::seg_index::SegIndex;
use crate::storage::Storage;
use crate::utils::{
    be32, be64, decode_u32, decode_u64, encode_u32, encode_u64, from_be32, from_be64,
    lemma_be32_roundtrip, lemma_be64_roundtrip,
};

verus! {

/// The triple that the sidecar holds for an entry with `key` at `offset`.
pub open spec fn encode_entry(key: Seq<u8>, offset: u64) -> Seq<u8> {
    be32(key.len() as u32) + key + be64(offset)
}

/// The pairs of key and offset that the sidecar `idx` holds, in order;
/// nothing where `idx` is not a sequence of whole triples with UTF-8 keys.
pub open spec fn parse_entries(idx: Seq<u8>) -> Option<Seq<(Seq<u8>, u64)>>
    decreases idx.len(),
{
    if idx.len() == 0 {
        Some(Seq::empty())
    } else if idx.len() < 4 {
        None
    } else {
        let klen = from_be32(idx.subrange(0, 4)) as int;
        let key = idx.subrange(4, 4 + klen);
        if idx.len() < klen + 12 || !valid_utf8(key) {
            None
        } else {
            match parse_entries(idx.skip(klen + 12)) {
                None => None,
                Some(rest) => Some(
                    seq![(key, from_be64(idx.subrange(4 + klen, klen + 12)))] + rest,
                ),
            }
        }
    }
}

/// The index that the sidecar `idx` stands for: every key with the offset of
/// its last triple. A sidecar that does not parse stands for the empty index.
pub open spec fn index_of(idx: Seq<u8>) -> Map<Seq<u8>, u64> {
    match parse_entries(idx) {
        Some(es) => pairs_map(es),
        None => Map::empty(),
    }
}

/// One triple alone parses to its pair.
pub proof fn lemma_parse_single(key: Seq<u8>, offset: u64)
    requires
        key.len() <= u32::MAX,
        valid_utf8(key),
    ensures
        encode_entry(key, offset).len() == key.len() + 12,
        parse_entries(encode_entry(key, offset)) == Some(seq![(key, offset)]),
{
    let e = encode_entry(key, offset);
    let klen = key.len() as int;
    lemma_be32_roundtrip(key.len() as u32);
    lemma_be64_roundtrip(offset);
    assert(e.subrange(0, 4) =~= be32(key.len() as u32));
    assert(e.subrange(4, 4 + klen) =~= key);
    assert(e.subrange(4 + klen, klen + 12) =~= be64(offset));
    assert(e.skip(klen + 12) =~= Seq::<u8>::empty());
    assert(parse_entries(e.skip(klen + 12)) == Some(Seq::<(Seq<u8>, u64)>::empty()));
    assert(seq![(key, offset)] + Seq::<(Seq<u8>, u64)>::empty() =~= seq![(key, offset)]);
}

/// A triple appended to a sidecar is a pair appended to what it holds.
pub proof fn lemma_parse_append(idx: Seq<u8>, key: Seq<u8>, offset: u64)
    requires
        parse_entries(idx) is Some,
        key.len() <= u32::MAX,
        valid_utf8(key),
    ensures
        parse_entries(idx + encode_entry(key, offset)) == Some(
            parse_entries(idx)->0.push((key, offset)),
        ),
        index_of(idx + encode_entry(key, offset)) == index_of(idx).insert(key, offset),
    decreases idx.len(),
{
    let e = encode_entry(key, offset);
    let all = idx + e;
    lemma_parse_single(key, offset);
    if idx.len() == 0 {
        assert(all =~= e);
        assert(Seq::<(Seq<u8>, u64)>::empty().push((key, offset)) =~= seq![(key, offset)]);
    } else {
        let klen = from_be32(idx.subrange(0, 4)) as int;
        let rest_bytes = idx.skip(klen + 12);
        lemma_parse_append(rest_bytes, key, offset);
        assert(all.subrange(0, 4) =~= idx.subrange(0, 4));
        assert(all.subrange(4, 4 + klen) =~= idx.subrange(4, 4 + klen));
        assert(all.subrange(4 + klen, klen + 12) =~= idx.subrange(4 + klen, klen + 12));
        assert(all.skip(klen + 12) =~= rest_bytes + e);
        let first = (idx.subrange(4, 4 + klen), from_be64(idx.subrange(4 + klen, klen + 12)));
        let rest = parse_entries(rest_bytes)->0;
        assert(seq![first] + rest.push((key, offset)) =~= (seq![first] + rest).push(
            (key, offset),
        ));
    }
    lemma_pairs_map_push(parse_entries(idx)->0, key, offset);
}

impl Storage {
    /// Appends to the sidecar `idx` the triple for an entry with `key` that
    /// begins at `offset` in the segment's log.
    pub fn append_idx_entry(idx: &mut Vec<u8>, key: &str, offset: u64)
        requires
            key_bytes(key@).len() <= u32::MAX,
        ensures
            final(idx)@ == old(idx)@ + encode_entry(key_bytes(key@), offset),
    {
        let ghost before = idx@;
        let bytes = key.as_bytes();
        let klen = encode_u32(bytes.len() as u32);
        let off = encode_u64(offset);
        append_bytes(idx, klen.as_slice());
        append_bytes(idx, bytes);
        append_bytes(idx, off.as_slice());
        assert(idx@ =~= before + encode_entry(key_bytes(key@), offset));
    }

    /// Reads a sidecar into an index: every key with the offset of its last
    /// triple. Fails with `Corrupt` where the bytes are not a sequence of
    /// whole triples with UTF-8 keys.
    pub fn load_idx(idx: &[u8]) -> (res: Result<SegIndex, DbError>)
        ensures
            match res {
                Ok(ix) => parse_entries(idx@) is Some && ix@ == index_of(idx@) && ix.wf(),
                Err(e) => parse_entries(idx@) is None && e is Corrupt,
            },
    {
        let mut index = SegIndex::new();
        let ghost mut acc: Seq<(Seq<u8>, u64)> = Seq::empty();
        let mut pos: usize = 0;
        assert(idx@.skip(0) =~= idx@);
        while pos < idx.len()
            invariant
                pos <= idx@.len(),
                index@ == pairs_map(acc),
                index.wf(),
                parse_entries(idx@) == match parse_entries(idx@.skip(pos as int)) {
                    None => None,
                    Some(rest) => Some(acc + rest),
                },
            decreases idx@.len() - pos,
        {
            let ghost rem = idx@.skip(pos as int);
            let left: usize = idx.len() - pos;
            if left < 4 {
                return Err(DbError::Corrupt("index entry without a whole length".to_string()));
            }
            let klen = decode_u32(slice_subrange(idx, pos, pos + 4));
            assert(idx@.subrange(pos as int, pos + 4) =~= rem.subrange(0, 4));
            let need: u64 = 12 + klen as u64;
            if (left as u64) < need {
                return Err(DbError::Corrupt("index entry shorter than it declares".to_string()));
            }
            let key_start: usize = pos + 4;
            let key_end: usize = key_start + klen as usize;
            let end: usize = key_end + 8;
            let key_vec = copy_range(idx, key_start, key_end);
            assert(key_vec@ =~= rem.subrange(4, 4 + klen as int));
            match string_from_utf8(key_vec) {
                None => {
                    return Err(DbError::Corrupt("index key is not UTF-8".to_string()));
                },
                Some(key) => {
                    let offset = decode_u64(slice_subrange(idx, key_end, end));
                    proof {
                        let kb = rem.subrange(4, 4 + klen as int);
                        decode_utf8_encode_utf8(kb);
                        assert(key_bytes(key@) == kb);
                        assert(idx@.subrange(key_end as int, end as int) =~= rem.subrange(
                            4 + klen as int,
                            klen as int + 12,
                        ));
                        assert(rem.skip(klen as int + 12) =~= idx@.skip(end as int));
                        lemma_pairs_map_push(acc, kb, offset);
                        match parse_entries(idx@.skip(end as int)) {
                            None => {},
                            Some(rest) => {
                                assert(acc + (seq![(kb, offset)] + rest) =~= acc.push(
                                    (kb, offset),
                                ) + rest);
                            },
                        }
                        acc = acc.push((kb, offset));
                    }
                    index.insert(key, offset);
                    pos = end;
                },
            }
        }
        proof {
            assert(idx@.skip(pos as int) =~= Seq::<u8>::empty());
            assert(acc + Seq::<(Seq<u8>, u64)>::empty() =~= acc);
        }
        Ok(index)
    }
}

} // verus!
