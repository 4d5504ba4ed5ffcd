//! A segment's log read from its first byte: the entries that follow one
//! another without a gap, each with the offset at which it begins.

use vstd::prelude::*;
use crate::assoc::pairs_map;
use crate::record::{
    declared_len, decode_record, encode_record, lemma_decode_encode, lemma_encode_decode,
    RecordView,
};
use crate::sidecar::parse_entries;

verus! {

/// What reading a log in sequence gives: the entries met, each with its
/// offset, and the offset at which reading stopped.
pub ghost struct Scan {
    pub entries: Seq<(int, RecordView)>,
    pub end: int,
}

/// Reads `log` in sequence from `pos`. Reading stops where fewer bytes are
/// left than a header has or than the header there declares. It gives nothing
/// where a whole entry is there and is malformed.
pub open spec fn scan_from(log: Seq<u8>, pos: int) -> Option<Scan>
    decreases log.len() - pos,
{
    if pos < 0 || log.len() - pos < 17 {
        Some(Scan { entries: Seq::empty(), end: pos })
    } else {
        let buf = log.skip(pos);
        let n = declared_len(buf);
        if buf.len() < n {
            Some(Scan { entries: Seq::empty(), end: pos })
        } else {
            match decode_record(buf) {
                None => None,
                Some(r) => match scan_from(log, pos + n) {
                    None => None,
                    Some(s) => Some(Scan { entries: seq![(pos, r)] + s.entries, end: s.end }),
                },
            }
        }
    }
}

/// Reads `log` in sequence from its first byte.
pub open spec fn scan(log: Seq<u8>) -> Option<Scan> {
    scan_from(log, 0)
}

/// The entries of a scan as pairs of key and entry.
pub open spec fn scanned_records(es: Seq<(int, RecordView)>) -> Seq<(Seq<u8>, RecordView)> {
    Seq::new(es.len(), |i: int| (es[i].1.key, es[i].1))
}

/// The entries of a scan as pairs of key and offset.
pub open spec fn scanned_offsets(es: Seq<(int, RecordView)>) -> Seq<(Seq<u8>, u64)> {
    Seq::new(es.len(), |i: int| (es[i].1.key, es[i].0 as u64))
}

/// For every key in `log` its last entry there; empty where `log` holds a
/// malformed entry.
pub open spec fn segment_records(log: Seq<u8>) -> Map<Seq<u8>, RecordView> {
    match scan(log) {
        Some(s) => pairs_map(scanned_records(s.entries)),
        None => Map::empty(),
    }
}

/// The log is nothing but whole entries, and the sidecar holds one triple
/// for each of them, in the same order, with the entry's key and offset.
pub open spec fn consistent(log: Seq<u8>, idx: Seq<u8>) -> bool {
    match scan(log) {
        Some(s) => s.end == log.len() && parse_entries(idx) == Some(scanned_offsets(s.entries)),
        None => false,
    }
}

/// The entry at `offset` in `log`, if a well-formed one begins there.
pub open spec fn record_at(log: Seq<u8>, offset: u64) -> Option<RecordView> {
    if offset <= log.len() {
        decode_record(log.skip(offset as int))
    } else {
        None
    }
}

/// Bytes after an entry do not change what is read there.
pub proof fn lemma_decode_prefix(buf: Seq<u8>, more: Seq<u8>)
    requires
        buf.len() >= 17,
        declared_len(buf) <= buf.len(),
    ensures
        declared_len(buf + more) == declared_len(buf),
        decode_record(buf + more) == decode_record(buf),
{
    let all = buf + more;
    let klen = crate::utils::from_be32(buf.subrange(0, 4)) as int;
    let vlen = crate::utils::from_be32(buf.subrange(4, 8)) as int;
    assert(all.subrange(0, 4) =~= buf.subrange(0, 4));
    assert(all.subrange(4, 8) =~= buf.subrange(4, 8));
    assert(all.subrange(8, 16) =~= buf.subrange(8, 16));
    assert(all.subrange(17, 17 + klen) =~= buf.subrange(17, 17 + klen));
    assert(all.subrange(17 + klen, 17 + klen + vlen) =~= buf.subrange(
        17 + klen,
        17 + klen + vlen,
    ));
    assert(all[16] == buf[16]);
}

/// Every entry that a scan meets is a valid entry, lies inside the log and
/// is what is read at its offset.
pub proof fn lemma_scan_entries(log: Seq<u8>, pos: int)
    requires
        0 <= pos,
        scan_from(log, pos) is Some,
    ensures
        pos <= scan_from(log, pos)->0.end,
        scan_from(log, pos)->0.end <= log.len() || scan_from(log, pos)->0.end == pos,
        forall|i: int|
            0 <= i < scan_from(log, pos)->0.entries.len() ==> {
                let e = #[trigger] scan_from(log, pos)->0.entries[i];
                &&& pos <= e.0
                &&& e.0 + e.1.encoded_len() <= log.len()
                &&& e.1.valid()
                &&& decode_record(log.skip(e.0)) == Some(e.1)
            },
    decreases log.len() - pos,
{
    if log.len() - pos < 17 {
    } else {
        let buf = log.skip(pos);
        let n = declared_len(buf);
        if buf.len() < n {
        } else {
            let r = decode_record(buf)->0;
            lemma_encode_decode(buf);
            lemma_scan_entries(log, pos + n);
            let s = scan_from(log, pos + n)->0;
            let all = scan_from(log, pos)->0;
            assert forall|i: int| 0 <= i < all.entries.len() implies {
                let e = #[trigger] all.entries[i];
                &&& pos <= e.0
                &&& e.0 + e.1.encoded_len() <= log.len()
                &&& e.1.valid()
                &&& decode_record(log.skip(e.0)) == Some(e.1)
            } by {
                if i > 0 {
                    assert(all.entries[i] == s.entries[i - 1]);
                }
            }
        }
    }
}

/// An entry appended to a log of whole entries is one more entry of its scan.
pub proof fn lemma_scan_append(log: Seq<u8>, pos: int, r: RecordView)
    requires
        0 <= pos <= log.len(),
        scan_from(log, pos) is Some,
        scan_from(log, pos)->0.end == log.len(),
        r.valid(),
    ensures
        scan_from(log + encode_record(r), pos) == Some(
            Scan {
                entries: scan_from(log, pos)->0.entries.push((log.len() as int, r)),
                end: log.len() + r.encoded_len(),
            },
        ),
    decreases log.len() - pos,
{
    let e = encode_record(r);
    let all = log + e;
    lemma_decode_encode(r, Seq::<u8>::empty());
    assert(e + Seq::<u8>::empty() =~= e);
    if pos == log.len() {
        assert(all.skip(pos) =~= e);
        let end = pos + r.encoded_len();
        assert(scan_from(all, end) == Some(Scan { entries: Seq::empty(), end }));
        assert(seq![(pos, r)] + Seq::<(int, RecordView)>::empty() =~= Seq::<
            (int, RecordView),
        >::empty().push((pos, r)));
    } else {
        let buf = log.skip(pos);
        let n = declared_len(buf);
        assert(log.len() - pos >= 17);
        assert(buf.len() >= n);
        lemma_decode_prefix(buf, e);
        assert(all.skip(pos) =~= buf + e);
        lemma_encode_decode(buf);
        lemma_scan_append(log, pos + n, r);
        let first = (pos, decode_record(buf)->0);
        let rest = scan_from(log, pos + n)->0.entries;
        assert(seq![first] + rest.push((log.len() as int, r)) =~= (seq![first] + rest).push(
            (log.len() as int, r),
        ));
    }
}

/// A log of whole entries and its sidecar stay in step when an entry and
/// its triple are appended.
pub proof fn lemma_segment_grows(
    log: Seq<u8>,
    idx: Seq<u8>,
    acc: Seq<(int, RecordView)>,
    r: RecordView,
)
    requires
        scan(log) == Some(Scan { entries: acc, end: log.len() as int }),
        parse_entries(idx) == Some(scanned_offsets(acc)),
        r.valid(),
        log.len() <= u64::MAX,
    ensures
        scan(log + encode_record(r)) == Some(
            Scan {
                entries: acc.push((log.len() as int, r)),
                end: (log + encode_record(r)).len() as int,
            },
        ),
        parse_entries(idx + crate::sidecar::encode_entry(r.key, log.len() as u64)) == Some(
            scanned_offsets(acc.push((log.len() as int, r))),
        ),
        scanned_records(acc.push((log.len() as int, r))) == scanned_records(acc).push((r.key, r)),
{
    let entry = (log.len() as int, r);
    lemma_scan_append(log, 0, r);
    lemma_decode_encode(r, Seq::<u8>::empty());
    crate::sidecar::lemma_parse_append(idx, r.key, log.len() as u64);
    assert(scanned_offsets(acc.push(entry)) =~= scanned_offsets(acc).push(
        (r.key, log.len() as u64),
    ));
    assert(scanned_records(acc.push(entry)) =~= scanned_records(acc).push((r.key, r)));
}

} // verus!
