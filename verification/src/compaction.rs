//! Compaction: the segments that are no longer written to are merged into
//! one new segment that holds, for each key, its latest entry, unless that
//! entry is a tombstone.

use vstd::prelude::*;
use vstd::slice::slice_subrange;
use crate::assoc::{lemma_pairs_map_push, pairs_map};
use crate::clock::utc_now;
use crate::error::DbError;
use crate::model::{
    holds_sorted, lemma_merged_one, lemma_merged_split, merged, names_of, SegmentModel,
};
use crate::record::{append_bytes, lemma_encode_decode, lemma_record_key_utf8, Record, RecordView};
use crate::segment::{
    lemma_segment_grows, scan, scan_from, scanned_offsets, scanned_records, segment_records, Scan,
};
use crate::segment_name::{lemma_segment_name_number, segment_number};
use crate::sidecar::parse_entries;
use crate::storage::{SegmentFile, Storage};
use crate::table::RecordTable;
use crate::utils::decode_u32;

verus! {

impl Storage {
    /// Reads a segment's log in sequence into a table: for each key its last
    /// entry in the log. Fails with `Corrupt` where a whole entry is there
    /// and is malformed; bytes at the end that are no whole entry are left
    /// out.
    pub fn scan_segment(log: &[u8]) -> (res: Result<RecordTable, DbError>)
        ensures
            match res {
                Ok(t) => scan(log@) is Some && t.wf() && t@ == segment_records(log@),
                Err(e) => scan(log@) is None && e is Corrupt,
            },
    {
        let mut table = RecordTable::new();
        let ghost mut acc: Seq<(int, RecordView)> = Seq::empty();
        let mut pos: usize = 0;
        proof {
            assert(scanned_records(acc) =~= Seq::empty());
        }
        loop
            invariant
                pos <= log@.len(),
                table.wf(),
                table@ == pairs_map(scanned_records(acc)),
                scan(log@) == match scan_from(log@, pos as int) {
                    None => None,
                    Some(s) => Some(Scan { entries: acc + s.entries, end: s.end }),
                },
            decreases log@.len() - pos,
        {
            let ghost buf = log@.skip(pos as int);
            let left: usize = log.len() - pos;
            if left < 17 {
                assert(acc + Seq::<(int, RecordView)>::empty() =~= acc);
                return Ok(table);
            }
            let klen = decode_u32(slice_subrange(log, pos, pos + 4));
            let vlen = decode_u32(slice_subrange(log, pos + 4, pos + 8));
            assert(log@.subrange(pos as int, pos + 4) =~= buf.subrange(0, 4));
            assert(log@.subrange(pos + 4, pos + 8) =~= buf.subrange(4, 8));
            let need: u64 = 17 + klen as u64 + vlen as u64;
            if (left as u64) < need {
                assert(acc + Seq::<(int, RecordView)>::empty() =~= acc);
                return Ok(table);
            }
            let rest = slice_subrange(log, pos, log.len());
            assert(rest@ =~= buf);
            match Record::deserialize(rest) {
                Err(e) => {
                    return Err(e);
                },
                Ok(r) => {
                    proof {
                        lemma_encode_decode(buf);
                        let entry = (pos as int, r@);
                        match scan_from(log@, pos + need) {
                            None => {},
                            Some(s) => {
                                assert(acc + (seq![entry] + s.entries) =~= acc.push(entry)
                                    + s.entries);
                            },
                        }
                        assert(scanned_records(acc.push(entry)) =~= scanned_records(acc).push(
                            (r@.key, r@),
                        ));
                        lemma_pairs_map_push(scanned_records(acc), r@.key, r@);
                        acc = acc.push(entry);
                    }
                    table.insert(r);
                    pos = pos + need as usize;
                },
            }
        }
    }

    /// Makes a sidecar anew from a segment's log: one triple for each entry
    /// that reading the log in sequence meets, in order. Fails with
    /// `Corrupt` where a whole entry is there and is malformed.
    pub fn rebuild_sidecar(log: &[u8]) -> (res: Result<Vec<u8>, DbError>)
        ensures
            match res {
                Ok(idx) => scan(log@) is Some && parse_entries(idx@) == Some(
                    scanned_offsets(scan(log@)->0.entries),
                ),
                Err(e) => scan(log@) is None && e is Corrupt,
            },
    {
        let mut idx: Vec<u8> = Vec::new();
        let ghost mut acc: Seq<(int, RecordView)> = Seq::empty();
        let mut pos: usize = 0;
        proof {
            assert(scanned_offsets(acc) =~= Seq::empty());
        }
        loop
            invariant
                pos <= log@.len(),
                parse_entries(idx@) == Some(scanned_offsets(acc)),
                scan(log@) == match scan_from(log@, pos as int) {
                    None => None,
                    Some(s) => Some(Scan { entries: acc + s.entries, end: s.end }),
                },
            decreases log@.len() - pos,
        {
            let ghost buf = log@.skip(pos as int);
            let left: usize = log.len() - pos;
            if left < 17 {
                assert(acc + Seq::<(int, RecordView)>::empty() =~= acc);
                return Ok(idx);
            }
            let klen = decode_u32(slice_subrange(log, pos, pos + 4));
            let vlen = decode_u32(slice_subrange(log, pos + 4, pos + 8));
            assert(log@.subrange(pos as int, pos + 4) =~= buf.subrange(0, 4));
            assert(log@.subrange(pos + 4, pos + 8) =~= buf.subrange(4, 8));
            let need: u64 = 17 + klen as u64 + vlen as u64;
            if (left as u64) < need {
                assert(acc + Seq::<(int, RecordView)>::empty() =~= acc);
                return Ok(idx);
            }
            let rest = slice_subrange(log, pos, log.len());
            assert(rest@ =~= buf);
            match Record::deserialize(rest) {
                Err(e) => {
                    return Err(e);
                },
                Ok(r) => {
                    let ghost idx_before = idx@;
                    Self::append_idx_entry(&mut idx, r.key.as_str(), pos as u64);
                    proof {
                        lemma_encode_decode(buf);
                        let entry = (pos as int, r@);
                        match scan_from(log@, pos + need) {
                            None => {},
                            Some(s) => {
                                assert(acc + (seq![entry] + s.entries) =~= acc.push(entry)
                                    + s.entries);
                            },
                        }
                        crate::sidecar::lemma_parse_append(idx_before, r@.key, pos as u64);
                        assert(scanned_offsets(acc.push(entry)) =~= scanned_offsets(acc).push(
                            (r@.key, pos as u64),
                        ));
                        acc = acc.push(entry);
                    }
                    pos = pos + need as usize;
                },
            }
        }
    }

    /// Adds the entries of a segment's log to `records`, the entries of
    /// newer segments: a key that `records` holds keeps its entry, any other
    /// key gets its last entry in the log.
    pub fn read_seg_into_map(log: &[u8], records: RecordTable) -> (res: Result<
        RecordTable,
        DbError,
    >)
        requires
            records.wf(),
        ensures
            match res {
                Ok(t) => scan(log@) is Some && t.wf() && t@ == segment_records(
                    log@,
                ).union_prefer_right(records@),
                Err(e) => scan(log@) is None && e is Corrupt,
            },
    {
        let mut table = match Self::scan_segment(log) {
            Ok(t) => t,
            Err(e) => {
                return Err(e);
            },
        };
        let ghost older = table@;
        let mut i: usize = 0;
        proof {
            assert(records.pairs().subrange(0, 0) =~= Seq::empty());
            assert(table@ =~= older.union_prefer_right(
                pairs_map(records.pairs().subrange(0, 0)),
            ));
        }
        while i < records.len()
            invariant
                records.wf(),
                table.wf(),
                i <= records.records@.len(),
                table@ == older.union_prefer_right(
                    pairs_map(records.pairs().subrange(0, i as int)),
                ),
            decreases records.records@.len() - i,
        {
            let r = records.records[i].copy();
            proof {
                let prefix = records.pairs().subrange(0, i as int);
                assert(records.pairs().subrange(0, i + 1) =~= prefix.push((r@.key, r@)));
                lemma_pairs_map_push(prefix, r@.key, r@);
                assert(older.union_prefer_right(pairs_map(prefix).insert(r@.key, r@))
                    =~= older.union_prefer_right(pairs_map(prefix)).insert(r@.key, r@));
            }
            table.insert(r);
            i += 1;
        }
        proof {
            assert(records.pairs().subrange(0, i as int) =~= records.pairs());
        }
        Ok(table)
    }

    /// Writes the entries of `records` as a segment: the entries one after
    /// another in the order of their keys, and for each the triple of its
    /// key and offset in the sidecar.
    pub fn write_compacted_records(records: &RecordTable) -> (res: SegmentFile)
        requires
            records.wf(),
        ensures
            holds_sorted(res.log@, res.idx@, records@),
    {
        let mut log: Vec<u8> = Vec::new();
        let mut idx: Vec<u8> = Vec::new();
        let ghost mut acc: Seq<(int, RecordView)> = Seq::empty();
        let mut i: usize = 0;
        proof {
            assert(scanned_offsets(acc) =~= Seq::empty());
            assert(scanned_records(acc) =~= records.pairs().subrange(0, 0));
        }
        while i < records.len()
            invariant
                forall|j: int|
                    0 <= j < records.records@.len() ==> (#[trigger] records.records@[j])@.fits(),
                i <= records.records@.len(),
                scan(log@) == Some(Scan { entries: acc, end: log@.len() as int }),
                parse_entries(idx@) == Some(scanned_offsets(acc)),
                scanned_records(acc) == records.pairs().subrange(0, i as int),
            decreases records.records@.len() - i,
        {
            let record = &records.records[i];
            let offset = log.len() as u64;
            let bytes = record.serialize();
            let ghost log_before = log@;
            let ghost idx_before = idx@;
            append_bytes(&mut log, bytes.as_slice());
            Self::append_idx_entry(&mut idx, record.key.as_str(), offset);
            proof {
                let r = record@;
                lemma_record_key_utf8(*record);
                lemma_segment_grows(log_before, idx_before, acc, r);
                assert(records.pairs().subrange(0, i as int).push((r.key, r))
                    =~= records.pairs().subrange(0, i + 1));
                acc = acc.push((log_before.len() as int, r));
            }
            i += 1;
        }
        proof {
            assert(records.pairs().subrange(0, i as int) =~= records.pairs());
        }
        SegmentFile { log, idx }
    }

    /// Compacts the store at the time `stamp`. With fewer than two segments
    /// besides the active one nothing is done and nothing is returned.
    /// Otherwise those segments give way to one new segment, which follows
    /// the active one; returned are the names of the segments that left and
    /// the name of the new one. Fails, and leaves the store as it was, with
    /// `OutOfSegments` where no number is left for the new segment, and with
    /// `Corrupt` where a segment to merge holds a malformed entry.
    pub fn compact_segments_at(&mut self, stamp: String) -> (res: Result<
        (Vec<String>, String),
        DbError,
    >)
        requires
            old(self).wf(),
        ensures
            final(self).wf(),
            old(self)@.index_sound() ==> final(self)@.index_sound(),
            old(self)@.all_consistent() ==> final(self)@.all_consistent(),
            res is Ok && old(self)@.candidates_consistent() ==> old(self)@.reads_kept(final(self)@),
            match res {
                Ok((removed, name)) => if old(self)@.compaction_applies() {
                    &&& old(self)@.can_rotate()
                    &&& old(self)@.candidates_readable()
                    &&& old(self)@.compacted_to(final(self)@, stamp@)
                    &&& name@ == final(self)@.segments[1].name
                    &&& removed@.len() == old(self)@.candidates().len()
                    &&& forall|i: int|
                        0 <= i < removed@.len() ==> (#[trigger] removed@[i])@ == old(
                            self,
                        )@.candidates()[i].name
                } else {
                    removed@.len() == 0 && name@.len() == 0 && *final(self) == *old(self)
                },
                Err(e) => {
                    &&& old(self)@.compaction_applies()
                    &&& *final(self) == *old(self)
                    &&& if old(self)@.can_rotate() {
                        e is Corrupt && !old(self)@.candidates_readable()
                    } else {
                        e is OutOfSegments
                    }
                },
            },
    {
        let n = self.files.len();
        if n < 3 {
            return Ok((Vec::new(), String::new()));
        }
        let ghost before = self@;
        let ghost cands = before.candidates();
        assert(self.active == n - 1);
        proof {
            assert(cands =~= before.segments.subrange(0, n - 1));
        }
        let name = match self.next_segment_name() {
            Ok(name) => name,
            Err(e) => {
                return Err(e);
            },
        };
        let mut records = RecordTable::new();
        let mut i: usize = n - 1;
        proof {
            assert(cands.subrange(0, n - 1) =~= cands);
            assert(merged(cands) =~= merged(cands.subrange(0, i as int)).union_prefer_right(
                records@,
            ));
        }
        while i > 0
            invariant
                self.wf(),
                *self == *old(self),
                self@ == before,
                before.compaction_applies(),
                before.can_rotate(),
                cands == before.candidates(),
                cands.len() == n - 1,
                n == self.files@.len(),
                forall|j: int| 0 <= j < n - 1 ==> cands[j] == before.segments[j],
                i <= n - 1,
                records.wf(),
                merged(cands) == merged(cands.subrange(0, i as int)).union_prefer_right(
                    records@,
                ),
                forall|j: int| i <= j < n - 1 ==> scan((#[trigger] cands[j]).log) is Some,
            decreases i,
        {
            i -= 1;
            let ghost newer = records@;
            assert(cands[i as int].log == self.files@[i as int].log@);
            records = match Self::read_seg_into_map(self.files[i].log.as_slice(), records) {
                Ok(t) => t,
                Err(e) => {
                    assert(scan(before.candidates()[i as int].log) is None);
                    return Err(e);
                },
            };
            proof {
                let head = cands.subrange(0, i as int);
                let upto = cands.subrange(0, i + 1);
                lemma_merged_split(upto, i as int);
                assert(upto.subrange(0, i as int) =~= head);
                assert(upto.subrange(i as int, i + 1) =~= seq![cands[i as int]]);
                lemma_merged_one(cands[i as int]);
                assert(merged(head).union_prefer_right(
                    segment_records(cands[i as int].log),
                ).union_prefer_right(newer) =~= merged(head).union_prefer_right(records@));
            }
        }
        proof {
            assert(cands.subrange(0, 0) =~= Seq::<SegmentModel>::empty());
            assert(merged(cands) =~= records@);
        }
        let kept = records.drop_tombstones();
        let file = Self::write_compacted_records(&kept);
        let mut removed: Vec<String> = Vec::new();
        let mut k: usize = 0;
        while k < n - 1
            invariant
                self@ == before,
                self.manifest.segments@.len() == n,
                n >= 3,
                k <= n - 1,
                before.segments.len() == n,
                removed@.len() == k,
                forall|j: int| 0 <= j < k ==> (#[trigger] removed@[j])@ == before.segments[j].name,
            decreases n - 1 - k,
        {
            let gone = self.manifest.segments[k].clone();
            assert(gone@ == self@.segments[k as int].name);
            removed.push(gone);
            k += 1;
        }
        let active_name = self.manifest.active_segment.clone();
        let active_file = match self.files.pop() {
            Some(f) => f,
            None => SegmentFile { log: Vec::new(), idx: Vec::new() },
        };
        let mut files: Vec<SegmentFile> = Vec::new();
        files.push(active_file);
        files.push(file);
        let mut segments: Vec<String> = Vec::new();
        segments.push(active_name.clone());
        segments.push(name.clone());
        self.files = files;
        self.manifest.segments = segments;
        self.manifest.active_segment = active_name;
        self.manifest.last_compaction = Some(stamp);
        self.active = 0;
        proof {
            lemma_segment_name_number(before.last_number() + 1);
            assert(self@.segments[0] == before.active_segment());
            assert(self.files@[1].log.len() == self.files@[1].log@.len());
            assert(before.compacted_to(self@, stamp@));
            crate::laws::law_compaction_keeps_order(before, self@, stamp@);
            if before.candidates_consistent() {
                assert forall|key: Seq<u8>|
                    !(crate::sidecar::index_of(before.active_segment().idx).contains_key(key)
                        && crate::table::live(merged(before.candidates())).contains_key(
                        key,
                    )) implies #[trigger] self@.lookup(key) == before.lookup(key) by {
                    crate::laws::law_compaction_preserves_reads(before, self@, stamp@, key);
                }
            }
            let names = names_of(self@.segments);
            assert(names[0] == names_of(before.segments)[n - 1]);
            assert(segment_number(names[0]) is Some);
            assert(segment_number(names[1]) == Some((before.last_number() + 1) as nat));
            assert(parse_entries(self@.segments[0].idx) is Some);
            assert(self.files@[1].log.len() == self.files@[1].log@.len());
            assert(before.segments[n - 1].log.len() <= u64::MAX);
        }
        Ok((removed, name))
    }

    /// Compacts the store now: as `compact_segments_at` does, at the present
    /// time.
    pub fn compact_segments(&mut self) -> (res: Result<(Vec<String>, String), DbError>)
        requires
            old(self).wf(),
        ensures
            final(self).wf(),
            old(self)@.index_sound() ==> final(self)@.index_sound(),
            old(self)@.all_consistent() ==> final(self)@.all_consistent(),
            res is Ok && old(self)@.candidates_consistent() ==> old(self)@.reads_kept(final(self)@),
            match res {
                Ok((removed, name)) => if old(self)@.compaction_applies() {
                    &&& old(self)@.can_rotate()
                    &&& old(self)@.candidates_readable()
                    &&& exists|stamp: Seq<char>| old(self)@.compacted_to(final(self)@, stamp)
                    &&& name@ == final(self)@.segments[1].name
                    &&& removed@.len() == old(self)@.candidates().len()
                    &&& forall|i: int|
                        0 <= i < removed@.len() ==> (#[trigger] removed@[i])@ == old(
                            self,
                        )@.candidates()[i].name
                } else {
                    removed@.len() == 0 && name@.len() == 0 && *final(self) == *old(self)
                },
                Err(e) => {
                    &&& old(self)@.compaction_applies()
                    &&& *final(self) == *old(self)
                    &&& if old(self)@.can_rotate() {
                        e is Corrupt && !old(self)@.candidates_readable()
                    } else {
                        e is OutOfSegments
                    }
                },
            },
    {
        let (_, stamp) = utc_now();
        self.compact_segments_at(stamp)
    }
}

} // verus!
