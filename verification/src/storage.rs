//! The segments of the store and the manifest that orders them.

use vstd::prelude::*;
use vstd::slice::slice_subrange;
use vstd::string::StringExecFns;
use crate::error::DbError;
use crate::keys::str_eq;
use crate::model::{names_of, SegmentModel, StoreModel};
use crate::record::{append_bytes, lemma_record_key_utf8, Record};
use crate::segment::record_at;
use crate::segment_name::{
    active_placed, lemma_segment_name_number, make_segment_name, make_sidecar_name,
    names_numbered, parse_segment_number, segment_name, segment_number, sidecar_name,
};
use crate::sidecar::{lemma_parse_append, parse_entries};
use crate::types::Manifest;

verus! {

/// The size that a segment's log may reach before a new segment is begun,
/// unless another is asked for.
pub const MAX_FILE_SIZE: u64 = 111;

/// The two files of one segment: the log of entries and the sidecar index.
#[derive(Debug, Clone, PartialEq, Eq)]
pub struct SegmentFile {
    pub log: Vec<u8>,
    pub idx: Vec<u8>,
}

/// The manifest and, for each segment it names, the segment's files.
/// `active` is the position of the active segment in the manifest's list.
#[derive(Debug, Clone, PartialEq, Eq)]
pub struct Storage {
    pub manifest: Manifest,
    pub files: Vec<SegmentFile>,
    pub max_file_size: u64,
    pub active: usize,
}

impl View for Storage {
    type V = StoreModel;

    open spec fn view(&self) -> StoreModel {
        StoreModel {
            segments: Seq::new(
                self.files@.len(),
                |i: int|
                    SegmentModel {
                        name: self.manifest.segments@[i]@,
                        log: self.files@[i].log@,
                        idx: self.files@[i].idx@,
                    },
            ),
            active: self.active as int,
            last_compaction: match self.manifest.last_compaction {
                Some(s) => Some(s@),
                None => None,
            },
            max_file_size: self.max_file_size,
        }
    }
}

impl Storage {
    /// The manifest names as many segments as there are files, the store
    /// they make is well-formed, and `active` is where the manifest's active
    /// segment stands.
    pub open spec fn wf(&self) -> bool {
        &&& self.manifest.segments@.len() == self.files@.len()
        &&& self@.wf()
        &&& self.manifest.active_segment@ == self.manifest.segments@[self.active as int]@
    }

    /// A store with one empty segment, number 1, and the default size limit.
    pub fn new() -> (res: Self)
        ensures
            res.wf(),
            res@ == StoreModel::fresh(MAX_FILE_SIZE),
    {
        Self::with_max_file_size(MAX_FILE_SIZE)
    }

    /// A store with one empty segment, number 1, whose segments are full at
    /// `max_file_size` bytes.
    pub fn with_max_file_size(max_file_size: u64) -> (res: Self)
        ensures
            res.wf(),
            res@ == StoreModel::fresh(max_file_size),
    {
        let name = make_segment_name(1);
        let active_segment = name.clone();
        let mut segments: Vec<String> = Vec::new();
        segments.push(name);
        let mut files: Vec<SegmentFile> = Vec::new();
        files.push(SegmentFile { log: Vec::new(), idx: Vec::new() });
        let res = Storage {
            manifest: Manifest { active_segment, segments, last_compaction: None },
            files,
            max_file_size,
            active: 0,
        };
        proof {
            lemma_segment_name_number(1);
            assert(res@.segments =~= StoreModel::fresh(max_file_size).segments);
            assert(res@.segments[0].idx =~= Seq::<u8>::empty());
        }
        res
    }

    /// The manifest and the files can be a store: the manifest is
    /// well-formed, there is one pair of files for each segment it names,
    /// and every sidecar is a sequence of whole triples.
    pub open spec fn image_ok(manifest: Manifest, files: Vec<SegmentFile>) -> bool {
        &&& manifest.wf()
        &&& manifest.segments@.len() == files@.len()
        &&& forall|i: int| 0 <= i < files@.len() ==> parse_entries(#[trigger] files@[i].idx@) is Some
    }

    /// The store that `manifest` and `files` make, with segments that are
    /// full at `max_file_size` bytes. Fails with `Corrupt` where the
    /// manifest is not well-formed, where the files are not one pair for
    /// each segment, and where a sidecar is no sequence of whole triples.
    pub fn open(manifest: Manifest, files: Vec<SegmentFile>, max_file_size: u64) -> (res: Result<
        Self,
        DbError,
    >)
        ensures
            match res {
                Ok(s) => Self::image_ok(manifest, files) && s.wf() && s.manifest == manifest
                    && s.files == files && s.max_file_size == max_file_size,
                Err(e) => !Self::image_ok(manifest, files) && e is Corrupt,
            },
    {
        let n = manifest.segments.len();
        if n == 0 || files.len() != n {
            proof {
                if manifest.wf() {
                    let i = choose|i: int|
                        active_placed(i, manifest.segments@.len() as int) && manifest.segments@[i]@
                            == manifest.active_segment@;
                }
            }
            return Err(DbError::Corrupt("manifest and segment files do not match".to_string()));
        }
        let ghost names = manifest.names();
        let mut last: u32 = 0;
        let mut i: usize = 0;
        while i < n
            invariant
                n == manifest.segments@.len(),
                names == manifest.names(),
                i <= n,
                names_numbered(names.subrange(0, i as int)),
                i > 0 ==> segment_number(names[i - 1]) == Some(last as nat),
            decreases n - i,
        {
            let ghost upto = names.subrange(0, i as int);
            let ghost next = names.subrange(0, i + 1);
            assert(names[i as int] == manifest.segments@[i as int]@);
            match parse_segment_number(manifest.segments[i].as_str()) {
                None => {
                    return Err(DbError::Corrupt("manifest names no segment".to_string()));
                },
                Some(number) => {
                    if i > 0 && number <= last {
                        proof {
                            if names_numbered(names) {
                                assert(segment_number(names[i - 1])->0 < segment_number(
                                    names[i as int],
                                )->0);
                            }
                        }
                        return Err(
                            DbError::Corrupt("segment numbers do not grow".to_string()),
                        );
                    }
                    proof {
                        assert forall|a: int| 0 <= a < next.len() implies segment_number(
                            #[trigger] next[a],
                        ) is Some by {
                            if a < i {
                                assert(next[a] == upto[a]);
                            }
                        }
                        assert forall|a: int, b: int| 0 <= a < b < next.len() implies segment_number(
                            next[a],
                        )->0 < segment_number(next[b])->0 by {
                            assert(next[a] == upto[a]);
                            if b < i {
                                assert(next[b] == upto[b]);
                            } else if a < i - 1 {
                                assert(segment_number(upto[a])->0 < segment_number(
                                    upto[i - 1],
                                )->0);
                            }
                        }
                    }
                    last = number;
                },
            }
            i += 1;
        }
        assert(names.subrange(0, n as int) =~= names);
        let active: usize = if str_eq(
            manifest.segments[n - 1].as_str(),
            manifest.active_segment.as_str(),
        ) {
            n - 1
        } else if n == 2 && str_eq(
            manifest.segments[0].as_str(),
            manifest.active_segment.as_str(),
        ) {
            0
        } else {
            return Err(DbError::Corrupt("active segment is out of place".to_string()));
        };
        let mut k: usize = 0;
        while k < n
            invariant
                n == files@.len(),
                k <= n,
                forall|j: int| 0 <= j < k ==> parse_entries(#[trigger] files@[j].idx@) is Some,
            decreases n - k,
        {
            match Self::load_idx(files[k].idx.as_slice()) {
                Ok(_) => {},
                Err(e) => {
                    return Err(e);
                },
            }
            k += 1;
        }
        let res = Storage { manifest, files, max_file_size, active };
        proof {
            assert(names_of(res@.segments) =~= names);
            assert forall|j: int| 0 <= j < res@.segments.len() implies (
            #[trigger] res@.segments[j]).log.len() <= u64::MAX by {
                assert(res.files@[j].log.len() == res.files@[j].log@.len());
            }
            assert(active_placed(active as int, n as int));
        }
        Ok(res)
    }

    /// The number of segments.
    pub fn segment_count(&self) -> (res: usize)
        ensures
            res == self.files@.len(),
    {
        self.files.len()
    }

    /// The path of the active segment's sidecar index.
    pub fn active_idx_path(&self) -> (res: String)
        requires
            self.wf(),
        ensures
            res@ == "data/index/"@ + sidecar_name(self.manifest.active_segment@),
    {
        assert(segment_number(names_of(self@.segments)[self.active as int]) is Some);
        let sidecar = make_sidecar_name(self.manifest.active_segment.as_str());
        let mut res = String::from_str("data/index/");
        res.append(sidecar.as_str());
        res
    }

    /// The name for one more segment: the number after that of the last
    /// segment. Fails with `OutOfSegments` where no 32-bit number is left.
    pub fn next_segment_name(&self) -> (res: Result<String, DbError>)
        requires
            self.wf(),
        ensures
            match res {
                Ok(name) => self@.can_rotate() && name@ == segment_name(self@.last_number() + 1),
                Err(e) => !self@.can_rotate() && e is OutOfSegments,
            },
    {
        let last = &self.manifest.segments[self.manifest.segments.len() - 1];
        assert(last@ == names_of(self@.segments)[self.files@.len() - 1]);
        match parse_segment_number(last.as_str()) {
            Some(n) => {
                if n == u32::MAX {
                    Err(DbError::OutOfSegments)
                } else {
                    Ok(make_segment_name(n + 1))
                }
            },
            None => Err(DbError::OutOfSegments),
        }
    }

    /// Begins a new, empty segment after the last one and makes it the
    /// active segment.
    pub fn rotate_segment(&mut self) -> (res: Result<(), DbError>)
        requires
            old(self).wf(),
        ensures
            match res {
                Ok(()) => old(self)@.can_rotate() && final(self)@ == old(self)@.rotated()
                    && final(self).wf(),
                Err(e) => !old(self)@.can_rotate() && e is OutOfSegments && *final(self) == *old(
                    self,
                ),
            },
    {
        let name = match self.next_segment_name() {
            Ok(name) => name,
            Err(e) => {
                return Err(e);
            },
        };
        let ghost before = self@;
        self.files.push(SegmentFile { log: Vec::new(), idx: Vec::new() });
        self.manifest.segments.push(name.clone());
        self.manifest.active_segment = name;
        self.active = self.files.len() - 1;
        proof {
            lemma_segment_name_number(before.last_number() + 1);
            assert(self@.segments =~= before.rotated().segments);
            let names = names_of(self@.segments);
            let old_names = names_of(before.segments);
            assert forall|i: int| 0 <= i < names.len() implies segment_number(
                #[trigger] names[i],
            ) is Some by {
                if i < old_names.len() {
                    assert(names[i] == old_names[i]);
                }
            }
            assert forall|i: int, j: int| 0 <= i < j < names.len() implies segment_number(
                names[i],
            )->0 < segment_number(names[j])->0 by {
                assert(names[i] == old_names[i]);
                if j < old_names.len() {
                    assert(names[j] == old_names[j]);
                } else if i < old_names.len() - 1 {
                    assert(segment_number(old_names[i])->0 < segment_number(
                        old_names[old_names.len() - 1],
                    )->0);
                }
            }
            assert forall|i: int| 0 <= i < self@.segments.len() implies parse_entries(
                #[trigger] self@.segments[i].idx,
            ) is Some by {
                if i < before.segments.len() {
                    assert(self@.segments[i] == before.segments[i]);
                }
            }
            assert forall|i: int| 0 <= i < self@.segments.len() implies (
            #[trigger] self@.segments[i]).log.len() <= u64::MAX by {
                if i < before.segments.len() {
                    assert(self@.segments[i] == before.segments[i]);
                }
            }
        }
        Ok(())
    }

    /// Writes `record` at the end of the active segment's log and its triple
    /// at the end of that segment's sidecar, after beginning a new segment
    /// where the log would grow past the size limit. Returns the offset at
    /// which the entry begins.
    pub fn append(&mut self, record: &Record) -> (res: Result<u64, DbError>)
        requires
            old(self).wf(),
        ensures
            final(self).wf(),
            match res {
                Ok(offset) => old(self)@.can_write(record@) && final(self)@ == old(self)@.written(
                    record@,
                ) && offset == old(self)@.write_offset(record@),
                Err(e) => !old(self)@.can_write(record@) && *final(self) == *old(self) && (
                if record@.fits() {
                    e is OutOfSegments
                } else {
                    e is RecordTooLarge
                }),
            },
            old(self)@.index_sound() ==> final(self)@.index_sound(),
            old(self)@.all_consistent() ==> final(self)@.all_consistent(),
    {
        if !record.fits() {
            return Err(DbError::RecordTooLarge);
        }
        let bytes = record.serialize();
        let cur_size = self.files[self.active].log.len();
        if cur_size as u128 + bytes.len() as u128 > self.max_file_size as u128 {
            match self.rotate_segment() {
                Ok(()) => {},
                Err(e) => {
                    return Err(e);
                },
            }
        }
        let ghost base = self@;
        let active = self.active;
        let offset = self.files[active].log.len() as u64;
        append_bytes(&mut self.files[active].log, bytes.as_slice());
        Self::append_idx_entry(&mut self.files[active].idx, record.key.as_str(), offset);
        proof {
            lemma_record_key_utf8(*record);
            if old(self)@.index_sound() {
                crate::laws::law_write_then_read(old(self)@, record@, record@.key);
            }
            if old(self)@.all_consistent() {
                crate::laws::law_write_keeps_consistent(old(self)@, record@);
            }
            lemma_parse_append(base.segments[active as int].idx, record@.key, offset);
            assert(self@.segments =~= base.appended(record@).segments);
            assert(names_of(self@.segments) =~= names_of(base.segments));
            assert forall|i: int| 0 <= i < self@.segments.len() implies parse_entries(
                #[trigger] self@.segments[i].idx,
            ) is Some by {
                if i != active {
                    assert(self@.segments[i] == base.segments[i]);
                }
            }
            assert forall|i: int| 0 <= i < self@.segments.len() implies (
            #[trigger] self@.segments[i]).log.len() <= u64::MAX by {
                if i != active {
                    assert(self@.segments[i] == base.segments[i]);
                } else {
                    assert(self.files@[i].log.len() == self.files@[i].log@.len());
                }
            }
        }
        Ok(offset)
    }

    /// Reads the entry that begins at `offset` in the log `log`.
    pub fn read_record(log: &Vec<u8>, offset: u64) -> (res: Result<Record, DbError>)
        ensures
            match res {
                Ok(r) => record_at(log@, offset) == Some(r@),
                Err(e) => record_at(log@, offset) is None && e is Corrupt,
            },
    {
        if offset > log.len() as u64 {
            return Err(DbError::Corrupt("offset beyond the end of the segment".to_string()));
        }
        let from: usize = offset as usize;
        let rest = slice_subrange(log.as_slice(), from, log.len());
        assert(rest@ =~= log@.skip(offset as int));
        Record::deserialize(rest)
    }

    /// Reads the entry that begins at `offset` in the active segment's log.
    pub fn read_at(&self, offset: u64) -> (res: Result<Record, DbError>)
        requires
            self.wf(),
        ensures
            match res {
                Ok(r) => record_at(self@.active_segment().log, offset) == Some(r@),
                Err(e) => record_at(self@.active_segment().log, offset) is None && e is Corrupt,
            },
    {
        Self::read_record(&self.files[self.active].log, offset)
    }

    /// The position of the segment named `seg` in the manifest's list.
    pub fn segment_position(&self, seg: &str) -> (res: Option<usize>)
        requires
            self.wf(),
        ensures
            match res {
                Some(i) => i < self.files@.len() && self@.segments[i as int].name == seg@,
                None => forall|i: int|
                    0 <= i < self.files@.len() ==> (#[trigger] self@.segments[i]).name != seg@,
            },
    {
        let mut i: usize = 0;
        while i < self.manifest.segments.len()
            invariant
                self.manifest.segments@.len() == self.files@.len(),
                i <= self.files@.len(),
                forall|j: int| 0 <= j < i ==> (#[trigger] self@.segments[j]).name != seg@,
            decreases self.files@.len() - i,
        {
            if str_eq(self.manifest.segments[i].as_str(), seg) {
                return Some(i);
            }
            i += 1;
        }
        None
    }

    /// Reads the entry that begins at `offset` in the log of the segment
    /// named `seg`. Fails with `SegmentNotFound` where the manifest names no
    /// such segment, and with `Corrupt` where no well-formed entry begins
    /// at the offset.
    pub fn read_from_segment(&self, seg: &str, offset: u64) -> (res: Result<Record, DbError>)
        requires
            self.wf(),
        ensures
            match res {
                Ok(r) => exists|i: int|
                    0 <= i < self@.segments.len() && (#[trigger] self@.segments[i]).name == seg@
                        && record_at(self@.segments[i].log, offset) == Some(r@),
                Err(e) => if e is SegmentNotFound {
                    forall|i: int|
                        0 <= i < self@.segments.len() ==> (#[trigger] self@.segments[i]).name
                            != seg@
                } else {
                    e is Corrupt && exists|i: int|
                        0 <= i < self@.segments.len() && (#[trigger] self@.segments[i]).name
                            == seg@ && record_at(self@.segments[i].log, offset) is None
                },
            },
    {
        match self.segment_position(seg) {
            None => Err(DbError::SegmentNotFound),
            Some(i) => {
                let res = Self::read_record(&self.files[i].log, offset);
                assert(self@.segments[i as int].log == self.files@[i as int].log@);
                res
            },
        }
    }
}

} // verus!
