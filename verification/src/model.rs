//! The store as mathematics: its segments as byte strings, what a read
//! finds in them, and what a write, a rotation and a compaction make of them.

use vstd::prelude::*;
use crate::record::{encode_record, RecordView};
use crate::segment::{consistent, record_at, scan, scanned_records, segment_records};
use crate::segment_name::{active_placed, names_numbered, segment_name, segment_number};
use crate::sidecar::{encode_entry, index_of, parse_entries};
use crate::assoc::pairs_map;
use crate::table::{live, sorted_keys};

verus! {

/// One segment: its name, its log and its sidecar index.
pub ghost struct SegmentModel {
    pub name: Seq<char>,
    pub log: Seq<u8>,
    pub idx: Seq<u8>,
}

/// The store: its segments in the manifest's order, the position of the
/// active one, the time of the last compaction, and the size at which a
/// segment is full.
pub ghost struct StoreModel {
    pub segments: Seq<SegmentModel>,
    pub active: int,
    pub last_compaction: Option<Seq<char>>,
    pub max_file_size: u64,
}

/// What a read of `key` finds in one segment: nothing, where the segment's
/// index does not hold the key; else the value of the entry that the index
/// points to, or no value where that entry is a tombstone or cannot be read.
pub open spec fn seg_lookup(seg: SegmentModel, key: Seq<u8>) -> Option<Option<Seq<u8>>> {
    let ix = index_of(seg.idx);
    if ix.contains_key(key) {
        Some(
            match record_at(seg.log, ix[key]) {
                Some(r) => if r.deleted {
                    None
                } else {
                    Some(r.value)
                },
                None => None,
            },
        )
    } else {
        None
    }
}

/// Every offset in the index of the segment is that of a well-formed entry
/// of its log with the index's key.
pub open spec fn segment_sound(seg: SegmentModel) -> bool {
    forall|key: Seq<u8>| #[trigger]
        index_of(seg.idx).contains_key(key) ==> {
            let r = record_at(seg.log, index_of(seg.idx)[key]);
            r is Some && r->0.key == key
        }
}

/// What a read of `key` finds in the first `n` segments, the last of them
/// consulted first.
pub open spec fn lookup_from(segments: Seq<SegmentModel>, n: int, key: Seq<u8>) -> Option<
    Seq<u8>,
>
    decreases n,
{
    if n <= 0 {
        None
    } else {
        match seg_lookup(segments[n - 1], key) {
            Some(found) => found,
            None => lookup_from(segments, n - 1, key),
        }
    }
}

/// The names of the segments, in order.
pub open spec fn names_of(segments: Seq<SegmentModel>) -> Seq<Seq<char>> {
    Seq::new(segments.len(), |i: int| segments[i].name)
}

/// For each key the latest entry among `segments`, where a later segment
/// counts as newer than an earlier one.
pub open spec fn merged(segments: Seq<SegmentModel>) -> Map<Seq<u8>, RecordView>
    decreases segments.len(),
{
    if segments.len() == 0 {
        Map::empty()
    } else {
        merged(segments.drop_last()).union_prefer_right(segment_records(segments.last().log))
    }
}

/// The log holds exactly the entries of `m`, in the order of their keys, and
/// the sidecar holds their offsets.
pub open spec fn holds_sorted(log: Seq<u8>, idx: Seq<u8>, m: Map<Seq<u8>, RecordView>) -> bool {
    &&& consistent(log, idx)
    &&& sorted_keys(scanned_records(scan(log)->0.entries))
    &&& pairs_map(scanned_records(scan(log)->0.entries)) == m
}

/// Merging is the same from either end: the latest entries of a list of
/// segments are those of its beginning, overridden by those of its end.
pub proof fn lemma_merged_split(segments: Seq<SegmentModel>, j: int)
    requires
        0 <= j <= segments.len(),
    ensures
        merged(segments) == merged(segments.subrange(0, j)).union_prefer_right(
            merged(segments.subrange(j, segments.len() as int)),
        ),
    decreases segments.len(),
{
    let front = segments.subrange(0, j);
    let back = segments.subrange(j, segments.len() as int);
    if j == segments.len() {
        assert(front =~= segments);
        assert(merged(back) =~= Map::<Seq<u8>, RecordView>::empty());
        assert(merged(segments) =~= merged(front).union_prefer_right(merged(back)));
    } else {
        let shorter = segments.drop_last();
        lemma_merged_split(shorter, j);
        assert(shorter.subrange(0, j) =~= front);
        assert(shorter.subrange(j, shorter.len() as int) =~= back.drop_last());
        assert(back.last() == segments.last());
        assert(merged(segments) =~= merged(front).union_prefer_right(merged(back)));
    }
}

/// The latest entries of a single segment are the entries of its log.
pub proof fn lemma_merged_one(seg: SegmentModel)
    ensures
        merged(seq![seg]) == segment_records(seg.log),
{
    let one = seq![seg];
    assert(one.drop_last() =~= Seq::<SegmentModel>::empty());
    assert(merged(one.drop_last()) =~= Map::<Seq<u8>, RecordView>::empty());
    assert(one.last() == seg);
    assert(merged(one) =~= segment_records(seg.log));
}

impl StoreModel {
    /// A store with one empty segment, number 1.
    pub open spec fn fresh(max_file_size: u64) -> StoreModel {
        StoreModel {
            segments: seq![
                SegmentModel { name: segment_name(1), log: Seq::empty(), idx: Seq::empty() },
            ],
            active: 0,
            last_compaction: None,
            max_file_size,
        }
    }

    /// The segments are numbered, the active one is placed, and every
    /// sidecar is a sequence of whole triples.
    pub open spec fn wf(self) -> bool {
        &&& active_placed(self.active, self.segments.len() as int)
        &&& names_numbered(names_of(self.segments))
        &&& forall|i: int|
            0 <= i < self.segments.len() ==> parse_entries(#[trigger] self.segments[i].idx)
                is Some
        &&& forall|i: int|
            0 <= i < self.segments.len() ==> (#[trigger] self.segments[i]).log.len() <= u64::MAX
    }

    /// Every segment's sidecar holds one triple for each entry of its log.
    pub open spec fn all_consistent(self) -> bool {
        forall|i: int|
            0 <= i < self.segments.len() ==> consistent(
                (#[trigger] self.segments[i]).log,
                self.segments[i].idx,
            )
    }

    /// Every offset in a segment's index is that of a well-formed entry
    /// of the segment's log with the index's key.
    pub open spec fn index_sound(self) -> bool {
        forall|i: int| 0 <= i < self.segments.len() ==> segment_sound(#[trigger] self.segments[i])
    }

    /// A segment that reads consult before the active one holds `key` in
    /// its index.
    pub open spec fn shadowed(self, key: Seq<u8>) -> bool {
        exists|j: int|
            self.active < j < self.segments.len() && index_of(
                (#[trigger] self.segments[j]).idx,
            ).contains_key(key)
    }

    /// Every segment that a compaction merges has a sidecar that holds one
    /// triple for each entry of its log.
    pub open spec fn candidates_consistent(self) -> bool {
        forall|i: int|
            0 <= i < self.candidates().len() ==> consistent(
                (#[trigger] self.candidates()[i]).log,
                self.candidates()[i].idx,
            )
    }

    /// The number of the last segment.
    pub open spec fn last_number(self) -> nat {
        segment_number(self.segments.last().name)->0
    }

    /// What a read of `key` gives.
    pub open spec fn lookup(self, key: Seq<u8>) -> Option<Seq<u8>> {
        lookup_from(self.segments, self.segments.len() as int, key)
    }

    /// The keys that a read finds, each with its value.
    pub open spec fn contents(self) -> Map<Seq<u8>, Seq<u8>> {
        Map::new(|k: Seq<u8>| self.lookup(k) is Some, |k: Seq<u8>| self.lookup(k)->0)
    }

    /// The active segment.
    pub open spec fn active_segment(self) -> SegmentModel {
        self.segments[self.active]
    }

    /// With `r` the active segment's log would pass the size at which a
    /// segment is full.
    pub open spec fn needs_rotation(self, r: RecordView) -> bool {
        self.active_segment().log.len() + r.encoded_len() > self.max_file_size
    }

    /// There is a number left for one more segment.
    pub open spec fn can_rotate(self) -> bool {
        self.last_number() < u32::MAX
    }

    /// The store with a new, empty segment at the end, which is active.
    pub open spec fn rotated(self) -> StoreModel {
        StoreModel {
            segments: self.segments.push(
                SegmentModel {
                    name: segment_name(self.last_number() + 1),
                    log: Seq::empty(),
                    idx: Seq::empty(),
                },
            ),
            active: self.segments.len() as int,
            ..self
        }
    }

    /// The store with `r` at the end of the active segment's log and its
    /// triple at the end of that segment's sidecar.
    pub open spec fn appended(self, r: RecordView) -> StoreModel {
        let seg = self.active_segment();
        StoreModel {
            segments: self.segments.update(
                self.active,
                SegmentModel {
                    name: seg.name,
                    log: seg.log + encode_record(r),
                    idx: seg.idx + encode_entry(r.key, seg.log.len() as u64),
                },
            ),
            ..self
        }
    }

    /// `r` can be written: it fits, and if a new segment is needed there is
    /// a number left for it.
    pub open spec fn can_write(self, r: RecordView) -> bool {
        r.fits() && (self.needs_rotation(r) ==> self.can_rotate())
    }

    /// The store after `r` was written: rotated first where `r` would
    /// overfill the active segment, then `r` appended.
    pub open spec fn written(self, r: RecordView) -> StoreModel {
        if self.needs_rotation(r) {
            self.rotated().appended(r)
        } else {
            self.appended(r)
        }
    }

    /// The offset at which `r` begins once written.
    pub open spec fn write_offset(self, r: RecordView) -> u64 {
        if self.needs_rotation(r) {
            0
        } else {
            self.active_segment().log.len() as u64
        }
    }

    /// The segments that a compaction merges: all but the active one.
    pub open spec fn candidates(self) -> Seq<SegmentModel> {
        self.segments.remove(self.active)
    }

    /// There is something to compact: at least two segments besides the
    /// active one.
    pub open spec fn compaction_applies(self) -> bool {
        self.candidates().len() >= 2
    }

    /// Every candidate's log can be read in sequence.
    pub open spec fn candidates_readable(self) -> bool {
        forall|i: int|
            0 <= i < self.candidates().len() ==> scan(
                (#[trigger] self.candidates()[i]).log,
            ) is Some
    }

    /// A read in `after` gives what it gives in this store for every key
    /// but those that both the active segment's index and the latest live
    /// entries of the other segments hold.
    pub open spec fn reads_kept(self, after: StoreModel) -> bool {
        forall|key: Seq<u8>|
            !(index_of(self.active_segment().idx).contains_key(key) && live(
                merged(self.candidates()),
            ).contains_key(key)) ==> #[trigger] after.lookup(key) == self.lookup(key)
    }

    /// `after` is this store compacted at the time `stamp`: the active
    /// segment as it was, followed by one new segment that holds, in the
    /// order of their keys, the latest entries of the other segments that
    /// are no tombstones.
    pub open spec fn compacted_to(self, after: StoreModel, stamp: Seq<char>) -> bool {
        &&& after.segments.len() == 2
        &&& after.segments[0] == self.active_segment()
        &&& after.segments[1].name == segment_name(self.last_number() + 1)
        &&& after.segments[1].log.len() <= u64::MAX
        &&& holds_sorted(
            after.segments[1].log,
            after.segments[1].idx,
            live(merged(self.candidates())),
        )
        &&& after.active == 0
        &&& after.last_compaction == Some(stamp)
        &&& after.max_file_size == self.max_file_size
    }
}

} // verus!
