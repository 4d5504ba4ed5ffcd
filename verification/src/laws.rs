//! What holds of the store whatever is written to it: that the indexes
//! point at the entries they name, that a read gives what was last written,
//! that rotation and compaction keep the segments in order, and that
//! compaction does not change what is read.

use vstd::prelude::*;
use crate::assoc::{lemma_pairs_map_dom, lemma_pairs_map_witness, pairs_map};
use crate::model::{
    lookup_from, merged, names_of, seg_lookup, segment_sound, SegmentModel, StoreModel,
};
use crate::record::{
    decode_record, encode_record, lemma_decode_encode, lemma_encode_decode, RecordView,
};
use crate::segment::{
    consistent, lemma_decode_prefix, lemma_scan_entries, lemma_segment_grows, record_at, scan,
    scanned_offsets, scanned_records, segment_records,
};
use crate::segment_name::{lemma_segment_name_number, segment_number};
use crate::sidecar::{encode_entry, index_of, lemma_parse_append, parse_entries};
use crate::table::live;

verus! {

/// What a read finds for `key` among entries by key: nothing where there
/// is no entry, else the entry's value unless it is a tombstone.
pub open spec fn read_from(m: Map<Seq<u8>, RecordView>, key: Seq<u8>) -> Option<Option<Seq<u8>>> {
    if m.contains_key(key) {
        Some(
            if m[key].deleted {
                None
            } else {
                Some(m[key].value)
            },
        )
    } else {
        None
    }
}

/// In a segment whose sidecar holds one triple for each entry of its log,
/// the index and the log agree: a read through the index finds the last
/// entry that the log holds for the key.
pub proof fn lemma_consistent_lookup(seg: SegmentModel, key: Seq<u8>)
    requires
        consistent(seg.log, seg.idx),
        seg.log.len() <= u64::MAX,
    ensures
        seg_lookup(seg, key) == read_from(segment_records(seg.log), key),
        index_of(seg.idx).contains_key(key) ==> {
            let r = record_at(seg.log, index_of(seg.idx)[key]);
            r is Some && r->0.key == key
        },
{
    let s = scan(seg.log)->0;
    let es = s.entries;
    let offsets = scanned_offsets(es);
    let records = scanned_records(es);
    lemma_pairs_map_dom(offsets, key);
    lemma_pairs_map_dom(records, key);
    lemma_scan_entries(seg.log, 0);
    if pairs_map(offsets).contains_key(key) {
        let i = lemma_pairs_map_witness(offsets, key);
        assert(records[i].0 == key);
        assert(pairs_map(records).contains_key(key));
        let k = lemma_pairs_map_witness(records, key);
        assert(offsets[k].0 == key);
        assert(records[i].0 == key);
        assert(i == k);
        let e = es[i];
        assert(offsets[i].1 == e.0 as u64);
        assert(records[i].1 == e.1);
        assert(decode_record(seg.log.skip(e.0)) == Some(e.1));
    } else {
        if pairs_map(records).contains_key(key) {
            let k = lemma_pairs_map_witness(records, key);
            assert(offsets[k].0 == key);
        }
    }
}

/// A segment whose sidecar holds one triple for each entry of its log has
/// a sound index.
pub proof fn law_consistent_is_sound(seg: SegmentModel)
    requires
        consistent(seg.log, seg.idx),
        seg.log.len() <= u64::MAX,
    ensures
        segment_sound(seg),
{
    assert forall|key: Seq<u8>| #[trigger]
        index_of(seg.idx).contains_key(key) implies {
        let r = record_at(seg.log, index_of(seg.idx)[key]);
        r is Some && r->0.key == key
    } by {
        lemma_consistent_lookup(seg, key);
    }
}

/// A new store is well-formed, its one segment is empty, and its index and
/// log agree.
pub proof fn law_fresh_store(max_file_size: u64)
    ensures
        StoreModel::fresh(max_file_size).wf(),
        StoreModel::fresh(max_file_size).all_consistent(),
        StoreModel::fresh(max_file_size).index_sound(),
        StoreModel::fresh(max_file_size).active == StoreModel::fresh(max_file_size).segments.len()
            - 1,
        forall|key: Seq<u8>| StoreModel::fresh(max_file_size).lookup(key) is None,
{
    let m = StoreModel::fresh(max_file_size);
    lemma_segment_name_number(1);
    assert(parse_entries(m.segments[0].idx) == Some(Seq::<(Seq<u8>, u64)>::empty()));
    assert(scanned_offsets(Seq::<(int, RecordView)>::empty()) =~= Seq::empty());
    assert(index_of(m.segments[0].idx) =~= Map::<Seq<u8>, u64>::empty());
    assert forall|key: Seq<u8>| m.lookup(key) is None by {
        assert(seg_lookup(m.segments[0], key) is None);
        assert(lookup_from(m.segments, 0, key) is None);
    }
}

/// A rotation keeps the store well-formed, and the number of the active
/// segment grows.
pub proof fn law_rotation_numbering(m: StoreModel)
    requires
        m.wf(),
        m.can_rotate(),
    ensures
        m.rotated().wf(),
        segment_number(m.rotated().active_segment().name) is Some,
        segment_number(m.active_segment().name) is Some,
        segment_number(m.rotated().active_segment().name)->0 > segment_number(
            m.active_segment().name,
        )->0,
        m.rotated().segments.len() == m.segments.len() + 1,
{
    lemma_rotated_wf(m);
    let names = names_of(m.segments);
    assert(names[m.active] == m.active_segment().name);
    assert(names[m.segments.len() - 1] == m.segments.last().name);
    lemma_segment_name_number(m.last_number() + 1);
}

/// A rotation keeps the store well-formed.
pub proof fn lemma_rotated_wf(m: StoreModel)
    requires
        m.wf(),
        m.can_rotate(),
    ensures
        m.rotated().wf(),
{
    let after = m.rotated();
    let names = names_of(after.segments);
    let old_names = names_of(m.segments);
    assert(old_names[m.segments.len() - 1] == m.segments.last().name);
    lemma_segment_name_number(m.last_number() + 1);
    assert forall|i: int| 0 <= i < names.len() implies segment_number(#[trigger] names[i])
        is Some by {
        if i < old_names.len() {
            assert(names[i] == old_names[i]);
        }
    }
    assert forall|i: int, j: int| 0 <= i < j < names.len() implies segment_number(names[i])->0
        < segment_number(names[j])->0 by {
        assert(names[i] == old_names[i]);
        if j < old_names.len() {
            assert(names[j] == old_names[j]);
        } else if i < old_names.len() - 1 {
            assert(segment_number(old_names[i])->0 < segment_number(
                old_names[old_names.len() - 1],
            )->0);
        }
    }
    assert forall|i: int| 0 <= i < after.segments.len() implies parse_entries(
        #[trigger] after.segments[i].idx,
    ) is Some by {
        if i < m.segments.len() {
            assert(after.segments[i] == m.segments[i]);
        }
    }
    assert forall|i: int| 0 <= i < after.segments.len() implies (
    #[trigger] after.segments[i]).log.len() <= u64::MAX by {
        if i < m.segments.len() {
            assert(after.segments[i] == m.segments[i]);
        }
    }
}

/// A write keeps the store well-formed.
pub proof fn lemma_written_wf(m: StoreModel, r: RecordView)
    requires
        m.wf(),
        r.valid(),
        m.can_write(r),
    ensures
        m.written(r).wf(),
{
    let base = if m.needs_rotation(r) { m.rotated() } else { m };
    if m.needs_rotation(r) {
        lemma_rotated_wf(m);
    }
    let after = base.appended(r);
    let seg = base.active_segment();
    lemma_parse_append(seg.idx, r.key, seg.log.len() as u64);
    lemma_decode_encode(r, Seq::<u8>::empty());
    assert(names_of(after.segments) =~= names_of(base.segments));
    assert forall|i: int| 0 <= i < after.segments.len() implies parse_entries(
        #[trigger] after.segments[i].idx,
    ) is Some by {
        if i != base.active {
            assert(after.segments[i] == base.segments[i]);
        }
    }
    assert forall|i: int| 0 <= i < after.segments.len() implies (
    #[trigger] after.segments[i]).log.len() <= u64::MAX by {
        if i != base.active {
            assert(after.segments[i] == base.segments[i]);
        }
    }
}

/// After a successful compaction the store has two segments: one more than
/// it had besides the segments that were merged. That is no more than the
/// number beyond which a compaction is asked for, if that number is at
/// least two.
pub proof fn law_compaction_count(
    before: StoreModel,
    after: StoreModel,
    stamp: Seq<char>,
    max_segments: nat,
)
    requires
        before.wf(),
        before.compaction_applies(),
        before.compacted_to(after, stamp),
        max_segments >= 2,
    ensures
        after.segments.len() == 1 + (before.segments.len() - before.candidates().len()),
        after.segments.len() < max_segments + 1,
{
}

/// A read of `key` looks at the first `n` segments only, and only at what
/// each of them gives for `key`.
pub proof fn lemma_lookup_same(
    a: Seq<SegmentModel>,
    b: Seq<SegmentModel>,
    n: int,
    key: Seq<u8>,
)
    requires
        0 <= n <= a.len(),
        n <= b.len(),
        forall|j: int| 0 <= j < n ==> seg_lookup(#[trigger] a[j], key) == seg_lookup(b[j], key),
    ensures
        lookup_from(a, n, key) == lookup_from(b, n, key),
    decreases n,
{
    if n > 0 {
        assert(seg_lookup(a[n - 1], key) == seg_lookup(b[n - 1], key));
        lemma_lookup_same(a, b, n - 1, key);
    }
}

/// Segments whose indexes do not hold `key` do not count in a read of it.
pub proof fn lemma_lookup_skip(segments: Seq<SegmentModel>, n: int, hi: int, key: Seq<u8>)
    requires
        0 <= n <= hi <= segments.len(),
        forall|j: int| n <= j < hi ==> seg_lookup(#[trigger] segments[j], key) is None,
    ensures
        lookup_from(segments, hi, key) == lookup_from(segments, n, key),
    decreases hi - n,
{
    if n < hi {
        assert(seg_lookup(segments[hi - 1], key) is None);
        lemma_lookup_skip(segments, n, hi - 1, key);
    }
}

/// The segment `seg` after `r` and its triple were appended.
pub open spec fn grown(seg: SegmentModel, r: RecordView) -> SegmentModel {
    SegmentModel {
        name: seg.name,
        log: seg.log + encode_record(r),
        idx: seg.idx + encode_entry(r.key, seg.log.len() as u64),
    }
}

/// In a segment with a sound index an appended entry is what a read of its
/// key finds there, reads of other keys find what they found, and the index
/// stays sound.
pub proof fn lemma_grown_segment(seg: SegmentModel, r: RecordView, key: Seq<u8>)
    requires
        parse_entries(seg.idx) is Some,
        segment_sound(seg),
        r.valid(),
        seg.log.len() <= u64::MAX,
    ensures
        seg_lookup(grown(seg, r), r.key) == Some(
            if r.deleted {
                None
            } else {
                Some(r.value)
            },
        ),
        key != r.key ==> seg_lookup(grown(seg, r), key) == seg_lookup(seg, key),
        segment_sound(grown(seg, r)),
{
    let e = encode_record(r);
    let off = seg.log.len() as u64;
    let after = grown(seg, r);
    lemma_parse_append(seg.idx, r.key, off);
    lemma_decode_encode(r, Seq::<u8>::empty());
    assert(e + Seq::<u8>::empty() =~= e);
    assert(after.log.skip(off as int) =~= e);
    assert forall|k: Seq<u8>| k != r.key && #[trigger] index_of(seg.idx).contains_key(
        k,
    ) implies record_at(after.log, index_of(seg.idx)[k]) == record_at(
        seg.log,
        index_of(seg.idx)[k],
    ) by {
        let o = index_of(seg.idx)[k];
        let buf = seg.log.skip(o as int);
        lemma_encode_decode(buf);
        lemma_decode_prefix(buf, e);
        assert(after.log.skip(o as int) =~= buf + e);
    }
    assert forall|k: Seq<u8>| #[trigger] index_of(after.idx).contains_key(k) implies {
        let r2 = record_at(after.log, index_of(after.idx)[k]);
        r2 is Some && r2->0.key == k
    } by {
        if k != r.key {
            assert(index_of(seg.idx).contains_key(k));
        }
    }
    if key != r.key && index_of(seg.idx).contains_key(key) {
        assert(index_of(after.idx).contains_key(key));
    }
}

/// Last write wins. After an entry was written to a store with sound
/// indexes, a read of the entry's key gives the entry's value, or nothing
/// if the entry is a tombstone, unless a segment that reads consult before
/// the active one holds the key. A read of any other key gives what it gave
/// before. The store stays well-formed and its indexes sound.
pub proof fn law_write_then_read(m: StoreModel, r: RecordView, key: Seq<u8>)
    requires
        m.wf(),
        m.index_sound(),
        r.valid(),
        m.can_write(r),
    ensures
        m.written(r).wf(),
        m.written(r).index_sound(),
        key != r.key ==> m.written(r).lookup(key) == m.lookup(key),
        (m.needs_rotation(r) || !m.shadowed(r.key)) ==> m.written(r).lookup(r.key) == if r.deleted {
            None
        } else {
            Some(r.value)
        },
        m.active == m.segments.len() - 1 ==> m.written(r).active == m.written(r).segments.len()
            - 1,
{
    lemma_written_wf(m, r);
    let base = if m.needs_rotation(r) { m.rotated() } else { m };
    if m.needs_rotation(r) {
        lemma_rotated_wf(m);
    }
    let after = m.written(r);
    let a = base.active;
    let seg = base.segments[a];
    assert(segment_sound(seg) && parse_entries(seg.idx) is Some) by {
        if m.needs_rotation(r) {
            assert(index_of(seg.idx) =~= Map::<Seq<u8>, u64>::empty());
        } else {
            assert(seg == m.segments[a]);
        }
    }
    assert(after.segments[a] == grown(seg, r));
    lemma_grown_segment(seg, r, key);
    lemma_grown_segment(seg, r, r.key);
    assert forall|i: int| 0 <= i < after.segments.len() implies segment_sound(
        #[trigger] after.segments[i],
    ) by {
        if i != a {
            assert(after.segments[i] == m.segments[i]);
        }
    }
    let n = m.segments.len() as int;
    if key != r.key {
        assert forall|j: int| 0 <= j < n implies seg_lookup(
            #[trigger] after.segments[j],
            key,
        ) == seg_lookup(m.segments[j], key) by {
            if j != a {
                assert(after.segments[j] == m.segments[j]);
            }
        }
        lemma_lookup_same(after.segments, m.segments, n, key);
        if m.needs_rotation(r) {
            assert(index_of(seg.idx) =~= Map::<Seq<u8>, u64>::empty());
            assert(seg_lookup(seg, key) is None);
            assert(seg_lookup(after.segments[n], key) is None);
            lemma_lookup_skip(after.segments, n, n + 1, key);
        }
    }
    if m.needs_rotation(r) || !m.shadowed(r.key) {
        let hi = after.segments.len() as int;
        assert forall|j: int| a + 1 <= j < hi implies seg_lookup(
            #[trigger] after.segments[j],
            r.key,
        ) is None by {
            assert(after.segments[j] == m.segments[j]);
            assert(!index_of(m.segments[j].idx).contains_key(r.key));
        }
        lemma_lookup_skip(after.segments, a + 1, hi, r.key);
    }
}

/// A write keeps every sidecar in step with its log.
pub proof fn law_write_keeps_consistent(m: StoreModel, r: RecordView)
    requires
        m.wf(),
        m.all_consistent(),
        r.valid(),
        m.can_write(r),
    ensures
        m.written(r).all_consistent(),
{
    let base = if m.needs_rotation(r) { m.rotated() } else { m };
    if m.needs_rotation(r) {
        lemma_rotated_wf(m);
    }
    let after = m.written(r);
    let a = base.active;
    let seg = base.segments[a];
    assert(consistent(seg.log, seg.idx)) by {
        if m.needs_rotation(r) {
            assert(scanned_offsets(Seq::<(int, RecordView)>::empty()) =~= Seq::empty());
        } else {
            assert(seg == m.segments[a]);
        }
    }
    lemma_segment_grows(seg.log, seg.idx, scan(seg.log)->0.entries, r);
    assert forall|i: int| 0 <= i < after.segments.len() implies consistent(
        (#[trigger] after.segments[i]).log,
        after.segments[i].idx,
    ) by {
        if i != a {
            assert(after.segments[i] == m.segments[i]);
        }
    }
}

/// One write: a put of a value under a key, or a delete of a key, with the
/// time stamp of its entry.
pub ghost enum Op {
    Put { key: Seq<u8>, value: Seq<u8>, now: u64 },
    Delete { key: Seq<u8>, now: u64 },
}

/// The entry that a write appends.
pub open spec fn op_record(op: Op) -> RecordView {
    match op {
        Op::Put { key, value, now } => RecordView { key, value, timestamp: now, deleted: false },
        Op::Delete { key, now } => RecordView {
            key,
            value: Seq::empty(),
            timestamp: now,
            deleted: true,
        },
    }
}

/// The store after the writes `ops`, one after another.
pub open spec fn run(m: StoreModel, ops: Seq<Op>) -> StoreModel
    decreases ops.len(),
{
    if ops.len() == 0 {
        m
    } else {
        run(m, ops.drop_last()).written(op_record(ops.last()))
    }
}

/// Each of the writes `ops` can be made when its turn comes.
pub open spec fn runnable(m: StoreModel, ops: Seq<Op>) -> bool
    decreases ops.len(),
{
    ops.len() == 0 || (runnable(m, ops.drop_last()) && op_record(ops.last()).valid() && run(
        m,
        ops.drop_last(),
    ).can_write(op_record(ops.last())))
}

/// What the writes `ops` make of a map from keys to values: a put sets the
/// key's value, a delete takes the key out.
pub open spec fn replay(base: Map<Seq<u8>, Seq<u8>>, ops: Seq<Op>) -> Map<Seq<u8>, Seq<u8>>
    decreases ops.len(),
{
    if ops.len() == 0 {
        base
    } else {
        match ops.last() {
            Op::Put { key, value, now } => replay(base, ops.drop_last()).insert(key, value),
            Op::Delete { key, now } => replay(base, ops.drop_last()).remove(key),
        }
    }
}

/// The key that a write is about.
pub open spec fn op_key(op: Op) -> Seq<u8> {
    match op {
        Op::Put { key, value, now } => key,
        Op::Delete { key, now } => key,
    }
}

/// Last write wins, over any number of writes. In a store whose active
/// segment is the last one, after any puts and deletes a read finds for
/// each key what replaying the puts and deletes on the store's contents
/// gives.
pub proof fn law_last_write_wins(m: StoreModel, ops: Seq<Op>)
    requires
        m.wf(),
        m.index_sound(),
        m.active == m.segments.len() - 1,
        runnable(m, ops),
    ensures
        run(m, ops).wf(),
        run(m, ops).index_sound(),
        run(m, ops).active == run(m, ops).segments.len() - 1,
        run(m, ops).contents() == replay(m.contents(), ops),
    decreases ops.len(),
{
    if ops.len() > 0 {
        let earlier = ops.drop_last();
        law_last_write_wins(m, earlier);
        let mid = run(m, earlier);
        let r = op_record(ops.last());
        let after = run(m, ops);
        assert(!mid.shadowed(r.key));
        assert forall|k: Seq<u8>| after.lookup(k) == (if k == r.key {
            if r.deleted {
                None
            } else {
                Some(r.value)
            }
        } else {
            mid.lookup(k)
        }) by {
            law_write_then_read(mid, r, k);
        }
        law_write_then_read(mid, r, r.key);
        assert(after.contents() =~= replay(m.contents(), ops));
    }
}

/// What replayed writes leave for a key is what the last write for that key
/// says: the value of a put, nothing after a delete.
pub proof fn law_replay_last_op(base: Map<Seq<u8>, Seq<u8>>, ops: Seq<Op>, i: int)
    requires
        0 <= i < ops.len(),
        forall|j: int| i < j < ops.len() ==> op_key(ops[j]) != op_key(ops[i]),
    ensures
        match ops[i] {
            Op::Put { key, value, now } => replay(base, ops).contains_key(key) && replay(
                base,
                ops,
            )[key] == value,
            Op::Delete { key, now } => !replay(base, ops).contains_key(key),
        },
    decreases ops.len(),
{
    if i < ops.len() - 1 {
        let earlier = ops.drop_last();
        assert(earlier[i] == ops[i]);
        assert forall|j: int| i < j < earlier.len() implies op_key(earlier[j]) != op_key(
            earlier[i],
        ) by {
            assert(earlier[j] == ops[j]);
        }
        law_replay_last_op(base, earlier, i);
        assert(op_key(ops[ops.len() - 1]) != op_key(ops[i]));
    }
}

/// What a read finds among the segments that a compaction merges is what
/// their latest entries say.
pub proof fn lemma_lookup_merged(cands: Seq<SegmentModel>, n: int, key: Seq<u8>)
    requires
        0 <= n <= cands.len(),
        forall|i: int|
            0 <= i < cands.len() ==> consistent((#[trigger] cands[i]).log, cands[i].idx)
                && cands[i].log.len() <= u64::MAX,
    ensures
        lookup_from(cands, n, key) == match read_from(merged(cands.subrange(0, n)), key) {
            Some(found) => found,
            None => None,
        },
    decreases n,
{
    let upto = cands.subrange(0, n);
    if n == 0 {
        assert(merged(upto) =~= Map::<Seq<u8>, RecordView>::empty());
    } else {
        lemma_lookup_merged(cands, n - 1, key);
        lemma_consistent_lookup(cands[n - 1], key);
        assert(upto.drop_last() =~= cands.subrange(0, n - 1));
        assert(upto.last() == cands[n - 1]);
    }
}

/// Compaction does not change what is read. After a compaction of a store
/// in which the sidecars of the merged segments are in step with their
/// logs, a read of `key` gives what it gave before, unless both the active
/// segment's index and the new segment hold the key.
pub proof fn law_compaction_preserves_reads(
    before: StoreModel,
    after: StoreModel,
    stamp: Seq<char>,
    key: Seq<u8>,
)
    requires
        before.wf(),
        before.compaction_applies(),
        before.candidates_consistent(),
        before.compacted_to(after, stamp),
        !(index_of(before.active_segment().idx).contains_key(key) && live(
            merged(before.candidates()),
        ).contains_key(key)),
    ensures
        after.lookup(key) == before.lookup(key),
{
    let n = before.segments.len() as int;
    let cands = before.candidates();
    let active = before.active_segment();
    let fresh = after.segments[1];
    assert(before.active == n - 1);
    assert(cands =~= before.segments.subrange(0, n - 1));
    assert forall|i: int| 0 <= i < cands.len() implies consistent(
        (#[trigger] cands[i]).log,
        cands[i].idx,
    ) && cands[i].log.len() <= u64::MAX by {
        assert(cands[i] == before.segments[i]);
    }
    lemma_lookup_merged(cands, n - 1, key);
    assert(cands.subrange(0, n - 1) =~= cands);
    assert forall|j: int| 0 <= j < n - 1 implies seg_lookup(
        #[trigger] before.segments[j],
        key,
    ) == seg_lookup(cands[j], key) by {}
    lemma_lookup_same(before.segments, cands, n - 1, key);
    lemma_consistent_lookup(fresh, key);
    assert(lookup_from(after.segments, 0, key) is None);
    assert(lookup_from(after.segments, 1, key) == match seg_lookup(active, key) {
        Some(found) => found,
        None => None,
    });
}

/// A compaction leaves the store well-formed, with the sidecar of the new
/// segment in step with its log and its index sound.
pub proof fn law_compaction_keeps_order(before: StoreModel, after: StoreModel, stamp: Seq<char>)
    requires
        before.wf(),
        before.can_rotate(),
        before.compaction_applies(),
        before.compacted_to(after, stamp),
    ensures
        after.wf(),
        consistent(after.segments[1].log, after.segments[1].idx),
        segment_sound(after.segments[1]),
        before.all_consistent() ==> after.all_consistent(),
        before.index_sound() ==> after.index_sound(),
{
    let n = before.segments.len() as int;
    let names = names_of(after.segments);
    let old_names = names_of(before.segments);
    lemma_segment_name_number(before.last_number() + 1);
    assert(names[0] == old_names[n - 1]);
    assert(old_names[n - 1] == before.segments.last().name);
    assert(segment_number(names[0]) is Some);
    assert(parse_entries(after.segments[0].idx) is Some);
    law_consistent_is_sound(after.segments[1]);
    assert(after.segments[0] == before.segments[n - 1]);
}

} // verus!
