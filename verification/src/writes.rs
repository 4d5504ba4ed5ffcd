//! Writes through the engine: puts, deletes and compactions, each of which
//! leaves the cache fit for the store.

use vstd::prelude::*;
use crate::cache::{
    all_entries, cache_cap, cache_entries, cache_pop, cache_put, dropped_all, entry_names,
    lemma_after_put, lemma_names_after_put, lemma_names_removed, lemma_removed,
    lemma_touch_after_drop, names_distinct, slot_of, touched,
};
use crate::clock::{time_stamp, utc_now};
use crate::engine::{cached_right, is_segment, lemma_names_apart, Engine};
use crate::error::DbError;
use crate::model::{names_of, StoreModel};
use crate::record::{key_bytes, lemma_record_key_utf8, Record, RecordView};
use crate::seg_index::SegIndex;
use crate::sidecar::{index_of, lemma_parse_append, parse_entries};
use crate::storage::Storage;

verus! {

/// The entry that a put of `value` under `key` at the time `now` writes.
pub open spec fn put_record(key: Seq<char>, value: Seq<u8>, now: u64) -> RecordView {
    RecordView { key: key_bytes(key), value, timestamp: now, deleted: false }
}

/// The entry that a delete of `key` at the time `now` writes.
pub open spec fn tombstone(key: Seq<char>, now: u64) -> RecordView {
    RecordView { key: key_bytes(key), value: Seq::empty(), timestamp: now, deleted: true }
}

/// What a read gives in the store `after`, which is the store `before`
/// after `r` was written: for the key of `r` the value of `r`, or nothing
/// if `r` is a tombstone, unless a segment that reads consult before the
/// active one holds the key; for any other key what it gave before. The
/// indexes stay sound.
pub open spec fn read_after_write(before: StoreModel, after: StoreModel, r: RecordView) -> bool {
    &&& after.index_sound()
    &&& before.needs_rotation(r) || !before.shadowed(r.key) ==> after.lookup(r.key) == if r.deleted {
        None
    } else {
        Some(r.value)
    }
    &&& forall|k: Seq<u8>| k != r.key ==> #[trigger] after.lookup(k) == before.lookup(k)
}

/// A write to a store with sound indexes is read as `read_after_write`
/// says.
pub proof fn lemma_read_after_write(before: StoreModel, r: RecordView)
    requires
        before.wf(),
        before.index_sound(),
        r.valid(),
        before.can_write(r),
    ensures
        read_after_write(before, before.written(r), r),
{
    crate::laws::law_write_then_read(before, r, r.key);
    assert forall|k: Seq<u8>| k != r.key implies #[trigger] before.written(r).lookup(k)
        == before.lookup(k) by {
        crate::laws::law_write_then_read(before, r, k);
    }
}

/// A cache entry is right for the store `m` and has none of the first `k`
/// names of `gone`.
pub open spec fn kept(m: StoreModel, gone: Seq<Seq<char>>, k: int) -> spec_fn(
    (Seq<char>, SegIndex),
) -> bool {
    |e: (Seq<char>, SegIndex)|
        cached_right(m)(e) && forall|j: int| 0 <= j < k ==> e.0 != #[trigger] gone[j]
}

impl Engine {
    /// Writes `record` to the store and brings the cached index of the
    /// active segment up to date. Returns whether a compaction is to be
    /// started.
    pub fn write(&mut self, record: Record) -> (res: Result<bool, DbError>)
        requires
            old(self).inv(),
        ensures
            final(self).inv(),
            final(self).max_segments == old(self).max_segments,
            cache_cap(&final(self).index) == cache_cap(&old(self).index),
            entry_names(cache_entries(&final(self).index)) == if res is Ok {
                touched(
                    entry_names(cache_entries(&old(self).index)),
                    cache_cap(&old(self).index),
                    final(self).storage@.active_segment().name,
                )
            } else {
                entry_names(cache_entries(&old(self).index))
            },
            match res {
                Ok(due) => {
                    &&& old(self).storage@.can_write(record@)
                    &&& final(self).storage@ == old(self).storage@.written(record@)
                    &&& due == (final(self).storage@.segments.len() > old(self).max_segments
                        && !old(self).compaction_running)
                    &&& final(self).compaction_running == (old(self).compaction_running || due)
                },
                Err(e) => {
                    &&& !old(self).storage@.can_write(record@)
                    &&& final(self).storage == old(self).storage
                    &&& final(self).compaction_running == old(self).compaction_running
                    &&& if record@.fits() {
                        e is OutOfSegments
                    } else {
                        e is RecordTooLarge
                    }
                },
            },
    {
        let ghost m0 = self.storage@;
        let ghost es0 = cache_entries(&self.index);
        let ghost r = record@;
        let offset = match self.storage.append(&record) {
            Ok(offset) => offset,
            Err(e) => {
                return Err(e);
            },
        };
        let ghost m1 = self.storage@;
        let ghost a1 = m1.active;
        let ghost rotated = m0.needs_rotation(r);
        let ghost prev_idx = if rotated {
            Seq::<u8>::empty()
        } else {
            m0.segments[m0.active].idx
        };
        let name = self.active_segment();
        proof {
            lemma_record_key_utf8(record);
            assert(m1.segments[a1].name == name@);
            assert(m1.segments[a1].idx == prev_idx + crate::sidecar::encode_entry(r.key, offset));
            assert(parse_entries(prev_idx) is Some);
            lemma_parse_append(prev_idx, r.key, offset);
            assert forall|j: int| 0 <= j < m0.segments.len() && j != a1 implies m1.segments[j]
                == m0.segments[j] by {}
        }
        let cached = cache_pop(&mut self.index, name.as_str());
        let ghost es1 = cache_entries(&self.index);
        proof {
            lemma_names_removed(es0, name@);
            lemma_touch_after_drop(es0, cache_cap(&self.index), name@);
            match slot_of(es0, name@) {
                Some(p) => {
                    lemma_removed(es0, p, cached_right(m0));
                },
                None => {},
            }
            assert forall|i: int| 0 <= i < es1.len() implies cached_right(m1)(
                #[trigger] es1[i],
            ) by {
                let e = es1[i];
                assert(cached_right(m0)(e));
                assert(e.0 != name@);
                let j = choose|j: int|
                    0 <= j < m0.segments.len() && (#[trigger] m0.segments[j]).name == e.0 && e.1@
                        == index_of(m0.segments[j].idx);
                assert(m1.segments[j] == m0.segments[j]);
            }
        }
        let mut index = match cached {
            Some(index) => {
                proof {
                    let p = slot_of(es0, name@)->0;
                    assert(cached_right(m0)(es0[p]));
                    let j = choose|j: int|
                        0 <= j < m0.segments.len() && (#[trigger] m0.segments[j]).name == es0[p].0
                            && es0[p].1@ == index_of(m0.segments[j].idx);
                    if rotated {
                        assert(m1.segments[j].name == m0.segments[j].name);
                        lemma_names_apart(m1, j, a1);
                    } else {
                        lemma_names_apart(m0, j, m0.active);
                    }
                }
                index
            },
            None => match Storage::load_idx(self.storage.files[self.storage.active].idx.as_slice()) {
                Ok(index) => index,
                Err(_) => SegIndex::new(),
            },
        };
        index.insert(record.key, offset);
        proof {
            assert(index@ =~= index_of(m1.segments[a1].idx));
            assert(cached_right(m1)((name@, index)));
            lemma_after_put(es1, cache_cap(&self.index), name@, index, cached_right(m1));
            lemma_names_after_put(es1, cache_cap(&self.index), name@, index);
        }
        cache_put(&mut self.index, name, index);
        Ok(self.maybe_compact())
    }

    /// Puts `value` under `key`, with `now` as the entry's time stamp.
    /// Returns whether a compaction is to be started. Fails, and leaves the
    /// store as it was, with `RecordTooLarge` where key or value is longer
    /// than 32 bits can say, and with `OutOfSegments` where a new segment is
    /// needed and no number is left for it.
    pub fn put_at(&mut self, key: String, value: Vec<u8>, now: u64) -> (res: Result<bool, DbError>)
        requires
            old(self).inv(),
        ensures
            final(self).inv(),
            final(self).max_segments == old(self).max_segments,
            match res {
                Ok(due) => {
                    &&& old(self).storage@.can_write(put_record(key@, value@, now))
                    &&& final(self).storage@ == old(self).storage@.written(
                        put_record(key@, value@, now),
                    )
                    &&& due == (final(self).storage@.segments.len() > old(self).max_segments
                        && !old(self).compaction_running)
                    &&& final(self).compaction_running == (old(self).compaction_running || due)
                },
                Err(e) => {
                    &&& !old(self).storage@.can_write(put_record(key@, value@, now))
                    &&& final(self).storage == old(self).storage
                    &&& final(self).compaction_running == old(self).compaction_running
                    &&& if put_record(key@, value@, now).fits() {
                        e is OutOfSegments
                    } else {
                        e is RecordTooLarge
                    }
                },
            },
            cache_cap(&final(self).index) == cache_cap(&old(self).index),
            entry_names(cache_entries(&final(self).index)) == if res is Ok {
                touched(
                    entry_names(cache_entries(&old(self).index)),
                    cache_cap(&old(self).index),
                    final(self).storage@.active_segment().name,
                )
            } else {
                entry_names(cache_entries(&old(self).index))
            },
            res is Ok && old(self).storage@.index_sound() ==> read_after_write(
                old(self).storage@,
                final(self).storage@,
                put_record(key@, value@, now),
            ),
    {
        let ghost before = self.storage@;
        let ghost r = put_record(key@, value@, now);
        let res = self.write(Record::new(key, value, now, false));
        proof {
            vstd::utf8::encode_utf8_valid_utf8(key@);
            if res is Ok && before.index_sound() {
                lemma_read_after_write(before, r);
            }
        }
        res
    }

    /// Deletes `key`: writes a tombstone for it, with `now` as its time
    /// stamp. Returns and fails as `put_at` does.
    pub fn delete_at(&mut self, key: String, now: u64) -> (res: Result<bool, DbError>)
        requires
            old(self).inv(),
        ensures
            final(self).inv(),
            final(self).max_segments == old(self).max_segments,
            match res {
                Ok(due) => {
                    &&& old(self).storage@.can_write(tombstone(key@, now))
                    &&& final(self).storage@ == old(self).storage@.written(tombstone(key@, now))
                    &&& due == (final(self).storage@.segments.len() > old(self).max_segments
                        && !old(self).compaction_running)
                    &&& final(self).compaction_running == (old(self).compaction_running || due)
                },
                Err(e) => {
                    &&& !old(self).storage@.can_write(tombstone(key@, now))
                    &&& final(self).storage == old(self).storage
                    &&& final(self).compaction_running == old(self).compaction_running
                    &&& if tombstone(key@, now).fits() {
                        e is OutOfSegments
                    } else {
                        e is RecordTooLarge
                    }
                },
            },
            cache_cap(&final(self).index) == cache_cap(&old(self).index),
            entry_names(cache_entries(&final(self).index)) == if res is Ok {
                touched(
                    entry_names(cache_entries(&old(self).index)),
                    cache_cap(&old(self).index),
                    final(self).storage@.active_segment().name,
                )
            } else {
                entry_names(cache_entries(&old(self).index))
            },
            res is Ok && old(self).storage@.index_sound() ==> read_after_write(
                old(self).storage@,
                final(self).storage@,
                tombstone(key@, now),
            ),
    {
        let ghost before = self.storage@;
        let ghost r = tombstone(key@, now);
        let res = self.write(Record::new(key, Vec::new(), now, true));
        proof {
            vstd::utf8::encode_utf8_valid_utf8(key@);
            if res is Ok && before.index_sound() {
                lemma_read_after_write(before, r);
            }
        }
        res
    }

    /// Puts `value` under `key` with the present time as the entry's time
    /// stamp, or 0 where the clock stands before the Unix epoch.
    pub fn set_raw(&mut self, key: String, value: Vec<u8>) -> (res: Result<bool, DbError>)
        requires
            old(self).inv(),
        ensures
            final(self).inv(),
            final(self).max_segments == old(self).max_segments,
            cache_cap(&final(self).index) == cache_cap(&old(self).index),
            entry_names(cache_entries(&final(self).index)) == if res is Ok {
                touched(
                    entry_names(cache_entries(&old(self).index)),
                    cache_cap(&old(self).index),
                    final(self).storage@.active_segment().name,
                )
            } else {
                entry_names(cache_entries(&old(self).index))
            },
            match res {
                Ok(due) => exists|now: u64|
                    {
                        &&& old(self).storage@.can_write(#[trigger] put_record(key@, value@, now))
                        &&& final(self).storage@ == old(self).storage@.written(
                            put_record(key@, value@, now),
                        )
                        &&& due == (final(self).storage@.segments.len() > old(self).max_segments
                            && !old(self).compaction_running)
                        &&& final(self).compaction_running == (old(self).compaction_running
                            || due)
                    },
                Err(e) => {
                    &&& forall|now: u64|
                        !old(self).storage@.can_write(#[trigger] put_record(key@, value@, now))
                    &&& final(self).storage == old(self).storage
                    &&& final(self).compaction_running == old(self).compaction_running
                    &&& if put_record(key@, value@, 0).fits() {
                        e is OutOfSegments
                    } else {
                        e is RecordTooLarge
                    }
                },
            },
    {
        let (seconds, _) = utc_now();
        let now = time_stamp(seconds);
        proof {
            assert forall|other: u64|
                old(self).storage@.can_write(#[trigger] put_record(key@, value@, other)) == old(
                    self,
                ).storage@.can_write(put_record(key@, value@, now)) by {}
        }
        self.put_at(key, value, now)
    }

    /// Deletes `key` with the present time as the tombstone's time stamp, or
    /// 0 where the clock stands before the Unix epoch.
    pub fn delete(&mut self, key: String) -> (res: Result<bool, DbError>)
        requires
            old(self).inv(),
        ensures
            final(self).inv(),
            final(self).max_segments == old(self).max_segments,
            cache_cap(&final(self).index) == cache_cap(&old(self).index),
            entry_names(cache_entries(&final(self).index)) == if res is Ok {
                touched(
                    entry_names(cache_entries(&old(self).index)),
                    cache_cap(&old(self).index),
                    final(self).storage@.active_segment().name,
                )
            } else {
                entry_names(cache_entries(&old(self).index))
            },
            match res {
                Ok(due) => exists|now: u64|
                    {
                        &&& old(self).storage@.can_write(#[trigger] tombstone(key@, now))
                        &&& final(self).storage@ == old(self).storage@.written(
                            tombstone(key@, now),
                        )
                        &&& due == (final(self).storage@.segments.len() > old(self).max_segments
                            && !old(self).compaction_running)
                        &&& final(self).compaction_running == (old(self).compaction_running
                            || due)
                    },
                Err(e) => {
                    &&& forall|now: u64|
                        !old(self).storage@.can_write(#[trigger] tombstone(key@, now))
                    &&& final(self).storage == old(self).storage
                    &&& final(self).compaction_running == old(self).compaction_running
                    &&& if tombstone(key@, 0).fits() {
                        e is OutOfSegments
                    } else {
                        e is RecordTooLarge
                    }
                },
            },
    {
        let (seconds, _) = utc_now();
        let now = time_stamp(seconds);
        proof {
            assert forall|other: u64|
                old(self).storage@.can_write(#[trigger] tombstone(key@, other)) == old(
                    self,
                ).storage@.can_write(tombstone(key@, now)) by {}
        }
        self.delete_at(key, now)
    }

    /// Takes the entries of the segments named in `gone` out of the cache.
    fn evict(&mut self, gone: &Vec<String>, Ghost(m): Ghost<StoreModel>)
        requires
            cache_cap(&old(self).index) > 0,
            cache_entries(&old(self).index).len() <= cache_cap(&old(self).index),
            names_distinct(cache_entries(&old(self).index)),
            all_entries(cache_entries(&old(self).index), cached_right(m)),
        ensures
            final(self).storage == old(self).storage,
            final(self).max_segments == old(self).max_segments,
            final(self).compaction_running == old(self).compaction_running,
            cache_cap(&final(self).index) == cache_cap(&old(self).index),
            cache_entries(&final(self).index).len() <= cache_cap(&final(self).index),
            names_distinct(cache_entries(&final(self).index)),
            all_entries(
                cache_entries(&final(self).index),
                kept(m, Seq::new(gone@.len(), |j: int| gone@[j]@), gone@.len() as int),
            ),
            entry_names(cache_entries(&final(self).index)) == dropped_all(
                entry_names(cache_entries(&old(self).index)),
                Seq::new(gone@.len(), |j: int| gone@[j]@),
                gone@.len() as int,
            ),
    {
        let ghost names = Seq::new(gone@.len(), |j: int| gone@[j]@);
        let mut k: usize = 0;
        proof {
            let es = cache_entries(&self.index);
            assert forall|i: int| 0 <= i < es.len() implies kept(m, names, 0)(
                #[trigger] es[i],
            ) by {
                assert(cached_right(m)(es[i]));
            }
        }
        while k < gone.len()
            invariant
                self.storage == old(self).storage,
                self.max_segments == old(self).max_segments,
                self.compaction_running == old(self).compaction_running,
                names == Seq::new(gone@.len(), |j: int| gone@[j]@),
                k <= gone@.len(),
                cache_cap(&self.index) == cache_cap(&old(self).index),
                cache_cap(&self.index) > 0,
                cache_entries(&self.index).len() <= cache_cap(&self.index),
                names_distinct(cache_entries(&self.index)),
                all_entries(cache_entries(&self.index), kept(m, names, k as int)),
                entry_names(cache_entries(&self.index)) == dropped_all(
                    entry_names(cache_entries(&old(self).index)),
                    names,
                    k as int,
                ),
            decreases gone@.len() - k,
        {
            let ghost es = cache_entries(&self.index);
            proof {
                lemma_names_removed(es, gone@[k as int]@);
                assert(names[k as int] == gone@[k as int]@);
                match slot_of(es, gone@[k as int]@) {
                    Some(p) => {
                        lemma_removed(es, p, kept(m, names, k as int));
                    },
                    None => {},
                }
            }
            let _ = cache_pop(&mut self.index, gone[k].as_str());
            proof {
                let now = cache_entries(&self.index);
                assert forall|i: int| 0 <= i < now.len() implies kept(m, names, k + 1)(
                    #[trigger] now[i],
                ) by {
                    assert(kept(m, names, k as int)(now[i]));
                    assert(now[i].0 != names[k as int]);
                }
            }
            k += 1;
        }
    }

    /// Compacts the store at the time `stamp`, as
    /// `Storage::compact_segments_at` does, takes the indexes of the
    /// segments that left out of the cache and puts that of the new segment
    /// in. No compaction counts as under way afterwards, whether this one
    /// succeeded or failed.
    pub fn compact_at(&mut self, stamp: String) -> (res: Result<(Vec<String>, String), DbError>)
        requires
            old(self).inv(),
        ensures
            final(self).inv(),
            final(self).max_segments == old(self).max_segments,
            !final(self).compaction_running,
            cache_cap(&final(self).index) == cache_cap(&old(self).index),
            entry_names(cache_entries(&final(self).index)) == if res is Ok && old(
                self,
            ).storage@.compaction_applies() {
                touched(
                    dropped_all(
                        entry_names(cache_entries(&old(self).index)),
                        names_of(old(self).storage@.candidates()),
                        old(self).storage@.candidates().len() as int,
                    ),
                    cache_cap(&old(self).index),
                    final(self).storage@.segments[1].name,
                )
            } else {
                entry_names(cache_entries(&old(self).index))
            },
            match res {
                Ok((removed, name)) => if old(self).storage@.compaction_applies() {
                    &&& old(self).storage@.can_rotate()
                    &&& old(self).storage@.candidates_readable()
                    &&& old(self).storage@.compacted_to(final(self).storage@, stamp@)
                    &&& name@ == final(self).storage@.segments[1].name
                    &&& removed@.len() == old(self).storage@.candidates().len()
                    &&& forall|i: int|
                        0 <= i < removed@.len() ==> (#[trigger] removed@[i])@ == old(
                            self,
                        ).storage@.candidates()[i].name
                    &&& slot_of(cache_entries(&final(self).index), name@) is Some
                } else {
                    removed@.len() == 0 && name@.len() == 0 && final(self).storage == old(
                        self,
                    ).storage
                },
                Err(e) => {
                    &&& old(self).storage@.compaction_applies()
                    &&& final(self).storage == old(self).storage
                    &&& if old(self).storage@.can_rotate() {
                        e is Corrupt && !old(self).storage@.candidates_readable()
                    } else {
                        e is OutOfSegments
                    }
                },
            },
    {
        let ghost m0 = self.storage@;
        let result = self.storage.compact_segments_at(stamp);
        let res = match result {
            Ok((removed, name)) => {
                let ghost m1 = self.storage@;
                self.evict(&removed, Ghost(m0));
                proof {
                    let es = cache_entries(&self.index);
                    let names = Seq::new(removed@.len(), |j: int| removed@[j]@);
                    assert forall|i: int| 0 <= i < es.len() implies cached_right(m1)(
                        #[trigger] es[i],
                    ) by {
                        let e = es[i];
                        assert(kept(m0, names, removed@.len() as int)(e));
                        assert(cached_right(m0)(e));
                        if m0.compaction_applies() {
                            let j = choose|j: int|
                                0 <= j < m0.segments.len() && (#[trigger] m0.segments[j]).name
                                    == e.0 && e.1@ == index_of(m0.segments[j].idx);
                            if j != m0.active {
                                let c = if j < m0.active { j } else { j - 1 };
                                assert(m0.candidates()[c] == m0.segments[j]);
                                assert(names[c] == removed@[c]@);
                                assert(e.0 != names[c]);
                            }
                            assert(m1.segments[0] == m0.segments[j]);
                        }
                    }
                    if m0.compaction_applies() {
                        assert(names =~= names_of(m0.candidates())) by {
                            assert forall|i: int| 0 <= i < names.len() implies names[i]
                                == names_of(m0.candidates())[i] by {
                                assert(removed@[i]@ == m0.candidates()[i].name);
                            }
                        }
                        // The new segment's name is that of no segment before.
                        assert(m1.segments[1].name == name@);
                        assert(is_segment(m1, name@));
                        if slot_of(es, name@) is Some {
                            let e = es[slot_of(es, name@)->0];
                            assert(cached_right(m1)(e));
                            let j = choose|j: int|
                                0 <= j < m1.segments.len() && (#[trigger] m1.segments[j]).name
                                    == e.0 && e.1@ == index_of(m1.segments[j].idx);
                            lemma_names_apart(m1, j, 1);
                            assert(kept(m0, names, removed@.len() as int)(e));
                            let j0 = choose|j0: int|
                                0 <= j0 < m0.segments.len() && (#[trigger] m0.segments[j0]).name
                                    == e.0 && e.1@ == index_of(m0.segments[j0].idx);
                            if j0 != m0.active {
                                let c = if j0 < m0.active { j0 } else { j0 - 1 };
                                assert(m0.candidates()[c] == m0.segments[j0]);
                                assert(names[c] == removed@[c]@);
                            } else {
                                assert(m1.segments[0].name == e.0);
                                lemma_names_apart(m1, 0, 1);
                            }
                        }
                    } else {
                        // The empty name is no segment's.
                        assert(name@.len() == 0);
                        if is_segment(m1, name@) {
                            let j = choose|j: int|
                                0 <= j < m1.segments.len() && (#[trigger] m1.segments[j]).name
                                    == name@;
                            assert(crate::segment_name::segment_number(
                                names_of(m1.segments)[j],
                            ) is Some);
                        }
                    }
                }
                self.ensure_seg_index_loaded(name.as_str());
                Ok((removed, name))
            },
            Err(e) => Err(e),
        };
        self.compaction_running = false;
        res
    }

    /// Compacts the store now: as `compact_at` does, at the present time.
    pub fn run_compaction(&mut self) -> (res: Result<(Vec<String>, String), DbError>)
        requires
            old(self).inv(),
        ensures
            final(self).inv(),
            final(self).max_segments == old(self).max_segments,
            !final(self).compaction_running,
            cache_cap(&final(self).index) == cache_cap(&old(self).index),
            entry_names(cache_entries(&final(self).index)) == if res is Ok && old(
                self,
            ).storage@.compaction_applies() {
                touched(
                    dropped_all(
                        entry_names(cache_entries(&old(self).index)),
                        names_of(old(self).storage@.candidates()),
                        old(self).storage@.candidates().len() as int,
                    ),
                    cache_cap(&old(self).index),
                    final(self).storage@.segments[1].name,
                )
            } else {
                entry_names(cache_entries(&old(self).index))
            },
            match res {
                Ok((removed, name)) => if old(self).storage@.compaction_applies() {
                    &&& old(self).storage@.can_rotate()
                    &&& old(self).storage@.candidates_readable()
                    &&& exists|stamp: Seq<char>|
                        old(self).storage@.compacted_to(final(self).storage@, stamp)
                    &&& name@ == final(self).storage@.segments[1].name
                    &&& removed@.len() == old(self).storage@.candidates().len()
                    &&& forall|i: int|
                        0 <= i < removed@.len() ==> (#[trigger] removed@[i])@ == old(
                            self,
                        ).storage@.candidates()[i].name
                } else {
                    removed@.len() == 0 && name@.len() == 0 && final(self).storage == old(
                        self,
                    ).storage
                },
                Err(e) => {
                    &&& old(self).storage@.compaction_applies()
                    &&& final(self).storage == old(self).storage
                    &&& if old(self).storage@.can_rotate() {
                        e is Corrupt && !old(self).storage@.candidates_readable()
                    } else {
                        e is OutOfSegments
                    }
                },
            },
    {
        let (_, stamp) = utc_now();
        self.compact_at(stamp)
    }
}

} // verus!
