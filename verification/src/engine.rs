//! The engine: the store with a cache of segment indexes in front of it.

use vstd::prelude::*;
use lru::LruCache;
use crate::cache::{
    after_put, all_entries, cache_cap, cache_contains, cache_entries, cache_get, cache_new,
    cache_put, entry_names, lemma_after_put, lemma_names_after_put, lemma_names_promoted,
    lemma_promoted, names_distinct, promoted, slot_of, touched,
};
use crate::model::{lookup_from, names_of, StoreModel};
use crate::record::key_bytes;
use crate::seg_index::SegIndex;
use crate::sidecar::index_of;
use crate::storage::Storage;

verus! {

/// The number of segments beyond which the store asks to be compacted,
/// unless another is asked for.
pub const MAX_SEGMENTS: usize = 3;

/// The number of segment indexes that the cache holds.
pub const INDEX_CACHE_SIZE: usize = 4;

/// The store, the cache of its segments' indexes, the number of segments
/// beyond which it asks to be compacted, and whether a compaction has been
/// asked for and has not ended.
pub struct Engine {
    pub storage: Storage,
    pub index: LruCache<String, SegIndex>,
    pub max_segments: usize,
    pub compaction_running: bool,
}

/// A cache entry is right for the store `m`: its name is that of a segment,
/// and its index is what that segment's sidecar stands for.
pub open spec fn cached_right(m: StoreModel) -> spec_fn((Seq<char>, SegIndex)) -> bool {
    |e: (Seq<char>, SegIndex)|
        exists|j: int|
            0 <= j < m.segments.len() && (#[trigger] m.segments[j]).name == e.0 && e.1@
                == index_of(m.segments[j].idx)
}

/// The cache can hold an entry, holds no more entries than it was made
/// for and no name twice, and every entry is right for the store `m`.
pub open spec fn cache_fits(c: &LruCache<String, SegIndex>, m: StoreModel) -> bool {
    &&& cache_cap(c) > 0
    &&& cache_entries(c).len() <= cache_cap(c)
    &&& names_distinct(cache_entries(c))
    &&& all_entries(cache_entries(c), cached_right(m))
}

/// The entries `after` are the entries `before` after an index that stands
/// for the map `index` was put under `name` in a cache made for `cap`
/// entries.
pub open spec fn loaded(
    before: Seq<(Seq<char>, SegIndex)>,
    after: Seq<(Seq<char>, SegIndex)>,
    cap: nat,
    name: Seq<char>,
    index: Map<Seq<u8>, u64>,
) -> bool {
    exists|held: SegIndex| held@ == index && after == #[trigger] after_put(before, cap, name, held)
}

/// `name` is the name of a segment of the store `m`.
pub open spec fn is_segment(m: StoreModel, name: Seq<char>) -> bool {
    exists|j: int| 0 <= j < m.segments.len() && (#[trigger] m.segments[j]).name == name
}

/// The names of a cache made for `cap` entries after the indexes of the
/// segments named `segments[hi - 1]` down to `segments[lo]` were used, one
/// after another.
pub open spec fn visited(
    names: Seq<Seq<char>>,
    cap: nat,
    segments: Seq<Seq<char>>,
    hi: int,
    lo: int,
) -> Seq<Seq<char>>
    decreases hi - lo,
{
    if hi <= lo {
        names
    } else {
        visited(touched(names, cap, segments[hi - 1]), cap, segments, hi - 1, lo)
    }
}

/// One more segment used is one more name touched.
pub proof fn lemma_visited_one_more(
    names: Seq<Seq<char>>,
    cap: nat,
    segments: Seq<Seq<char>>,
    hi: int,
    lo: int,
)
    requires
        lo < hi,
    ensures
        visited(names, cap, segments, hi, lo) == touched(
            visited(names, cap, segments, hi, lo + 1),
            cap,
            segments[lo],
        ),
    decreases hi - lo,
{
    if hi - 1 > lo {
        lemma_visited_one_more(touched(names, cap, segments[hi - 1]), cap, segments, hi - 1, lo);
    } else {
        assert(visited(touched(names, cap, segments[hi - 1]), cap, segments, hi - 1, lo)
            == touched(names, cap, segments[hi - 1]));
        assert(visited(names, cap, segments, hi, lo + 1) == names);
    }
}

/// The position of the last segment whose index holds `key`, or 0 where no
/// index holds it: the position down to which a read of `key` consults the
/// segments.
pub open spec fn lowest_read(m: StoreModel, key: Seq<u8>) -> int {
    lowest_hit(m.segments, m.segments.len() as int, key)
}

/// The position of the last of the first `n` segments whose index holds
/// `key`, or 0.
pub open spec fn lowest_hit(segments: Seq<crate::model::SegmentModel>, n: int, key: Seq<u8>) -> int
    decreases n,
{
    if n <= 0 {
        0
    } else if index_of(segments[n - 1].idx).contains_key(key) {
        n - 1
    } else {
        lowest_hit(segments, n - 1, key)
    }
}

/// A read of `key` goes down to the segment at `i` where no later segment
/// holds the key and the segment at `i` holds it or is the first.
pub proof fn lemma_lowest_read(m: StoreModel, key: Seq<u8>, i: int)
    requires
        0 <= i <= m.segments.len(),
        forall|j: int|
            i < j < m.segments.len() ==> !index_of((#[trigger] m.segments[j]).idx).contains_key(
                key,
            ),
        i < m.segments.len() ==> i == 0 || index_of(m.segments[i].idx).contains_key(key),
        i == m.segments.len() ==> i == 0,
    ensures
        lowest_read(m, key) == i,
{
    lemma_lowest_hit(m.segments, m.segments.len() as int, key, i);
}

/// The same, among the first `n` segments.
pub proof fn lemma_lowest_hit(
    segments: Seq<crate::model::SegmentModel>,
    n: int,
    key: Seq<u8>,
    i: int,
)
    requires
        0 <= i <= n <= segments.len(),
        forall|j: int| i < j < n ==> !index_of((#[trigger] segments[j]).idx).contains_key(key),
        i < n ==> i == 0 || index_of(segments[i].idx).contains_key(key),
        i == n ==> i == 0,
    ensures
        lowest_hit(segments, n, key) == i,
    decreases n,
{
    if n > 0 && !index_of(segments[n - 1].idx).contains_key(key) {
        if i < n - 1 {
            lemma_lowest_hit(segments, n - 1, key, i);
        } else {
            // `i` is `n - 1`, so `i` is 0 and no segment holds the key.
            lemma_lowest_hit(segments, n - 1, key, 0);
        }
    }
}

/// In a well-formed store no two segments have the same name.
pub proof fn lemma_names_apart(m: StoreModel, i: int, j: int)
    requires
        m.wf(),
        0 <= i < m.segments.len(),
        0 <= j < m.segments.len(),
        m.segments[i].name == m.segments[j].name,
    ensures
        i == j,
{
    let names = names_of(m.segments);
    assert(names[i] == m.segments[i].name);
    assert(names[j] == m.segments[j].name);
    if i < j {
        assert(crate::segment_name::segment_number(names[i])->0
            < crate::segment_name::segment_number(names[j])->0);
    } else if j < i {
        assert(crate::segment_name::segment_number(names[j])->0
            < crate::segment_name::segment_number(names[i])->0);
    }
}

impl Storage {
    /// A cache that holds the indexes of the last segments, as many as the
    /// cache has room for, each read from its sidecar.
    pub fn rebuild_index(&self) -> (cache: LruCache<String, SegIndex>)
        requires
            self.wf(),
        ensures
            cache_fits(&cache, self@),
            cache_cap(&cache) == INDEX_CACHE_SIZE,
            cache_entries(&cache).len() == if self@.segments.len() > INDEX_CACHE_SIZE {
                INDEX_CACHE_SIZE as int
            } else {
                self@.segments.len() as int
            },
            forall|k: int|
                0 <= k < cache_entries(&cache).len() ==> (#[trigger] cache_entries(&cache)[k]).0
                    == self@.segments[self@.segments.len() - 1 - k].name,
            forall|j: int|
                0 <= j < self@.segments.len() && j >= self@.segments.len() - INDEX_CACHE_SIZE
                    ==> slot_of(cache_entries(&cache), (#[trigger] self@.segments[j]).name)
                    is Some,
    {
        let mut cache = cache_new(INDEX_CACHE_SIZE);
        let n = self.files.len();
        let first: usize = if n > INDEX_CACHE_SIZE {
            n - INDEX_CACHE_SIZE
        } else {
            0
        };
        let mut i: usize = first;
        while i < n
            invariant
                self.wf(),
                n == self.files@.len(),
                first <= i <= n,
                n - first <= INDEX_CACHE_SIZE,
                cache_fits(&cache, self@),
                cache_cap(&cache) == INDEX_CACHE_SIZE,
                cache_entries(&cache).len() == i - first,
                forall|k: int|
                    0 <= k < i - first ==> (#[trigger] cache_entries(&cache)[k]).0
                        == self@.segments[i - 1 - k].name,
            decreases n - i,
        {
            let index = match Self::load_idx(self.files[i].idx.as_slice()) {
                Ok(index) => index,
                Err(_) => SegIndex::new(),
            };
            let name = self.manifest.segments[i].clone();
            let ghost es = cache_entries(&cache);
            proof {
                assert(self@.segments[i as int].name == name@);
                assert(cached_right(self@)((name@, index)));
                lemma_after_put(es, INDEX_CACHE_SIZE as nat, name@, index, cached_right(self@));
                assert(slot_of(es, name@) is None) by {
                    if slot_of(es, name@) is Some {
                        let k = slot_of(es, name@)->0;
                        assert(es[k].0 == self@.segments[i - 1 - k].name);
                        lemma_names_apart(self@, i as int, i - 1 - k);
                    }
                }
            }
            cache_put(&mut cache, name, index);
            proof {
                let now = cache_entries(&cache);
                assert(now =~= seq![(name@, index)] + es);
                assert forall|k: int| 0 <= k < i + 1 - first implies (#[trigger] now[k]).0
                    == self@.segments[i - k].name by {
                    if k > 0 {
                        assert(now[k] == es[k - 1]);
                    }
                }
            }
            i += 1;
        }
        proof {
            assert forall|j: int|
                0 <= j < self@.segments.len() && j >= self@.segments.len()
                    - INDEX_CACHE_SIZE implies slot_of(
                cache_entries(&cache),
                (#[trigger] self@.segments[j]).name,
            ) is Some by {
                let k = n - 1 - j;
                assert(cache_entries(&cache)[k].0 == self@.segments[j].name);
            }
        }
        cache
    }
}

impl Engine {
    /// The store is well-formed and the cache fits it.
    pub open spec fn inv(&self) -> bool {
        &&& self.storage.wf()
        &&& cache_fits(&self.index, self.storage@)
    }

    /// An engine on a new store: one empty segment, the default limits.
    pub fn new() -> (res: Self)
        ensures
            res.inv(),
            res.storage@ == StoreModel::fresh(crate::storage::MAX_FILE_SIZE),
            res.max_segments == MAX_SEGMENTS,
            !res.compaction_running,
            cache_cap(&res.index) == INDEX_CACHE_SIZE,
            entry_names(cache_entries(&res.index)) == seq![crate::segment_name::segment_name(1)],
    {
        let res = Self::open(Storage::new(), MAX_SEGMENTS);
        assert(entry_names(cache_entries(&res.index)) =~= seq![
            crate::segment_name::segment_name(1),
        ]);
        res
    }

    /// An engine on the store `storage`, which asks to be compacted when it
    /// has more than `max_segments` segments.
    pub fn open(storage: Storage, max_segments: usize) -> (res: Self)
        requires
            storage.wf(),
        ensures
            res.inv(),
            res.storage == storage,
            res.max_segments == max_segments,
            !res.compaction_running,
            cache_cap(&res.index) == INDEX_CACHE_SIZE,
            cache_entries(&res.index).len() == if storage@.segments.len() > INDEX_CACHE_SIZE {
                INDEX_CACHE_SIZE as int
            } else {
                storage@.segments.len() as int
            },
            forall|k: int|
                0 <= k < cache_entries(&res.index).len() ==> (#[trigger] cache_entries(
                    &res.index,
                )[k]).0 == storage@.segments[storage@.segments.len() - 1 - k].name,
    {
        let index = storage.rebuild_index();
        Engine { storage, index, max_segments, compaction_running: false }
    }

    /// The name of the active segment.
    pub fn active_segment(&self) -> (res: String)
        ensures
            res@ == self.storage.manifest.active_segment@,
    {
        self.storage.manifest.active_segment.clone()
    }

    /// Sees to it that the cache holds the index of the segment named `seg`,
    /// reading it from the segment's sidecar where the cache does not hold
    /// it. For a name that is no segment's nothing is done.
    pub fn ensure_seg_index_loaded(&mut self, seg: &str)
        requires
            old(self).inv(),
        ensures
            final(self).inv(),
            final(self).storage == old(self).storage,
            final(self).max_segments == old(self).max_segments,
            final(self).compaction_running == old(self).compaction_running,
            (exists|j: int|
                0 <= j < old(self).storage@.segments.len() && (
                #[trigger] old(self).storage@.segments[j]).name == seg@) ==> slot_of(
                cache_entries(&final(self).index),
                seg@,
            ) is Some,
            cache_cap(&final(self).index) == cache_cap(&old(self).index),
            entry_names(cache_entries(&final(self).index)) == if slot_of(
                cache_entries(&old(self).index),
                seg@,
            ) is None && is_segment(old(self).storage@, seg@) {
                touched(
                    entry_names(cache_entries(&old(self).index)),
                    cache_cap(&old(self).index),
                    seg@,
                )
            } else {
                entry_names(cache_entries(&old(self).index))
            },
            slot_of(cache_entries(&old(self).index), seg@) is Some ==> cache_entries(
                &final(self).index,
            ) == cache_entries(&old(self).index),
            (forall|j: int|
                0 <= j < old(self).storage@.segments.len() ==> (
                #[trigger] old(self).storage@.segments[j]).name != seg@) ==> cache_entries(
                &final(self).index,
            ) == cache_entries(&old(self).index),
            forall|j: int|
                0 <= j < old(self).storage@.segments.len() && (
                #[trigger] old(self).storage@.segments[j]).name == seg@ && slot_of(
                    cache_entries(&old(self).index),
                    seg@,
                ) is None ==> loaded(
                    cache_entries(&old(self).index),
                    cache_entries(&final(self).index),
                    cache_cap(&old(self).index),
                    seg@,
                    index_of(old(self).storage@.segments[j].idx),
                ),
    {
        if cache_contains(&self.index, seg) {
            return ;
        }
        match self.storage.segment_position(seg) {
            None => {},
            Some(j) => {
                let index = match Storage::load_idx(self.storage.files[j].idx.as_slice()) {
                    Ok(index) => index,
                    Err(_) => SegIndex::new(),
                };
                let name = seg.to_owned();
                proof {
                    assert(self.storage@.segments[j as int].name == name@);
                    assert(cached_right(self.storage@)((name@, index)));
                    lemma_after_put(
                        cache_entries(&self.index),
                        cache_cap(&self.index),
                        name@,
                        index,
                        cached_right(self.storage@),
                    );
                }
                let ghost before = cache_entries(&self.index);
                cache_put(&mut self.index, name, index);
                proof {
                    lemma_names_after_put(before, cache_cap(&self.index), seg@, index);
                    assert(is_segment(self.storage@, seg@));
                    assert(cache_entries(&self.index) == after_put(
                        before,
                        cache_cap(&self.index),
                        seg@,
                        index,
                    ));
                    assert forall|k: int|
                        0 <= k < self.storage@.segments.len() && (
                        #[trigger] self.storage@.segments[k]).name == seg@ implies k == j by {
                        lemma_names_apart(self.storage@, k, j as int);
                    }
                }
            },
        }
    }

    /// Whether a compaction is to be started now: the store has more
    /// segments than it should, and no compaction is under way. If so, one
    /// counts as under way from now on.
    pub fn maybe_compact(&mut self) -> (res: bool)
        ensures
            res == (old(self).storage.files@.len() > old(self).max_segments && !old(
                self,
            ).compaction_running),
            final(self).compaction_running == (old(self).compaction_running || res),
            final(self).storage == old(self).storage,
            final(self).index == old(self).index,
            final(self).max_segments == old(self).max_segments,
    {
        if self.storage.segment_count() <= self.max_segments {
            return false;
        }
        if self.compaction_running {
            return false;
        }
        self.compaction_running = true;
        true
    }

    /// The index of the segment at position `i`, from the cache, which
    /// holds it afterwards as its most recently used entry.
    pub fn segment_index(&mut self, i: usize) -> (res: Option<&SegIndex>)
        requires
            old(self).inv(),
            i < old(self).storage.files@.len(),
        ensures
            final(self).inv(),
            final(self).storage == old(self).storage,
            final(self).max_segments == old(self).max_segments,
            final(self).compaction_running == old(self).compaction_running,
            res is Some,
            res->0@ == index_of(old(self).storage@.segments[i as int].idx),
            cache_cap(&final(self).index) == cache_cap(&old(self).index),
            entry_names(cache_entries(&final(self).index)) == touched(
                entry_names(cache_entries(&old(self).index)),
                cache_cap(&old(self).index),
                old(self).storage@.segments[i as int].name,
            ),
    {
        let ghost m = self.storage@;
        let ghost es0 = cache_entries(&self.index);
        let ghost cap = cache_cap(&self.index);
        let name = self.storage.manifest.segments[i].clone();
        assert(m.segments[i as int].name == name@);
        assert(is_segment(m, name@));
        self.ensure_seg_index_loaded(name.as_str());
        let ghost es = cache_entries(&self.index);
        let ghost p = slot_of(es, name@)->0;
        proof {
            let j = choose|j: int|
                0 <= j < m.segments.len() && (#[trigger] m.segments[j]).name == es[p].0
                    && es[p].1@ == index_of(m.segments[j].idx);
            assert(cached_right(m)(es[p]));
            lemma_names_apart(m, i as int, j);
            lemma_promoted(es, p, cached_right(m));
            lemma_names_promoted(es, cap, p);
            if slot_of(es0, name@) is None {
                // The entry was put just now and stands first.
                assert(entry_names(es)[0] == name@);
                assert(es[0].0 == name@);
                if p > 0 {
                    assert(es[0].0 != es[p].0);
                }
                assert(promoted(es, p) =~= es);
            }
        }
        cache_get(&mut self.index, name.as_str())
    }

    /// The value that a read of `key` gives: that of the key's latest entry
    /// in the last segment whose index holds the key, unless that entry is a
    /// tombstone or cannot be read. The indexes of the segments consulted
    /// are used in the cache, from the last segment down to the one that
    /// holds the key.
    pub fn get_raw(&mut self, key: &str) -> (res: Option<Vec<u8>>)
        requires
            old(self).inv(),
        ensures
            final(self).inv(),
            final(self).storage == old(self).storage,
            final(self).max_segments == old(self).max_segments,
            final(self).compaction_running == old(self).compaction_running,
            match res {
                Some(value) => old(self).storage@.lookup(key_bytes(key@)) == Some(value@),
                None => old(self).storage@.lookup(key_bytes(key@)) is None,
            },
            cache_cap(&final(self).index) == cache_cap(&old(self).index),
            entry_names(cache_entries(&final(self).index)) == visited(
                entry_names(cache_entries(&old(self).index)),
                cache_cap(&old(self).index),
                names_of(old(self).storage@.segments),
                old(self).storage@.segments.len() as int,
                lowest_read(old(self).storage@, key_bytes(key@)),
            ),
    {
        let n = self.storage.segment_count();
        let ghost m = self.storage@;
        let ghost kb = key_bytes(key@);
        let ghost names0 = entry_names(cache_entries(&self.index));
        let ghost cap = cache_cap(&self.index);
        let ghost segs = names_of(m.segments);
        let mut i: usize = n;
        while i > 0
            invariant
                self.inv(),
                self.storage == old(self).storage,
                self.max_segments == old(self).max_segments,
                self.compaction_running == old(self).compaction_running,
                m == self.storage@,
                kb == key_bytes(key@),
                segs == names_of(m.segments),
                n == self.storage.files@.len(),
                i <= n,
                m.lookup(kb) == lookup_from(m.segments, i as int, kb),
                cap == cache_cap(&self.index),
                cap == cache_cap(&old(self).index),
                names0 == entry_names(cache_entries(&old(self).index)),
                entry_names(cache_entries(&self.index)) == visited(
                    names0,
                    cap,
                    segs,
                    n as int,
                    i as int,
                ),
                forall|j: int|
                    i <= j < n ==> !index_of((#[trigger] m.segments[j]).idx).contains_key(kb),
            decreases i,
        {
            i -= 1;
            proof {
                lemma_visited_one_more(names0, cap, segs, n as int, i as int);
            }
            let found = match self.segment_index(i) {
                Some(index) => index.get(key),
                None => None,
            };
            match found {
                Some(offset) => {
                    proof {
                        lemma_lowest_read(m, kb, i as int);
                    }
                    return match Storage::read_record(&self.storage.files[i].log, offset) {
                        Ok(record) => {
                            if record.deleted {
                                None
                            } else {
                                Some(record.value)
                            }
                        },
                        Err(_) => None,
                    };
                },
                None => {},
            }
        }
        proof {
            lemma_lowest_read(m, kb, 0);
        }
        None
    }
}

} // verus!
