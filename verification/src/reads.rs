//! Reads of many keys at once: all keys that begin with a prefix, each with
//! the value that a read of it gives.

use vstd::prelude::*;
use crate::assoc::{
    distinct_keys, lemma_pairs_map_distinct, lemma_pairs_map_dom, lemma_pairs_map_last,
};
use crate::cache::{cache_cap, cache_entries, entry_names};
use crate::engine::{lemma_visited_one_more, visited, Engine};
use crate::keys::{is_prefix, starts_with};
use crate::model::{lookup_from, names_of, SegmentModel, StoreModel};
use crate::record::key_bytes;
use crate::seg_index::SegIndex;
use crate::segment::record_at;
use crate::sidecar::index_of;
use crate::storage::Storage;
use crate::str_map::StrMap;

verus! {

/// The value of the entry at `offset` in `log`, unless a tombstone or no
/// well-formed entry is there.
pub open spec fn value_at(log: Seq<u8>, offset: u64) -> Option<Seq<u8>> {
    match record_at(log, offset) {
        Some(r) => if r.deleted {
            None
        } else {
            Some(r.value)
        },
        None => None,
    }
}

/// The last of the segments from `lo` up to `hi` whose index holds `key`,
/// with the offset that it holds.
pub open spec fn first_hit(segments: Seq<SegmentModel>, lo: int, hi: int, key: Seq<u8>) -> Option<
    (int, u64),
>
    decreases hi - lo,
{
    if hi <= lo {
        None
    } else if index_of(segments[hi - 1].idx).contains_key(key) {
        Some((hi - 1, index_of(segments[hi - 1].idx)[key]))
    } else {
        first_hit(segments, lo, hi - 1, key)
    }
}

/// One more segment below counts only for keys that no segment above holds.
pub proof fn lemma_first_hit_lower(segments: Seq<SegmentModel>, lo: int, hi: int, key: Seq<u8>)
    requires
        0 <= lo < hi <= segments.len(),
    ensures
        first_hit(segments, lo, hi, key) == match first_hit(segments, lo + 1, hi, key) {
            Some(hit) => Some(hit),
            None => if index_of(segments[lo].idx).contains_key(key) {
                Some((lo, index_of(segments[lo].idx)[key]))
            } else {
                None
            },
        },
    decreases hi - lo,
{
    if hi - 1 > lo {
        if !index_of(segments[hi - 1].idx).contains_key(key) {
            lemma_first_hit_lower(segments, lo, hi - 1, key);
        }
    } else {
        assert(first_hit(segments, lo, lo, key) is None);
        assert(first_hit(segments, lo + 1, hi, key) is None);
    }
}

/// A read gives the value at the place that the last segment holding the
/// key points to.
pub proof fn lemma_lookup_first_hit(segments: Seq<SegmentModel>, n: int, key: Seq<u8>)
    requires
        0 <= n <= segments.len(),
    ensures
        lookup_from(segments, n, key) == match first_hit(segments, 0, n, key) {
            Some((j, offset)) => value_at(segments[j].log, offset),
            None => None,
        },
        first_hit(segments, 0, n, key) matches Some((j, offset)) ==> 0 <= j < n,
    decreases n,
{
    if n > 0 {
        lemma_lookup_first_hit(segments, n - 1, key);
    }
}

/// `latest` holds, for exactly the keys with the prefix that a segment from
/// `lo` on holds, the place that the last such segment points to.
pub open spec fn gathered(
    latest: StrMap<(usize, u64)>,
    m: StoreModel,
    prefix: Seq<u8>,
    lo: int,
) -> bool {
    forall|k: Seq<u8>| #[trigger] gathered_key(latest, m, prefix, lo, k)
}

/// `latest` holds `key` if and only if it has the prefix and a segment from
/// `lo` on holds it, and then with the place that the last such segment
/// points to.
pub open spec fn gathered_key(
    latest: StrMap<(usize, u64)>,
    m: StoreModel,
    prefix: Seq<u8>,
    lo: int,
    key: Seq<u8>,
) -> bool {
    let hit = first_hit(m.segments, lo, m.segments.len() as int, key);
    &&& latest@.contains_key(key) <==> is_prefix(prefix, key) && hit is Some
    &&& latest@.contains_key(key) ==> same_place(latest@[key], hit)
}

/// The place held is the place hit.
pub open spec fn same_place(held: (usize, u64), hit: Option<(int, u64)>) -> bool {
    match hit {
        Some((seg, offset)) => held.0 == seg && held.1 == offset,
        None => false,
    }
}

impl Engine {
    /// Adds to `latest`, for each key of `index` that begins with `prefix`
    /// and that `latest` does not hold, the place of its entry: the segment
    /// at position `seg` and the offset that `index` holds.
    pub fn gather_segment(
        index: &SegIndex,
        seg: usize,
        prefix: &str,
        latest: &mut StrMap<(usize, u64)>,
    )
        requires
            distinct_keys(old(latest).pairs()),
        ensures
            distinct_keys(final(latest).pairs()),
            forall|k: Seq<u8>|
                {
                    &&& #[trigger] final(latest)@.contains_key(k) <==> old(latest)@.contains_key(k)
                        || (is_prefix(key_bytes(prefix@), k) && index@.contains_key(k))
                    &&& final(latest)@.contains_key(k) ==> final(latest)@[k] == if old(
                        latest,
                    )@.contains_key(k) {
                        old(latest)@[k]
                    } else {
                        (seg, index@[k])
                    }
                },
    {
        let ghost pb = key_bytes(prefix@);
        let ghost pairs = index.pairs();
        let mut t: usize = index.entries.len();
        while t > 0
            invariant
                pb == key_bytes(prefix@),
                pairs == index.pairs(),
                t <= index.entries@.len(),
                distinct_keys(latest.pairs()),
                forall|k: Seq<u8>|
                    {
                        &&& #[trigger] latest@.contains_key(k) <==> old(latest)@.contains_key(k)
                            || (is_prefix(pb, k) && exists|q: int|
                            t <= q < pairs.len() && pairs[q].0 == k)
                        &&& latest@.contains_key(k) ==> latest@[k] == if old(
                            latest,
                        )@.contains_key(k) {
                            old(latest)@[k]
                        } else {
                            (seg, index@[k])
                        }
                    },
            decreases t,
        {
            t -= 1;
            let entry = &index.entries[t];
            let ghost kq = pairs[t as int].0;
            let ghost before = latest@;
            let ghost before_pairs = latest.pairs();
            assert(kq == key_bytes(entry.key@));
            if starts_with(entry.key.as_str().as_bytes(), prefix.as_bytes()) && !latest.contains_key(
                entry.key.as_str(),
            ) {
                proof {
                    assert forall|q: int| t < q < pairs.len() implies pairs[q].0 != kq by {
                        if pairs[q].0 == kq {
                            assert(before.contains_key(kq));
                        }
                    }
                    lemma_pairs_map_last(pairs, t as int);
                    lemma_pairs_map_dom(before_pairs, kq);
                }
                latest.insert(entry.key.clone(), (seg, entry.offset));
                proof {
                    assert forall|a: int, b: int|
                        0 <= a < b < latest.pairs().len() implies latest.pairs()[a].0
                        != latest.pairs()[b].0 by {
                        assert(latest.pairs()[a] == before_pairs[a]);
                        if b < before_pairs.len() {
                            assert(latest.pairs()[b] == before_pairs[b]);
                        }
                    }
                }
            }
            proof {
                assert forall|k: Seq<u8>|
                    {
                        &&& #[trigger] latest@.contains_key(k) <==> old(latest)@.contains_key(k)
                            || (is_prefix(pb, k) && exists|q: int|
                            t <= q < pairs.len() && pairs[q].0 == k)
                        &&& latest@.contains_key(k) ==> latest@[k] == if old(
                            latest,
                        )@.contains_key(k) {
                            old(latest)@[k]
                        } else {
                            (seg, index@[k])
                        }
                    } by {
                    assert(before.contains_key(k) <==> old(latest)@.contains_key(k) || (is_prefix(
                        pb,
                        k,
                    ) && exists|q: int| t + 1 <= q < pairs.len() && pairs[q].0 == k));
                    if k == kq {
                        assert(pairs[t as int].0 == k);
                    } else {
                        if exists|q: int| t <= q < pairs.len() && pairs[q].0 == k {
                            let q = choose|q: int| t <= q < pairs.len() && pairs[q].0 == k;
                            assert(t + 1 <= q);
                        }
                    }
                }
            }
        }
        proof {
            assert forall|k: Seq<u8>|
                (exists|q: int| 0 <= q < pairs.len() && pairs[q].0 == k) == index@.contains_key(
                    k,
                ) by {
                lemma_pairs_map_dom(pairs, k);
            }
        }
    }

    /// For each key that begins with `prefix` and that a segment holds, the
    /// place that the last such segment points to.
    pub fn gather(&mut self, prefix: &str) -> (latest: StrMap<(usize, u64)>)
        requires
            old(self).inv(),
        ensures
            final(self).inv(),
            final(self).storage == old(self).storage,
            final(self).max_segments == old(self).max_segments,
            final(self).compaction_running == old(self).compaction_running,
            distinct_keys(latest.pairs()),
            gathered(latest, old(self).storage@, key_bytes(prefix@), 0),
            cache_cap(&final(self).index) == cache_cap(&old(self).index),
            entry_names(cache_entries(&final(self).index)) == visited(
                entry_names(cache_entries(&old(self).index)),
                cache_cap(&old(self).index),
                names_of(old(self).storage@.segments),
                old(self).storage@.segments.len() as int,
                0,
            ),
    {
        let n = self.storage.segment_count();
        let ghost m = self.storage@;
        let ghost pb = key_bytes(prefix@);
        let ghost names0 = entry_names(cache_entries(&self.index));
        let ghost cap = cache_cap(&self.index);
        let ghost segs = names_of(m.segments);
        let mut latest: StrMap<(usize, u64)> = StrMap::new();
        let mut i: usize = n;
        proof {
            assert(latest.pairs() =~= Seq::empty());
            assert forall|k: Seq<u8>| #[trigger] gathered_key(latest, m, pb, n as int, k) by {}
        }
        while i > 0
            invariant
                self.inv(),
                self.storage == old(self).storage,
                self.max_segments == old(self).max_segments,
                self.compaction_running == old(self).compaction_running,
                m == self.storage@,
                pb == key_bytes(prefix@),
                n == m.segments.len(),
                i <= n,
                distinct_keys(latest.pairs()),
                gathered(latest, m, pb, i as int),
                segs == names_of(m.segments),
                cap == cache_cap(&self.index),
                cap == cache_cap(&old(self).index),
                names0 == entry_names(cache_entries(&old(self).index)),
                entry_names(cache_entries(&self.index)) == visited(
                    names0,
                    cap,
                    segs,
                    n as int,
                    i as int,
                ),
            decreases i,
        {
            i -= 1;
            proof {
                lemma_visited_one_more(names0, cap, segs, n as int, i as int);
            }
            let ghost before = latest;
            match self.segment_index(i) {
                Some(index) => {
                    Self::gather_segment(index, i, prefix, &mut latest);
                },
                None => {},
            }
            proof {
                assert forall|k: Seq<u8>| #[trigger] gathered_key(latest, m, pb, i as int, k) by {
                    lemma_first_hit_lower(m.segments, i as int, n as int, k);
                    assert(gathered_key(before, m, pb, i + 1, k));
                    assert(latest@.contains_key(k) <==> before@.contains_key(k) || (is_prefix(
                        pb,
                        k,
                    ) && index_of(m.segments[i as int].idx).contains_key(k)));
                }
            }
        }
        latest
    }

    /// All keys that begin with `prefix` and for which a read gives a
    /// value, each once and with that value, in no particular order.
    pub fn scan_prefix(&mut self, prefix: &str) -> (out: Vec<(String, Vec<u8>)>)
        requires
            old(self).inv(),
        ensures
            final(self).inv(),
            final(self).storage == old(self).storage,
            final(self).max_segments == old(self).max_segments,
            final(self).compaction_running == old(self).compaction_running,
            forall|x: int|
                0 <= x < out@.len() ==> is_prefix(
                    key_bytes(prefix@),
                    key_bytes((#[trigger] out@[x]).0@),
                ) && old(self).storage@.lookup(key_bytes(out@[x].0@)) == Some(out@[x].1@),
            forall|x: int, y: int|
                0 <= x < y < out@.len() ==> key_bytes(out@[x].0@) != key_bytes(out@[y].0@),
            forall|k: Seq<u8>|
                is_prefix(key_bytes(prefix@), k) && #[trigger] old(self).storage@.lookup(k)
                    is Some ==> exists|x: int|
                    0 <= x < out@.len() && key_bytes((#[trigger] out@[x]).0@) == k,
            cache_cap(&final(self).index) == cache_cap(&old(self).index),
            entry_names(cache_entries(&final(self).index)) == visited(
                entry_names(cache_entries(&old(self).index)),
                cache_cap(&old(self).index),
                names_of(old(self).storage@.segments),
                old(self).storage@.segments.len() as int,
                0,
            ),
    {
        let latest = self.gather(prefix);
        let ghost m = self.storage@;
        let ghost pb = key_bytes(prefix@);
        let ghost pairs = latest.pairs();
        let n = self.storage.segment_count();
        let mut out: Vec<(String, Vec<u8>)> = Vec::new();
        let ghost mut src: Seq<int> = Seq::empty();
        let mut p: usize = 0;
        proof {
            lemma_pairs_map_distinct(pairs);
        }
        while p < latest.entries.len()
            invariant
                self.inv(),
                self.storage == old(self).storage,
                self.max_segments == old(self).max_segments,
                self.compaction_running == old(self).compaction_running,
                cache_cap(&self.index) == cache_cap(&old(self).index),
                entry_names(cache_entries(&self.index)) == visited(
                    entry_names(cache_entries(&old(self).index)),
                    cache_cap(&old(self).index),
                    names_of(old(self).storage@.segments),
                    old(self).storage@.segments.len() as int,
                    0,
                ),
                m == self.storage@,
                pb == key_bytes(prefix@),
                pairs == latest.pairs(),
                n == m.segments.len(),
                distinct_keys(pairs),
                gathered(latest, m, pb, 0),
                forall|i: int|
                    0 <= i < pairs.len() ==> latest@.contains_key(#[trigger] pairs[i].0)
                        && latest@[pairs[i].0] == pairs[i].1,
                p <= latest.entries@.len(),
                src.len() == out@.len(),
                forall|x: int|
                    0 <= x < out@.len() ==> 0 <= #[trigger] src[x] < p && key_bytes(out@[x].0@)
                        == pairs[src[x]].0 && m.lookup(pairs[src[x]].0) == Some(out@[x].1@),
                forall|x: int, y: int| 0 <= x < y < src.len() ==> src[x] < src[y],
                forall|q: int|
                    0 <= q < p && m.lookup(#[trigger] pairs[q].0) is Some ==> exists|x: int|
                        0 <= x < out@.len() && #[trigger] src[x] == q,
            decreases latest.entries@.len() - p,
        {
            let entry = &latest.entries[p];
            let (seg, offset) = entry.1;
            let ghost k = pairs[p as int].0;
            proof {
                assert(latest@.contains_key(k) && latest@[k] == pairs[p as int].1);
                assert(gathered_key(latest, m, pb, 0, k));
                lemma_lookup_first_hit(m.segments, n as int, k);
                assert(first_hit(m.segments, 0, n as int, k) == Some((seg as int, offset)));
            }
            let ghost out_before = out@;
            let ghost src_before = src;
            let mut found = false;
            if seg < n {
                match Storage::read_record(&self.storage.files[seg].log, offset) {
                    Ok(record) => {
                        if !record.deleted {
                            out.push((entry.0.clone(), record.value));
                            proof {
                                src = src.push(p as int);
                            }
                            found = true;
                        }
                    },
                    Err(_) => {},
                }
            }
            proof {
                assert(found == m.lookup(k) is Some);
                assert forall|x: int| 0 <= x < out@.len() implies 0 <= #[trigger] src[x] < p + 1
                    && key_bytes(out@[x].0@) == pairs[src[x]].0 && m.lookup(pairs[src[x]].0)
                    == Some(out@[x].1@) by {
                    if x < out_before.len() {
                        assert(out@[x] == out_before[x]);
                        assert(src[x] == src_before[x]);
                    }
                }
                assert forall|x: int, y: int| 0 <= x < y < src.len() implies src[x] < src[y] by {
                    assert(src[x] == src_before[x]);
                    if y < src_before.len() {
                        assert(src[y] == src_before[y]);
                    }
                }
                assert forall|q: int|
                    0 <= q < p + 1 && m.lookup(#[trigger] pairs[q].0) is Some implies exists|
                    x: int,
                | 0 <= x < out@.len() && #[trigger] src[x] == q by {
                    if q < p {
                        let x = choose|x: int| 0 <= x < out_before.len() && #[trigger] src_before[x] == q;
                        assert(src[x] == q);
                    } else {
                        assert(src[src.len() - 1] == q);
                    }
                }
            }
            p += 1;
        }
        proof {
            assert forall|x: int| 0 <= x < out@.len() implies is_prefix(
                pb,
                key_bytes((#[trigger] out@[x]).0@),
            ) && m.lookup(key_bytes(out@[x].0@)) == Some(out@[x].1@) by {
                let q = src[x];
                assert(latest@.contains_key(pairs[q].0));
                assert(gathered_key(latest, m, pb, 0, pairs[q].0));
            }
            assert forall|x: int, y: int| 0 <= x < y < out@.len() implies key_bytes(out@[x].0@)
                != key_bytes(out@[y].0@) by {
                assert(src[x] < src[y]);
            }
            assert forall|k: Seq<u8>| is_prefix(pb, k) && #[trigger] m.lookup(k) is Some implies exists|
                x: int,
            | 0 <= x < out@.len() && key_bytes((#[trigger] out@[x]).0@) == k by {
                lemma_lookup_first_hit(m.segments, n as int, k);
                assert(gathered_key(latest, m, pb, 0, k));
                assert(latest@.contains_key(k));
                lemma_pairs_map_dom(pairs, k);
                let q = choose|q: int| 0 <= q < pairs.len() && pairs[q].0 == k;
                assert(m.lookup(pairs[q].0) is Some);
                let x = choose|x: int| 0 <= x < out@.len() && #[trigger] src[x] == q;
                assert(key_bytes(out@[x].0@) == k);
            }
        }
        out
    }
}

} // verus!
