//! Entries by key, held in the order of their keys: what compaction gathers
//! from the segments it merges.

use vstd::prelude::*;
use crate::assoc::{
    distinct_keys, lemma_pairs_map_absent, lemma_pairs_map_insert_at, lemma_pairs_map_push,
    lemma_pairs_map_update, pairs_map,
};
use crate::keys::{key_order, lemma_lex_asymmetric, lemma_lex_transitive, lex_lt, KeyOrder};
use crate::record::{key_bytes, lemma_record_key_utf8, Record, RecordView};

verus! {

/// The keys of the list grow strictly from pair to pair.
pub open spec fn sorted_keys<V>(es: Seq<(Seq<u8>, V)>) -> bool {
    forall|i: int, j: int| 0 <= i < j < es.len() ==> lex_lt(es[i].0, es[j].0)
}

/// A list whose keys grow strictly holds no key twice.
pub proof fn lemma_sorted_distinct<V>(es: Seq<(Seq<u8>, V)>)
    requires
        sorted_keys(es),
    ensures
        distinct_keys(es),
{
    assert forall|i: int, j: int| 0 <= i < j < es.len() implies es[i].0 != es[j].0 by {
        lemma_lex_asymmetric(es[i].0, es[j].0);
    }
}

/// The entries of `m` that are no tombstones.
pub open spec fn live(m: Map<Seq<u8>, RecordView>) -> Map<Seq<u8>, RecordView> {
    Map::new(|k: Seq<u8>| m.contains_key(k) && !m[k].deleted, |k: Seq<u8>| m[k])
}

/// At most one entry for each key, in the order of the keys.
#[derive(Debug, Clone, PartialEq, Eq)]
pub struct RecordTable {
    pub records: Vec<Record>,
}

impl RecordTable {
    /// The entries as pairs of key and entry, in the order held.
    pub open spec fn pairs(&self) -> Seq<(Seq<u8>, RecordView)> {
        Seq::new(self.records@.len(), |i: int| (self.records@[i]@.key, self.records@[i]@))
    }

    /// The keys grow strictly, and every entry can be written.
    pub open spec fn wf(&self) -> bool {
        &&& sorted_keys(self.pairs())
        &&& forall|i: int| 0 <= i < self.records@.len() ==> (#[trigger] self.records@[i])@.valid()
    }

    /// A table without entries.
    pub fn new() -> (res: Self)
        ensures
            res.wf(),
            res@ == Map::<Seq<u8>, RecordView>::empty(),
            res.records@.len() == 0,
    {
        let res = RecordTable { records: Vec::new() };
        assert(res.pairs() =~= Seq::empty());
        res
    }

    /// The number of entries.
    pub fn len(&self) -> (res: usize)
        ensures
            res == self.records@.len(),
    {
        self.records.len()
    }

    /// Where `key` stands among the keys held: the position of its entry, or
    /// the position at which an entry for it would keep the order.
    fn slot(&self, key: &str) -> (res: (usize, bool))
        requires
            self.wf(),
        ensures
            res.0 <= self.records@.len(),
            forall|j: int| 0 <= j < res.0 ==> lex_lt(self.pairs()[j].0, key_bytes(key@)),
            res.1 ==> res.0 < self.records@.len() && self.pairs()[res.0 as int].0 == key_bytes(
                key@,
            ),
            !res.1 ==> forall|j: int|
                res.0 <= j < self.records@.len() ==> lex_lt(key_bytes(key@), self.pairs()[j].0),
    {
        let mut i: usize = 0;
        while i < self.records.len()
            invariant
                self.wf(),
                i <= self.records@.len(),
                forall|j: int| 0 <= j < i ==> lex_lt(self.pairs()[j].0, key_bytes(key@)),
            decreases self.records@.len() - i,
        {
            match key_order(self.records[i].key.as_str(), key) {
                KeyOrder::Before => {
                    assert(self.pairs()[i as int].0 == key_bytes(self.records@[i as int].key@));
                },
                KeyOrder::Same => {
                    return (i, true);
                },
                KeyOrder::After => {
                    proof {
                        assert forall|j: int| i <= j < self.records@.len() implies lex_lt(
                            key_bytes(key@),
                            self.pairs()[j].0,
                        ) by {
                            if j > i {
                                lemma_lex_transitive(
                                    key_bytes(key@),
                                    self.pairs()[i as int].0,
                                    self.pairs()[j].0,
                                );
                            }
                        }
                    }
                    return (i, false);
                },
            }
            i += 1;
        }
        (i, false)
    }

    /// Whether an entry is held for `key`.
    pub fn contains_key(&self, key: &str) -> (res: bool)
        requires
            self.wf(),
        ensures
            res == self@.contains_key(key_bytes(key@)),
    {
        let (p, found) = self.slot(key);
        proof {
            let kb = key_bytes(key@);
            lemma_sorted_distinct(self.pairs());
            if found {
                crate::assoc::lemma_pairs_map_last(self.pairs(), p as int);
            } else {
                assert forall|j: int| 0 <= j < self.pairs().len() implies self.pairs()[j].0
                    != kb by {
                    if j < p {
                        lemma_lex_asymmetric(self.pairs()[j].0, kb);
                    } else {
                        lemma_lex_asymmetric(kb, self.pairs()[j].0);
                    }
                }
                lemma_pairs_map_absent(self.pairs(), kb);
            }
        }
        found
    }

    /// Holds `record` for its key from now on, in place of any entry held for
    /// that key before.
    pub fn insert(&mut self, record: Record)
        requires
            old(self).wf(),
            record@.fits(),
        ensures
            final(self).wf(),
            final(self)@ == old(self)@.insert(record@.key, record@),
    {
        let ghost before = self.pairs();
        let ghost kb = record@.key;
        let ghost rv = record@;
        proof {
            lemma_record_key_utf8(record);
            lemma_sorted_distinct(before);
        }
        let (p, found) = self.slot(record.key.as_str());
        if found {
            self.records[p] = record;
            proof {
                assert(self.pairs() =~= before.update(p as int, (kb, rv)));
                lemma_pairs_map_update(before, p as int, rv);
                assert forall|i: int, j: int| 0 <= i < j < self.pairs().len() implies lex_lt(
                    self.pairs()[i].0,
                    self.pairs()[j].0,
                ) by {
                    assert(self.pairs()[i].0 == before[i].0);
                    assert(self.pairs()[j].0 == before[j].0);
                }
            }
        } else {
            self.records.insert(p, record);
            proof {
                assert(self.pairs() =~= before.insert(p as int, (kb, rv)));
                assert forall|j: int| p <= j < before.len() implies before[j].0 != kb by {
                    lemma_lex_asymmetric(kb, before[j].0);
                }
                lemma_pairs_map_insert_at(before, p as int, kb, rv);
                assert forall|i: int, j: int| 0 <= i < j < self.pairs().len() implies lex_lt(
                    self.pairs()[i].0,
                    self.pairs()[j].0,
                ) by {
                    let a = if i < p { i } else { i - 1 };
                    let b = if j < p { j } else { j - 1 };
                    if i != p {
                        assert(self.pairs()[i].0 == before[a].0);
                    }
                    if j != p {
                        assert(self.pairs()[j].0 == before[b].0);
                    }
                }
            }
        }
    }

    /// The table without its tombstones.
    pub fn drop_tombstones(&self) -> (res: Self)
        requires
            self.wf(),
        ensures
            res.wf(),
            res@ == live(self@),
    {
        let mut out = RecordTable { records: Vec::new() };
        let mut i: usize = 0;
        proof {
            assert(out.pairs() =~= Seq::empty());
            assert(self.pairs().subrange(0, 0) =~= Seq::empty());
            assert(out@ =~= live(pairs_map(self.pairs().subrange(0, 0))));
            lemma_sorted_distinct(self.pairs());
        }
        while i < self.records.len()
            invariant
                self.wf(),
                distinct_keys(self.pairs()),
                out.wf(),
                i <= self.records@.len(),
                out@ == live(pairs_map(self.pairs().subrange(0, i as int))),
                forall|j: int, l: int|
                    0 <= j < out.records@.len() && i <= l < self.records@.len() ==> lex_lt(
                        #[trigger] out.pairs()[j].0,
                        #[trigger] self.pairs()[l].0,
                    ),
            decreases self.records@.len() - i,
        {
            let ghost prefix = self.pairs().subrange(0, i as int);
            let ghost next = self.pairs().subrange(0, i + 1);
            let ghost kb = self.pairs()[i as int].0;
            let ghost rv = self.pairs()[i as int].1;
            let ghost out_before = out.pairs();
            proof {
                assert(next =~= prefix.push((kb, rv)));
                lemma_pairs_map_push(prefix, kb, rv);
                assert forall|j: int| 0 <= j < prefix.len() implies prefix[j].0 != kb by {
                    assert(prefix[j] == self.pairs()[j]);
                }
                lemma_pairs_map_absent(prefix, kb);
            }
            if !self.records[i].deleted {
                let r = self.records[i].copy();
                out.records.push(r);
                proof {
                    assert(out.pairs() =~= out_before.push((kb, rv)));
                    lemma_pairs_map_push(out_before, kb, rv);
                    assert(out@ =~= live(pairs_map(next)));
                    assert forall|a: int, b: int| 0 <= a < b < out.pairs().len() implies lex_lt(
                        out.pairs()[a].0,
                        out.pairs()[b].0,
                    ) by {
                        assert(out.pairs()[a] == out_before[a]);
                        if b < out_before.len() {
                            assert(out.pairs()[b] == out_before[b]);
                        } else {
                            assert(lex_lt(out_before[a].0, self.pairs()[i as int].0));
                        }
                    }
                    assert forall|j: int, l: int|
                        0 <= j < out.records@.len() && i + 1 <= l
                            < self.records@.len() implies lex_lt(
                        #[trigger] out.pairs()[j].0,
                        #[trigger] self.pairs()[l].0,
                    ) by {
                        if j < out_before.len() {
                            assert(out.pairs()[j] == out_before[j]);
                        }
                    }
                }
            } else {
                proof {
                    assert(out@ =~= live(pairs_map(next)));
                }
            }
            i += 1;
        }
        proof {
            assert(self.pairs().subrange(0, i as int) =~= self.pairs());
        }
        out
    }
}

impl View for RecordTable {
    type V = Map<Seq<u8>, RecordView>;

    open spec fn view(&self) -> Map<Seq<u8>, RecordView> {
        pairs_map(self.pairs())
    }
}

} // verus!
