//! The index of one segment in memory: for each key, the offset of its
//! latest entry in the segment's log.

use vstd::prelude::*;
use crate::assoc::{
    distinct_keys, lemma_pairs_map_dom, lemma_pairs_map_last, lemma_pairs_map_push,
    lemma_pairs_map_update, pairs_map,
};
use crate::keys::key_eq;
use crate::record::key_bytes;

verus! {

/// One key of a segment with the offset of its latest entry.
#[derive(Debug, Clone, PartialEq, Eq)]
pub struct IndexEntry {
    pub key: String,
    pub offset: u64,
}

/// The index of one segment: a map from key to offset.
#[derive(Debug, Clone, PartialEq, Eq)]
pub struct SegIndex {
    pub entries: Vec<IndexEntry>,
}

impl SegIndex {
    /// The entries as pairs of key bytes and offset, in the order held.
    pub open spec fn pairs(&self) -> Seq<(Seq<u8>, u64)> {
        Seq::new(
            self.entries@.len(),
            |i: int| (key_bytes(self.entries@[i].key@), self.entries@[i].offset),
        )
    }

    /// No key is held twice.
    pub open spec fn wf(&self) -> bool {
        distinct_keys(self.pairs())
    }

    /// An index without entries.
    pub fn new() -> (res: Self)
        ensures
            res@ == Map::<Seq<u8>, u64>::empty(),
            res.wf(),
            res.entries@.len() == 0,
    {
        let res = SegIndex { entries: Vec::new() };
        assert(res.pairs() =~= Seq::empty());
        res
    }

    /// The number of entries held.
    pub fn len(&self) -> (res: usize)
        ensures
            res == self.entries@.len(),
    {
        self.entries.len()
    }

    /// The position of the last entry for `key`, if there is one.
    fn position(&self, key: &str) -> (res: Option<usize>)
        ensures
            match res {
                Some(i) => i < self.entries@.len() && self.pairs()[i as int].0 == key_bytes(key@)
                    && forall|j: int|
                    i < j < self.entries@.len() ==> self.pairs()[j].0 != key_bytes(key@),
                None => forall|j: int|
                    0 <= j < self.entries@.len() ==> self.pairs()[j].0 != key_bytes(key@),
            },
    {
        let mut i: usize = self.entries.len();
        while i > 0
            invariant
                i <= self.entries@.len(),
                forall|j: int| i <= j < self.entries@.len() ==> self.pairs()[j].0 != key_bytes(key@),
            decreases i,
        {
            i -= 1;
            if key_eq(self.entries[i].key.as_str(), key) {
                return Some(i);
            }
        }
        None
    }

    /// The offset held for `key`.
    pub fn get(&self, key: &str) -> (res: Option<u64>)
        ensures
            res == if self@.contains_key(key_bytes(key@)) {
                Some(self@[key_bytes(key@)])
            } else {
                None
            },
    {
        match self.position(key) {
            Some(i) => {
                proof {
                    lemma_pairs_map_last(self.pairs(), i as int);
                }
                Some(self.entries[i].offset)
            },
            None => {
                proof {
                    lemma_pairs_map_dom(self.pairs(), key_bytes(key@));
                }
                None
            },
        }
    }

    /// Whether an offset is held for `key`.
    pub fn contains_key(&self, key: &str) -> (res: bool)
        ensures
            res == self@.contains_key(key_bytes(key@)),
    {
        self.get(key).is_some()
    }

    /// Sets the offset held for `key`, whether or not one was held before.
    pub fn insert(&mut self, key: String, offset: u64)
        ensures
            final(self)@ == old(self)@.insert(key_bytes(key@), offset),
            old(self).wf() ==> final(self).wf(),
    {
        let ghost before = self.pairs();
        match self.position(key.as_str()) {
            Some(i) => {
                self.entries[i] = IndexEntry { key, offset };
                proof {
                    lemma_pairs_map_update(before, i as int, offset);
                    assert(self.pairs() =~= before.update(i as int, (key_bytes(key@), offset)));
                }
            },
            None => {
                self.entries.push(IndexEntry { key, offset });
                proof {
                    lemma_pairs_map_push(before, key_bytes(key@), offset);
                    assert(self.pairs() =~= before.push((key_bytes(key@), offset)));
                }
            },
        }
    }
}

impl View for SegIndex {
    type V = Map<Seq<u8>, u64>;

    open spec fn view(&self) -> Map<Seq<u8>, u64> {
        pairs_map(self.pairs())
    }
}

} // verus!
