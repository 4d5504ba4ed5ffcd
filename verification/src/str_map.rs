//! A map from strings to values, held as a list of pairs in which the last
//! pair for a key counts.

use vstd::prelude::*;
use crate::assoc::{
    lemma_pairs_map_dom, lemma_pairs_map_last, lemma_pairs_map_push, lemma_pairs_map_update,
    pairs_map,
};
use crate::keys::key_eq;
use crate::record::key_bytes;

verus! {

/// A map from strings, taken by their UTF-8 bytes, to values.
pub struct StrMap<V> {
    pub entries: Vec<(String, V)>,
}

impl<V> StrMap<V> {
    /// The entries as pairs of key bytes and value, in the order held.
    pub open spec fn pairs(&self) -> Seq<(Seq<u8>, V)> {
        Seq::new(self.entries@.len(), |i: int| (key_bytes(self.entries@[i].0@), self.entries@[i].1))
    }

    /// A map without entries.
    pub fn new() -> (res: Self)
        ensures
            res@ == Map::<Seq<u8>, V>::empty(),
            res.entries@.len() == 0,
    {
        let res = StrMap { entries: Vec::new() };
        assert(res.pairs() =~= Seq::empty());
        res
    }

    /// The position of the last entry for `key`, if there is one.
    pub fn position(&self, key: &str) -> (res: Option<usize>)
        ensures
            match res {
                Some(i) => i < self.entries@.len() && key_bytes(self.entries@[i as int].0@)
                    == key_bytes(key@) && self@.contains_key(key_bytes(key@)) && self@[key_bytes(
                    key@,
                )] == self.entries@[i as int].1 && forall|j: int|
                    i < j < self.entries@.len() ==> self.pairs()[j].0 != key_bytes(key@),
                None => !self@.contains_key(key_bytes(key@)),
            },
    {
        let mut i: usize = self.entries.len();
        while i > 0
            invariant
                i <= self.entries@.len(),
                forall|j: int| i <= j < self.entries@.len() ==> self.pairs()[j].0 != key_bytes(key@),
            decreases i,
        {
            i -= 1;
            if key_eq(self.entries[i].0.as_str(), key) {
                proof {
                    lemma_pairs_map_last(self.pairs(), i as int);
                }
                return Some(i);
            }
        }
        proof {
            lemma_pairs_map_dom(self.pairs(), key_bytes(key@));
        }
        None
    }

    /// Whether a value is held for `key`.
    pub fn contains_key(&self, key: &str) -> (res: bool)
        ensures
            res == self@.contains_key(key_bytes(key@)),
    {
        self.position(key).is_some()
    }

    /// The value held for `key`.
    pub fn get(&self, key: &str) -> (res: Option<&V>)
        ensures
            match res {
                Some(v) => self@.contains_key(key_bytes(key@)) && *v == self@[key_bytes(key@)],
                None => !self@.contains_key(key_bytes(key@)),
            },
    {
        match self.position(key) {
            Some(i) => Some(&self.entries[i].1),
            None => None,
        }
    }

    /// Holds `value` for `key` from now on. A key not held before is added
    /// at the end.
    pub fn insert(&mut self, key: String, value: V)
        ensures
            final(self)@ == old(self)@.insert(key_bytes(key@), value),
            !old(self)@.contains_key(key_bytes(key@)) ==> final(self).pairs() == old(
                self,
            ).pairs().push((key_bytes(key@), value)) && final(self).entries@.len() == old(
                self,
            ).entries@.len() + 1 && final(self).entries@.last().0@ == key@,
    {
        let ghost before = self.pairs();
        match self.position(key.as_str()) {
            Some(i) => {
                self.entries[i] = (key, value);
                proof {
                    lemma_pairs_map_update(before, i as int, value);
                    assert(self.pairs() =~= before.update(i as int, (key_bytes(key@), value)));
                }
            },
            None => {
                self.entries.push((key, value));
                proof {
                    lemma_pairs_map_push(before, key_bytes(key@), value);
                    assert(self.pairs() =~= before.push((key_bytes(key@), value)));
                }
            },
        }
    }
}

impl<V> View for StrMap<V> {
    type V = Map<Seq<u8>, V>;

    open spec fn view(&self) -> Map<Seq<u8>, V> {
        pairs_map(self.pairs())
    }
}

} // verus!
