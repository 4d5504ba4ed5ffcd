//! Lists of `(key, value)` pairs read as maps, where a later pair for a key
//! replaces an earlier one.

use vstd::prelude::*;

verus! {

/// The map that a list of `(key, value)` pairs stands for when a later pair
/// for a key replaces an earlier one.
pub open spec fn pairs_map<V>(es: Seq<(Seq<u8>, V)>) -> Map<Seq<u8>, V>
    decreases es.len(),
{
    if es.len() == 0 {
        Map::empty()
    } else {
        pairs_map(es.drop_last()).insert(es.last().0, es.last().1)
    }
}

/// No key stands twice in the list.
pub open spec fn distinct_keys<V>(es: Seq<(Seq<u8>, V)>) -> bool {
    forall|i: int, j: int| 0 <= i < j < es.len() ==> es[i].0 != es[j].0
}

/// A pair added at the end is an insertion into the map.
pub proof fn lemma_pairs_map_push<V>(es: Seq<(Seq<u8>, V)>, key: Seq<u8>, value: V)
    ensures
        pairs_map(es.push((key, value))) == pairs_map(es).insert(key, value),
{
    assert(es.push((key, value)).drop_last() =~= es);
}

/// The map's keys are the keys of the list.
pub proof fn lemma_pairs_map_dom<V>(es: Seq<(Seq<u8>, V)>, key: Seq<u8>)
    ensures
        pairs_map(es).contains_key(key) <==> exists|i: int| 0 <= i < es.len() && es[i].0 == key,
    decreases es.len(),
{
    if es.len() > 0 {
        let front = es.drop_last();
        lemma_pairs_map_dom(front, key);
        if es.last().0 == key {
            assert(es[es.len() - 1].0 == key);
        } else if pairs_map(front).contains_key(key) {
            let i = choose|i: int| 0 <= i < front.len() && front[i].0 == key;
            assert(es[i].0 == key);
        } else if exists|i: int| 0 <= i < es.len() && es[i].0 == key {
            let i = choose|i: int| 0 <= i < es.len() && es[i].0 == key;
            assert(front[i].0 == key);
        }
    }
}

/// The map gives a key the value of its last pair in the list.
pub proof fn lemma_pairs_map_last<V>(es: Seq<(Seq<u8>, V)>, i: int)
    requires
        0 <= i < es.len(),
        forall|j: int| i < j < es.len() ==> es[j].0 != es[i].0,
    ensures
        pairs_map(es).contains_key(es[i].0),
        pairs_map(es)[es[i].0] == es[i].1,
    decreases es.len(),
{
    if i < es.len() - 1 {
        let front = es.drop_last();
        assert(front[i] == es[i]);
        assert forall|j: int| i < j < front.len() implies front[j].0 != front[i].0 by {
            assert(front[j] == es[j]);
        }
        lemma_pairs_map_last(front, i);
    }
}

/// A new value in the last pair of a key is an insertion into the map.
pub proof fn lemma_pairs_map_update<V>(es: Seq<(Seq<u8>, V)>, i: int, value: V)
    requires
        0 <= i < es.len(),
        forall|j: int| i < j < es.len() ==> es[j].0 != es[i].0,
    ensures
        pairs_map(es.update(i, (es[i].0, value))) == pairs_map(es).insert(es[i].0, value),
    decreases es.len(),
{
    let key = es[i].0;
    let upd = es.update(i, (key, value));
    if i == es.len() - 1 {
        assert(upd.drop_last() =~= es.drop_last());
        assert(pairs_map(upd) =~= pairs_map(es).insert(key, value));
    } else {
        let front = es.drop_last();
        assert(front[i] == es[i]);
        assert forall|j: int| i < j < front.len() implies front[j].0 != front[i].0 by {
            assert(front[j] == es[j]);
        }
        lemma_pairs_map_update(front, i, value);
        assert(upd.drop_last() =~= front.update(i, (key, value)));
        assert(upd.last() == es.last());
        assert(es.last().0 != key);
        assert(pairs_map(upd) =~= pairs_map(es).insert(key, value));
    }
}

/// In a list without repeated keys the map gives every pair's key its value.
pub proof fn lemma_pairs_map_distinct<V>(es: Seq<(Seq<u8>, V)>)
    requires
        distinct_keys(es),
    ensures
        forall|i: int|
            0 <= i < es.len() ==> pairs_map(es).contains_key(#[trigger] es[i].0) && pairs_map(
                es,
            )[es[i].0] == es[i].1,
{
    assert forall|i: int| 0 <= i < es.len() implies pairs_map(es).contains_key(
        #[trigger] es[i].0,
    ) && pairs_map(es)[es[i].0] == es[i].1 by {
        lemma_pairs_map_last(es, i);
    }
}

/// A pair put anywhere before the pairs of other keys is an insertion into the map.
pub proof fn lemma_pairs_map_insert_at<V>(es: Seq<(Seq<u8>, V)>, p: int, key: Seq<u8>, value: V)
    requires
        0 <= p <= es.len(),
        forall|j: int| p <= j < es.len() ==> es[j].0 != key,
    ensures
        pairs_map(es.insert(p, (key, value))) == pairs_map(es).insert(key, value),
    decreases es.len() - p,
{
    let ins = es.insert(p, (key, value));
    if p == es.len() {
        assert(ins =~= es.push((key, value)));
        lemma_pairs_map_push(es, key, value);
    } else {
        let front = es.drop_last();
        lemma_pairs_map_insert_at(front, p, key, value);
        assert(ins.drop_last() =~= front.insert(p, (key, value)));
        assert(ins.last() == es.last());
        assert(es[es.len() - 1].0 != key);
        assert(pairs_map(ins) =~= pairs_map(es).insert(key, value));
    }
}

/// The map of a list without its last pairs, seen from the whole list: a key
/// that the beginning does not hold is not in its map.
pub proof fn lemma_pairs_map_absent<V>(es: Seq<(Seq<u8>, V)>, key: Seq<u8>)
    requires
        forall|i: int| 0 <= i < es.len() ==> es[i].0 != key,
    ensures
        !pairs_map(es).contains_key(key),
{
    lemma_pairs_map_dom(es, key);
}

/// The position of the last pair for a key that the map holds.
pub proof fn lemma_pairs_map_witness<V>(es: Seq<(Seq<u8>, V)>, key: Seq<u8>) -> (i: int)
    requires
        pairs_map(es).contains_key(key),
    ensures
        0 <= i < es.len(),
        es[i].0 == key,
        forall|j: int| i < j < es.len() ==> es[j].0 != key,
        pairs_map(es)[key] == es[i].1,
    decreases es.len(),
{
    if es.len() == 0 {
        0
    } else if es.last().0 == key {
        es.len() - 1
    } else {
        let front = es.drop_last();
        let i = lemma_pairs_map_witness(front, key);
        assert(front[i] == es[i]);
        assert forall|j: int| i < j < es.len() implies es[j].0 != key by {
            if j < front.len() {
                assert(front[j] == es[j]);
            }
        }
        i
    }
}

} // verus!
