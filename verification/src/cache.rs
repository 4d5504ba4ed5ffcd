//! The cache of segment indexes: a bounded `lru::LruCache` from a segment's
//! name to its index. The cache is not verified; what this module states of
//! it is taken from its source and believed.

use vstd::prelude::*;
use lru::LruCache;
use crate::seg_index::SegIndex;

verus! {

/// `lru::LruCache`, of which this library sees nothing inside.
#[verifier::external_type_specification]
#[verifier::external_body]
#[verifier::reject_recursive_types(K)]
#[verifier::reject_recursive_types(V)]
#[verifier::reject_recursive_types(S)]
pub struct ExLruCache<K, V, S>(LruCache<K, V, S>);

/// `lru::DefaultHasher`, the hasher that a cache has unless it is given
/// another.
#[verifier::external_type_specification]
#[verifier::external_body]
pub struct ExDefaultHasher(lru::DefaultHasher);

/// The entries of the cache in the order in which `LruCache::iter` visits
/// them: the most recently used first.
pub uninterp spec fn cache_entries(c: &LruCache<String, SegIndex>) -> Seq<(Seq<char>, SegIndex)>;

/// The number of entries that the cache was made to hold.
pub uninterp spec fn cache_cap(c: &LruCache<String, SegIndex>) -> nat;

/// The position of the entry for `name`, if there is one.
pub open spec fn slot_of(es: Seq<(Seq<char>, SegIndex)>, name: Seq<char>) -> Option<int> {
    if exists|i: int| 0 <= i < es.len() && es[i].0 == name {
        Some(choose|i: int| 0 <= i < es.len() && es[i].0 == name)
    } else {
        None
    }
}

/// The entries after `index` was put under `name`: the new entry comes
/// first; an entry that `name` had leaves; where `name` had none and the
/// cache was full, the last entry leaves.
pub open spec fn after_put(
    es: Seq<(Seq<char>, SegIndex)>,
    cap: nat,
    name: Seq<char>,
    index: SegIndex,
) -> Seq<(Seq<char>, SegIndex)> {
    match slot_of(es, name) {
        Some(i) => seq![(name, index)] + es.remove(i),
        None => if es.len() == cap {
            seq![(name, index)] + es.drop_last()
        } else {
            seq![(name, index)] + es
        },
    }
}

/// The entries after the entry at `i` was used: it comes first.
pub open spec fn promoted(es: Seq<(Seq<char>, SegIndex)>, i: int) -> Seq<(Seq<char>, SegIndex)> {
    seq![es[i]] + es.remove(i)
}

/// `LruCache::new`: an empty cache that holds at most `cap` entries.
#[verifier::external_body]
pub(crate) fn cache_new(cap: usize) -> (c: LruCache<String, SegIndex>)
    requires
        cap > 0,
    ensures
        cache_entries(&c) == Seq::<(Seq<char>, SegIndex)>::empty(),
        cache_cap(&c) == cap,
{
    LruCache::new(std::num::NonZeroUsize::new(cap).unwrap())
}

/// `LruCache::contains`: whether the cache holds an entry for `name`. The
/// order of the entries stays.
#[verifier::external_body]
pub(crate) fn cache_contains(c: &LruCache<String, SegIndex>, name: &str) -> (res: bool)
    ensures
        res == slot_of(cache_entries(c), name@) is Some,
{
    c.contains(name)
}

/// `LruCache::put`: puts `index` under `name` and makes it the most recently
/// used entry. An entry that `name` had is replaced; else, where the cache is
/// full, the least recently used entry leaves.
#[verifier::external_body]
pub(crate) fn cache_put(c: &mut LruCache<String, SegIndex>, name: String, index: SegIndex)
    ensures
        cache_entries(final(c)) == after_put(
            cache_entries(old(c)),
            cache_cap(old(c)),
            name@,
            index,
        ),
        cache_cap(final(c)) == cache_cap(old(c)),
{
    c.put(name, index);
}

/// `LruCache::get`: the index held under `name`, which becomes the most
/// recently used entry.
#[verifier::external_body]
pub(crate) fn cache_get<'a>(c: &'a mut LruCache<String, SegIndex>, name: &str) -> (res: Option<
    &'a SegIndex,
>)
    ensures
        match slot_of(cache_entries(old(c)), name@) {
            Some(i) => res == Some(&cache_entries(old(c))[i].1) && cache_entries(final(c))
                == promoted(cache_entries(old(c)), i),
            None => res is None && cache_entries(final(c)) == cache_entries(old(c)),
        },
        cache_cap(final(c)) == cache_cap(old(c)),
{
    c.get(name)
}

/// `LruCache::pop`: takes the entry for `name` out of the cache and returns
/// its index.
#[verifier::external_body]
pub(crate) fn cache_pop(c: &mut LruCache<String, SegIndex>, name: &str) -> (res: Option<SegIndex>)
    ensures
        match slot_of(cache_entries(old(c)), name@) {
            Some(i) => res == Some(cache_entries(old(c))[i].1) && cache_entries(final(c))
                == cache_entries(old(c)).remove(i),
            None => res is None && cache_entries(final(c)) == cache_entries(old(c)),
        },
        cache_cap(final(c)) == cache_cap(old(c)),
{
    c.pop(name)
}

/// No name stands twice among the entries.
pub open spec fn names_distinct(es: Seq<(Seq<char>, SegIndex)>) -> bool {
    forall|i: int, j: int| 0 <= i < j < es.len() ==> es[i].0 != es[j].0
}

/// Every entry of `es` meets `good`.
pub open spec fn all_entries(
    es: Seq<(Seq<char>, SegIndex)>,
    good: spec_fn((Seq<char>, SegIndex)) -> bool,
) -> bool {
    forall|i: int| 0 <= i < es.len() ==> good(#[trigger] es[i])
}

/// Putting an entry keeps the names apart and keeps what holds of every
/// entry, if it holds of the new one. The new entry is found under its name.
pub proof fn lemma_after_put(
    es: Seq<(Seq<char>, SegIndex)>,
    cap: nat,
    name: Seq<char>,
    index: SegIndex,
    good: spec_fn((Seq<char>, SegIndex)) -> bool,
)
    requires
        cap > 0,
        names_distinct(es),
        all_entries(es, good),
        good((name, index)),
    ensures
        names_distinct(after_put(es, cap, name, index)),
        all_entries(after_put(es, cap, name, index), good),
        es.len() <= cap ==> after_put(es, cap, name, index).len() <= cap,
        slot_of(after_put(es, cap, name, index), name) is Some,
        forall|i: int|
            0 <= i < after_put(es, cap, name, index).len() && after_put(
                es,
                cap,
                name,
                index,
            )[i].0 == name ==> after_put(es, cap, name, index)[i].1 == index,
{
    let out = after_put(es, cap, name, index);
    assert(out[0] == (name, index));
    match slot_of(es, name) {
        Some(p) => {
            let rest = es.remove(p);
            assert forall|i: int| 0 <= i < rest.len() implies rest[i].0 != name && good(
                #[trigger] rest[i],
            ) by {
                if i < p {
                    assert(rest[i] == es[i]);
                } else {
                    assert(rest[i] == es[i + 1]);
                }
            }
            assert forall|i: int, j: int| 0 <= i < j < out.len() implies out[i].0 != out[j].0 by {
                let a = if i - 1 < p { i - 1 } else { i };
                let b = if j - 1 < p { j - 1 } else { j };
                assert(out[j] == rest[j - 1]);
                assert(rest[j - 1] == es[b]);
                if i > 0 {
                    assert(out[i] == rest[i - 1]);
                    assert(rest[i - 1] == es[a]);
                }
            }
            assert forall|i: int| 0 <= i < out.len() implies good(#[trigger] out[i]) by {
                if i > 0 {
                    assert(out[i] == rest[i - 1]);
                }
            }
            assert forall|i: int| 0 <= i < out.len() && out[i].0 == name implies out[i].1
                == index by {
                if i > 0 {
                    assert(out[i] == rest[i - 1]);
                }
            }
        },
        None => {
            let rest = if es.len() == cap { es.drop_last() } else { es };
            assert forall|i: int| 0 <= i < rest.len() implies rest[i].0 != name && good(
                #[trigger] rest[i],
            ) by {
                assert(rest[i] == es[i]);
            }
            assert forall|i: int, j: int| 0 <= i < j < out.len() implies out[i].0 != out[j].0 by {
                assert(out[j] == rest[j - 1]);
                assert(rest[j - 1] == es[j - 1]);
                if i > 0 {
                    assert(out[i] == rest[i - 1]);
                    assert(rest[i - 1] == es[i - 1]);
                }
            }
            assert forall|i: int| 0 <= i < out.len() implies good(#[trigger] out[i]) by {
                if i > 0 {
                    assert(out[i] == rest[i - 1]);
                }
            }
            assert forall|i: int| 0 <= i < out.len() && out[i].0 == name implies out[i].1
                == index by {
                if i > 0 {
                    assert(out[i] == rest[i - 1]);
                }
            }
        },
    }
}

/// Using an entry keeps the names apart and keeps what holds of every entry.
pub proof fn lemma_promoted(
    es: Seq<(Seq<char>, SegIndex)>,
    p: int,
    good: spec_fn((Seq<char>, SegIndex)) -> bool,
)
    requires
        0 <= p < es.len(),
        names_distinct(es),
        all_entries(es, good),
    ensures
        names_distinct(promoted(es, p)),
        all_entries(promoted(es, p), good),
{
    let out = promoted(es, p);
    let rest = es.remove(p);
    assert forall|i: int| 0 <= i < out.len() implies good(#[trigger] out[i]) by {
        if i > 0 {
            assert(out[i] == rest[i - 1]);
            if i - 1 < p {
                assert(rest[i - 1] == es[i - 1]);
            } else {
                assert(rest[i - 1] == es[i]);
            }
        }
    }
    assert forall|i: int, j: int| 0 <= i < j < out.len() implies out[i].0 != out[j].0 by {
        let a = if i == 0 { p } else if i - 1 < p { i - 1 } else { i };
        let b = if j - 1 < p { j - 1 } else { j };
        assert(out[j] == rest[j - 1]);
        assert(rest[j - 1] == es[b]);
        if i > 0 {
            assert(out[i] == rest[i - 1]);
            assert(rest[i - 1] == es[a]);
        }
    }
}

/// Taking an entry out keeps the names apart and keeps what holds of every
/// entry, and leaves no entry under the name taken.
pub proof fn lemma_removed(
    es: Seq<(Seq<char>, SegIndex)>,
    p: int,
    good: spec_fn((Seq<char>, SegIndex)) -> bool,
)
    requires
        0 <= p < es.len(),
        names_distinct(es),
        all_entries(es, good),
    ensures
        names_distinct(es.remove(p)),
        all_entries(es.remove(p), good),
        forall|i: int| 0 <= i < es.remove(p).len() ==> (#[trigger] es.remove(p)[i]).0 != es[p].0,
{
    let rest = es.remove(p);
    assert forall|i: int| 0 <= i < rest.len() implies good(#[trigger] rest[i]) && rest[i].0
        != es[p].0 by {
        if i < p {
            assert(rest[i] == es[i]);
        } else {
            assert(rest[i] == es[i + 1]);
        }
    }
    assert forall|i: int, j: int| 0 <= i < j < rest.len() implies rest[i].0 != rest[j].0 by {
        let a = if i < p { i } else { i + 1 };
        let b = if j < p { j } else { j + 1 };
        assert(rest[i] == es[a]);
        assert(rest[j] == es[b]);
    }
}

/// The names of the entries, in order.
pub open spec fn entry_names(es: Seq<(Seq<char>, SegIndex)>) -> Seq<Seq<char>> {
    Seq::new(es.len(), |i: int| es[i].0)
}

/// The position of `name` among `names`, if it stands there.
pub open spec fn position_of(names: Seq<Seq<char>>, name: Seq<char>) -> Option<int> {
    if exists|i: int| 0 <= i < names.len() && names[i] == name {
        Some(choose|i: int| 0 <= i < names.len() && names[i] == name)
    } else {
        None
    }
}

/// The names of a cache made for `cap` entries after the entry for `name`
/// was used or put: `name` comes first; if it was not there and the cache
/// was full, the last name leaves.
pub open spec fn touched(names: Seq<Seq<char>>, cap: nat, name: Seq<char>) -> Seq<Seq<char>> {
    match position_of(names, name) {
        Some(i) => seq![name] + names.remove(i),
        None => if names.len() == cap {
            seq![name] + names.drop_last()
        } else {
            seq![name] + names
        },
    }
}

/// The names without `name`.
pub open spec fn dropped(names: Seq<Seq<char>>, name: Seq<char>) -> Seq<Seq<char>> {
    match position_of(names, name) {
        Some(i) => names.remove(i),
        None => names,
    }
}

/// Where the names are apart, a name stands among the names of the entries
/// where its entry stands among the entries.
pub proof fn lemma_position(es: Seq<(Seq<char>, SegIndex)>, name: Seq<char>)
    requires
        names_distinct(es),
    ensures
        position_of(entry_names(es), name) == slot_of(es, name),
{
    let names = entry_names(es);
    if slot_of(es, name) is Some {
        let p = slot_of(es, name)->0;
        assert(names[p] == name);
        let q = position_of(names, name)->0;
        assert(es[q].0 == names[q]);
        if p < q {
            assert(es[p].0 != es[q].0);
        } else if q < p {
            assert(es[q].0 != es[p].0);
        }
    } else {
        if position_of(names, name) is Some {
            let q = position_of(names, name)->0;
            assert(es[q].0 == names[q]);
        }
    }
}

/// The names after a put are the names touched.
pub proof fn lemma_names_after_put(
    es: Seq<(Seq<char>, SegIndex)>,
    cap: nat,
    name: Seq<char>,
    index: SegIndex,
)
    requires
        cap > 0,
        names_distinct(es),
    ensures
        entry_names(after_put(es, cap, name, index)) == touched(entry_names(es), cap, name),
{
    lemma_position(es, name);
    assert(entry_names(after_put(es, cap, name, index)) =~= touched(entry_names(es), cap, name));
}

/// The names after a use are the names touched.
pub proof fn lemma_names_promoted(es: Seq<(Seq<char>, SegIndex)>, cap: nat, p: int)
    requires
        0 <= p < es.len(),
        names_distinct(es),
    ensures
        entry_names(promoted(es, p)) == touched(entry_names(es), cap, es[p].0),
{
    lemma_position(es, es[p].0);
    let q = slot_of(es, es[p].0)->0;
    if p < q {
        assert(es[p].0 != es[q].0);
    } else if q < p {
        assert(es[q].0 != es[p].0);
    }
    assert(entry_names(promoted(es, p)) =~= touched(entry_names(es), cap, es[p].0));
}

/// The names after an entry was taken out are the names without its name.
pub proof fn lemma_names_removed(es: Seq<(Seq<char>, SegIndex)>, name: Seq<char>)
    requires
        names_distinct(es),
    ensures
        entry_names(
            match slot_of(es, name) {
                Some(p) => es.remove(p),
                None => es,
            },
        ) == dropped(entry_names(es), name),
{
    lemma_position(es, name);
    match slot_of(es, name) {
        Some(p) => {
            assert(entry_names(es.remove(p)) =~= entry_names(es).remove(p));
        },
        None => {},
    }
}

/// The names without the first `k` names of `gone`.
pub open spec fn dropped_all(names: Seq<Seq<char>>, gone: Seq<Seq<char>>, k: int) -> Seq<
    Seq<char>,
>
    decreases k,
{
    if k <= 0 {
        names
    } else {
        dropped(dropped_all(names, gone, k - 1), gone[k - 1])
    }
}

/// To take an entry out and put one under the same name is to touch the
/// name.
pub proof fn lemma_touch_after_drop(es: Seq<(Seq<char>, SegIndex)>, cap: nat, name: Seq<char>)
    requires
        cap > 0,
        es.len() <= cap,
        names_distinct(es),
    ensures
        touched(dropped(entry_names(es), name), cap, name) == touched(entry_names(es), cap, name),
{
    let names = entry_names(es);
    lemma_position(es, name);
    match slot_of(es, name) {
        Some(p) => {
            let rest = es.remove(p);
            lemma_removed(es, p, |e: (Seq<char>, SegIndex)| true);
            lemma_position(rest, name);
            assert(entry_names(rest) =~= names.remove(p));
            assert(slot_of(rest, name) is None) by {
                if slot_of(rest, name) is Some {
                    let q = slot_of(rest, name)->0;
                    assert(rest[q].0 != es[p].0);
                }
            }
        },
        None => {},
    }
}

} // verus!
