//! Lists of entries under byte-string keys, read as maps.
//!
//! The cache keeps each of its indices as a list in which no key occurs
//! twice; what such a list means is the map from each key to its entry.

use vstd::prelude::*;

verus! {

/// The map that a list of keyed entries stands for; of two entries under one
/// key the later one counts.
pub open spec fn to_map<V>(entries: Seq<(Seq<u8>, V)>) -> Map<Seq<u8>, V>
    decreases entries.len(),
{
    if entries.len() == 0 {
        Map::empty()
    } else {
        to_map(entries.drop_last()).insert(entries.last().0, entries.last().1)
    }
}

/// Whether no key occurs twice.
pub open spec fn distinct_keys<V>(entries: Seq<(Seq<u8>, V)>) -> bool {
    forall|i: int, j: int|
        0 <= i < j < entries.len() ==> (#[trigger] entries[i]).0 != (#[trigger] entries[j]).0
}

/// Whether some entry stands under `key`.
pub open spec fn has_key<V>(entries: Seq<(Seq<u8>, V)>, key: Seq<u8>) -> bool {
    exists|i: int| 0 <= i < entries.len() && (#[trigger] entries[i]).0 == key
}

/// The map has exactly the keys of the list, and is finite.
pub proof fn lemma_keys<V>(entries: Seq<(Seq<u8>, V)>)
    ensures
        forall|key: Seq<u8>| #[trigger] to_map(entries).contains_key(key) <==> has_key(entries, key),
        to_map(entries).dom().finite(),
    decreases entries.len(),
{
    if entries.len() > 0 {
        let front = entries.drop_last();
        lemma_keys(front);
        assert forall|key: Seq<u8>| #[trigger]
            to_map(entries).contains_key(key) <==> has_key(entries, key) by {
            if has_key(entries, key) {
                let i = choose|i: int| 0 <= i < entries.len() && (#[trigger] entries[i]).0 == key;
                if i < entries.len() - 1 {
                    assert(front[i].0 == key);
                    assert(has_key(front, key));
                }
            }
            if to_map(entries).contains_key(key) {
                if key == entries.last().0 {
                    assert(entries[entries.len() - 1].0 == key);
                } else {
                    assert(has_key(front, key));
                    let i = choose|i: int| 0 <= i < front.len() && (#[trigger] front[i]).0 == key;
                    assert(entries[i].0 == key);
                }
            }
        }
    }
}

/// Where no key occurs twice, every entry is found under its key.
pub proof fn lemma_entry<V>(entries: Seq<(Seq<u8>, V)>, i: int)
    requires
        distinct_keys(entries),
        0 <= i < entries.len(),
    ensures
        to_map(entries).contains_key(entries[i].0),
        to_map(entries)[entries[i].0] == entries[i].1,
    decreases entries.len(),
{
    let front = entries.drop_last();
    if i < entries.len() - 1 {
        assert forall|a: int, b: int| 0 <= a < b < front.len() implies (#[trigger] front[a]).0 != (
        #[trigger] front[b]).0 by {
            assert(front[a] == entries[a] && front[b] == entries[b]);
        }
        lemma_entry(front, i);
        assert(front[i] == entries[i]);
        assert(entries[i].0 != entries[entries.len() - 1].0);
    }
}

/// A key that no entry stands under is not in the map.
pub proof fn lemma_absent<V>(entries: Seq<(Seq<u8>, V)>, key: Seq<u8>)
    requires
        forall|i: int| 0 <= i < entries.len() ==> (#[trigger] entries[i]).0 != key,
    ensures
        !to_map(entries).contains_key(key),
{
    lemma_keys(entries);
}

/// Adding an entry at the end adds it to the map.
pub proof fn lemma_push<V>(entries: Seq<(Seq<u8>, V)>, key: Seq<u8>, value: V)
    ensures
        to_map(entries.push((key, value))) == to_map(entries).insert(key, value),
{
    assert(entries.push((key, value)).drop_last() =~= entries);
}

/// Where no key occurs twice, replacing the entry under a key replaces it in the map.
pub proof fn lemma_update<V>(entries: Seq<(Seq<u8>, V)>, i: int, value: V)
    requires
        distinct_keys(entries),
        0 <= i < entries.len(),
    ensures
        to_map(entries.update(i, (entries[i].0, value))) == to_map(entries).insert(
            entries[i].0,
            value,
        ),
        distinct_keys(entries.update(i, (entries[i].0, value))),
    decreases entries.len(),
{
    let key = entries[i].0;
    let changed = entries.update(i, (key, value));
    let front = entries.drop_last();
    assert forall|a: int, b: int| 0 <= a < b < changed.len() implies (#[trigger] changed[a]).0 != (
    #[trigger] changed[b]).0 by {
        assert(changed[a].0 == entries[a].0 && changed[b].0 == entries[b].0);
    }
    if i == entries.len() - 1 {
        assert(changed.drop_last() =~= front);
        assert(to_map(changed) =~= to_map(entries).insert(key, value));
    } else {
        assert forall|a: int, b: int| 0 <= a < b < front.len() implies (#[trigger] front[a]).0 != (
        #[trigger] front[b]).0 by {
            assert(front[a] == entries[a] && front[b] == entries[b]);
        }
        lemma_update(front, i, value);
        assert(front[i] == entries[i]);
        assert(changed.drop_last() =~= front.update(i, (key, value)));
        assert(changed.last() == entries.last());
        assert(entries[i].0 != entries[entries.len() - 1].0);
        assert(to_map(changed) =~= to_map(entries).insert(key, value));
    }
}

/// Where no key occurs twice, the map has as many keys as the list has entries.
pub proof fn lemma_count<V>(entries: Seq<(Seq<u8>, V)>)
    requires
        distinct_keys(entries),
    ensures
        to_map(entries).dom().finite(),
        to_map(entries).dom().len() == entries.len(),
    decreases entries.len(),
{
    lemma_keys(entries);
    if entries.len() > 0 {
        let front = entries.drop_last();
        assert forall|a: int, b: int| 0 <= a < b < front.len() implies (#[trigger] front[a]).0 != (
        #[trigger] front[b]).0 by {
            assert(front[a] == entries[a] && front[b] == entries[b]);
        }
        lemma_count(front);
        lemma_keys(front);
        assert(!to_map(front).contains_key(entries.last().0)) by {
            if has_key(front, entries.last().0) {
                let i = choose|i: int|
                    0 <= i < front.len() && (#[trigger] front[i]).0 == entries.last().0;
                assert(entries[i].0 == entries[entries.len() - 1].0);
            }
        }
        assert(to_map(entries).dom() =~= to_map(front).dom().insert(entries.last().0));
    } else {
        assert(to_map(entries).dom() =~= Set::<Seq<u8>>::empty());
    }
}

/// An entry put in front counts only where no later entry stands under its key.
pub proof fn lemma_prepend<V>(key: Seq<u8>, value: V, entries: Seq<(Seq<u8>, V)>)
    ensures
        to_map(seq![(key, value)] + entries) == (if has_key(entries, key) {
            to_map(entries)
        } else {
            to_map(entries).insert(key, value)
        }),
    decreases entries.len(),
{
    let whole = seq![(key, value)] + entries;
    if entries.len() == 0 {
        let none = Seq::<(Seq<u8>, V)>::empty();
        assert(whole.drop_last() =~= none);
        assert(entries =~= none);
        assert(to_map(none) =~= Map::<Seq<u8>, V>::empty());
        assert(whole.last() == (key, value));
        assert(to_map(whole) =~= to_map(entries).insert(key, value));
    } else {
        let front = entries.drop_last();
        let last = entries.last();
        lemma_prepend(key, value, front);
        assert(whole.drop_last() =~= seq![(key, value)] + front);
        assert(whole.last() == last);
        if has_key(front, key) {
            let i = choose|i: int| 0 <= i < front.len() && (#[trigger] front[i]).0 == key;
            assert(entries[i].0 == key);
        } else if last.0 == key {
            assert(entries[entries.len() - 1].0 == key);
            assert(to_map(whole) =~= to_map(entries));
        } else {
            if has_key(entries, key) {
                let i = choose|i: int| 0 <= i < entries.len() && (#[trigger] entries[i]).0 == key;
                assert(front[i].0 == key);
            }
            assert(to_map(whole) =~= to_map(entries).insert(key, value));
        }
    }
}

} // verus!
