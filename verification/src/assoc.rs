//! Maps laid out as sequences of entries.
use vstd::prelude::*;

verus! {

/// Whether no two entries have the same key.
pub open spec fn distinct<K, V>(entries: Seq<(K, V)>) -> bool {
    forall|i: int, j: int| 0 <= i < j < entries.len() ==> entries[i].0 != entries[j].0
}

/// Whether some entry has the key `key`.
pub open spec fn has_key<K, V>(entries: Seq<(K, V)>, key: K) -> bool {
    exists|i: int| 0 <= i < entries.len() && (#[trigger] entries[i]).0 == key
}

/// The map that holds the entries.
pub open spec fn map_of<K, V>(entries: Seq<(K, V)>) -> Map<K, V> {
    Map::new(
        |key: K| has_key(entries, key),
        |key: K| entries[choose|i: int| 0 <= i < entries.len() && (#[trigger] entries[i]).0 == key].1,
    )
}

/// Whether `values` lists the values of `map`, one for each key, in some order.
pub open spec fn lists_values<K, V>(values: Seq<V>, map: Map<K, V>) -> bool {
    exists|keys: Seq<K>| lists_values_of(values, map, keys)
}

/// Whether `values` holds the values of `map` in the order in which `keys`
/// lists its keys.
pub open spec fn lists_values_of<K, V>(values: Seq<V>, map: Map<K, V>, keys: Seq<K>) -> bool {
    &&& keys.no_duplicates()
    &&& keys.to_set() == map.dom()
    &&& values.len() == keys.len()
    &&& forall|i: int| 0 <= i < keys.len() ==> #[trigger] values[i] == map[keys[i]]
}

/// Each entry is in the map.
pub proof fn lemma_entry<K, V>(entries: Seq<(K, V)>, i: int)
    requires
        distinct(entries),
        0 <= i < entries.len(),
    ensures
        map_of(entries).contains_key(entries[i].0),
        map_of(entries)[entries[i].0] == entries[i].1,
{
    let key = entries[i].0;
    assert(has_key(entries, key));
    let j = choose|j: int| 0 <= j < entries.len() && (#[trigger] entries[j]).0 == key;
    assert(entries[j].0 == key);
}

/// The map has one key for each entry.
pub proof fn lemma_len<K, V>(entries: Seq<(K, V)>)
    requires
        distinct(entries),
    ensures
        map_of(entries).dom().finite(),
        map_of(entries).len() == entries.len(),
        lists_values(entries.map_values(|entry: (K, V)| entry.1), map_of(entries)),
{
    let keys = entries.map_values(|entry: (K, V)| entry.0);
    let values = entries.map_values(|entry: (K, V)| entry.1);
    assert(keys.no_duplicates());
    keys.unique_seq_to_set();
    assert(keys.to_set() =~= map_of(entries).dom()) by {
        assert forall|key: K| has_key(entries, key) implies keys.contains(key) by {
            let i = choose|i: int| 0 <= i < entries.len() && (#[trigger] entries[i]).0 == key;
            assert(keys[i] == key);
        }
        assert forall|key: K| keys.contains(key) implies has_key(entries, key) by {
            let i = choose|i: int| 0 <= i < keys.len() && keys[i] == key;
            assert(entries[i].0 == key);
        }
    }
    vstd::seq_lib::seq_to_set_is_finite(keys);
    assert forall|i: int| 0 <= i < keys.len() implies #[trigger] values[i] == map_of(
        entries,
    )[keys[i]] by {
        lemma_entry(entries, i);
    }
    assert(lists_values_of(values, map_of(entries), keys));
}

/// A new entry at the end adds its key to the map.
pub proof fn lemma_push<K, V>(entries: Seq<(K, V)>, key: K, value: V)
    requires
        distinct(entries),
        !has_key(entries, key),
    ensures
        distinct(entries.push((key, value))),
        map_of(entries.push((key, value))) == map_of(entries).insert(key, value),
{
    let pushed = entries.push((key, value));
    assert(distinct(pushed)) by {
        assert forall|i: int, j: int| 0 <= i < j < pushed.len() implies pushed[i].0
            != pushed[j].0 by {
            assert(pushed[i] == entries[i]);
            if j < entries.len() {
                assert(pushed[j] == entries[j]);
            }
        }
    }
    assert forall|k: K| #[trigger]
        map_of(pushed).contains_key(k) <==> map_of(entries).insert(key, value).contains_key(k) by {
        if has_key(entries, k) {
            let i = choose|i: int| 0 <= i < entries.len() && (#[trigger] entries[i]).0 == k;
            assert(pushed[i].0 == k);
        }
        assert(pushed[entries.len() as int].0 == key);
        if has_key(pushed, k) && k != key {
            let i = choose|i: int| 0 <= i < pushed.len() && (#[trigger] pushed[i]).0 == k;
            assert(entries[i].0 == k);
        }
    }
    assert forall|k: K| #[trigger] map_of(pushed).contains_key(k) implies map_of(pushed)[k]
        == map_of(entries).insert(key, value)[k] by {
        let i = choose|i: int| 0 <= i < pushed.len() && (#[trigger] pushed[i]).0 == k;
        lemma_entry(pushed, i);
        if i < entries.len() {
            assert(pushed[i] == entries[i]);
            lemma_entry(entries, i);
        }
    }
    assert(map_of(pushed) =~= map_of(entries).insert(key, value));
}

/// A new value in an entry changes the value of its key, and nothing else.
pub proof fn lemma_update<K, V>(entries: Seq<(K, V)>, at: int, value: V)
    requires
        distinct(entries),
        0 <= at < entries.len(),
    ensures
        distinct(entries.update(at, (entries[at].0, value))),
        map_of(entries.update(at, (entries[at].0, value))) == map_of(entries).insert(
            entries[at].0,
            value,
        ),
{
    let key = entries[at].0;
    let updated = entries.update(at, (key, value));
    assert forall|i: int| 0 <= i < entries.len() implies (#[trigger] updated[i]).0
        == entries[i].0 by {}
    assert(distinct(updated));
    assert forall|k: K| #[trigger]
        map_of(updated).contains_key(k) <==> map_of(entries).insert(key, value).contains_key(k) by {
        if has_key(entries, k) {
            let i = choose|i: int| 0 <= i < entries.len() && (#[trigger] entries[i]).0 == k;
            assert(updated[i].0 == k);
        }
        assert(updated[at].0 == key);
        if has_key(updated, k) {
            let i = choose|i: int| 0 <= i < updated.len() && (#[trigger] updated[i]).0 == k;
            assert(entries[i].0 == k);
        }
    }
    assert forall|k: K| #[trigger] map_of(updated).contains_key(k) implies map_of(updated)[k]
        == map_of(entries).insert(key, value)[k] by {
        let i = choose|i: int| 0 <= i < updated.len() && (#[trigger] updated[i]).0 == k;
        lemma_entry(updated, i);
        lemma_entry(entries, i);
    }
    assert(map_of(updated) =~= map_of(entries).insert(key, value));
}

/// Entries with the same keys, and with values that are a function of the
/// values before, give the map with those values.
pub proof fn lemma_map_values<K, V, W>(
    entries: Seq<(K, V)>,
    mapped: Seq<(K, W)>,
    value: spec_fn(V) -> W,
)
    requires
        distinct(entries),
        mapped.len() == entries.len(),
        forall|i: int|
            0 <= i < entries.len() ==> (#[trigger] mapped[i]).0 == entries[i].0 && mapped[i].1
                == value(entries[i].1),
    ensures
        distinct(mapped),
        map_of(mapped) == map_of(entries).map_values(value),
{
    assert(distinct(mapped));
    assert forall|k: K| #[trigger]
        map_of(mapped).contains_key(k) <==> map_of(entries).contains_key(k) by {
        if has_key(entries, k) {
            let i = choose|i: int| 0 <= i < entries.len() && (#[trigger] entries[i]).0 == k;
            assert(mapped[i].0 == k);
        }
        if has_key(mapped, k) {
            let i = choose|i: int| 0 <= i < mapped.len() && (#[trigger] mapped[i]).0 == k;
            assert(entries[i].0 == k);
        }
    }
    assert forall|k: K| #[trigger] map_of(mapped).contains_key(k) implies map_of(mapped)[k]
        == map_of(entries).map_values(value)[k] by {
        let i = choose|i: int| 0 <= i < mapped.len() && (#[trigger] mapped[i]).0 == k;
        lemma_entry(mapped, i);
        lemma_entry(entries, i);
    }
    assert(map_of(mapped) =~= map_of(entries).map_values(value));
}

/// A listing of the values of a map holds one value for each key.
pub proof fn law_listing<K, V>(values: Seq<V>, map: Map<K, V>)
    requires
        lists_values(values, map),
    ensures
        map.dom().finite(),
        values.len() == map.len(),
        forall|key: K| #[trigger] map.contains_key(key) ==> values.contains(map[key]),
        forall|i: int| 0 <= i < values.len() ==> map.values().contains(#[trigger] values[i]),
{
    let keys = choose|keys: Seq<K>| lists_values_of(values, map, keys);
    keys.unique_seq_to_set();
    vstd::seq_lib::seq_to_set_is_finite(keys);
    assert forall|key: K| #[trigger] map.contains_key(key) implies values.contains(map[key]) by {
        assert(keys.to_set().contains(key));
        let i = choose|i: int| 0 <= i < keys.len() && keys[i] == key;
        assert(values[i] == map[key]);
    }
    assert forall|i: int| 0 <= i < values.len() implies map.values().contains(
        #[trigger] values[i],
    ) by {
        assert(keys.to_set().contains(keys[i]));
        assert(map.contains_key(keys[i]) && map[keys[i]] == values[i]);
    }
}

} // verus!
