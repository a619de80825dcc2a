use vstd::prelude::*;

verus! {

/// The keys of `entries`, in order.
pub open spec fn keys_of<K, T>(entries: Seq<(K, T)>) -> Seq<K> {
    entries.map_values(|entry: (K, T)| entry.0)
}

/// Whether some entry has key `key`.
pub open spec fn has_key<K, T>(entries: Seq<(K, T)>, key: K) -> bool {
    exists|i: int| 0 <= i < entries.len() && #[trigger] entries[i].0 == key
}

/// A position of `key` among the entries (meaningful when it is there).
pub open spec fn key_position<K, T>(entries: Seq<(K, T)>, key: K) -> int {
    choose|i: int| 0 <= i < entries.len() && #[trigger] entries[i].0 == key
}

/// The map that entries with distinct keys describe.
pub open spec fn keyed_map<K, T>(entries: Seq<(K, T)>) -> Map<K, T> {
    Map::new(|key: K| has_key(entries, key), |key: K| entries[key_position(entries, key)].1)
}

pub open spec fn distinct_keys<K, T>(entries: Seq<(K, T)>) -> bool {
    forall|i: int, j: int| 0 <= i < entries.len() && 0 <= j < entries.len() && i != j ==> #[trigger] entries[i].0 != #[trigger] entries[j].0
}

pub proof fn lemma_key_position<K, T>(entries: Seq<(K, T)>, i: int)
    requires
        distinct_keys(entries),
        0 <= i < entries.len(),
    ensures
        has_key(entries, entries[i].0),
        key_position(entries, entries[i].0) == i,
        keyed_map(entries)[entries[i].0] == entries[i].1,
{
    assert(entries[i].0 == entries[i].0);
    let p = key_position(entries, entries[i].0);
    if p != i {
        assert(entries[p].0 != entries[i].0);
    }
}

/// Pushing an entry with a new key adds that key to the map.
pub proof fn lemma_keyed_push<K, T>(entries: Seq<(K, T)>, key: K, value: T)
    requires
        distinct_keys(entries),
        !has_key(entries, key),
    ensures
        distinct_keys(entries.push((key, value))),
        keyed_map(entries.push((key, value))) == keyed_map(entries).insert(key, value),
{
    let new = entries.push((key, value));
    assert forall|i: int, j: int| 0 <= i < new.len() && 0 <= j < new.len() && i != j implies #[trigger] new[i].0 != #[trigger] new[j].0 by {
        if i < entries.len() && j < entries.len() {
            assert(new[i] == entries[i] && new[j] == entries[j]);
        } else if i < entries.len() {
            assert(new[i] == entries[i]);
        } else {
            assert(new[j] == entries[j]);
        }
    }
    assert forall|k: K| #[trigger] has_key(new, k) == (has_key(entries, k) || k == key) by {
        if has_key(entries, k) {
            let i = choose|i: int| 0 <= i < entries.len() && #[trigger] entries[i].0 == k;
            assert(new[i].0 == k);
        }
        if k == key {
            assert(new[entries.len() as int].0 == k);
        }
        if has_key(new, k) && k != key {
            let i = choose|i: int| 0 <= i < new.len() && #[trigger] new[i].0 == k;
            assert(entries[i].0 == k);
        }
    }
    assert forall|k: K| #[trigger] has_key(new, k) implies keyed_map(new)[k] == keyed_map(entries).insert(key, value)[k] by {
        if k == key {
            lemma_key_position(new, entries.len() as int);
        } else {
            let i = key_position(entries, k);
            lemma_key_position(entries, i);
            assert(new[i] == entries[i]);
            lemma_key_position(new, i);
        }
    }
    assert(keyed_map(new) =~= keyed_map(entries).insert(key, value));
}

/// Replacing the value at position `i` replaces the value of its key.
pub proof fn lemma_keyed_update<K, T>(entries: Seq<(K, T)>, i: int, value: T)
    requires
        distinct_keys(entries),
        0 <= i < entries.len(),
    ensures
        distinct_keys(entries.update(i, (entries[i].0, value))),
        keyed_map(entries.update(i, (entries[i].0, value))) == keyed_map(entries).insert(entries[i].0, value),
{
    let key = entries[i].0;
    let new = entries.update(i, (key, value));
    assert forall|a: int, b: int| 0 <= a < new.len() && 0 <= b < new.len() && a != b implies #[trigger] new[a].0 != #[trigger] new[b].0 by {
        assert(new[a].0 == entries[a].0);
        assert(new[b].0 == entries[b].0);
    }
    assert forall|k: K| #[trigger] has_key(new, k) == has_key(entries, k) by {
        if has_key(entries, k) {
            let j = choose|j: int| 0 <= j < entries.len() && #[trigger] entries[j].0 == k;
            assert(new[j].0 == k);
        }
        if has_key(new, k) {
            let j = choose|j: int| 0 <= j < new.len() && #[trigger] new[j].0 == k;
            assert(entries[j].0 == k);
        }
    }
    assert forall|k: K| #[trigger] has_key(new, k) implies keyed_map(new)[k] == keyed_map(entries).insert(key, value)[k] by {
        let j = key_position(entries, k);
        lemma_key_position(entries, j);
        assert(new[j].0 == k);
        lemma_key_position(new, j);
    }
    lemma_key_position(entries, i);
    assert(keyed_map(new) =~= keyed_map(entries).insert(key, value));
}

/// Swap-removing the entry at position `i` removes its key from the map.
pub proof fn lemma_keyed_swap_remove<K, T>(entries: Seq<(K, T)>, i: int)
    requires
        distinct_keys(entries),
        0 <= i < entries.len(),
    ensures
        distinct_keys(entries.update(i, entries.last()).drop_last()),
        keyed_map(entries.update(i, entries.last()).drop_last()) == keyed_map(entries).remove(entries[i].0),
{
    let key = entries[i].0;
    let n = entries.len() - 1;
    let new = entries.update(i, entries.last()).drop_last();
    // each entry of `new` sits at some position of `entries` other than `i`
    assert forall|a: int| 0 <= a < new.len() implies #[trigger] new[a] == entries[if a == i { n } else { a }] by {}
    assert forall|a: int, b: int| 0 <= a < new.len() && 0 <= b < new.len() && a != b implies #[trigger] new[a].0 != #[trigger] new[b].0 by {
        let oa = if a == i { n } else { a };
        let ob = if b == i { n } else { b };
        assert(new[a] == entries[oa]);
        assert(new[b] == entries[ob]);
    }
    assert forall|k: K| #[trigger] has_key(new, k) == (has_key(entries, k) && k != key) by {
        if has_key(entries, k) && k != key {
            let j = choose|j: int| 0 <= j < entries.len() && #[trigger] entries[j].0 == k;
            assert(j != i);
            if j == n {
                assert(new[i].0 == k);
            } else {
                assert(new[j].0 == k);
            }
        }
        if has_key(new, k) {
            let j = choose|j: int| 0 <= j < new.len() && #[trigger] new[j].0 == k;
            let oj = if j == i { n } else { j };
            assert(entries[oj].0 == k);
            assert(oj != i);
        }
    }
    assert forall|k: K| #[trigger] has_key(new, k) implies keyed_map(new)[k] == keyed_map(entries)[k] by {
        let j = key_position(new, k);
        assert(new[j].0 == k);
        let oj = if j == i { n } else { j };
        assert(new[j] == entries[oj]);
        lemma_key_position(entries, oj);
    }
    assert(keyed_map(new) =~= keyed_map(entries).remove(key));
}

/// Entries with distinct keys describe a finite map with one key per entry.
pub proof fn lemma_keyed_len<K, T>(entries: Seq<(K, T)>)
    requires
        distinct_keys(entries),
    ensures
        keyed_map(entries).dom().finite(),
        keyed_map(entries).dom().len() == entries.len(),
{
    let keys = keys_of(entries);
    assert(keys.no_duplicates()) by {
        assert forall|i: int, j: int| 0 <= i < keys.len() && 0 <= j < keys.len() && i != j implies keys[i] != keys[j] by {
            assert(entries[i].0 != entries[j].0);
        }
    }
    keys.unique_seq_to_set();
    assert forall|k: K| #[trigger] keyed_map(entries).dom().contains(k) == keys.to_set().contains(k) by {
        if has_key(entries, k) {
            let i = choose|i: int| 0 <= i < entries.len() && #[trigger] entries[i].0 == k;
            assert(keys[i] == k);
        }
        if keys.contains(k) {
            let i = choose|i: int| 0 <= i < keys.len() && keys[i] == k;
            assert(entries[i].0 == k);
        }
    }
    assert(keyed_map(entries).dom() =~= keys.to_set());
    vstd::seq_lib::seq_to_set_is_finite(keys);
}

} // verus!
