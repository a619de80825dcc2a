use vstd::prelude::*;

use crate::ecs::component::{registered, ComponentId, ComponentInfo, ComponentRegistry};
use crate::ecs::entity::{Entity, EntitySlot};
use crate::ecs::storage::table::archetype::{key_ids, orders_distinct, sorted_by_order, lemma_sorted_unique};
use crate::ecs::storage::table::chunk::{first_index, lookup, pair_ids};
use crate::ecs::storage::table::storage::{inserted, lemma_inserted_frame, lemma_removed_storage_frame, StorageView, TableEntityLocation};
use crate::ecs::storage::table::value::TableComponentKey;

verus! {

broadcast use {vstd::seq_lib::group_to_multiset_ensures, vstd::multiset::group_multiset_axioms};

/// Number of present entries.
pub open spec fn some_count<T>(s: Seq<Option<T>>) -> nat
    decreases s.len(),
{
    if s.len() == 0 {
        0
    } else {
        some_count(s.drop_last()) + if s.last() is Some {
            1nat
        } else {
            0nat
        }
    }
}

pub proof fn lemma_some_count_update<T>(s: Seq<Option<T>>, i: int, x: Option<T>)
    requires
        0 <= i < s.len(),
    ensures
        some_count(s.update(i, x)) + (if s[i] is Some {
            1int
        } else {
            0int
        }) == some_count(s) + (if x is Some {
            1int
        } else {
            0int
        }),
    decreases s.len(),
{
    if i == s.len() - 1 {
        assert(s.update(i, x).drop_last() =~= s.drop_last());
    } else {
        lemma_some_count_update(s.drop_last(), i, x);
        assert(s.update(i, x).drop_last() =~= s.drop_last().update(i, x));
    }
}

pub proof fn lemma_some_count_bound<T>(s: Seq<Option<T>>)
    ensures
        some_count(s) <= s.len(),
        some_count(s) == s.len() ==> forall|i: int| 0 <= i < s.len() ==> #[trigger] s[i] is Some,
    decreases s.len(),
{
    if s.len() > 0 {
        lemma_some_count_bound(s.drop_last());
        if some_count(s) == s.len() {
            assert forall|i: int| 0 <= i < s.len() implies #[trigger] s[i] is Some by {
                if i < s.len() - 1 {
                    assert(s.drop_last()[i] == s[i]);
                }
            }
        }
    }
}

pub proof fn lemma_some_count_same<T, U>(s: Seq<Option<T>>, t: Seq<Option<U>>)
    requires
        s.len() == t.len(),
        forall|i: int| 0 <= i < s.len() ==> (#[trigger] s[i] is Some) == (t[i] is Some),
    ensures
        some_count(s) == some_count(t),
    decreases s.len(),
{
    if s.len() > 0 {
        assert forall|i: int| 0 <= i < s.len() - 1 implies (#[trigger] s.drop_last()[i] is Some) == (t.drop_last()[i] is Some) by {
            assert(s.drop_last()[i] == s[i]);
            assert(t.drop_last()[i] == t[i]);
        }
        lemma_some_count_same(s.drop_last(), t.drop_last());
        assert(s.last() == s[s.len() - 1]);
        assert(t.last() == t[t.len() - 1]);
    }
}

/// Two sorted key sequences whose keys carry the orders of `infos` and that name the
/// same component types are the same sequence.
pub proof fn lemma_same_ids_same_keys(s1: Seq<TableComponentKey>, s2: Seq<TableComponentKey>, infos: Seq<ComponentInfo>)
    requires
        sorted_by_order(s1),
        sorted_by_order(s2),
        orders_distinct(s1),
        orders_distinct(s2),
        key_ids(s1).no_duplicates(),
        key_ids(s2).no_duplicates(),
        forall|k: int| 0 <= k < s1.len() ==> ComponentRegistry::order_in(infos, #[trigger] s1[k].id) == Some(s1[k].order),
        forall|k: int| 0 <= k < s2.len() ==> ComponentRegistry::order_in(infos, #[trigger] s2[k].id) == Some(s2[k].order),
        key_ids(s1).to_set() == key_ids(s2).to_set(),
    ensures
        s1 == s2,
{
    broadcast use vstd::seq_lib::group_to_multiset_ensures;

    assert forall|x: TableComponentKey| s1.contains(x) implies s2.contains(x) by {
        let i = choose|i: int| 0 <= i < s1.len() && s1[i] == x;
        assert(key_ids(s1)[i] == x.id);
        assert(key_ids(s1).to_set().contains(x.id));
        assert(key_ids(s2).contains(x.id));
        let j = choose|j: int| 0 <= j < key_ids(s2).len() && key_ids(s2)[j] == x.id;
        assert(s2[j].id == x.id);
        assert(s2[j].order == x.order);
        assert(s2[j] == x);
    }
    assert forall|x: TableComponentKey| s2.contains(x) implies s1.contains(x) by {
        let i = choose|i: int| 0 <= i < s2.len() && s2[i] == x;
        assert(key_ids(s2)[i] == x.id);
        assert(key_ids(s2).to_set().contains(x.id));
        assert(key_ids(s1).contains(x.id));
        let j = choose|j: int| 0 <= j < key_ids(s1).len() && key_ids(s1)[j] == x.id;
        assert(s1[j].id == x.id);
        assert(s1[j].order == x.order);
        assert(s1[j] == x);
    }
    assert(s1.no_duplicates()) by {
        assert forall|i: int, j: int| 0 <= i < s1.len() && 0 <= j < s1.len() && i != j implies s1[i] != s1[j] by {
            assert(key_ids(s1)[i] != key_ids(s1)[j]);
        }
    }
    assert(s2.no_duplicates()) by {
        assert forall|i: int, j: int| 0 <= i < s2.len() && 0 <= j < s2.len() && i != j implies s2[i] != s2[j] by {
            assert(key_ids(s2)[i] != key_ids(s2)[j]);
        }
    }
    s1.lemma_multiset_has_no_duplicates();
    s2.lemma_multiset_has_no_duplicates();
    assert forall|x: TableComponentKey| s1.to_multiset().count(x) == s2.to_multiset().count(x) by {
        if s1.contains(x) {
            assert(s1.to_multiset().contains(x));
            assert(s2.to_multiset().contains(x));
        } else {
            assert(!s2.contains(x));
        }
    }
    assert(s1.to_multiset() =~= s2.to_multiset());
    lemma_sorted_unique(s1, s2);
}

/// The components that pairs with distinct ids describe.
pub open spec fn pairs_map<V>(pairs: Seq<(ComponentId, V)>) -> Map<ComponentId, V> {
    Map::new(|id: ComponentId| pair_ids(pairs).contains(id), |id: ComponentId| lookup(pairs, id))
}

/// The components of the row at `location`: one per column of its archetype.
pub open spec fn component_map<V>(storage: StorageView<V>, location: TableEntityLocation) -> Map<ComponentId, V> {
    Map::new(
        |id: ComponentId| storage.ids_at(location).contains(id),
        |id: ComponentId| storage.row_at(location)[first_index(storage.ids_at(location), id)],
    )
}

/// `archetypes` with the component set `set` added unless it is already there.
pub open spec fn with_archetype(archetypes: Seq<Set<ComponentId>>, set: Set<ComponentId>) -> Seq<Set<ComponentId>> {
    if archetypes.contains(set) {
        archetypes
    } else {
        archetypes.push(set)
    }
}

/// The component sets of the archetypes of `storage`, in creation order.
pub open spec fn archetype_sets<V>(storage: StorageView<V>) -> Seq<Set<ComponentId>> {
    Seq::new(storage.archetypes.len(), |a: int| key_ids(storage.archetypes[a].keys).to_set())
}

/// For each entity slot, the components of its row, if it has one.
pub open spec fn row_maps<V>(storage: StorageView<V>, locations: Seq<Option<TableEntityLocation>>) -> Seq<Option<Map<ComponentId, V>>> {
    Seq::new(
        locations.len(),
        |i: int| match locations[i] {
            Some(location) => Some(component_map(storage, location)),
            None => None,
        },
    )
}

/// Every key of every archetype carries the order that `infos` gives its component type.
pub open spec fn keys_registered<V>(storage: StorageView<V>, infos: Seq<ComponentInfo>) -> bool {
    forall|a: int, k: int| 0 <= a < storage.archetypes.len() && 0 <= k < storage.archetypes[a].keys.len()
        ==> ComponentRegistry::order_in(infos, #[trigger] storage.archetypes[a].keys[k].id) == Some(storage.archetypes[a].keys[k].order)
}

/// The row index agrees with the storage: one entry per entity slot; each present entry
/// belongs to an alive entity and names a stored row of exactly that entity; every
/// stored row is named by the entry of its entity; and the storage holds as many rows as
/// there are present entries.
pub open spec fn rows_tracked<V>(storage: StorageView<V>, slots: Seq<EntitySlot>, locations: Seq<Option<TableEntityLocation>>) -> bool {
    &&& locations.len() == slots.len()
    &&& locations.len() <= u32::MAX as nat + 1
    &&& forall|i: int| 0 <= i < locations.len() && (#[trigger] locations[i]) is Some ==> {
        &&& slots[i].alive
        &&& storage.valid(locations[i]->0)
        &&& storage.entity_at(locations[i]->0) == Entity { index: i as u32, generation: slots[i].generation }
    }
    &&& forall|l: TableEntityLocation| #[trigger] storage.valid(l) ==> {
        &&& storage.entity_at(l).index < locations.len()
        &&& locations[storage.entity_at(l).index as int] == Some(l)
    }
    &&& storage.len == some_count(locations)
}

/// The index after the row of slot `i`, at `location`, is swap-removed: slot `i` has no
/// row, and the entity whose row moved into `location` (if any) is found there.
pub open spec fn index_after_removal<V>(
    storage: StorageView<V>,
    locations: Seq<Option<TableEntityLocation>>,
    i: int,
    location: TableEntityLocation,
) -> Seq<Option<TableEntityLocation>> {
    let cleared = locations.update(i, None);
    match storage.moved_by_removal(location) {
        Some(moved) => cleared.update(moved.index as int, Some(location)),
        None => cleared,
    }
}

/// Swap-removing the row of slot `i` keeps the index in agreement (once it is updated
/// as `index_after_removal` says) and leaves every other entity's components and every
/// archetype as they were.
pub proof fn lemma_row_removed<V>(
    storage: StorageView<V>,
    slots: Seq<EntitySlot>,
    locations: Seq<Option<TableEntityLocation>>,
    i: int,
    location: TableEntityLocation,
)
    requires
        storage.wf(),
        rows_tracked(storage, slots, locations),
        0 <= i < locations.len(),
        locations[i] == Some(location),
    ensures
        ({
            let new = storage.removed(location);
            let index = index_after_removal(storage, locations, i, location);
            &&& rows_tracked(new, slots, index)
            &&& index.len() == locations.len()
            &&& index[i] is None
            &&& forall|x: int| 0 <= x < locations.len() && x != i ==> (#[trigger] index[x] is Some) == (locations[x] is Some)
            &&& forall|x: int| 0 <= x < locations.len() && x != i && (#[trigger] index[x]) is Some
                ==> component_map(new, index[x]->0) == component_map(storage, locations[x]->0)
            &&& archetype_sets(new) == archetype_sets(storage)
            &&& forall|infos: Seq<ComponentInfo>| keys_registered(storage, infos) ==> #[trigger] keys_registered(new, infos)
        }),
{
    let new = storage.removed(location);
    let index = index_after_removal(storage, locations, i, location);
    let last = storage.last_of(location);
    lemma_removed_storage_frame(storage, location);
    let m = storage.entity_at(last).index as int;
    let cleared = locations.update(i, None);
    lemma_some_count_update(locations, i, None);
    assert(locations[m] == Some(last));
    if location != last {
        assert(m != i);
        assert(index == cleared.update(m, Some(location)));
        lemma_some_count_update(cleared, m, Some(location));
    } else {
        assert(index == cleared);
    }
    assert forall|x: int| 0 <= x < index.len() && (#[trigger] index[x]) is Some implies {
        &&& slots[x].alive
        &&& new.valid(index[x]->0)
        &&& new.entity_at(index[x]->0) == Entity { index: x as u32, generation: slots[x].generation }
    } by {
        if x != m || location == last {
            assert(index[x] == locations[x]);
            let l = locations[x]->0;
            assert(storage.valid(l));
            assert(l != location);
            if l == last {
                assert(locations[m] == Some(last));
            }
        }
    }
    assert forall|l: TableEntityLocation| #[trigger] new.valid(l) implies {
        &&& new.entity_at(l).index < index.len()
        &&& index[new.entity_at(l).index as int] == Some(l)
    } by {
        assert(storage.valid(l));
        if l != location {
            let x = storage.entity_at(l).index as int;
            assert(locations[x] == Some(l));
            assert(x != i);
            if location != last {
                assert(x != m) by {
                    if x == m {
                        assert(locations[m] == Some(last));
                    }
                }
            }
        }
    }
    assert forall|x: int| 0 <= x < locations.len() && x != i && (#[trigger] index[x]) is Some
        implies component_map(new, index[x]->0) == component_map(storage, locations[x]->0) by {
        if location != last && x == m {
            assert(component_map(new, location) =~= component_map(storage, last));
        } else {
            let l = locations[x]->0;
            assert(index[x] == locations[x]);
            assert(storage.valid(l));
            assert(l != location);
            if l == last {
                assert(locations[m] == Some(last));
            }
            assert(component_map(new, l) =~= component_map(storage, l));
        }
    }
    assert(archetype_sets(new) =~= archetype_sets(storage)) by {
        assert forall|b: int| 0 <= b < new.archetypes.len() implies new.archetypes[b].keys == storage.archetypes[b].keys by {}
    }
    assert forall|infos: Seq<ComponentInfo>| keys_registered(storage, infos) implies #[trigger] keys_registered(new, infos) by {
        assert forall|a: int, k: int| 0 <= a < new.archetypes.len() && 0 <= k < new.archetypes[a].keys.len()
            implies ComponentRegistry::order_in(infos, #[trigger] new.archetypes[a].keys[k].id) == Some(new.archetypes[a].keys[k].order) by {
            assert(new.archetypes[a].keys == storage.archetypes[a].keys);
        }
    }
}

/// The components described by one key per component type and a value per key.
pub open spec fn keyed_map<V>(keys: Seq<TableComponentKey>, pairs: Seq<(ComponentId, V)>) -> Map<ComponentId, V> {
    Map::new(|id: ComponentId| key_ids(keys).contains(id), |id: ComponentId| lookup(pairs, id))
}

/// Adding a row for the entity of slot `i` (which had none) keeps the index in agreement
/// once the slot names the new row, leaves every other entity's components as they were,
/// and gives the entity the components of `keys` with the values of `pairs`.
pub proof fn lemma_row_inserted<V>(
    old: StorageView<V>,
    new: StorageView<V>,
    slots: Seq<EntitySlot>,
    locations: Seq<Option<TableEntityLocation>>,
    i: int,
    pairs: Seq<(ComponentId, V)>,
    keys: Seq<TableComponentKey>,
    location: TableEntityLocation,
)
    requires
        old.wf(),
        new.wf(),
        rows_tracked(old, slots, locations),
        0 <= i < locations.len(),
        i <= u32::MAX,
        locations[i] is None,
        slots[i].alive,
        inserted(old, new, Entity { index: i as u32, generation: slots[i].generation }, pairs, keys, location),
    ensures
        rows_tracked(new, slots, locations.update(i, Some(location))),
        forall|x: int| 0 <= x < locations.len() && x != i && (#[trigger] locations[x]) is Some
            ==> component_map(new, locations[x]->0) == component_map(old, locations[x]->0),
        component_map(new, location) == keyed_map(keys, pairs),
{
    let entity = Entity { index: i as u32, generation: slots[i].generation };
    let index = locations.update(i, Some(location));
    lemma_inserted_frame(old, new, entity, pairs, keys, location);
    lemma_some_count_update(locations, i, Some(location));
    assert forall|x: int| 0 <= x < index.len() && (#[trigger] index[x]) is Some implies {
        &&& slots[x].alive
        &&& new.valid(index[x]->0)
        &&& new.entity_at(index[x]->0) == Entity { index: x as u32, generation: slots[x].generation }
    } by {
        if x != i {
            assert(index[x] == locations[x]);
            assert(old.valid(locations[x]->0));
        }
    }
    assert forall|l: TableEntityLocation| #[trigger] new.valid(l) implies {
        &&& new.entity_at(l).index < index.len()
        &&& index[new.entity_at(l).index as int] == Some(l)
    } by {
        if l != location {
            assert(old.valid(l));
            let x = old.entity_at(l).index as int;
            assert(locations[x] == Some(l));
            assert(x != i);
        }
    }
    assert forall|x: int| 0 <= x < locations.len() && x != i && (#[trigger] locations[x]) is Some
        implies component_map(new, locations[x]->0) == component_map(old, locations[x]->0) by {
        let l = locations[x]->0;
        assert(old.valid(l));
        assert(component_map(new, l) =~= component_map(old, l));
    }
    let a = location.archetype as int;
    let sorted = new.archetypes[a].keys;
    assert(new.archetypes[a].wf());
    assert(component_map(new, location) =~= keyed_map(keys, pairs)) by {
        assert forall|id: ComponentId| #[trigger] key_ids(sorted).contains(id) == key_ids(keys).contains(id) by {
            if key_ids(sorted).contains(id) {
                let k = choose|k: int| 0 <= k < key_ids(sorted).len() && key_ids(sorted)[k] == id;
                assert(sorted.to_multiset().count(sorted[k]) > 0);
                assert(keys.contains(sorted[k]));
                let j = choose|j: int| 0 <= j < keys.len() && keys[j] == sorted[k];
                assert(key_ids(keys)[j] == id);
            }
            if key_ids(keys).contains(id) {
                let j = choose|j: int| 0 <= j < key_ids(keys).len() && key_ids(keys)[j] == id;
                assert(keys.to_multiset().count(keys[j]) > 0);
                assert(sorted.contains(keys[j]));
                let k = choose|k: int| 0 <= k < sorted.len() && sorted[k] == keys[j];
                assert(key_ids(sorted)[k] == id);
            }
        }
        assert forall|id: ComponentId| #[trigger] keyed_map(keys, pairs).dom().contains(id)
            implies component_map(new, location)[id] == keyed_map(keys, pairs)[id] by {
            assert(key_ids(sorted).contains(id));
            let k = choose|k: int| 0 <= k < key_ids(sorted).len() && key_ids(sorted)[k] == id;
            crate::ecs::storage::table::chunk::lemma_first_index_distinct(key_ids(sorted), k);
        }
    }
}

/// An insertion adds the component set of `keys` to the archetype sets unless it is
/// already there, and keeps every key's registered order.
pub proof fn lemma_archetypes_inserted<V>(
    old: StorageView<V>,
    new: StorageView<V>,
    entity: Entity,
    pairs: Seq<(ComponentId, V)>,
    keys: Seq<TableComponentKey>,
    location: TableEntityLocation,
    infos: Seq<ComponentInfo>,
)
    requires
        old.wf(),
        new.wf(),
        inserted(old, new, entity, pairs, keys, location),
        keys_registered(old, infos),
        forall|k: int| 0 <= k < keys.len() ==> ComponentRegistry::order_in(infos, #[trigger] keys[k].id) == Some(keys[k].order),
    ensures
        keys_registered(new, infos),
        archetype_sets(new) == with_archetype(archetype_sets(old), key_ids(keys).to_set()),
{
    let a = location.archetype as int;
    let sorted = new.archetypes[a].keys;
    let set = key_ids(keys).to_set();
    assert forall|k: int| 0 <= k < sorted.len() implies ComponentRegistry::order_in(infos, #[trigger] sorted[k].id) == Some(sorted[k].order) by {
        assert(sorted.to_multiset().count(sorted[k]) > 0);
        assert(keys.contains(sorted[k]));
    }
    assert forall|b: int, k: int| 0 <= b < new.archetypes.len() && 0 <= k < new.archetypes[b].keys.len()
        implies ComponentRegistry::order_in(infos, #[trigger] new.archetypes[b].keys[k].id) == Some(new.archetypes[b].keys[k].order) by {
        if b != a {
            assert(new.archetypes[b] == old.archetypes[b]);
        } else {
            assert(new.archetypes[b].keys[k] == sorted[k]);
        }
    }
    assert(key_ids(sorted).to_set() =~= set) by {
        assert forall|id: ComponentId| #[trigger] key_ids(sorted).contains(id) == key_ids(keys).contains(id) by {
            if key_ids(sorted).contains(id) {
                let k = choose|k: int| 0 <= k < key_ids(sorted).len() && key_ids(sorted)[k] == id;
                assert(sorted.to_multiset().count(sorted[k]) > 0);
                assert(keys.contains(sorted[k]));
                let j = choose|j: int| 0 <= j < keys.len() && keys[j] == sorted[k];
                assert(key_ids(keys)[j] == id);
            }
            if key_ids(keys).contains(id) {
                let j = choose|j: int| 0 <= j < key_ids(keys).len() && key_ids(keys)[j] == id;
                assert(keys.to_multiset().count(keys[j]) > 0);
                assert(sorted.contains(keys[j]));
                let k = choose|k: int| 0 <= k < sorted.len() && sorted[k] == keys[j];
                assert(key_ids(sorted)[k] == id);
            }
        }
    }
    let old_sets = archetype_sets(old);
    let new_sets = archetype_sets(new);
    if a < old.archetypes.len() {
        assert(old_sets[a] == set);
        assert(old_sets.contains(set));
        assert forall|b: int| 0 <= b < new_sets.len() implies new_sets[b] == old_sets[b] by {
            if b != a {
                assert(new.archetypes[b] == old.archetypes[b]);
            }
        }
        assert(new_sets =~= old_sets);
    } else {
        assert(!old_sets.contains(set)) by {
            if old_sets.contains(set) {
                let b = choose|b: int| 0 <= b < old_sets.len() && old_sets[b] == set;
                let other = old.archetypes[b].keys;
                assert(old.archetypes[b].wf());
                assert(new.archetypes[a].wf());
                assert forall|k: int| 0 <= k < other.len() implies ComponentRegistry::order_in(infos, #[trigger] other[k].id) == Some(other[k].order) by {}
                lemma_same_ids_same_keys(other, sorted, infos);
            }
        }
        assert forall|b: int| 0 <= b < old_sets.len() implies new_sets[b] == old_sets[b] by {
            assert(new.archetypes[b] == old.archetypes[b]);
        }
        assert(new_sets =~= old_sets.push(set));
    }
}

/// Replacing one value in the row at `location` keeps the index in agreement, changes
/// that entity's component `id` only, and keeps every archetype.
pub proof fn lemma_value_replaced<V>(
    storage: StorageView<V>,
    slots: Seq<EntitySlot>,
    locations: Seq<Option<TableEntityLocation>>,
    location: TableEntityLocation,
    id: ComponentId,
    value: V,
)
    requires
        storage.wf(),
        rows_tracked(storage, slots, locations),
        storage.valid(location),
        storage.ids_at(location).contains(id),
    ensures
        ({
            let new = storage.with_value(location, id, value);
            &&& rows_tracked(new, slots, locations)
            &&& archetype_sets(new) == archetype_sets(storage)
            &&& forall|infos: Seq<ComponentInfo>| keys_registered(storage, infos) ==> #[trigger] keys_registered(new, infos)
            &&& forall|l: TableEntityLocation| #[trigger] storage.valid(l) && l != location ==> component_map(new, l) == component_map(storage, l)
            &&& component_map(new, location) == component_map(storage, location).insert(id, value)
        }),
{
    let new = storage.with_value(location, id, value);
    let a = location.archetype as int;
    let arch = storage.archetypes[a];
    assert(arch.wf());
    let c = location.row.chunk as int;
    let chunk = arch.chunks[c];
    assert(chunk.wf());
    assert(chunk.ids == arch.ids());
    let ids = arch.ids();
    let k = first_index(ids, id);
    let j = choose|j: int| 0 <= j < ids.len() && ids[j] == id;
    crate::ecs::storage::table::chunk::lemma_first_index_distinct(ids, j);
    assert(k == j);
    assert forall|l: TableEntityLocation| #[trigger] new.valid(l) == storage.valid(l) by {
        if l.archetype as int == a && l.row.chunk as int == c {
            assert(new.archetypes[a].chunks[c].entities == chunk.entities);
        } else if l.archetype as int == a && l.row.chunk < arch.chunks.len() {
            assert(new.archetypes[a].chunks[l.row.chunk as int] == arch.chunks[l.row.chunk as int]);
        } else if l.archetype as int != a && l.archetype < storage.archetypes.len() {
            assert(new.archetypes[l.archetype as int] == storage.archetypes[l.archetype as int]);
        }
    }
    assert forall|l: TableEntityLocation| #[trigger] storage.valid(l) implies {
        &&& new.entity_at(l) == storage.entity_at(l)
        &&& new.ids_at(l) == storage.ids_at(l)
        &&& (l != location ==> new.row_at(l) == storage.row_at(l))
    } by {
        if l.archetype as int == a && l.row.chunk as int == c {
            assert(new.archetypes[a].chunks[c].entities == chunk.entities);
            if l != location {
                assert(new.row_at(l) =~= storage.row_at(l));
            }
        } else if l.archetype as int == a {
            assert(new.archetypes[a].chunks[l.row.chunk as int] == arch.chunks[l.row.chunk as int]);
        } else {
            assert(new.archetypes[l.archetype as int] == storage.archetypes[l.archetype as int]);
        }
    }
    assert(new.row_at(location) =~= storage.row_at(location).update(k, value));
    assert forall|l: TableEntityLocation| #[trigger] storage.valid(l) && l != location implies component_map(new, l) == component_map(storage, l) by {
        assert(component_map(new, l) =~= component_map(storage, l));
    }
    assert(component_map(new, location) =~= component_map(storage, location).insert(id, value)) by {
        assert forall|x: ComponentId| ids.contains(x) && x != id implies first_index(ids, x) != k by {
            let y = choose|y: int| 0 <= y < ids.len() && ids[y] == x;
            crate::ecs::storage::table::chunk::lemma_first_index_distinct(ids, y);
        }
    }
    assert(archetype_sets(new) =~= archetype_sets(storage)) by {
        assert forall|b: int| 0 <= b < new.archetypes.len() implies new.archetypes[b].keys == storage.archetypes[b].keys by {}
    }
    assert forall|infos: Seq<ComponentInfo>| keys_registered(storage, infos) implies #[trigger] keys_registered(new, infos) by {
        assert forall|b: int, x: int| 0 <= b < new.archetypes.len() && 0 <= x < new.archetypes[b].keys.len()
            implies ComponentRegistry::order_in(infos, #[trigger] new.archetypes[b].keys[x].id) == Some(new.archetypes[b].keys[x].order) by {
            assert(new.archetypes[b].keys == storage.archetypes[b].keys);
        }
    }
}

/// The (id, value) pairs of a stored row name the row's component types, each once, and
/// together with its archetype's keys describe exactly the row's components.
pub proof fn lemma_pairs_at<V>(storage: StorageView<V>, location: TableEntityLocation)
    requires
        storage.wf(),
        storage.valid(location),
    ensures
        pair_ids(storage.pairs_at(location)) == storage.ids_at(location),
        pair_ids(storage.pairs_at(location)).no_duplicates(),
        key_ids(storage.archetypes[location.archetype as int].keys) == storage.ids_at(location),
        keyed_map(storage.archetypes[location.archetype as int].keys, storage.pairs_at(location)) == component_map(storage, location),
{
    let a = location.archetype as int;
    let arch = storage.archetypes[a];
    assert(arch.wf());
    let pairs = storage.pairs_at(location);
    let ids = storage.ids_at(location);
    assert(pair_ids(pairs) =~= ids);
    assert(keyed_map(arch.keys, pairs) =~= component_map(storage, location)) by {
        assert forall|x: ComponentId| #[trigger] ids.contains(x) implies lookup(pairs, x) == storage.row_at(location)[first_index(ids, x)] by {
            let k = choose|k: int| 0 <= k < ids.len() && ids[k] == x;
            crate::ecs::storage::table::chunk::lemma_first_index_distinct(ids, k);
            crate::ecs::storage::table::chunk::lemma_lookup(pairs, k);
        }
    }
}

/// Dropping the key and the pair of component `id` drops `id` from the described components.
pub proof fn lemma_keyed_map_without<V>(
    keys: Seq<TableComponentKey>,
    pairs: Seq<(ComponentId, V)>,
    id: ComponentId,
    keep_key: spec_fn(TableComponentKey) -> bool,
    keep_pair: spec_fn((ComponentId, V)) -> bool,
)
    requires
        key_ids(keys) == pair_ids(pairs),
        pair_ids(pairs).no_duplicates(),
        forall|key: TableComponentKey| #[trigger] keep_key(key) <==> key.id != id,
        forall|pair: (ComponentId, V)| #[trigger] keep_pair(pair) <==> pair.0 != id,
    ensures
        keyed_map(keys.filter(keep_key), pairs.filter(keep_pair)) == keyed_map(keys, pairs).remove(id),
        key_ids(keys.filter(keep_key)).no_duplicates(),
        key_ids(keys.filter(keep_key)).to_set() == keyed_map(keys, pairs).remove(id).dom(),
        forall|key: TableComponentKey| #[trigger] keys.filter(keep_key).contains(key) <==> keys.contains(key) && key.id != id,
{
    let kept_keys = keys.filter(keep_key);
    let kept_pairs = pairs.filter(keep_pair);
    let key_of = |key: TableComponentKey| key.id;
    let pair_of = |pair: (ComponentId, V)| pair.0;
    assert forall|i: int, j: int| 0 <= i < keys.len() && 0 <= j < keys.len() && i != j implies key_of(#[trigger] keys[i]) != key_of(#[trigger] keys[j]) by {
        assert(key_ids(keys)[i] == keys[i].id);
        assert(key_ids(keys)[j] == keys[j].id);
    }
    assert forall|i: int, j: int| 0 <= i < pairs.len() && 0 <= j < pairs.len() && i != j implies pair_of(#[trigger] pairs[i]) != pair_of(#[trigger] pairs[j]) by {
        assert(pair_ids(pairs)[i] == pairs[i].0);
        assert(pair_ids(pairs)[j] == pairs[j].0);
    }
    crate::ecs::storage::table::archetype::lemma_filter_distinct(keys, key_of, keep_key);
    crate::ecs::storage::table::archetype::lemma_filter_distinct(pairs, pair_of, keep_pair);
    assert(key_ids(kept_keys).no_duplicates()) by {
        assert forall|i: int, j: int| 0 <= i < kept_keys.len() && 0 <= j < kept_keys.len() && i != j implies key_ids(kept_keys)[i] != key_ids(kept_keys)[j] by {
            assert(key_of(kept_keys[i]) != key_of(kept_keys[j]));
        }
    }
    assert(pair_ids(kept_pairs).no_duplicates()) by {
        assert forall|i: int, j: int| 0 <= i < kept_pairs.len() && 0 <= j < kept_pairs.len() && i != j implies pair_ids(kept_pairs)[i] != pair_ids(kept_pairs)[j] by {
            assert(pair_of(kept_pairs[i]) != pair_of(kept_pairs[j]));
        }
    }
    let whole = keyed_map(keys, pairs);
    assert forall|x: ComponentId| #[trigger] key_ids(kept_keys).contains(x) <==> key_ids(keys).contains(x) && x != id by {
        if key_ids(kept_keys).contains(x) {
            let k = choose|k: int| 0 <= k < key_ids(kept_keys).len() && key_ids(kept_keys)[k] == x;
            assert(kept_keys.contains(kept_keys[k]));
            let j = choose|j: int| 0 <= j < keys.len() && keys[j] == kept_keys[k];
            assert(key_ids(keys)[j] == x);
        }
        if key_ids(keys).contains(x) && x != id {
            let j = choose|j: int| 0 <= j < key_ids(keys).len() && key_ids(keys)[j] == x;
            assert(keys.contains(keys[j]));
            assert(kept_keys.contains(keys[j]));
            let k = choose|k: int| 0 <= k < kept_keys.len() && kept_keys[k] == keys[j];
            assert(key_ids(kept_keys)[k] == x);
        }
    }
    assert(keyed_map(kept_keys, kept_pairs) =~= whole.remove(id)) by {
        assert forall|x: ComponentId| #[trigger] key_ids(kept_keys).contains(x) implies lookup(kept_pairs, x) == lookup(pairs, x) by {
            let j = choose|j: int| 0 <= j < pair_ids(pairs).len() && pair_ids(pairs)[j] == x;
            crate::ecs::storage::table::chunk::lemma_lookup(pairs, j);
            assert(pairs.contains(pairs[j]));
            assert(kept_pairs.contains(pairs[j]));
            let k = choose|k: int| 0 <= k < kept_pairs.len() && kept_pairs[k] == pairs[j];
            crate::ecs::storage::table::chunk::lemma_lookup(kept_pairs, k);
        }
    }
    assert(key_ids(kept_keys).to_set() =~= whole.remove(id).dom());
}

/// Adding a key and a pair for a new component type `key.id` adds that component.
pub proof fn lemma_keyed_map_with<V>(keys: Seq<TableComponentKey>, pairs: Seq<(ComponentId, V)>, key: TableComponentKey, value: V)
    requires
        key_ids(keys) == pair_ids(pairs),
        pair_ids(pairs).no_duplicates(),
        !key_ids(keys).contains(key.id),
    ensures
        keyed_map(keys.push(key), pairs.push((key.id, value))) == keyed_map(keys, pairs).insert(key.id, value),
        key_ids(keys.push(key)) == pair_ids(pairs.push((key.id, value))),
        key_ids(keys.push(key)).no_duplicates(),
        key_ids(keys.push(key)).to_set() == keyed_map(keys, pairs).insert(key.id, value).dom(),
{
    let more_keys = keys.push(key);
    let more_pairs = pairs.push((key.id, value));
    assert(key_ids(more_keys) =~= key_ids(keys).push(key.id));
    assert(pair_ids(more_pairs) =~= pair_ids(pairs).push(key.id));
    assert(pair_ids(more_pairs).no_duplicates()) by {
        assert forall|i: int, j: int| 0 <= i < more_pairs.len() && 0 <= j < more_pairs.len() && i != j implies pair_ids(more_pairs)[i] != pair_ids(more_pairs)[j] by {
            if i < pairs.len() && j < pairs.len() {
                assert(pair_ids(more_pairs)[i] == pair_ids(pairs)[i]);
                assert(pair_ids(more_pairs)[j] == pair_ids(pairs)[j]);
            } else if i < pairs.len() {
                assert(pair_ids(more_pairs)[i] == pair_ids(pairs)[i]);
                assert(key_ids(keys)[i] == pair_ids(pairs)[i]);
            } else {
                assert(pair_ids(more_pairs)[j] == pair_ids(pairs)[j]);
                assert(key_ids(keys)[j] == pair_ids(pairs)[j]);
            }
        }
    }
    assert forall|x: ComponentId| #[trigger] key_ids(more_keys).contains(x) <==> key_ids(keys).contains(x) || x == key.id by {
        if key_ids(more_keys).contains(x) {
            let k = choose|k: int| 0 <= k < key_ids(more_keys).len() && key_ids(more_keys)[k] == x;
            if k < keys.len() {
                assert(key_ids(keys)[k] == x);
            }
        }
        if key_ids(keys).contains(x) {
            let k = choose|k: int| 0 <= k < key_ids(keys).len() && key_ids(keys)[k] == x;
            assert(key_ids(more_keys)[k] == x);
        }
        if x == key.id {
            assert(key_ids(more_keys)[keys.len() as int] == x);
        }
    }
    assert(keyed_map(more_keys, more_pairs) =~= keyed_map(keys, pairs).insert(key.id, value)) by {
        crate::ecs::storage::table::chunk::lemma_lookup(more_pairs, pairs.len() as int);
        assert forall|x: ComponentId| #[trigger] key_ids(keys).contains(x) implies lookup(more_pairs, x) == lookup(pairs, x) by {
            let j = choose|j: int| 0 <= j < pair_ids(pairs).len() && pair_ids(pairs)[j] == x;
            crate::ecs::storage::table::chunk::lemma_lookup(pairs, j);
            assert(more_pairs[j] == pairs[j]);
            crate::ecs::storage::table::chunk::lemma_lookup(more_pairs, j);
        }
    }
    assert(key_ids(more_keys).to_set() =~= keyed_map(keys, pairs).insert(key.id, value).dom());
}

/// Registering more component types keeps every stored key's order.
pub proof fn lemma_keys_registered_grow<V>(storage: StorageView<V>, old_infos: Seq<ComponentInfo>, new_infos: Seq<ComponentInfo>)
    requires
        keys_registered(storage, old_infos),
        forall|x: ComponentId| registered(old_infos, x) ==> #[trigger] ComponentRegistry::order_in(new_infos, x) == ComponentRegistry::order_in(old_infos, x),
    ensures
        keys_registered(storage, new_infos),
{
    assert forall|a: int, k: int| 0 <= a < storage.archetypes.len() && 0 <= k < storage.archetypes[a].keys.len()
        implies ComponentRegistry::order_in(new_infos, #[trigger] storage.archetypes[a].keys[k].id) == Some(storage.archetypes[a].keys[k].order) by {
        let id = storage.archetypes[a].keys[k].id;
        assert(ComponentRegistry::order_in(old_infos, id) is Some);
        assert(registered(old_infos, id));
    }
}

/// A sequence with an absent entry has fewer present entries than entries.
pub proof fn lemma_some_count_gap<T>(s: Seq<Option<T>>, i: int)
    requires
        0 <= i < s.len(),
        s[i] is None,
    ensures
        some_count(s) < s.len(),
{
    lemma_some_count_bound(s);
}

/// The stored value of component `id` at a row is the row's component `id`.
pub proof fn lemma_value_component<V>(storage: StorageView<V>, location: TableEntityLocation, id: ComponentId)
    requires
        storage.wf(),
        storage.valid(location),
    ensures
        storage.value(location, id) == if component_map(storage, location).contains_key(id) {
            Some(component_map(storage, location)[id])
        } else {
            None
        },
{
    let arch = storage.archetypes[location.archetype as int];
    assert(arch.wf());
    let chunk = arch.chunks[location.row.chunk as int];
    assert(chunk.wf());
    assert(chunk.ids == arch.ids());
}

/// The components that `pairs` describe when the first pair of each type counts.
pub open spec fn first_map<V>(pairs: Seq<(ComponentId, V)>) -> Map<ComponentId, V> {
    Map::new(
        |id: ComponentId| pair_ids(pairs).contains(id),
        |id: ComponentId| pairs[first_index(pair_ids(pairs), id)].1,
    )
}

/// With one pair per type, the first pair of a type is its only one.
pub proof fn lemma_first_map_distinct<V>(pairs: Seq<(ComponentId, V)>)
    requires
        pair_ids(pairs).no_duplicates(),
    ensures
        first_map(pairs) == pairs_map(pairs),
{
    assert forall|id: ComponentId| #[trigger] pair_ids(pairs).contains(id) implies pairs[first_index(pair_ids(pairs), id)].1 == lookup(pairs, id) by {
        let k = choose|k: int| 0 <= k < pair_ids(pairs).len() && pair_ids(pairs)[k] == id;
        crate::ecs::storage::table::chunk::lemma_first_index_distinct(pair_ids(pairs), k);
        crate::ecs::storage::table::chunk::lemma_lookup(pairs, k);
    }
    assert(first_map(pairs) =~= pairs_map(pairs));
}

/// Appending an id keeps the first position of every id already there.
proof fn lemma_first_index_push(ids: Seq<ComponentId>, x: ComponentId, id: ComponentId)
    requires
        ids.contains(id),
    ensures
        first_index(ids.push(x), id) == first_index(ids, id),
{
    let more = ids.push(x);
    crate::ecs::storage::table::chunk::lemma_first_index_exists(ids, id);
    let k = first_index(ids, id);
    assert forall|j: int| 0 <= j < k implies #[trigger] more[j] != id by {
        assert(more[j] == ids[j]);
    }
    assert(more[k] == ids[k]);
    crate::ecs::storage::table::chunk::lemma_first_index(more, id, k);
}

/// A pair appended after others counts only if its type is new.
pub proof fn lemma_first_map_push<V>(pairs: Seq<(ComponentId, V)>, pair: (ComponentId, V))
    ensures
        first_map(pairs.push(pair)) == if pair_ids(pairs).contains(pair.0) {
            first_map(pairs)
        } else {
            first_map(pairs).insert(pair.0, pair.1)
        },
{
    let more = pairs.push(pair);
    let ids = pair_ids(pairs);
    let more_ids = pair_ids(more);
    assert(more_ids =~= ids.push(pair.0));
    assert forall|id: ComponentId| #[trigger] more_ids.contains(id) <==> ids.contains(id) || id == pair.0 by {
        if more_ids.contains(id) {
            let k = choose|k: int| 0 <= k < more_ids.len() && more_ids[k] == id;
            if k < ids.len() {
                assert(ids[k] == id);
            }
        }
        if ids.contains(id) {
            let k = choose|k: int| 0 <= k < ids.len() && ids[k] == id;
            assert(more_ids[k] == id);
        }
        if id == pair.0 {
            assert(more_ids[ids.len() as int] == id);
        }
    }
    assert forall|id: ComponentId| #[trigger] ids.contains(id) implies more[first_index(more_ids, id)].1 == pairs[first_index(ids, id)].1 by {
        lemma_first_index_push(ids, pair.0, id);
        crate::ecs::storage::table::chunk::lemma_first_index_exists(ids, id);
    }
    if !ids.contains(pair.0) {
        assert forall|j: int| 0 <= j < ids.len() implies #[trigger] more_ids[j] != pair.0 by {
            assert(more_ids[j] == ids[j]);
        }
        crate::ecs::storage::table::chunk::lemma_first_index(more_ids, pair.0, ids.len() as int);
        assert(first_map(more) =~= first_map(pairs).insert(pair.0, pair.1));
    } else {
        assert(first_map(more) =~= first_map(pairs));
    }
}

/// Changing only entity slots that name no row, and adding at most one slot without a
/// row, keeps the index in agreement and every row's components.
pub proof fn lemma_rows_reslotted<V>(
    storage: StorageView<V>,
    slots: Seq<EntitySlot>,
    locations: Seq<Option<TableEntityLocation>>,
    new_slots: Seq<EntitySlot>,
    new_locations: Seq<Option<TableEntityLocation>>,
)
    requires
        rows_tracked(storage, slots, locations),
        new_locations == locations || new_locations == locations.push(None),
        new_slots.len() == new_locations.len(),
        new_slots.len() <= u32::MAX as nat + 1,
        forall|x: int| 0 <= x < locations.len() && (#[trigger] locations[x]) is Some ==> new_slots[x] == slots[x],
    ensures
        rows_tracked(storage, new_slots, new_locations),
        row_maps(storage, new_locations) == if new_locations == locations {
            row_maps(storage, locations)
        } else {
            row_maps(storage, locations).push(None)
        },
{
    if new_locations != locations {
        assert(new_locations.drop_last() =~= locations);
        assert(row_maps(storage, new_locations) =~= row_maps(storage, locations).push(None));
    }
    assert forall|x: int| 0 <= x < new_locations.len() && (#[trigger] new_locations[x]) is Some implies {
        &&& new_slots[x].alive
        &&& storage.valid(new_locations[x]->0)
        &&& storage.entity_at(new_locations[x]->0) == Entity { index: x as u32, generation: new_slots[x].generation }
    } by {
        assert(x < locations.len());
        assert(new_locations[x] == locations[x]);
    }
    assert forall|l: TableEntityLocation| #[trigger] storage.valid(l) implies {
        &&& storage.entity_at(l).index < new_locations.len()
        &&& new_locations[storage.entity_at(l).index as int] == Some(l)
    } by {
        let x = storage.entity_at(l).index as int;
        assert(new_locations[x] == locations[x]);
    }
}

} // verus!
