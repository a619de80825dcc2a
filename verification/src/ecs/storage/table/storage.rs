use vstd::prelude::*;

use crate::ecs::component::ComponentId;
use crate::ecs::entity::Entity;

use super::archetype::{
    key_ids, lemma_filter_distinct, lemma_filter_one_out, lemma_pushed_frame, lemma_removed_frame,
    lemma_sorted_ids_distinct, lemma_sorted_unique, orders_distinct, sort_keys, sorted_by_order,
    total_rows, Archetype, ArchetypeView,
};
use super::chunk::{first_index, lemma_distinct_ids_multiset, lookup, pair_ids, ChunkView, RemovedChunkRow};
use super::location::TableRowLocation;
use super::value::{TableComponentKey, TableComponentValue};
use crate::ecs::query::{QueryItem, QueryItem2};

verus! {

broadcast use {vstd::seq_lib::group_to_multiset_ensures, vstd::multiset::group_multiset_axioms};

/// Where an entity's row lives: its archetype and its place inside that archetype.
#[derive(Debug, Clone, Copy, PartialEq, Eq, Structural)]
pub struct TableEntityLocation {
    pub archetype: usize,
    pub row: TableRowLocation,
}

/// Total number of rows in `archetypes`.
pub open spec fn total_len<V>(archetypes: Seq<ArchetypeView<V>>) -> nat
    decreases archetypes.len(),
{
    if archetypes.len() == 0 {
        0
    } else {
        total_len(archetypes.drop_last()) + archetypes.last().len
    }
}

pub proof fn lemma_total_len_update<V>(archetypes: Seq<ArchetypeView<V>>, a: int, archetype: ArchetypeView<V>)
    requires
        0 <= a < archetypes.len(),
    ensures
        total_len(archetypes.update(a, archetype)) + archetypes[a].len == total_len(archetypes) + archetype.len,
    decreases archetypes.len(),
{
    if a == archetypes.len() - 1 {
        assert(archetypes.update(a, archetype).drop_last() =~= archetypes.drop_last());
    } else {
        lemma_total_len_update(archetypes.drop_last(), a, archetype);
        assert(archetypes.update(a, archetype).drop_last() =~= archetypes.drop_last().update(a, archetype));
    }
}

pub proof fn lemma_total_len_ge<V>(archetypes: Seq<ArchetypeView<V>>, a: int)
    requires
        0 <= a < archetypes.len(),
    ensures
        total_len(archetypes) >= archetypes[a].len,
    decreases archetypes.len(),
{
    if a < archetypes.len() - 1 {
        lemma_total_len_ge(archetypes.drop_last(), a);
    }
}

/// The (id, value) pairs of `components`, in order.
pub open spec fn component_pairs<V>(components: Seq<TableComponentValue<V>>) -> Seq<(ComponentId, V)> {
    components.map_values(|c: TableComponentValue<V>| (c.id, c.value))
}

/// Abstract contents of the table storage: its archetypes, the chunk capacity new
/// archetypes get, and the number of rows.
#[verifier::ext_equal]
pub struct StorageView<V> {
    pub archetypes: Seq<ArchetypeView<V>>,
    pub chunk_capacity: nat,
    pub len: nat,
}

impl<V> StorageView<V> {
    /// Every archetype is well formed, uses the storage's chunk capacity and has keys with
    /// distinct orders and distinct ids; no two archetypes have the same keys; `len` counts all rows.
    pub open spec fn wf(self) -> bool {
        &&& self.chunk_capacity > 0
        &&& forall|a: int| 0 <= a < self.archetypes.len() ==> {
            &&& (#[trigger] self.archetypes[a]).wf()
            &&& self.archetypes[a].chunk_capacity == self.chunk_capacity
            &&& orders_distinct(self.archetypes[a].keys)
            &&& self.archetypes[a].ids().no_duplicates()
        }
        &&& forall|a: int, b: int|
            0 <= a < self.archetypes.len() && 0 <= b < self.archetypes.len() && a != b ==> #[trigger] self.archetypes[a].keys
                != #[trigger] self.archetypes[b].keys
        &&& self.len == total_len(self.archetypes)
    }

    pub open spec fn valid(self, location: TableEntityLocation) -> bool {
        &&& location.archetype < self.archetypes.len()
        &&& self.archetypes[location.archetype as int].valid(location.row)
    }

    pub open spec fn chunk_at(self, location: TableEntityLocation) -> ChunkView<V> {
        self.archetypes[location.archetype as int].chunks[location.row.chunk as int]
    }

    pub open spec fn entity_at(self, location: TableEntityLocation) -> Entity {
        self.chunk_at(location).entities[location.row.row as int]
    }

    /// The values of the row at `location`, in the key order of its archetype.
    pub open spec fn row_at(self, location: TableEntityLocation) -> Seq<V> {
        self.chunk_at(location).row(location.row.row as int)
    }

    /// The component ids of the archetype at `location`, in key order.
    pub open spec fn ids_at(self, location: TableEntityLocation) -> Seq<ComponentId> {
        self.archetypes[location.archetype as int].ids()
    }

    pub open spec fn value(self, location: TableEntityLocation, id: ComponentId) -> Option<V> {
        if location.archetype < self.archetypes.len() {
            self.archetypes[location.archetype as int].value(id, location.row)
        } else {
            None
        }
    }

    pub open spec fn with_value(self, location: TableEntityLocation, id: ComponentId, value: V) -> StorageView<V> {
        StorageView {
            archetypes: self.archetypes.update(
                location.archetype as int,
                self.archetypes[location.archetype as int].with_value(id, location.row, value),
            ),
            ..self
        }
    }

    /// The storage after swap-removing the row at `location`.
    pub open spec fn removed(self, location: TableEntityLocation) -> StorageView<V> {
        StorageView {
            archetypes: self.archetypes.update(
                location.archetype as int,
                self.archetypes[location.archetype as int].removed(location.row),
            ),
            len: (self.len - 1) as nat,
            ..self
        }
    }

    /// The entity that removing the row at `location` moves into it, if any.
    pub open spec fn moved_by_removal(self, location: TableEntityLocation) -> Option<Entity> {
        if location.row.row + 1 < self.chunk_at(location).entities.len() {
            Some(self.chunk_at(location).entities.last())
        } else {
            None
        }
    }

    /// Whether the archetype at `location` has every component in `ids`.
    pub open spec fn has_all(self, location: TableEntityLocation, ids: Seq<ComponentId>) -> bool {
        forall|k: int| 0 <= k < ids.len() ==> self.ids_at(location).contains(#[trigger] ids[k])
    }

    /// The location of the last row of the chunk that holds `location`.
    pub open spec fn last_of(self, location: TableEntityLocation) -> TableEntityLocation {
        TableEntityLocation {
            archetype: location.archetype,
            row: self.archetypes[location.archetype as int].last_in_chunk(location.row),
        }
    }

    /// The (id, value) pairs of the row at `location`, in key order.
    pub open spec fn pairs_at(self, location: TableEntityLocation) -> Seq<(ComponentId, V)> {
        Seq::new(
            self.ids_at(location).len(),
            |k: int| (self.ids_at(location)[k], self.row_at(location)[k]),
        )
    }
}

/// `location` comes before row `r` of chunk `c` of archetype `a` in storage order.
pub open spec fn location_before(location: TableEntityLocation, a: int, c: int, r: int) -> bool {
    ||| location.archetype < a
    ||| location.archetype == a && location.row.chunk < c
    ||| location.archetype == a && location.row.chunk == c && location.row.row < r
}

/// `locations` come in storage order: by archetype, then chunk, then row.
pub open spec fn storage_ordered(locations: Seq<TableEntityLocation>) -> bool {
    forall|x: int, y: int| 0 <= x < y < locations.len() ==> location_before(
        #[trigger] locations[x],
        (#[trigger] locations[y]).archetype as int,
        locations[y].row.chunk as int,
        locations[y].row.row as int,
    )
}

/// `new` is `old` with a row for `entity` appended to the archetype whose keys are `keys`
/// sorted by order, at `location`; that archetype is created at the end if no archetype
/// has those keys yet, and no other archetype changes.
pub open spec fn inserted<V>(
    old: StorageView<V>,
    new: StorageView<V>,
    entity: Entity,
    pairs: Seq<(ComponentId, V)>,
    keys: Seq<TableComponentKey>,
    location: TableEntityLocation,
) -> bool {
    let a = location.archetype as int;
    let sorted = new.archetypes[a].keys;
    let base = if a < old.archetypes.len() {
        old.archetypes[a]
    } else {
        ArchetypeView::empty(sorted, old.chunk_capacity)
    };
    &&& new.chunk_capacity == old.chunk_capacity
    &&& new.len == old.len + 1
    &&& a <= old.archetypes.len()
    &&& a < new.archetypes.len()
    &&& sorted_by_order(sorted)
    &&& sorted.to_multiset() == keys.to_multiset()
    &&& (a < old.archetypes.len() ==> new.archetypes.len() == old.archetypes.len() && old.archetypes[a].keys == sorted)
    &&& (a == old.archetypes.len() ==> new.archetypes.len() == old.archetypes.len() + 1 && forall|b: int|
        0 <= b < old.archetypes.len() ==> #[trigger] old.archetypes[b].keys != sorted)
    &&& forall|b: int| 0 <= b < old.archetypes.len() && b != a ==> #[trigger] new.archetypes[b] == old.archetypes[b]
    &&& base.is_next_location(location.row)
    &&& new.archetypes[a] == base.pushed(entity, Seq::new(sorted.len(), |k: int| lookup(pairs, sorted[k].id)))
}

/// An insertion keeps every existing row where it was and adds exactly one row, for
/// `entity`, at `location`.
pub proof fn lemma_inserted_frame<V>(
    old: StorageView<V>,
    new: StorageView<V>,
    entity: Entity,
    pairs: Seq<(ComponentId, V)>,
    keys: Seq<TableComponentKey>,
    location: TableEntityLocation,
)
    requires
        old.wf(),
        new.wf(),
        inserted(old, new, entity, pairs, keys, location),
    ensures
        forall|l: TableEntityLocation| #[trigger] old.valid(l) ==> {
            &&& new.valid(l)
            &&& new.entity_at(l) == old.entity_at(l)
            &&& new.row_at(l) == old.row_at(l)
            &&& new.ids_at(l) == old.ids_at(l)
            &&& l != location
        },
        new.valid(location),
        new.entity_at(location) == entity,
        new.ids_at(location) == key_ids(new.archetypes[location.archetype as int].keys),
        new.row_at(location) == Seq::new(
            new.archetypes[location.archetype as int].keys.len(),
            |k: int| lookup(pairs, new.archetypes[location.archetype as int].keys[k].id),
        ),
        forall|l: TableEntityLocation| #[trigger] new.valid(l) ==> old.valid(l) || l == location,
{
    let a = location.archetype as int;
    let sorted = new.archetypes[a].keys;
    let base = if a < old.archetypes.len() {
        old.archetypes[a]
    } else {
        ArchetypeView::empty(sorted, old.chunk_capacity)
    };
    let values = Seq::new(sorted.len(), |k: int| lookup(pairs, sorted[k].id));
    assert(base.wf()) by {
        if a == old.archetypes.len() {
            assert(key_ids(sorted).len() == sorted.len());
            assert(base.chunks.len() == 0);
            assert(total_rows(base.chunks) == 0);
            assert(new.archetypes[a].wf());
        }
    }
    assert(base.chunk_capacity > 0);
    assert(values.len() == base.keys.len());
    lemma_pushed_frame(base, entity, values, location.row);
    assert(new.archetypes[a] == base.pushed(entity, values));
    assert forall|l: TableEntityLocation| #[trigger] old.valid(l) implies {
        &&& new.valid(l)
        &&& new.entity_at(l) == old.entity_at(l)
        &&& new.row_at(l) == old.row_at(l)
        &&& new.ids_at(l) == old.ids_at(l)
        &&& l != location
    } by {
        let b = l.archetype as int;
        if b != a {
            assert(new.archetypes[b] == old.archetypes[b]);
        } else {
            assert(base.valid(l.row));
        }
    }
    assert forall|l: TableEntityLocation| #[trigger] new.valid(l) implies old.valid(l) || l == location by {
        let b = l.archetype as int;
        if b != a {
            assert(new.archetypes[b] == old.archetypes[b]);
        } else {
            assert(new.archetypes[a].valid(l.row));
            if base.valid(l.row) {
                assert(a < old.archetypes.len());
            }
        }
    }
}

/// Removing the row at `location` moves the last row of its chunk into it and keeps every
/// other row where it was.
/// What an insertion stores is what was given: at the new location, each given component
/// whose type the keys name has the value paired with it.
pub proof fn law_inserted_values<V>(
    old: StorageView<V>,
    new: StorageView<V>,
    entity: Entity,
    pairs: Seq<(ComponentId, V)>,
    keys: Seq<TableComponentKey>,
    location: TableEntityLocation,
    k: int,
)
    requires
        old.wf(),
        new.wf(),
        inserted(old, new, entity, pairs, keys, location),
        pair_ids(pairs).no_duplicates(),
        0 <= k < pairs.len(),
        key_ids(keys).contains(pairs[k].0),
    ensures
        new.value(location, pairs[k].0) == Some(pairs[k].1),
{
    lemma_inserted_frame(old, new, entity, pairs, keys, location);
    let id = pairs[k].0;
    let a = location.archetype as int;
    let sorted = new.archetypes[a].keys;
    let j = choose|j: int| 0 <= j < key_ids(keys).len() && key_ids(keys)[j] == id;
    assert(keys[j].id == id);
    assert(keys.to_multiset().count(keys[j]) > 0);
    assert(sorted.contains(keys[j]));
    let q = choose|q: int| 0 <= q < sorted.len() && sorted[q] == keys[j];
    assert(key_ids(sorted)[q] == id);
    let ids = new.ids_at(location);
    assert(ids.contains(id));
    let arch = new.archetypes[a];
    assert(arch.wf());
    let chunk = arch.chunks[location.row.chunk as int];
    assert(chunk.wf());
    assert(chunk.ids == ids);
    crate::ecs::storage::table::chunk::lemma_first_index_exists(ids, id);
    let f = first_index(ids, id);
    assert(new.row_at(location)[f] == lookup(pairs, sorted[f].id));
    assert(pair_ids(pairs)[k] == id);
    crate::ecs::storage::table::chunk::lemma_lookup(pairs, k);
}

pub proof fn lemma_removed_storage_frame<V>(old: StorageView<V>, location: TableEntityLocation)
    requires
        old.wf(),
        old.valid(location),
    ensures
        ({
            let new = old.removed(location);
            let last = old.last_of(location);
            &&& old.valid(last)
            &&& forall|l: TableEntityLocation| #[trigger] new.valid(l) <==> old.valid(l) && l != last
            &&& forall|l: TableEntityLocation| #[trigger] new.valid(l) && l != location ==> {
                &&& new.entity_at(l) == old.entity_at(l)
                &&& new.row_at(l) == old.row_at(l)
                &&& new.ids_at(l) == old.ids_at(l)
            }
            &&& location != last ==> {
                &&& new.entity_at(location) == old.entity_at(last)
                &&& new.row_at(location) == old.row_at(last)
                &&& new.ids_at(location) == old.ids_at(last)
            }
            &&& old.moved_by_removal(location) == if location != last {
                Some(old.entity_at(last))
            } else {
                None
            }
            &&& forall|l: TableEntityLocation| #[trigger] old.valid(l) ==> old.ids_at(l) == new.ids_at(l) || l.archetype >= new.archetypes.len()
        }),
{
    let new = old.removed(location);
    let last = old.last_of(location);
    let a = location.archetype as int;
    let arch = old.archetypes[a];
    assert(arch.wf());
    lemma_removed_frame(arch, location.row);
    assert(arch.chunks[location.row.chunk as int].wf());
    assert forall|l: TableEntityLocation| #[trigger] new.valid(l) <==> old.valid(l) && l != last by {
        if l.archetype as int != a && l.archetype < old.archetypes.len() {
            assert(new.archetypes[l.archetype as int] == old.archetypes[l.archetype as int]);
        } else if l.archetype as int == a {
            assert(new.archetypes[a].valid(l.row) <==> arch.valid(l.row) && l.row != arch.last_in_chunk(location.row));
        }
    }
    assert forall|l: TableEntityLocation| #[trigger] new.valid(l) && l != location implies {
        &&& new.entity_at(l) == old.entity_at(l)
        &&& new.row_at(l) == old.row_at(l)
        &&& new.ids_at(l) == old.ids_at(l)
    } by {
        if l.archetype as int != a {
            assert(new.archetypes[l.archetype as int] == old.archetypes[l.archetype as int]);
        } else {
            assert(l.row != location.row);
        }
    }
    let chunk = arch.chunks[location.row.chunk as int];
    assert(chunk.entities.last() == chunk.entities[last.row.row as int]);
}

/// `locations` lists, each once and in storage order, every row whose archetype has all
/// of `ids`.
pub open spec fn rows_with<V>(storage: StorageView<V>, ids: Seq<ComponentId>, locations: Seq<TableEntityLocation>) -> bool {
    &&& locations.no_duplicates()
    &&& storage_ordered(locations)
    &&& forall|k: int| 0 <= k < locations.len() ==> storage.valid(#[trigger] locations[k]) && storage.has_all(locations[k], ids)
    &&& forall|l: TableEntityLocation| storage.valid(l) && storage.has_all(l, ids) ==> #[trigger] locations.contains(l)
}

/// `items` are, in order, the entities of the rows at `locations` and their values of
/// component `id`.
pub open spec fn query_items<'a, V>(
    storage: StorageView<V>,
    id: ComponentId,
    locations: Seq<TableEntityLocation>,
    items: Seq<QueryItem<'a, V>>,
) -> bool {
    &&& items.len() == locations.len()
    &&& forall|k: int| 0 <= k < items.len() ==> (#[trigger] items[k]).entity == storage.entity_at(locations[k])
        && storage.value(locations[k], id) == Some(*items[k].component)
}

/// `items` are, in order, the entities of the rows at `locations` and their values of
/// components `first` and `second`.
pub open spec fn query2_items<'a, V>(
    storage: StorageView<V>,
    first: ComponentId,
    second: ComponentId,
    locations: Seq<TableEntityLocation>,
    items: Seq<QueryItem2<'a, V>>,
) -> bool {
    &&& items.len() == locations.len()
    &&& forall|k: int| 0 <= k < items.len() ==> (#[trigger] items[k]).entity == storage.entity_at(locations[k])
        && storage.value(locations[k], first) == Some(*items[k].first) && storage.value(locations[k], second) == Some(*items[k].second)
}

/// What removing one component from an entity's row produced.
pub struct TableComponentRemoval {
    pub removed_entity: Entity,
    pub new_location: Option<TableEntityLocation>,
    pub moved_entity: Option<Entity>,
}

/// What inserting one component into an entity's row produced.
pub struct TableComponentInsertion {
    pub entity: Entity,
    pub new_location: TableEntityLocation,
    pub moved_entity: Option<Entity>,
}

/// The views of `archetypes`, in order.
pub open spec fn archetype_views<V>(archetypes: Seq<Archetype<V>>) -> Seq<ArchetypeView<V>> {
    archetypes.map_values(|archetype: Archetype<V>| archetype@)
}

/// Replacing one archetype by one with as many rows keeps the row total.
proof fn lemma_total_len_replace<V>(archetypes: Seq<Archetype<V>>, a: int)
    requires
        0 <= a < archetypes.len(),
    ensures
        forall|y: Archetype<V>| #![trigger archetype_views(archetypes.update(a, y))]
            y@.len == archetypes[a]@.len ==> total_len(archetype_views(archetypes.update(a, y)))
                == total_len(archetype_views(archetypes)),
{
    assert forall|y: Archetype<V>| #![trigger archetype_views(archetypes.update(a, y))]
        y@.len == archetypes[a]@.len implies total_len(archetype_views(archetypes.update(a, y)))
            == total_len(archetype_views(archetypes)) by {
        assert(archetype_views(archetypes.update(a, y)) =~= archetype_views(archetypes).update(a, y@));
        lemma_total_len_update(archetype_views(archetypes), a, y@);
    }
}

/// Chunked archetype storage for table components.
pub struct TableStorage<V> {
    archetypes: Vec<Archetype<V>>,
    chunk_capacity: usize,
    len: usize,
}

impl<V> View for TableStorage<V> {
    type V = StorageView<V>;

    closed spec fn view(&self) -> StorageView<V> {
        StorageView {
            archetypes: archetype_views(self.archetypes@),
            chunk_capacity: self.chunk_capacity as nat,
            len: self.len as nat,
        }
    }
}

fn keys_equal(a: &[TableComponentKey], b: &[TableComponentKey]) -> (equal: bool)
    ensures
        equal == (a@ == b@),
{
    if a.len() != b.len() {
        return false;
    }
    let mut i: usize = 0;
    while i < a.len()
        invariant
            a@.len() == b@.len(),
            i <= a@.len(),
            forall|j: int| 0 <= j < i ==> a@[j] == b@[j],
        decreases a@.len() - i,
    {
        if !a[i].same(&b[i]) {
            return false;
        }
        i += 1;
    }
    proof {
        assert(a@ =~= b@);
    }
    true
}

impl<V> TableStorage<V> {
    pub fn new(chunk_capacity: usize) -> (storage: Self)
        requires
            chunk_capacity > 0,
        ensures
            storage@.wf(),
            storage@.archetypes.len() == 0,
            storage@.chunk_capacity == chunk_capacity,
            storage@.len == 0,
    {
        let storage = TableStorage { archetypes: Vec::new(), chunk_capacity, len: 0 };
        proof {
            assert(storage@.archetypes =~= Seq::<ArchetypeView<V>>::empty());
        }
        storage
    }

    pub fn archetype_count(&self) -> (count: usize)
        ensures
            count == self@.archetypes.len(),
    {
        self.archetypes.len()
    }

    /// Number of rows over all archetypes.
    pub fn len(&self) -> (len: usize)
        ensures
            len == self@.len,
    {
        self.len
    }

    pub fn get(&self, location: TableEntityLocation, component_id: ComponentId) -> (value: Option<&V>)
        requires
            self@.wf(),
        ensures
            match value {
                Some(v) => self@.value(location, component_id) == Some(*v),
                None => self@.value(location, component_id) is None,
            },
    {
        if location.archetype < self.archetypes.len() {
            proof {
                assert(self@.archetypes[location.archetype as int] == self.archetypes@[location.archetype as int]@);
            }
            self.archetypes[location.archetype].get(component_id, location.row)
        } else {
            None
        }
    }

    pub fn get_mut(&mut self, location: TableEntityLocation, component_id: ComponentId) -> (value: Option<&mut V>)
        requires
            old(self)@.wf(),
        ensures
            final(self)@.wf(),
            match old(self)@.value(location, component_id) {
                Some(v) => value is Some && *value->0 == v && final(self)@ =~~= old(self)@.with_value(
                    location,
                    component_id,
                    *final(value->0),
                ),
                None => value is None && final(self)@ =~~= old(self)@,
            },
    {
        if location.archetype < self.archetypes.len() {
            proof {
                assert(self@.archetypes[location.archetype as int] == self.archetypes@[location.archetype as int]@);
                lemma_total_len_replace(self.archetypes@, location.archetype as int);
                assert forall|a: int| 0 <= a < self.archetypes@.len() implies {
                    &&& (#[trigger] self.archetypes@[a]@).wf()
                    &&& self.archetypes@[a]@.chunk_capacity == self.chunk_capacity
                    &&& orders_distinct(self.archetypes@[a]@.keys)
                    &&& self.archetypes@[a]@.ids().no_duplicates()
                } by {
                    assert(self@.archetypes[a] == self.archetypes@[a]@);
                }
                assert forall|a: int, b: int|
                    0 <= a < self.archetypes@.len() && 0 <= b < self.archetypes@.len() && a != b implies #[trigger] self.archetypes@[a]@.keys
                        != #[trigger] self.archetypes@[b]@.keys by {
                    assert(self@.archetypes[a] == self.archetypes@[a]@);
                    assert(self@.archetypes[b] == self.archetypes@[b]@);
                }
            }
            let archetype = &mut self.archetypes[location.archetype];
            archetype.get_mut(component_id, location.row)
        } else {
            None
        }
    }

    /// Index of the archetype whose keys are exactly `keys`, appending an empty one if
    /// there is none.
    fn find_or_create_archetype(&mut self, keys: Vec<TableComponentKey>) -> (index: usize)
        requires
            old(self)@.wf(),
            sorted_by_order(keys@),
            orders_distinct(keys@),
            key_ids(keys@).no_duplicates(),
        ensures
            final(self)@.wf(),
            index < final(self)@.archetypes.len(),
            final(self)@.archetypes[index as int].keys == keys@,
            index < old(self)@.archetypes.len() ==> final(self)@ == old(self)@,
            index == old(self)@.archetypes.len() ==> {
                &&& forall|b: int| 0 <= b < old(self)@.archetypes.len() ==> #[trigger] old(self)@.archetypes[b].keys != keys@
                &&& final(self)@ =~~= (StorageView {
                    archetypes: old(self)@.archetypes.push(ArchetypeView::empty(keys@, old(self)@.chunk_capacity)),
                    ..old(self)@
                })
            },
            index <= old(self)@.archetypes.len(),
    {
        let mut i: usize = 0;
        while i < self.archetypes.len()
            invariant
                self@ == old(self)@,
                old(self)@.wf(),
                i <= self@.archetypes.len(),
                forall|b: int| 0 <= b < i ==> #[trigger] self@.archetypes[b].keys != keys@,
            decreases self@.archetypes.len() - i,
        {
            proof {
                assert(self@.archetypes[i as int] == self.archetypes@[i as int]@);
            }
            if keys_equal(self.archetypes[i].components(), keys.as_slice()) {
                return i;
            }
            i += 1;
        }
        let index = self.archetypes.len();
        let ghost old_view = self@;
        let ghost keys_view = keys@;
        let archetype = Archetype::new(keys, self.chunk_capacity);
        proof {
            lemma_sorted_unique(archetype@.keys, keys_view);
        }
        let ghost before = self.archetypes@;
        self.archetypes.push(archetype);
        proof {
            assert(archetype_views(self.archetypes@) =~= archetype_views(before).push(archetype@));
            assert(archetype@ =~~= ArchetypeView::empty(keys_view, old_view.chunk_capacity));
            assert(total_len(self@.archetypes) == total_len(old_view.archetypes)) by {
                assert(self@.archetypes.drop_last() =~= old_view.archetypes);
            }
            assert forall|a: int, b: int|
                0 <= a < self@.archetypes.len() && 0 <= b < self@.archetypes.len() && a != b implies #[trigger] self@.archetypes[a].keys
                    != #[trigger] self@.archetypes[b].keys by {
                if a < old_view.archetypes.len() && b < old_view.archetypes.len() {
                    assert(self@.archetypes[a] == old_view.archetypes[a]);
                    assert(self@.archetypes[b] == old_view.archetypes[b]);
                } else if a < old_view.archetypes.len() {
                    assert(self@.archetypes[a] == old_view.archetypes[a]);
                } else {
                    assert(self@.archetypes[b] == old_view.archetypes[b]);
                }
            }
            assert forall|a: int| 0 <= a < self@.archetypes.len() implies {
                &&& (#[trigger] self@.archetypes[a]).wf()
                &&& self@.archetypes[a].chunk_capacity == self@.chunk_capacity
                &&& orders_distinct(self@.archetypes[a].keys)
            } by {
                if a < old_view.archetypes.len() {
                    assert(self@.archetypes[a] == old_view.archetypes[a]);
                }
            }
        }
        index
    }

    /// Stores a row for `entity` with `components` in the archetype of `keys` (one key per
    /// component, distinct ids and orders); returns where the row went.
    pub fn insert(
        &mut self,
        entity: Entity,
        components: Vec<TableComponentValue<V>>,
        keys: Vec<TableComponentKey>,
    ) -> (location: TableEntityLocation)
        requires
            old(self)@.wf(),
            old(self)@.len < usize::MAX,
            key_ids(keys@).no_duplicates(),
            orders_distinct(keys@),
            pair_ids(component_pairs(components@)).no_duplicates(),
            components@.len() == keys@.len(),
            forall|k: int| 0 <= k < keys@.len() ==> pair_ids(component_pairs(components@)).contains(#[trigger] keys@[k].id),
        ensures
            final(self)@.wf(),
            inserted(old(self)@, final(self)@, entity, component_pairs(components@), keys@, location),
    {
        let ghost old_view = self@;
        let ghost keys_view = keys@;
        let ghost pairs_view = component_pairs(components@);
        let sorted = sort_keys(keys);
        proof {
            lemma_sorted_ids_distinct(keys_view, sorted@);
        }
        let ghost sorted_view = sorted@;
        let archetype = self.find_or_create_archetype(sorted);
        let ghost middle = self@;
        let mut pairs: Vec<(ComponentId, V)> = Vec::new();
        let mut rest = components;
        let ghost components_view = rest@;
        while rest.len() > 0
            invariant
                pairs@ + component_pairs(rest@) == component_pairs(components_view),
            decreases rest@.len(),
        {
            let ghost before = rest@;
            let component = rest.remove(0);
            pairs.push(component.into_parts());
            proof {
                assert(component_pairs(before) =~= seq![(component.id, component.value)] + component_pairs(rest@));
                assert(pairs@ + component_pairs(rest@) =~= component_pairs(components_view));
            }
        }
        proof {
            assert(component_pairs(rest@) =~= Seq::<(ComponentId, V)>::empty());
            assert(pairs@ =~= pairs_view);
            assert(middle.archetypes[archetype as int] == self.archetypes@[archetype as int]@);
            let arch = middle.archetypes[archetype as int];
            assert(arch.keys == sorted_view);
            assert forall|k: int| 0 <= k < arch.keys.len() implies pair_ids(pairs@).contains(#[trigger] arch.ids()[k]) by {
                assert(arch.ids()[k] == sorted_view[k].id);
                assert(sorted_view.to_multiset().count(sorted_view[k]) > 0);
                assert(keys_view.contains(sorted_view[k]));
                let j = choose|j: int| 0 <= j < keys_view.len() && keys_view[j] == sorted_view[k];
                assert(pair_ids(pairs_view).contains(keys_view[j].id));
            }
            lemma_total_len_ge(middle.archetypes, archetype as int);
            assert(sorted_view.len() == keys_view.len());
            assert(pairs@.len() == arch.keys.len());
            assert(pair_ids(pairs@).no_duplicates()) by {
                assert(pairs@ == pairs_view);
            }
            lemma_distinct_ids_multiset(arch.ids(), pair_ids(pairs@));
        }
        let ghost before = self.archetypes@;
        let row = {
            let slot = &mut self.archetypes[archetype];
            slot.push_row(entity, pairs)
        };
        self.len = self.len + 1;
        proof {
            let arch = middle.archetypes[archetype as int];
            assert(archetype_views(self.archetypes@) =~= archetype_views(before).update(archetype as int, self.archetypes@[archetype as int]@));
            lemma_total_len_update(middle.archetypes, archetype as int, self.archetypes@[archetype as int]@);
            assert forall|a: int| 0 <= a < self@.archetypes.len() implies {
                &&& (#[trigger] self@.archetypes[a]).wf()
                &&& self@.archetypes[a].chunk_capacity == self@.chunk_capacity
                &&& orders_distinct(self@.archetypes[a].keys)
            } by {
                if a != archetype {
                    assert(self@.archetypes[a] == middle.archetypes[a]);
                }
            }
            assert forall|a: int, b: int|
                0 <= a < self@.archetypes.len() && 0 <= b < self@.archetypes.len() && a != b implies #[trigger] self@.archetypes[a].keys
                    != #[trigger] self@.archetypes[b].keys by {
                assert(self@.archetypes[a].keys == middle.archetypes[a].keys);
                assert(self@.archetypes[b].keys == middle.archetypes[b].keys);
            }
            let base = if (archetype as int) < old_view.archetypes.len() {
                old_view.archetypes[archetype as int]
            } else {
                ArchetypeView::empty(sorted_view, old_view.chunk_capacity)
            };
            assert(arch =~~= base);
            assert(self@.archetypes[archetype as int] =~~= base.pushed(
                entity,
                Seq::new(sorted_view.len(), |k: int| lookup(pairs_view, sorted_view[k].id)),
            ));
            assert forall|b: int| 0 <= b < old_view.archetypes.len() && b != archetype implies #[trigger] self@.archetypes[b]
                == old_view.archetypes[b] by {
                assert(self@.archetypes[b] == middle.archetypes[b]);
            }
        }
        TableEntityLocation { archetype, row }
    }

    proof fn lemma_wf_parts(&self)
        requires
            self@.wf(),
        ensures
            forall|a: int| 0 <= a < self.archetypes@.len() ==> {
                &&& (#[trigger] self.archetypes@[a])@.wf()
                &&& self.archetypes@[a]@ == self@.archetypes[a]
            },
    {
        assert forall|a: int| 0 <= a < self.archetypes@.len() implies {
            &&& (#[trigger] self.archetypes@[a])@.wf()
            &&& self.archetypes@[a]@ == self@.archetypes[a]
        } by {
            assert(self@.archetypes[a] == self.archetypes@[a]@);
        }
    }

    /// Removes the row at `location` and hands it back.
    fn take(&mut self, location: TableEntityLocation) -> (removed: RemovedChunkRow<V>)
        requires
            old(self)@.wf(),
            old(self)@.valid(location),
        ensures
            final(self)@.wf(),
            final(self)@ =~~= old(self)@.removed(location),
            final(self)@.len < usize::MAX,
            removed.entity == old(self)@.entity_at(location),
            removed.components@ == old(self)@.pairs_at(location),
            removed.moved_entity == old(self)@.moved_by_removal(location),
    {
        let ghost old_view = self@;
        let ghost before = self.archetypes@;
        proof {
            self.lemma_wf_parts();
            lemma_total_len_ge(old_view.archetypes, location.archetype as int);
            assert(old_view.archetypes[location.archetype as int].len > 0) by {
                super::archetype::lemma_total_rows_ge(
                    old_view.archetypes[location.archetype as int].chunks,
                    location.row.chunk as int,
                );
            }
        }
        let removed = {
            let archetype = &mut self.archetypes[location.archetype];
            archetype.take_row(location.row)
        };
        self.len = self.len - 1;
        proof {
            let a = location.archetype as int;
            assert(archetype_views(self.archetypes@) =~= archetype_views(before).update(a, self.archetypes@[a]@));
            lemma_total_len_update(old_view.archetypes, a, self.archetypes@[a]@);
            assert(self@.archetypes =~~= old_view.removed(location).archetypes);
            assert forall|b: int| 0 <= b < self@.archetypes.len() implies {
                &&& (#[trigger] self@.archetypes[b]).wf()
                &&& self@.archetypes[b].chunk_capacity == self@.chunk_capacity
                &&& orders_distinct(self@.archetypes[b].keys)
            } by {
                if b != a {
                    assert(self@.archetypes[b] == old_view.archetypes[b]);
                }
            }
            assert forall|x: int, y: int|
                0 <= x < self@.archetypes.len() && 0 <= y < self@.archetypes.len() && x != y implies #[trigger] self@.archetypes[x].keys
                    != #[trigger] self@.archetypes[y].keys by {
                assert(self@.archetypes[x].keys == old_view.archetypes[x].keys);
                assert(self@.archetypes[y].keys == old_view.archetypes[y].keys);
            }
            assert(removed.components@ =~= old_view.pairs_at(location));
        }
        removed
    }

    /// Removes the row at `location`; returns the entity moved into its place, if any.
    pub fn remove(&mut self, location: TableEntityLocation) -> (moved: Option<Entity>)
        requires
            old(self)@.wf(),
            old(self)@.valid(location),
        ensures
            final(self)@.wf(),
            final(self)@ =~~= old(self)@.removed(location),
            moved == old(self)@.moved_by_removal(location),
    {
        self.take(location).moved_entity
    }

    /// Moves the entity at `location` to the archetype without `component_id`, dropping
    /// that component; when no component is left the row is only removed. `None` (and no
    /// change) when there is no such archetype or it lacks the component.
    pub fn remove_component(&mut self, location: TableEntityLocation, component_id: ComponentId) -> (removal:
        Option<TableComponentRemoval>)
        requires
            old(self)@.wf(),
            location.archetype >= old(self)@.archetypes.len() || old(self)@.valid(location),
        ensures
            final(self)@.wf(),
            location.archetype >= old(self)@.archetypes.len() || !old(self)@.ids_at(location).contains(component_id)
                ==> removal is None && final(self)@ == old(self)@,
            location.archetype < old(self)@.archetypes.len() && old(self)@.ids_at(location).contains(component_id)
                ==> {
                let middle = old(self)@.removed(location);
                let keys = old(self)@.archetypes[location.archetype as int].keys.filter(
                    |key: TableComponentKey| key.id != component_id,
                );
                let pairs = old(self)@.pairs_at(location).filter(|pair: (ComponentId, V)| pair.0 != component_id);
                &&& middle.wf()
                &&& removal matches Some(r)
                &&& r.removed_entity == old(self)@.entity_at(location)
                &&& r.moved_entity == old(self)@.moved_by_removal(location)
                &&& keys.len() == 0 ==> r.new_location is None && final(self)@ =~~= middle
                &&& keys.len() > 0 ==> (r.new_location matches Some(new_location) && inserted(
                    middle,
                    final(self)@,
                    r.removed_entity,
                    pairs,
                    keys,
                    new_location,
                ))
            },
    {
        if location.archetype >= self.archetypes.len() {
            return None;
        }
        proof {
            self.lemma_wf_parts();
        }
        if !self.archetypes[location.archetype].contains_component(component_id) {
            return None;
        }
        let ghost old_view = self@;
        let destination_keys = self.archetypes[location.archetype].component_keys_without(component_id);
        let removed = self.take(location);
        proof {
            assert(self@ == old_view.removed(location));
        }
        let ghost pairs_view = old_view.pairs_at(location);
        let ghost pred = |pair: (ComponentId, V)| pair.0 != component_id;
        let mut remaining: Vec<TableComponentValue<V>> = Vec::new();
        let mut rest = removed.components;
        let ghost count: int = 0;
        while rest.len() > 0
            invariant
                0 <= count <= pairs_view.len(),
                rest@ == pairs_view.skip(count),
                component_pairs(remaining@) == pairs_view.take(count).filter(|pair: (ComponentId, V)| pair.0 != component_id),
            decreases rest@.len(),
        {
            let (id, value) = rest.remove(0);
            proof {
                assert(pairs_view.take(count + 1) =~= pairs_view.take(count).push((id, value)));
                pairs_view.take(count).lemma_filter_push((id, value), |pair: (ComponentId, V)| pair.0 != component_id);
            }
            let ghost before = remaining@;
            if !id.same(&component_id) {
                remaining.push(TableComponentValue::from_erased(id, value));
                proof {
                    assert(component_pairs(remaining@) =~= component_pairs(before).push((id, value)));
                }
            }
            proof {
                count = count + 1;
                assert(rest@ =~= pairs_view.skip(count));
            }
        }
        proof {
            assert(count == pairs_view.len());
            assert(pairs_view.take(count) =~= pairs_view);
        }
        if destination_keys.len() == 0 {
            return Some(TableComponentRemoval {
                removed_entity: removed.entity,
                new_location: None,
                moved_entity: removed.moved_entity,
            });
        }
        let ghost arch = old_view.archetypes[location.archetype as int];
        let ghost keys = arch.keys;
        let ghost pairs = pairs_view.filter(|pair: (ComponentId, V)| pair.0 != component_id);
        proof {
            let key_pred = |key: TableComponentKey| key.id != component_id;
            assert(destination_keys@ == keys.filter(key_pred));
            assert forall|i: int, j: int| 0 <= i < keys.len() && 0 <= j < keys.len() && i != j implies (|key: TableComponentKey| key.id)(#[trigger] keys[i])
                != (|key: TableComponentKey| key.id)(#[trigger] keys[j]) by {
                assert(key_ids(keys)[i] != key_ids(keys)[j]);
            }
            lemma_filter_distinct(keys, |key: TableComponentKey| key.id, key_pred);
            lemma_filter_distinct(keys, |key: TableComponentKey| key.order.0, key_pred);
            assert(key_ids(destination_keys@).no_duplicates()) by {
                assert forall|i: int, j: int| 0 <= i < destination_keys@.len() && 0 <= j < destination_keys@.len() && i != j
                    implies key_ids(destination_keys@)[i] != key_ids(destination_keys@)[j] by {
                    assert((|key: TableComponentKey| key.id)(destination_keys@[i]) != (|key: TableComponentKey| key.id)(destination_keys@[j]));
                }
            }
            assert(orders_distinct(destination_keys@)) by {
                assert forall|i: int, j: int| 0 <= i < destination_keys@.len() && 0 <= j < destination_keys@.len() && i != j
                    implies #[trigger] destination_keys@[i].order.0 != #[trigger] destination_keys@[j].order.0 by {
                    assert((|key: TableComponentKey| key.order.0)(destination_keys@[i]) != (|key: TableComponentKey| key.order.0)(destination_keys@[j]));
                }
            }
            assert forall|i: int, j: int| 0 <= i < pairs_view.len() && 0 <= j < pairs_view.len() && i != j implies (|pair: (ComponentId, V)| pair.0)(#[trigger] pairs_view[i])
                != (|pair: (ComponentId, V)| pair.0)(#[trigger] pairs_view[j]) by {
                assert(pairs_view[i].0 == arch.ids()[i]);
                assert(pairs_view[j].0 == arch.ids()[j]);
            }
            lemma_filter_distinct(pairs_view, |pair: (ComponentId, V)| pair.0, pred);
            assert(pair_ids(component_pairs(remaining@)).no_duplicates()) by {
                assert forall|i: int, j: int| 0 <= i < pairs.len() && 0 <= j < pairs.len() && i != j
                    implies pair_ids(pairs)[i] != pair_ids(pairs)[j] by {
                    assert((|pair: (ComponentId, V)| pair.0)(pairs[i]) != (|pair: (ComponentId, V)| pair.0)(pairs[j]));
                }
            }
            assert(arch.ids().contains(component_id));
            let w = choose|w: int| 0 <= w < arch.ids().len() && arch.ids()[w] == component_id;
            assert((|key: TableComponentKey| key.id)(keys[w]) == component_id);
            lemma_filter_one_out(keys, |key: TableComponentKey| key.id, component_id, key_pred);
            assert((|pair: (ComponentId, V)| pair.0)(pairs_view[w]) == component_id);
            lemma_filter_one_out(pairs_view, |pair: (ComponentId, V)| pair.0, component_id, pred);
            assert(remaining@.len() == destination_keys@.len());
            assert forall|k: int| 0 <= k < destination_keys@.len() implies pair_ids(component_pairs(remaining@)).contains(#[trigger] destination_keys@[k].id) by {
                let key = destination_keys@[k];
                assert(keys.filter(key_pred).contains(key));
                let m = choose|m: int| 0 <= m < keys.len() && keys[m] == key;
                assert(pairs_view[m] == (key.id, old_view.row_at(location)[m]));
                assert(pairs_view.contains(pairs_view[m]));
                assert(pairs.contains(pairs_view[m]));
                let n = choose|n: int| 0 <= n < pairs.len() && pairs[n] == pairs_view[m];
                assert(pair_ids(pairs)[n] == key.id);
            }
        }
        let new_location = self.insert(removed.entity, remaining, destination_keys);
        Some(TableComponentRemoval {
            removed_entity: removed.entity,
            new_location: Some(new_location),
            moved_entity: removed.moved_entity,
        })
    }

    /// Gives the entity at `location` the component: replaces the value in place when its
    /// archetype already has that component, otherwise moves the row to the archetype with
    /// the component added. `None` (and no change) when there is no such archetype.
    pub fn insert_component(
        &mut self,
        location: TableEntityLocation,
        component: TableComponentValue<V>,
        key: TableComponentKey,
    ) -> (insertion: Option<TableComponentInsertion>)
        requires
            old(self)@.wf(),
            location.archetype >= old(self)@.archetypes.len() || old(self)@.valid(location),
            key.id == component.id,
            location.archetype < old(self)@.archetypes.len() ==> forall|k: int|
                0 <= k < old(self)@.archetypes[location.archetype as int].keys.len()
                    && (#[trigger] old(self)@.archetypes[location.archetype as int].keys[k]).id != key.id
                    ==> old(self)@.archetypes[location.archetype as int].keys[k].order.0 != key.order.0,
        ensures
            final(self)@.wf(),
            location.archetype >= old(self)@.archetypes.len() ==> insertion is None && final(self)@ == old(self)@,
            location.archetype < old(self)@.archetypes.len() && old(self)@.ids_at(location).contains(component.id) ==> {
                &&& insertion == Some(TableComponentInsertion {
                    entity: old(self)@.entity_at(location),
                    new_location: location,
                    moved_entity: None,
                })
                &&& final(self)@ =~~= old(self)@.with_value(location, component.id, component.value)
            },
            location.archetype < old(self)@.archetypes.len() && !old(self)@.ids_at(location).contains(component.id) ==> {
                &&& old(self)@.removed(location).wf()
                &&& insertion matches Some(ins)
                &&& ins.entity == old(self)@.entity_at(location)
                &&& ins.moved_entity == old(self)@.moved_by_removal(location)
                &&& inserted(
                    old(self)@.removed(location),
                    final(self)@,
                    ins.entity,
                    old(self)@.pairs_at(location).push((component.id, component.value)),
                    old(self)@.archetypes[location.archetype as int].keys.push(key),
                    ins.new_location,
                )
            },
    {
        if location.archetype >= self.archetypes.len() {
            return None;
        }
        proof {
            self.lemma_wf_parts();
        }
        let ghost old_view = self@;
        let id = component.id;
        if self.archetypes[location.archetype].contains_component(id) {
            proof {
                let arch = old_view.archetypes[location.archetype as int];
                assert(arch.chunks[location.row.chunk as int].ids == arch.ids());
                assert(old_view.value(location, id) is Some);
            }
            let entity = match self.archetypes[location.archetype].chunks_entity(location.row) {
                Some(entity) => entity,
                None => {
                    proof {
                        assert(false);
                    }
                    Entity::new(0, 0)
                },
            };
            match self.get_mut(location, id) {
                Some(slot) => {
                    *slot = component.value;
                },
                None => {
                    proof {
                        assert(false);
                    }
                },
            }
            return Some(TableComponentInsertion { entity, new_location: location, moved_entity: None });
        }
        let ghost arch = old_view.archetypes[location.archetype as int];
        let keys_slice = self.archetypes[location.archetype].components();
        let mut keys: Vec<TableComponentKey> = Vec::new();
        let mut i: usize = 0;
        while i < keys_slice.len()
            invariant
                i <= keys_slice@.len(),
                keys@ == keys_slice@.take(i as int),
            decreases keys_slice@.len() - i,
        {
            keys.push(keys_slice[i]);
            i += 1;
            proof {
                assert(keys@ =~= keys_slice@.take(i as int));
            }
        }
        proof {
            assert(keys@ =~= arch.keys);
        }
        keys.push(key);
        let removed = self.take(location);
        proof {
            assert(self@ == old_view.removed(location));
        }
        let ghost pairs_view = old_view.pairs_at(location);
        let mut components: Vec<TableComponentValue<V>> = Vec::new();
        let mut rest = removed.components;
        let ghost count: int = 0;
        while rest.len() > 0
            invariant
                0 <= count <= pairs_view.len(),
                rest@ == pairs_view.skip(count),
                component_pairs(components@) == pairs_view.take(count),
            decreases rest@.len(),
        {
            let ghost before = components@;
            let ghost rest_before = rest@;
            let (pair_id, value) = rest.remove(0);
            components.push(TableComponentValue::from_erased(pair_id, value));
            proof {
                assert((pair_id, value) == rest_before[0]);
                assert(rest_before[0] == pairs_view[count]);
                assert(component_pairs(components@) =~= component_pairs(before).push((pair_id, value)));
                assert(pairs_view.take(count + 1) =~= pairs_view.take(count).push(pairs_view[count]));
                count = count + 1;
                assert(rest@ =~= pairs_view.skip(count));
                assert(component_pairs(components@) =~= pairs_view.take(count));
            }
        }
        let ghost new_value = component.value;
        components.push(component);
        proof {
            assert(pairs_view.take(count) =~= pairs_view);
            let pairs = pairs_view.push((id, new_value));
            assert(component_pairs(components@) =~= pairs);
            assert(!arch.ids().contains(id));
            assert(key_ids(keys@).no_duplicates()) by {
                assert forall|a: int, b: int| 0 <= a < keys@.len() && 0 <= b < keys@.len() && a != b
                    implies key_ids(keys@)[a] != key_ids(keys@)[b] by {
                    if a < arch.keys.len() && b < arch.keys.len() {
                        assert(key_ids(arch.keys)[a] != key_ids(arch.keys)[b]);
                    } else if a < arch.keys.len() {
                        assert(arch.ids()[a] == keys@[a].id);
                    } else {
                        assert(arch.ids()[b] == keys@[b].id);
                    }
                }
            }
            assert(orders_distinct(keys@)) by {
                assert forall|a: int, b: int| 0 <= a < keys@.len() && 0 <= b < keys@.len() && a != b
                    implies #[trigger] keys@[a].order.0 != #[trigger] keys@[b].order.0 by {
                    if a < arch.keys.len() && b < arch.keys.len() {
                        assert(keys@[a] == arch.keys[a]);
                        assert(keys@[b] == arch.keys[b]);
                    } else if a < arch.keys.len() {
                        assert(keys@[a] == arch.keys[a]);
                        assert(arch.ids()[a] == arch.keys[a].id);
                    } else {
                        assert(keys@[b] == arch.keys[b]);
                        assert(arch.ids()[b] == arch.keys[b].id);
                    }
                }
            }
            assert(pair_ids(pairs).no_duplicates()) by {
                assert forall|a: int, b: int| 0 <= a < pairs.len() && 0 <= b < pairs.len() && a != b
                    implies pair_ids(pairs)[a] != pair_ids(pairs)[b] by {
                    if a < pairs_view.len() && b < pairs_view.len() {
                        assert(arch.ids()[a] != arch.ids()[b]);
                    } else if a < pairs_view.len() {
                        assert(pairs[a].0 == arch.ids()[a]);
                    } else {
                        assert(pairs[b].0 == arch.ids()[b]);
                    }
                }
            }
            assert forall|k: int| 0 <= k < keys@.len() implies pair_ids(component_pairs(components@)).contains(#[trigger] keys@[k].id) by {
                assert(pair_ids(pairs)[k] == keys@[k].id);
            }
        }
        let new_location = self.insert(removed.entity, components, keys);
        Some(TableComponentInsertion {
            entity: removed.entity,
            new_location,
            moved_entity: removed.moved_entity,
        })
    }

    /// The entity stored at `location`, if the location exists.
    pub fn entity_at(&self, location: TableEntityLocation) -> (entity: Option<Entity>)
        requires
            self@.wf(),
        ensures
            self@.valid(location) ==> entity == Some(self@.entity_at(location)),
            !self@.valid(location) ==> entity is None,
    {
        if location.archetype < self.archetypes.len() {
            proof {
                assert(self@.archetypes[location.archetype as int] == self.archetypes@[location.archetype as int]@);
            }
            self.archetypes[location.archetype].chunks_entity(location.row)
        } else {
            None
        }
    }

    fn archetype_has_all(&self, archetype: usize, ids: &[ComponentId]) -> (has: bool)
        requires
            archetype < self@.archetypes.len(),
        ensures
            has == forall|k: int| 0 <= k < ids@.len() ==> self@.archetypes[archetype as int].ids().contains(#[trigger] ids@[k]),
    {
        proof {
            assert(self@.archetypes[archetype as int] == self.archetypes@[archetype as int]@);
        }
        let mut k: usize = 0;
        while k < ids.len()
            invariant
                k <= ids@.len(),
                archetype < self.archetypes@.len(),
                self@.archetypes[archetype as int] == self.archetypes@[archetype as int]@,
                forall|j: int| 0 <= j < k ==> self@.archetypes[archetype as int].ids().contains(#[trigger] ids@[j]),
            decreases ids@.len() - k,
        {
            if !self.archetypes[archetype].contains_component(ids[k]) {
                return false;
            }
            k += 1;
        }
        true
    }

    /// Every row location whose archetype has all of `ids`, each once, in storage order.
    pub fn locations_with(&self, ids: &[ComponentId]) -> (locations: Vec<TableEntityLocation>)
        requires
            self@.wf(),
        ensures
            locations@.no_duplicates(),
            storage_ordered(locations@),
            forall|i: int| 0 <= i < locations@.len() ==> self@.valid(#[trigger] locations@[i]) && self@.has_all(locations@[i], ids@),
            forall|l: TableEntityLocation| self@.valid(l) && self@.has_all(l, ids@) ==> #[trigger] locations@.contains(l),
    {
        let mut locations: Vec<TableEntityLocation> = Vec::new();
        let mut a: usize = 0;
        while a < self.archetypes.len()
            invariant
                self@.wf(),
                a <= self@.archetypes.len(),
                locations@.no_duplicates(),
            storage_ordered(locations@),
                forall|i: int| 0 <= i < locations@.len() ==> {
                    &&& self@.valid(#[trigger] locations@[i])
                    &&& self@.has_all(locations@[i], ids@)
                    &&& location_before(locations@[i], a as int, 0, 0)
                },
                forall|l: TableEntityLocation| self@.valid(l) && self@.has_all(l, ids@) && location_before(l, a as int, 0, 0)
                    ==> #[trigger] locations@.contains(l),
            decreases self@.archetypes.len() - a,
        {
            proof {
                self.lemma_wf_parts();
            }
            if self.archetype_has_all(a, ids) {
                let archetype = &self.archetypes[a];
                let mut c: usize = 0;
                while c < archetype.chunk_count()
                    invariant
                        self@.wf(),
                        a < self@.archetypes.len(),
                        archetype@ == self@.archetypes[a as int],
                        forall|k: int| 0 <= k < ids@.len() ==> self@.archetypes[a as int].ids().contains(#[trigger] ids@[k]),
                        c <= archetype@.chunks.len(),
                        locations@.no_duplicates(),
            storage_ordered(locations@),
                        forall|i: int| 0 <= i < locations@.len() ==> {
                            &&& self@.valid(#[trigger] locations@[i])
                            &&& self@.has_all(locations@[i], ids@)
                            &&& location_before(locations@[i], a as int, c as int, 0)
                        },
                        forall|l: TableEntityLocation| self@.valid(l) && self@.has_all(l, ids@) && location_before(l, a as int, c as int, 0)
                            ==> #[trigger] locations@.contains(l),
                    decreases archetype@.chunks.len() - c,
                {
                    let chunk = archetype.chunk(c);
                    let mut r: usize = 0;
                    while r < chunk.row_count()
                        invariant
                            self@.wf(),
                            a < self@.archetypes.len(),
                            archetype@ == self@.archetypes[a as int],
                            forall|k: int| 0 <= k < ids@.len() ==> self@.archetypes[a as int].ids().contains(#[trigger] ids@[k]),
                            c < archetype@.chunks.len(),
                            chunk@ == archetype@.chunks[c as int],
                            r <= chunk@.entities.len(),
                            locations@.no_duplicates(),
            storage_ordered(locations@),
                            forall|i: int| 0 <= i < locations@.len() ==> {
                                &&& self@.valid(#[trigger] locations@[i])
                                &&& self@.has_all(locations@[i], ids@)
                                &&& location_before(locations@[i], a as int, c as int, r as int)
                            },
                            forall|l: TableEntityLocation| self@.valid(l) && self@.has_all(l, ids@) && location_before(l, a as int, c as int, r as int)
                                ==> #[trigger] locations@.contains(l),
                        decreases chunk@.entities.len() - r,
                    {
                        let location = TableEntityLocation { archetype: a, row: TableRowLocation { chunk: c, row: r } };
                        let ghost before = locations@;
                        locations.push(location);
                        proof {
                            assert(!before.contains(location)) by {
                                if before.contains(location) {
                                    let i = choose|i: int| 0 <= i < before.len() && before[i] == location;
                                    assert(location_before(before[i], a as int, c as int, r as int));
                                }
                            }
                            assert forall|x: int, y: int| 0 <= x < y < locations@.len() implies location_before(
                                #[trigger] locations@[x],
                                (#[trigger] locations@[y]).archetype as int,
                                locations@[y].row.chunk as int,
                                locations@[y].row.row as int,
                            ) by {
                                if y < before.len() {
                                    assert(locations@[x] == before[x]);
                                    assert(locations@[y] == before[y]);
                                } else {
                                    assert(locations@[x] == before[x]);
                                    assert(location_before(before[x], a as int, c as int, r as int));
                                }
                            }
                            assert forall|x: int, y: int| 0 <= x < locations@.len() && 0 <= y < locations@.len() && x != y
                                implies locations@[x] != locations@[y] by {
                                if x < before.len() && y < before.len() {
                                    assert(before[x] != before[y]);
                                } else if x < before.len() {
                                    assert(before.contains(before[x]));
                                } else {
                                    assert(before.contains(before[y]));
                                }
                            }
                            assert forall|l: TableEntityLocation| self@.valid(l) && self@.has_all(l, ids@) && location_before(l, a as int, c as int, r + 1)
                                implies #[trigger] locations@.contains(l) by {
                                if l == location {
                                    assert(locations@[before.len() as int] == l);
                                } else {
                                    assert(before.contains(l));
                                    let i = choose|i: int| 0 <= i < before.len() && before[i] == l;
                                    assert(locations@[i] == l);
                                }
                            }
                            assert forall|i: int| 0 <= i < locations@.len() implies {
                                &&& self@.valid(#[trigger] locations@[i])
                                &&& self@.has_all(locations@[i], ids@)
                                &&& location_before(locations@[i], a as int, c as int, r + 1)
                            } by {
                                if i < before.len() {
                                    assert(locations@[i] == before[i]);
                                }
                            }
                        }
                        r += 1;
                    }
                    proof {
                        assert forall|l: TableEntityLocation| self@.valid(l) && self@.has_all(l, ids@) && location_before(l, a as int, c + 1, 0)
                            implies #[trigger] locations@.contains(l) by {
                            assert(location_before(l, a as int, c as int, r as int));
                        }
                    }
                    c += 1;
                }
                proof {
                    assert forall|l: TableEntityLocation| self@.valid(l) && self@.has_all(l, ids@) && location_before(l, a + 1, 0, 0)
                        implies #[trigger] locations@.contains(l) by {
                        assert(location_before(l, a as int, c as int, 0));
                    }
                }
            } else {
                proof {
                    assert forall|l: TableEntityLocation| self@.valid(l) && self@.has_all(l, ids@) && location_before(l, a + 1, 0, 0)
                        implies #[trigger] locations@.contains(l) by {
                        if l.archetype == a {
                            let k = choose|k: int| 0 <= k < ids@.len() && !self@.archetypes[a as int].ids().contains(#[trigger] ids@[k]);
                            assert(self@.ids_at(l).contains(ids@[k]));
                        }
                    }
                }
            }
            a += 1;
        }
        locations
    }
    /// The entity and the value of component `id` of every row that has that component,
    /// each row once, in storage order.
    pub fn query(&self, id: ComponentId) -> (items: Vec<QueryItem<'_, V>>)
        requires
            self@.wf(),
        ensures
            exists|locations: Seq<TableEntityLocation>| rows_with(self@, seq![id], locations)
                && #[trigger] query_items(self@, id, locations, items@),
    {
        let mut ids: Vec<ComponentId> = Vec::new();
        ids.push(id);
        let locations = self.locations_with(ids.as_slice());
        let ghost st = self@;
        let mut items: Vec<QueryItem<'_, V>> = Vec::new();
        let mut k: usize = 0;
        while k < locations.len()
            invariant
                self@.wf(),
                st == self@,
                ids@ == seq![id],
                k <= locations@.len(),
                items@.len() == k,
                forall|l: int| 0 <= l < locations@.len() ==> st.valid(#[trigger] locations@[l]) && st.has_all(locations@[l], ids@),
                forall|j: int| 0 <= j < k ==> (#[trigger] items@[j]).entity == st.entity_at(locations@[j])
                    && st.value(locations@[j], id) == Some(*items@[j].component),
            decreases locations@.len() - k,
        {
            let location = locations[k];
            proof {
                assert(st.has_all(location, ids@));
                assert(st.ids_at(location).contains(ids@[0]));
                let arch = st.archetypes[location.archetype as int];
                assert(arch.wf());
                assert(arch.chunks[location.row.chunk as int].wf());
                assert(arch.chunks[location.row.chunk as int].ids == arch.ids());
            }
            let entity = match self.entity_at(location) {
                Some(entity) => entity,
                None => {
                    proof {
                        assert(false);
                    }
                    Entity::new(0, 0)
                },
            };
            let component = match self.get(location, id) {
                Some(component) => component,
                None => {
                    proof {
                        assert(false);
                    }
                    return items;
                },
            };
            items.push(QueryItem { entity, component });
            k += 1;
        }
        proof {
            assert(rows_with(st, seq![id], locations@));
            assert(query_items(st, id, locations@, items@));
        }
        items
    }

    /// The entity and the values of components `first` and `second` of every row that has
    /// both, each row once, in storage order.
    pub fn query2(&self, first: ComponentId, second: ComponentId) -> (items: Vec<QueryItem2<'_, V>>)
        requires
            self@.wf(),
        ensures
            exists|locations: Seq<TableEntityLocation>| rows_with(self@, seq![first, second], locations)
                && #[trigger] query2_items(self@, first, second, locations, items@),
    {
        let mut ids: Vec<ComponentId> = Vec::new();
        ids.push(first);
        ids.push(second);
        let locations = self.locations_with(ids.as_slice());
        let ghost st = self@;
        let mut items: Vec<QueryItem2<'_, V>> = Vec::new();
        let mut k: usize = 0;
        while k < locations.len()
            invariant
                self@.wf(),
                st == self@,
                ids@ == seq![first, second],
                k <= locations@.len(),
                items@.len() == k,
                forall|l: int| 0 <= l < locations@.len() ==> st.valid(#[trigger] locations@[l]) && st.has_all(locations@[l], ids@),
                forall|j: int| 0 <= j < k ==> (#[trigger] items@[j]).entity == st.entity_at(locations@[j])
                    && st.value(locations@[j], first) == Some(*items@[j].first) && st.value(locations@[j], second) == Some(*items@[j].second),
            decreases locations@.len() - k,
        {
            let location = locations[k];
            proof {
                assert(st.has_all(location, ids@));
                assert(st.ids_at(location).contains(ids@[0]));
                assert(st.ids_at(location).contains(ids@[1]));
                let arch = st.archetypes[location.archetype as int];
                assert(arch.wf());
                assert(arch.chunks[location.row.chunk as int].wf());
                assert(arch.chunks[location.row.chunk as int].ids == arch.ids());
            }
            let entity = match self.entity_at(location) {
                Some(entity) => entity,
                None => {
                    proof {
                        assert(false);
                    }
                    Entity::new(0, 0)
                },
            };
            let a = match self.get(location, first) {
                Some(a) => a,
                None => {
                    proof {
                        assert(false);
                    }
                    return items;
                },
            };
            let b = match self.get(location, second) {
                Some(b) => b,
                None => {
                    proof {
                        assert(false);
                    }
                    return items;
                },
            };
            items.push(QueryItem2 { entity, first: a, second: b });
            k += 1;
        }
        proof {
            assert(rows_with(st, seq![first, second], locations@));
            assert(query2_items(st, first, second, locations@, items@));
        }
        items
    }
}

} // verus!
