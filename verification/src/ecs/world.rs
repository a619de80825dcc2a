use std::any::TypeId;
use vstd::prelude::*;

use crate::ecs::component::{registered, ComponentId, ComponentOrder, ComponentRegistry, ComponentStorage};
use crate::ecs::bundle::Bundle;
use crate::ecs::command::{Command, Commands};
use crate::ecs::entity::{AllocatorModel, Entity, EntityAllocator, EntitySlot};
use crate::ecs::event::events_of;
use crate::ecs::event::Events;
use crate::ecs::query::{QueryItem, QueryItem2};
use crate::ecs::resource::Resources;
use crate::ecs::row_index::{
    archetype_sets, component_map, index_after_removal, keys_registered, lemma_archetypes_inserted, lemma_keyed_map_with,
    lemma_keyed_map_without, lemma_keys_registered_grow, lemma_pairs_at, lemma_some_count_gap, lemma_value_component, keyed_map, first_map, lemma_first_map_distinct, lemma_first_map_push, lemma_row_inserted, lemma_row_removed, lemma_rows_reslotted, lemma_value_replaced, lemma_same_ids_same_keys, lemma_some_count_same,
    pairs_map, row_maps, rows_tracked, some_count, with_archetype,
};
use crate::ecs::storage::table::archetype::{key_ids, orders_distinct};
use crate::ecs::storage::table::chunk::{pair_ids};
use crate::ecs::storage::table::storage::{component_pairs, query2_items, query_items, rows_with, lemma_inserted_frame, location_before, lemma_removed_storage_frame, StorageView, TableEntityLocation, TableStorage};
use crate::ecs::storage::table::value::{TableComponentKey, TableComponentValue};

verus! {

broadcast use {vstd::seq_lib::group_to_multiset_ensures, vstd::multiset::group_multiset_axioms};

/// Chunk capacity of the archetypes of a new world.
pub const DEFAULT_CHUNK_CAPACITY: usize = 1024;

/// Whether one of `components` has component type `id`.
fn has_component_id<V>(components: &Vec<TableComponentValue<V>>, id: ComponentId) -> (found: bool)
    ensures
        found == pair_ids(component_pairs(components@)).contains(id),
{
    let mut k: usize = 0;
    while k < components.len()
        invariant
            k <= components@.len(),
            forall|j: int| 0 <= j < k ==> (#[trigger] components@[j]).id != id,
        decreases components@.len() - k,
    {
        if components[k].id.same(&id) {
            proof {
                assert(pair_ids(component_pairs(components@))[k as int] == id);
            }
            return true;
        }
        k += 1;
    }
    proof {
        if pair_ids(component_pairs(components@)).contains(id) {
            let j = choose|j: int| 0 <= j < pair_ids(component_pairs(components@)).len() && pair_ids(component_pairs(components@))[j] == id;
            assert(components@[j].id == id);
        }
    }
    false
}

/// The first component of each type among `components`, in order.
fn first_components<V>(components: Vec<TableComponentValue<V>>) -> (distinct: Vec<TableComponentValue<V>>)
    ensures
        pair_ids(component_pairs(distinct@)).no_duplicates(),
        pairs_map(component_pairs(distinct@)) == first_map(component_pairs(components@)),
{
    let ghost all = component_pairs(components@);
    let mut distinct: Vec<TableComponentValue<V>> = Vec::new();
    let mut rest = components;
    let ghost count: int = 0;
    proof {
        assert(all.skip(0) =~= all);
        assert(component_pairs(distinct@) =~= all.take(0));
    }
    while rest.len() > 0
        invariant
            0 <= count <= all.len(),
            component_pairs(rest@) == all.skip(count),
            pair_ids(component_pairs(distinct@)).no_duplicates(),
            first_map(component_pairs(distinct@)) == first_map(all.take(count)),
        decreases rest@.len(),
    {
        let ghost rest_before = rest@;
        let ghost before = component_pairs(distinct@);
        let component = rest.remove(0);
        let ghost pair = (component.id, component.value);
        proof {
            assert(component_pairs(rest_before).len() == rest_before.len());
            assert(count < all.len());
            assert(component_pairs(rest_before)[0] == pair);
            assert(all.skip(count)[0] == all[count]);
            assert(all.take(count + 1) =~= all.take(count).push(pair));
            lemma_first_map_push(all.take(count), pair);
            lemma_first_map_push(before, pair);
            assert(first_map(before).dom().contains(pair.0) == pair_ids(before).contains(pair.0));
            assert(first_map(all.take(count)).dom().contains(pair.0) == pair_ids(all.take(count)).contains(pair.0));
        }
        if !has_component_id(&distinct, component.id) {
            distinct.push(component);
            proof {
                assert(component_pairs(distinct@) =~= before.push(pair));
                assert(pair_ids(component_pairs(distinct@)) =~= pair_ids(before).push(pair.0));
                assert(pair_ids(component_pairs(distinct@)).no_duplicates()) by {
                    let ids = pair_ids(component_pairs(distinct@));
                    assert forall|i: int, j: int| 0 <= i < ids.len() && 0 <= j < ids.len() && i != j implies ids[i] != ids[j] by {
                        if i < before.len() && j < before.len() {
                            assert(ids[i] == pair_ids(before)[i]);
                            assert(ids[j] == pair_ids(before)[j]);
                        } else if i < before.len() {
                            assert(ids[i] == pair_ids(before)[i]);
                            assert(pair_ids(before).contains(ids[i]));
                        } else {
                            assert(ids[j] == pair_ids(before)[j]);
                            assert(pair_ids(before).contains(ids[j]));
                        }
                    }
                }
            }
        }
        proof {
            assert(rest@ =~= rest_before.skip(1));
            assert forall|i: int| 0 <= i < rest@.len() implies #[trigger] component_pairs(rest@)[i] == all.skip(count + 1)[i] by {
                assert(rest@[i] == rest_before[i + 1]);
                assert(component_pairs(rest_before)[i + 1] == all.skip(count)[i + 1]);
            }
            count = count + 1;
            assert(component_pairs(rest@) =~= all.skip(count));
        }
    }
    proof {
        assert(all.take(count) =~= all);
        lemma_first_map_distinct(component_pairs(distinct@));
    }
    distinct
}

/// Registers the component type of each value as a table component; returns one key per
/// value, carrying the type's registered order.
fn table_keys<V>(registry: &mut ComponentRegistry, components: &Vec<TableComponentValue<V>>) -> (keys: Vec<TableComponentKey>)
    requires
        old(registry).wf(),
    ensures
        final(registry).wf(),
        keys@.len() == components@.len(),
        forall|j: int| 0 <= j < keys@.len() ==> #[trigger] keys@[j].id == components@[j].id,
        forall|j: int| 0 <= j < keys@.len() ==> final(registry).order_of(#[trigger] keys@[j].id) == Some(keys@[j].order),
        forall|x: ComponentId| registered(old(registry)@, x) ==> #[trigger] final(registry).order_of(x) == old(registry).order_of(x),
        forall|x: ComponentId| registered(old(registry)@, x) ==> #[trigger] registered(final(registry)@, x),
{
    let mut keys: Vec<TableComponentKey> = Vec::new();
    let mut i: usize = 0;
    while i < components.len()
        invariant
            registry.wf(),
            i <= components@.len(),
            keys@.len() == i,
            forall|j: int| 0 <= j < i ==> #[trigger] keys@[j].id == components@[j].id,
            forall|j: int| 0 <= j < i ==> registry.order_of(#[trigger] keys@[j].id) == Some(keys@[j].order),
            forall|x: ComponentId| registered(old(registry)@, x) ==> #[trigger] registry.order_of(x) == old(registry).order_of(x),
            forall|x: ComponentId| registered(old(registry)@, x) ==> #[trigger] registered(registry@, x),
        decreases components@.len() - i,
    {
        let ghost before = registry@;
        let ghost start = *registry;
        assert(start@ == before);
        let id = registry.register_table_id(components[i].id, components[i].name);
        proof {
            ComponentRegistry::lemma_registers_keeps(before, registry@, id, ComponentStorage::Table);
            assert forall|j: int| 0 <= j < i implies registry.order_of(#[trigger] keys@[j].id) == Some(keys@[j].order) by {
                assert(start.order_of(keys@[j].id) == Some(keys@[j].order));
                assert(registered(before, keys@[j].id));
            }
            assert forall|x: ComponentId| registered(old(registry)@, x) implies #[trigger] registered(registry@, x) by {
                assert(registered(start@, x));
                assert(ComponentRegistry::order_in(registry@, x) == ComponentRegistry::order_in(before, x));
            }
            assert forall|x: ComponentId| registered(old(registry)@, x) implies #[trigger] registry.order_of(x) == old(registry).order_of(x) by {
                assert(registered(start@, x));
                assert(start.order_of(x) == old(registry).order_of(x));
                assert(ComponentRegistry::order_in(registry@, x) == ComponentRegistry::order_in(before, x));
                assert(ComponentRegistry::order_in(registry@, x) is Some);
            }
        }
        let order = match registry.order(id) {
            Some(order) => order,
            None => {
                proof {
                    assert(false);
                }
                ComponentOrder::new(0)
            },
        };
        keys.push(TableComponentKey::new(id, order));
        i += 1;
    }
    keys
}

/// Registers `id` as a table component and returns its key, carrying its registered order.
fn table_key(registry: &mut ComponentRegistry, id: ComponentId, name: &'static str) -> (key: TableComponentKey)
    requires
        old(registry).wf(),
    ensures
        final(registry).wf(),
        key.id == id,
        final(registry).order_of(id) == Some(key.order),
        forall|x: ComponentId| registered(old(registry)@, x) ==> #[trigger] ComponentRegistry::order_in(final(registry)@, x)
            == ComponentRegistry::order_in(old(registry)@, x),
        forall|x: ComponentId| registered(old(registry)@, x) ==> #[trigger] registered(final(registry)@, x),
{
    let ghost before = registry@;
    let id = registry.register_table_id(id, name);
    proof {
        ComponentRegistry::lemma_registers_keeps(before, registry@, id, ComponentStorage::Table);
        assert forall|x: ComponentId| registered(before, x) implies #[trigger] registered(registry@, x) by {
            assert(ComponentRegistry::order_in(registry@, x) == ComponentRegistry::order_in(before, x));
            assert(ComponentRegistry::order_in(before, x) is Some);
        }
    }
    let order = match registry.order(id) {
        Some(order) => order,
        None => {
            proof {
                assert(false);
            }
            ComponentOrder::new(0)
        },
    };
    TableComponentKey::new(id, order)
}

/// `new` is a value that `update` can make of the value `old` of a component of `entity`
/// (nothing is asked when there was no value).
pub open spec fn updated_by<V, F: Fn(Entity, &V) -> V>(update: F, entity: Entity, old: Option<V>, new: Option<V>) -> bool {
    match old {
        Some(v) => match new {
            Some(w) => update.ensures((entity, &v), w),
            None => false,
        },
        None => true,
    }
}

/// Abstract state of a world: its entity allocator; for each entity slot, the components
/// of the entity in that slot if it has a table row; the component sets of its archetypes,
/// in creation order; its resources; its event channels; and its queued commands.
#[verifier::ext_equal]
pub struct WorldView<V> {
    pub entities: AllocatorModel,
    pub rows: Seq<Option<Map<ComponentId, V>>>,
    pub archetypes: Seq<Set<ComponentId>>,
    pub resources: Map<TypeId, V>,
    pub events: Map<TypeId, Seq<V>>,
    pub commands: Seq<Command<V>>,
}

impl<V> WorldView<V> {
    /// The world's consistency: a well-formed allocator; one row entry per entity slot;
    /// rows only for alive entities, each with a component set that is one of the
    /// archetypes; and no two archetypes with the same component set.
    pub open spec fn wf(self) -> bool {
        &&& self.entities.wf()
        &&& self.rows.len() == self.entities.slots.len()
        &&& forall|x: int| 0 <= x < self.rows.len() && (#[trigger] self.rows[x]) is Some
            ==> self.entities.slots[x].alive && self.archetypes.contains(self.rows[x]->0.dom())
        &&& self.archetypes.no_duplicates()
    }

    /// A world with no entities, archetypes, resources, events or queued commands.
    pub open spec fn empty() -> WorldView<V> {
        WorldView {
            entities: AllocatorModel { slots: Seq::empty(), free: Seq::empty() },
            rows: Seq::empty(),
            archetypes: Seq::empty(),
            resources: Map::empty(),
            events: Map::empty(),
            commands: Seq::empty(),
        }
    }

    /// The world after one queued command; a spawn is skipped when no entity can be
    /// handed out.
    pub open spec fn apply_command(self, command: Command<V>) -> WorldView<V> {
        match command {
            Command::Spawn(components) => if self.entities.can_spawn() {
                self.spawn(first_map(component_pairs(components@)))
            } else {
                self
            },
            Command::Despawn(entity) => self.despawn(entity),
            Command::InsertComponent(entity, component) => self.insert_component(entity, component.id, component.value),
            Command::RemoveComponent(entity, id) => self.remove_component(entity, id),
        }
    }

    /// The world after `commands`, in order.
    pub open spec fn apply_commands(self, commands: Seq<Command<V>>) -> WorldView<V>
        decreases commands.len(),
    {
        if commands.len() == 0 {
            self
        } else {
            self.apply_commands(commands.drop_last()).apply_command(commands.last())
        }
    }

    /// The world with its command queue emptied.
    pub open spec fn without_commands(self) -> WorldView<V> {
        WorldView { commands: Seq::empty(), ..self }
    }

    /// The world with `resources` as its resources.
    pub open spec fn with_resources(self, resources: Map<TypeId, V>) -> WorldView<V> {
        WorldView { resources, ..self }
    }

    /// The world with `events` as its event channels.
    pub open spec fn with_events(self, events: Map<TypeId, Seq<V>>) -> WorldView<V> {
        WorldView { events, ..self }
    }

    pub open spec fn alive(self, entity: Entity) -> bool {
        self.entities.is_alive(entity)
    }

    /// The components of `entity` when it is alive and has a table row.
    pub open spec fn components_of(self, entity: Entity) -> Option<Map<ComponentId, V>> {
        if self.alive(entity) && entity.index < self.rows.len() {
            self.rows[entity.index as int]
        } else {
            None
        }
    }

    /// The value of component `id` of `entity`, if the entity is alive and has it.
    pub open spec fn component(self, entity: Entity, id: ComponentId) -> Option<V> {
        match self.components_of(entity) {
            Some(components) => if components.contains_key(id) {
                Some(components[id])
            } else {
                None
            },
            None => None,
        }
    }

    /// Number of entities with a table row.
    pub open spec fn table_len(self) -> nat {
        some_count(self.rows)
    }

    /// The world with the value of component `id` of `entity` replaced by `value` (unchanged
    /// when the entity is not alive or lacks it).
    pub open spec fn with_component(self, entity: Entity, id: ComponentId, value: V) -> WorldView<V> {
        if self.component(entity, id) is Some {
            WorldView {
                rows: self.rows.update(entity.index as int, Some(self.rows[entity.index as int]->0.insert(id, value))),
                ..self
            }
        } else {
            self
        }
    }

    /// `other` differs from this world at most in the values of component `id`: same
    /// entities, archetypes, resources and events, and the same rows with the same
    /// component types and the same values of every other component.
    pub open spec fn differs_only_in(self, other: WorldView<V>, id: ComponentId) -> bool {
        &&& other.entities == self.entities
        &&& other.archetypes == self.archetypes
        &&& other.resources == self.resources
        &&& other.events == self.events
        &&& other.rows.len() == self.rows.len()
        &&& forall|x: int| 0 <= x < self.rows.len() ==> (#[trigger] other.rows[x] is Some) == (self.rows[x] is Some)
        &&& forall|x: int| 0 <= x < self.rows.len() && (#[trigger] self.rows[x]) is Some ==> {
            &&& other.rows[x]->0.dom() == self.rows[x]->0.dom()
            &&& forall|c: ComponentId| #[trigger] self.rows[x]->0.contains_key(c) && c != id ==> other.rows[x]->0[c] == self.rows[x]->0[c]
        }
    }

    /// Replacing a value of component `id` keeps a world within "differs only in `id`".
    pub proof fn lemma_differs_with_component(self, other: WorldView<V>, entity: Entity, id: ComponentId, value: V)
        requires
            self.differs_only_in(other, id),
        ensures
            self.differs_only_in(other.with_component(entity, id, value), id),
    {
        let next = other.with_component(entity, id, value);
        if other.component(entity, id) is Some {
            let i = entity.index as int;
            assert(other.rows[i]->0.insert(id, value).dom() =~= other.rows[i]->0.dom());
            assert forall|x: int| 0 <= x < self.rows.len() && (#[trigger] self.rows[x]) is Some implies {
                &&& next.rows[x]->0.dom() == self.rows[x]->0.dom()
                &&& forall|c: ComponentId| #[trigger] self.rows[x]->0.contains_key(c) && c != id ==> next.rows[x]->0[c] == self.rows[x]->0[c]
            } by {
                if x == i {
                    assert(other.rows[x] is Some);
                }
            }
        }
    }

    /// The world after spawning an entity with the given components.
    pub open spec fn spawn(self, components: Map<ComponentId, V>) -> WorldView<V> {
        let entity = self.entities.next_entity();
        let map = components;
        let rows = if entity.index == self.rows.len() {
            self.rows.push(None)
        } else {
            self.rows
        };
        WorldView {
            entities: self.entities.spawn(),
            rows: rows.update(entity.index as int, Some(map)),
            archetypes: with_archetype(self.archetypes, map.dom()),
            ..self
        }
    }

    /// The world after despawning `entity` (unchanged when it is not alive).
    pub open spec fn despawn(self, entity: Entity) -> WorldView<V> {
        if self.alive(entity) {
            WorldView {
                entities: self.entities.despawn(entity),
                rows: self.rows.update(entity.index as int, None),
                ..self
            }
        } else {
            self
        }
    }

    /// The world after giving `entity` the component `id` with `value` (unchanged when
    /// the entity is not alive).
    pub open spec fn insert_component(self, entity: Entity, id: ComponentId, value: V) -> WorldView<V> {
        if !self.alive(entity) {
            self
        } else {
            match self.rows[entity.index as int] {
                Some(components) => WorldView {
                    rows: self.rows.update(entity.index as int, Some(components.insert(id, value))),
                    archetypes: with_archetype(self.archetypes, components.dom().insert(id)),
                    ..self
                },
                None => WorldView {
                    rows: self.rows.update(entity.index as int, Some(Map::empty().insert(id, value))),
                    archetypes: with_archetype(self.archetypes, Set::empty().insert(id)),
                    ..self
                },
            }
        }
    }

    /// The world after taking component `id` away from `entity` (unchanged when the
    /// entity is not alive or lacks it). An entity left with no components keeps no row.
    pub open spec fn remove_component(self, entity: Entity, id: ComponentId) -> WorldView<V> {
        if self.component(entity, id) is Some {
            let rest = self.rows[entity.index as int]->0.remove(id);
            if rest.dom() == Set::<ComponentId>::empty() {
                WorldView { rows: self.rows.update(entity.index as int, None), ..self }
            } else {
                WorldView {
                    rows: self.rows.update(entity.index as int, Some(rest)),
                    archetypes: with_archetype(self.archetypes, rest.dom()),
                    ..self
                }
            }
        } else {
            self
        }
    }
}

/// Entities, their table components, resources, events, and the queue of deferred
/// structural changes.
pub struct World<V> {
    entities: EntityAllocator,
    components: ComponentRegistry,
    table_storage: TableStorage<V>,
    locations: Vec<Option<TableEntityLocation>>,
    resources: Resources<V>,
    events: Events<V>,
    commands: Commands<V>,
}

impl<V> View for World<V> {
    type V = WorldView<V>;

    closed spec fn view(&self) -> WorldView<V> {
        WorldView {
            entities: self.entities@,
            rows: row_maps(self.table_storage@, self.locations@),
            archetypes: archetype_sets(self.table_storage@),
            resources: self.resources@,
            events: self.events@,
            commands: self.commands@,
        }
    }
}

impl<V> Default for World<V> {
    fn default() -> (world: Self)
        ensures
            world.wf(),
            world@ == WorldView::<V>::empty(),
    {
        Self::new()
    }
}

impl<V> World<V> {
    /// The table storage's contents.
    pub closed spec fn storage(&self) -> StorageView<V> {
        self.table_storage@
    }

    /// The world's invariant: the allocator, registry, storage, resources and events are
    /// well formed; each slot's location (if any) belongs to its alive entity and each
    /// stored row points back to it; every table key carries its registered order.
    pub closed spec fn wf(&self) -> bool {
        &&& self.entities@.wf()
        &&& self.components.wf()
        &&& self.table_storage@.wf()
        &&& self.resources.wf()
        &&& self.events.wf()
        &&& rows_tracked(self.table_storage@, self.entities@.slots, self.locations@)
        &&& keys_registered(self.table_storage@, self.components@)
    }

    pub fn new() -> (world: Self)
        ensures
            world.wf(),
            world@ == WorldView::<V>::empty(),
    {
        let world = World {
            entities: EntityAllocator::new(),
            components: ComponentRegistry::new(),
            table_storage: TableStorage::new(DEFAULT_CHUNK_CAPACITY),
            locations: Vec::new(),
            resources: Resources::new(),
            events: Events::new(),
            commands: Commands::new(),
        };
        proof {
            assert(world.locations@ =~= Seq::<Option<TableEntityLocation>>::empty());
            assert(world@.entities.slots =~= Seq::<EntitySlot>::empty());
            assert(world@.entities.free =~= Seq::<u32>::empty());
            assert(world@ =~= WorldView::<V>::empty());
        }
        world
    }

    pub fn is_alive(&self, entity: Entity) -> (alive: bool)
        ensures
            alive == self@.alive(entity),
    {
        self.entities.is_alive(entity)
    }

    /// Number of alive entities.
    pub fn entity_count(&self) -> (count: usize)
        requires
            self.wf(),
        ensures
            count == self@.entities.alive_count(),
    {
        self.entities.alive_count()
    }

    /// Number of entities with a table row.
    pub fn table_entity_count(&self) -> (count: usize)
        requires
            self.wf(),
        ensures
            count == self@.table_len(),
    {
        proof {
            self.lemma_view_rows();
            lemma_some_count_same(self.locations@, self@.rows);
        }
        self.table_storage.len()
    }

    /// Number of archetypes created so far.
    pub fn archetype_count(&self) -> (count: usize)
        ensures
            count == self@.archetypes.len(),
    {
        self.table_storage.archetype_count()
    }

    proof fn lemma_view_rows(&self)
        ensures
            self@.rows.len() == self.locations@.len(),
            forall|i: int| 0 <= i < self.locations@.len() ==> (#[trigger] self@.rows[i] is Some) == (self.locations@[i] is Some),
            forall|i: int| 0 <= i < self.locations@.len() && (#[trigger] self.locations@[i]) is Some
                ==> self@.rows[i] == Some(component_map(self.table_storage@, self.locations@[i]->0)),
    {
    }

    /// A well-formed world has a consistent view: each entity with a row is alive and has
    /// the component set of one of the archetypes, and the archetypes' component sets are
    /// all different.
    pub proof fn lemma_view_wf(&self)
        requires
            self.wf(),
        ensures
            self@.wf(),
    {
        let st = self.table_storage@;
        let view = self@;
        assert forall|x: int| 0 <= x < view.rows.len() && (#[trigger] view.rows[x]) is Some
            implies view.entities.slots[x].alive && view.archetypes.contains(view.rows[x]->0.dom()) by {
            assert(self.locations@[x] is Some);
            let l = self.locations@[x]->0;
            let a = l.archetype as int;
            assert(st.valid(l));
            assert(view.rows[x]->0.dom() =~= view.archetypes[a]);
        }
        assert forall|a: int, b: int| 0 <= a < view.archetypes.len() && 0 <= b < view.archetypes.len() && a != b
            implies view.archetypes[a] != view.archetypes[b] by {
            if view.archetypes[a] == view.archetypes[b] {
                let ka = st.archetypes[a].keys;
                let kb = st.archetypes[b].keys;
                assert(st.archetypes[a].wf());
                assert(st.archetypes[b].wf());
                assert forall|k: int| 0 <= k < ka.len() implies ComponentRegistry::order_in(self.components@, #[trigger] ka[k].id) == Some(ka[k].order) by {}
                assert forall|k: int| 0 <= k < kb.len() implies ComponentRegistry::order_in(self.components@, #[trigger] kb[k].id) == Some(kb[k].order) by {}
                lemma_same_ids_same_keys(ka, kb, self.components@);
            }
        }
    }

    /// Where the entity's row is, if it is alive and has one: the one location in storage
    /// whose row belongs to it.
    pub fn location(&self, entity: Entity) -> (location: Option<TableEntityLocation>)
        requires
            self.wf(),
        ensures
            location is Some == self@.components_of(entity) is Some,
            forall|l: TableEntityLocation| (self.storage().valid(l) && self.storage().entity_at(l) == entity) <==> location
                == Some(l),
    {
        if !self.entities.is_alive(entity) {
            proof {
                assert forall|l: TableEntityLocation| !(self.storage().valid(l) && self.storage().entity_at(l) == entity) by {
                    if self.table_storage@.valid(l) && self.table_storage@.entity_at(l) == entity {
                        assert(self.locations@[entity.index as int] == Some(l));
                    }
                }
            }
            return None;
        }
        proof {
            self.lemma_view_rows();
        }
        let location = self.locations[entity.index as usize];
        proof {
            let i = entity.index as int;
            if location is Some {
                assert(self.locations@[i] is Some);
            }
            assert forall|l: TableEntityLocation| (self.storage().valid(l) && self.storage().entity_at(l) == entity) <==> location
                == Some(l) by {
                if self.table_storage@.valid(l) && self.table_storage@.entity_at(l) == entity {
                    assert(self.locations@[i] == Some(l));
                }
                if location == Some(l) {
                    assert(self.locations@[i] is Some);
                }
            }
        }
        location
    }

    /// The value of component `id` of `entity`, if the entity is alive and has it.
    pub fn get_component(&self, entity: Entity, id: ComponentId) -> (component: Option<&V>)
        requires
            self.wf(),
        ensures
            match component {
                Some(value) => self@.component(entity, id) == Some(*value),
                None => self@.component(entity, id) is None,
            },
    {
        if !self.entities.is_alive(entity) {
            return None;
        }
        proof {
            self.lemma_view_rows();
        }
        let location = match self.locations[entity.index as usize] {
            Some(location) => location,
            None => return None,
        };
        proof {
            let st = self.table_storage@;
            let i = entity.index as int;
            assert(self.locations@[i] is Some);
            assert(st.valid(location));
            let arch = st.archetypes[location.archetype as int];
            assert(arch.wf());
            let chunk = arch.chunks[location.row.chunk as int];
            assert(chunk.wf());
            assert(chunk.ids == arch.ids());
        }
        self.table_storage.get(location, id)
    }

    /// Spawns an entity whose table row holds `components`; of several components of one
    /// type the first counts.
    pub fn spawn_table(&mut self, components: Vec<TableComponentValue<V>>) -> (entity: Entity)
        requires
            old(self).wf(),
            old(self)@.entities.can_spawn(),
        ensures
            final(self).wf(),
            entity == old(self)@.entities.next_entity(),
            final(self)@ == old(self)@.spawn(first_map(component_pairs(components@))),
    {
        let components = first_components(components);
        let ghost old_view = self@;
        let ghost old_storage = self.table_storage@;
        let ghost old_locations = self.locations@;
        let ghost old_slots = self.entities@.slots;
        let ghost old_infos = self.components@;
        let ghost pairs = component_pairs(components@);
        let keys = table_keys(&mut self.components, &components);
        proof {
            assert(key_ids(keys@) =~= pair_ids(pairs));
            assert(orders_distinct(keys@)) by {
                assert forall|a: int, b: int| 0 <= a < keys@.len() && 0 <= b < keys@.len() && a != b
                    implies #[trigger] keys@[a].order.0 != #[trigger] keys@[b].order.0 by {
                    assert(pair_ids(pairs)[a] != pair_ids(pairs)[b]);
                    ComponentRegistry::lemma_orders_differ(self.components@, keys@[a].id, keys@[b].id);
                }
            }
            assert forall|k: int| 0 <= k < keys@.len() implies pair_ids(pairs).contains(#[trigger] keys@[k].id) by {
                assert(pair_ids(pairs)[k] == keys@[k].id);
            }
            assert forall|x: ComponentId| registered(old_infos, x) implies #[trigger] ComponentRegistry::order_in(self.components@, x)
                == ComponentRegistry::order_in(old_infos, x) by {
                assert(self.components.order_of(x) == ComponentRegistry::order_in(old_infos, x));
            }
            lemma_keys_registered_grow(old_storage, old_infos, self.components@);
        }
        let entity = self.entities.spawn();
        if (entity.index as usize) == self.locations.len() {
            self.locations.push(None);
        }
        let ghost mid_locations = self.locations@;
        let ghost slots = self.entities@.slots;
        let ghost i = entity.index as int;
        proof {
            if i < old_locations.len() {
                assert(!old_slots[i].alive);
                assert(mid_locations == old_locations);
            } else {
                assert(mid_locations =~= old_locations.push(None));
            }
            assert forall|x: int| 0 <= x < old_locations.len() && (#[trigger] old_locations[x]) is Some implies slots[x] == old_slots[x] by {
                assert(x != i);
            }
            lemma_rows_reslotted(old_storage, old_slots, old_locations, slots, mid_locations);
            lemma_some_count_gap(mid_locations, i);
            vstd::std_specs::vec::axiom_spec_len(&self.locations);
        }
        let location = self.table_storage.insert(entity, components, keys);
        self.locations.set(entity.index as usize, Some(location));
        proof {
            let storage = self.table_storage@;
            lemma_row_inserted(old_storage, storage, slots, mid_locations, i, pairs, keys@, location);
            lemma_archetypes_inserted(old_storage, storage, entity, pairs, keys@, location, self.components@);
            assert(keyed_map(keys@, pairs) =~= pairs_map(pairs));
            let expected = old_view.spawn(pairs_map(pairs));
            assert(row_maps(storage, self.locations@) =~= expected.rows) by {
                assert forall|x: int| 0 <= x < self.locations@.len() implies #[trigger] row_maps(storage, self.locations@)[x] == expected.rows[x] by {
                    if x != i && mid_locations[x] is Some {
                        assert(x < old_locations.len());
                    }
                }
            }
            assert(self@ =~= expected);
        }
        entity
    }

    /// Despawns `entity` and drops its row; returns whether it was alive.
    pub fn despawn(&mut self, entity: Entity) -> (despawned: bool)
        requires
            old(self).wf(),
        ensures
            final(self).wf(),
            despawned == old(self)@.alive(entity),
            final(self)@ == old(self)@.despawn(entity),
            old(self)@.components_of(entity) is None ==> final(self).storage() == old(self).storage(),
            forall|l: TableEntityLocation| #[trigger] old(self).storage().valid(l) && old(self).storage().entity_at(l) == entity
                ==> final(self).storage() =~~= old(self).storage().removed(l),
    {
        if !self.entities.is_alive(entity) {
            proof {
                assert forall|l: TableEntityLocation| #[trigger] self.storage().valid(l) implies self.storage().entity_at(l)
                    != entity by {
                    assert(self.locations@[self.table_storage@.entity_at(l).index as int] == Some(l));
                }
            }
            return false;
        }
        let ghost old_view = self@;
        let ghost old_storage = self.table_storage@;
        let ghost old_locations = self.locations@;
        let ghost old_slots = self.entities@.slots;
        let i = entity.index as usize;
        proof {
            self.lemma_view_rows();
            assert forall|l: TableEntityLocation| #[trigger] old_storage.valid(l) && old_storage.entity_at(l) == entity
                implies old_locations[i as int] == Some(l) by {}
        }
        let location = match self.locations[i] {
            Some(location) => location,
            None => {
                let despawned = self.entities.despawn(entity);
                proof {
                    lemma_rows_reslotted(old_storage, old_slots, old_locations, self.entities@.slots, old_locations);
                    assert(self@.rows =~= old_view.rows.update(i as int, None));
                    assert(self@ =~= old_view.despawn(entity));
                }
                return despawned;
            },
        };
        proof {
            assert(old_locations[i as int] is Some);
            lemma_row_removed(old_storage, old_slots, old_locations, i as int, location);
            lemma_removed_storage_frame(old_storage, location);
            assert(old_storage.entity_at(old_storage.last_of(location)).index < old_locations.len());
        }
        self.locations.set(i, None);
        let moved = self.table_storage.remove(location);
        if let Some(moved_entity) = moved {
            self.locations.set(moved_entity.index as usize, Some(location));
        }
        let despawned = self.entities.despawn(entity);
        proof {
            let storage = self.table_storage@;
            let index = index_after_removal(old_storage, old_locations, i as int, location);
            assert(self.locations@ =~= index);
            lemma_rows_reslotted(storage, old_slots, index, self.entities@.slots, index);
            let expected = old_view.despawn(entity);
            assert(row_maps(storage, index) =~= expected.rows) by {
                assert forall|x: int| 0 <= x < index.len() implies #[trigger] row_maps(storage, index)[x] == expected.rows[x] by {
                    if x != i as int && index[x] is Some {
                        assert(old_locations[x] is Some);
                    }
                }
            }
            assert(self@ =~= expected);
        }
        despawned
    }

    /// Takes component `id` away from `entity`; returns whether the entity was alive and
    /// had it. An entity left with no component keeps no row.
    pub fn remove_component(&mut self, entity: Entity, id: ComponentId) -> (removed: bool)
        requires
            old(self).wf(),
        ensures
            final(self).wf(),
            removed == old(self)@.component(entity, id) is Some,
            final(self)@ == old(self)@.remove_component(entity, id),
            forall|l: TableEntityLocation| #[trigger] old(self).storage().valid(l) && old(self).storage().entity_at(l) == entity
                && old(self)@.component(entity, id) is Some && old(self).storage().moved_by_removal(l) is Some
                ==> final(self).storage().valid(l) && final(self).storage().entity_at(l) == old(self).storage().moved_by_removal(
                l,
            )->0,
    {
        if !self.entities.is_alive(entity) {
            return false;
        }
        let i = entity.index as usize;
        let location = match self.locations[i] {
            Some(location) => location,
            None => return false,
        };
        let ghost old_view = self@;
        let ghost old_storage = self.table_storage@;
        let ghost old_locations = self.locations@;
        let ghost slots = self.entities@.slots;
        let ghost a = location.archetype as int;
        let ghost old_keys = old_storage.archetypes[a].keys;
        let ghost old_pairs = old_storage.pairs_at(location);
        proof {
            assert(old_locations[i as int] is Some);
            assert(old_storage.valid(location));
            lemma_pairs_at(old_storage, location);
            lemma_row_removed(old_storage, slots, old_locations, i as int, location);
            lemma_removed_storage_frame(old_storage, location);
            assert(old_view.rows[i as int] == Some(component_map(old_storage, location)));
            let last = old_storage.last_of(location);
            assert(old_storage.entity_at(last).index < old_locations.len());
        }
        let removal = match self.table_storage.remove_component(location, id) {
            Some(removal) => removal,
            None => {
                proof {
                    assert(!old_storage.ids_at(location).contains(id));
                    assert(old_view.component(entity, id) is None);
                }
                return false;
            },
        };
        let ghost middle = old_storage.removed(location);
        let ghost cleared = index_after_removal(old_storage, old_locations, i as int, location);
        let ghost keep_key = |key: TableComponentKey| key.id != id;
        let ghost keep_pair = |pair: (ComponentId, V)| pair.0 != id;
        let ghost keys = old_keys.filter(keep_key);
        let ghost pairs = old_pairs.filter(keep_pair);
        let ghost rest = component_map(old_storage, location).remove(id);
        proof {
            lemma_keyed_map_without(old_keys, old_pairs, id, keep_key, keep_pair);
            assert(keys.len() == 0 <==> rest.dom() == Set::<ComponentId>::empty()) by {
                if keys.len() > 0 {
                    assert(key_ids(keys)[0] == keys[0].id);
                    assert(rest.dom().contains(keys[0].id));
                } else {
                    assert(rest.dom() =~= Set::<ComponentId>::empty());
                }
            }
        }
        proof {
            assert(i < self.locations@.len());
        }
        if let Some(moved) = removal.moved_entity {
            self.locations.set(moved.index as usize, Some(location));
        }
        match removal.new_location {
            Some(new_location) => {
                self.locations.set(i, Some(new_location));
            },
            None => {
                self.locations.set(i, None);
            },
        }
        proof {
            let storage = self.table_storage@;
            let locations = self.locations@;
            let expected = old_view.remove_component(entity, id);
            if keys.len() == 0 {
                assert(locations =~= cleared);
                assert(storage == middle);
                assert forall|x: int| 0 <= x < locations.len() implies #[trigger] row_maps(storage, locations)[x] == expected.rows[x] by {
                    if x != i as int && locations[x] is Some {
                        assert(old_locations[x] is Some);
                    }
                }
                assert(row_maps(storage, locations) =~= expected.rows);
            } else {
                let new_location = removal.new_location->0;
                assert(locations =~= cleared.update(i as int, Some(new_location)));
                lemma_row_inserted(middle, storage, slots, cleared, i as int, pairs, keys, new_location);
                assert forall|k: int| 0 <= k < keys.len() implies ComponentRegistry::order_in(self.components@, #[trigger] keys[k].id) == Some(keys[k].order) by {
                    assert(keys.contains(keys[k]));
                    assert(old_keys.contains(keys[k]));
                    let j = choose|j: int| 0 <= j < old_keys.len() && old_keys[j] == keys[k];
                    assert(old_storage.archetypes[a].keys[j] == keys[k]);
                }
                lemma_archetypes_inserted(middle, storage, removal.removed_entity, pairs, keys, new_location, self.components@);
                assert forall|x: int| 0 <= x < locations.len() implies #[trigger] row_maps(storage, locations)[x] == expected.rows[x] by {
                    if x != i as int && locations[x] is Some {
                        assert(cleared[x] is Some);
                        assert(old_locations[x] is Some);
                    }
                }
                assert(row_maps(storage, locations) =~= expected.rows);
            }
            assert(self@ =~= expected);
            assert forall|l: TableEntityLocation| #[trigger] old_storage.valid(l) && old_storage.entity_at(l) == entity
                && old_storage.moved_by_removal(l) is Some implies storage.valid(l) && storage.entity_at(l)
                == old_storage.moved_by_removal(l)->0 by {
                assert(old_locations[i as int] == Some(l));
                if keys.len() > 0 {
                    lemma_inserted_frame(middle, storage, removal.removed_entity, pairs, keys, removal.new_location->0);
                }
            }
        }
        true
    }
    /// Gives `entity` the component (replacing the value of a component of the same type);
    /// returns whether the entity was alive.
    pub fn insert_component(&mut self, entity: Entity, component: TableComponentValue<V>) -> (inserted: bool)
        requires
            old(self).wf(),
        ensures
            final(self).wf(),
            inserted == old(self)@.alive(entity),
            final(self)@ == old(self)@.insert_component(entity, component.id, component.value),
            forall|l: TableEntityLocation| #[trigger] old(self).storage().valid(l) && old(self).storage().entity_at(l) == entity
                && old(self)@.component(entity, component.id) is None && old(self).storage().moved_by_removal(l) is Some
                ==> final(self).storage().valid(l) && final(self).storage().entity_at(l) == old(self).storage().moved_by_removal(
                l,
            )->0,
    {
        if !self.entities.is_alive(entity) {
            return false;
        }
        let ghost old_view = self@;
        let ghost old_storage = self.table_storage@;
        let ghost old_locations = self.locations@;
        let ghost slots = self.entities@.slots;
        let ghost old_infos = self.components@;
        let ghost id = component.id;
        let ghost value = component.value;
        let key = table_key(&mut self.components, component.id, component.name);
        proof {
            lemma_keys_registered_grow(old_storage, old_infos, self.components@);
        }
        let i = entity.index as usize;
        match self.locations[i] {
            None => {
                let mut components: Vec<TableComponentValue<V>> = Vec::new();
                components.push(component);
                let mut keys: Vec<TableComponentKey> = Vec::new();
                keys.push(key);
                proof {
                    lemma_some_count_gap(old_locations, i as int);
                    vstd::std_specs::vec::axiom_spec_len(&self.locations);
                    assert(pair_ids(component_pairs(components@)) =~= seq![id]);
                    assert(key_ids(keys@) =~= seq![id]);
                    assert(pair_ids(component_pairs(components@)).contains(keys@[0].id)) by {
                        assert(pair_ids(component_pairs(components@))[0] == id);
                    }
                    assert(orders_distinct(keys@));
                }
                let location = self.table_storage.insert(entity, components, keys);
                self.locations.set(i, Some(location));
                proof {
                    let storage = self.table_storage@;
                    let pairs = component_pairs(components@);
                    lemma_row_inserted(old_storage, storage, slots, old_locations, i as int, pairs, keys@, location);
                    lemma_archetypes_inserted(old_storage, storage, entity, pairs, keys@, location, self.components@);
                    let none_keys = Seq::<TableComponentKey>::empty();
                    let none_pairs = Seq::<(ComponentId, V)>::empty();
                    assert(key_ids(none_keys) =~= pair_ids(none_pairs));
                    lemma_keyed_map_with(none_keys, none_pairs, key, value);
                    assert(none_keys.push(key) =~= keys@);
                    assert(none_pairs.push((id, value)) =~= pairs);
                    assert(keyed_map(none_keys, none_pairs) =~= Map::<ComponentId, V>::empty());
                    let expected = old_view.insert_component(entity, id, value);
                    assert(Map::<ComponentId, V>::empty().insert(id, value).dom() =~= Set::<ComponentId>::empty().insert(id));
                    assert forall|x: int| 0 <= x < self.locations@.len() implies #[trigger] row_maps(storage, self.locations@)[x] == expected.rows[x] by {
                        if x != i as int && old_locations[x] is Some {
                            assert(self.locations@[x] == old_locations[x]);
                        }
                    }
                    assert(row_maps(storage, self.locations@) =~= expected.rows);
                    assert(self@ =~= expected);
                }
                true
            },
            Some(location) => {
                let ghost a = location.archetype as int;
                let ghost old_keys = old_storage.archetypes[a].keys;
                let ghost old_pairs = old_storage.pairs_at(location);
                proof {
                    assert(old_locations[i as int] is Some);
                    assert(old_storage.valid(location));
                    self.lemma_row_owner(location);
                    lemma_pairs_at(old_storage, location);
                    lemma_row_removed(old_storage, slots, old_locations, i as int, location);
                    lemma_removed_storage_frame(old_storage, location);
                    let last = old_storage.last_of(location);
                    assert(old_storage.entity_at(last).index < old_locations.len());
                    assert(old_view.rows[i as int] == Some(component_map(old_storage, location)));
                    assert forall|k: int| 0 <= k < old_keys.len() && (#[trigger] old_keys[k]).id != key.id
                        implies old_keys[k].order.0 != key.order.0 by {
                        assert(ComponentRegistry::order_in(self.components@, old_keys[k].id) == Some(old_keys[k].order));
                        ComponentRegistry::lemma_orders_differ(self.components@, old_keys[k].id, key.id);
                    }
                }
                let insertion = match self.table_storage.insert_component(location, component, key) {
                    Some(insertion) => insertion,
                    None => {
                        proof {
                            assert(false);
                        }
                        return false;
                    },
                };
                proof {
                    assert(i < self.locations@.len());
                }
                if let Some(moved) = insertion.moved_entity {
                    self.locations.set(moved.index as usize, Some(location));
                }
                self.locations.set(i, Some(insertion.new_location));
                proof {
                    let storage = self.table_storage@;
                    let locations = self.locations@;
                    let expected = old_view.insert_component(entity, id, value);
                    let old_map = component_map(old_storage, location);
                    if old_storage.ids_at(location).contains(id) {
                        lemma_value_replaced(old_storage, slots, old_locations, location, id, value);
                        assert(locations =~= old_locations);
                        assert(old_map.dom().insert(id) =~= old_map.dom());
                        assert(old_view.archetypes[a] =~= old_map.dom());
                        assert(old_view.archetypes.contains(old_map.dom()));
                        assert forall|x: int| 0 <= x < locations.len() implies #[trigger] row_maps(storage, locations)[x] == expected.rows[x] by {
                            if x != i as int && locations[x] is Some {
                                assert(old_storage.valid(locations[x]->0));
                                assert(locations[x]->0 != location);
                            }
                        }
                        assert(row_maps(storage, locations) =~= expected.rows);
                    } else {
                        let middle = old_storage.removed(location);
                        let cleared = index_after_removal(old_storage, old_locations, i as int, location);
                        let keys = old_keys.push(key);
                        let pairs = old_pairs.push((id, value));
                        let new_location = insertion.new_location;
                        lemma_keyed_map_with(old_keys, old_pairs, key, value);
                        assert(locations =~= cleared.update(i as int, Some(new_location)));
                        lemma_row_inserted(middle, storage, slots, cleared, i as int, pairs, keys, new_location);
                        assert forall|k: int| 0 <= k < keys.len() implies ComponentRegistry::order_in(self.components@, #[trigger] keys[k].id) == Some(keys[k].order) by {
                            if k < old_keys.len() {
                                assert(keys[k] == old_storage.archetypes[a].keys[k]);
                            }
                        }
                        lemma_archetypes_inserted(middle, storage, insertion.entity, pairs, keys, new_location, self.components@);
                        assert forall|x: int| 0 <= x < locations.len() implies #[trigger] row_maps(storage, locations)[x] == expected.rows[x] by {
                            if x != i as int && locations[x] is Some {
                                assert(cleared[x] is Some);
                                assert(old_locations[x] is Some);
                            }
                        }
                        assert(row_maps(storage, locations) =~= expected.rows);
                        assert forall|l: TableEntityLocation| #[trigger] old_storage.valid(l) && old_storage.entity_at(l) == entity
                            && old_storage.moved_by_removal(l) is Some implies storage.valid(l) && storage.entity_at(l)
                            == old_storage.moved_by_removal(l)->0 by {
                            assert(old_locations[i as int] == Some(l));
                            lemma_inserted_frame(middle, storage, insertion.entity, pairs, keys, new_location);
                        }
                    }
                    assert(self@ =~= expected);
                    assert(old_view.component(entity, id) == old_storage.value(location, id));
                    assert forall|l: TableEntityLocation| #[trigger] old_storage.valid(l) && old_storage.entity_at(l) == entity
                        implies l == location by {
                        assert(old_locations[i as int] == Some(l));
                    }
                }
                true
            },
        }
    }
    /// The value of component `id` of `entity`, for writing, if the entity is alive and
    /// has it.
    pub fn get_component_mut(&mut self, entity: Entity, id: ComponentId) -> (component: Option<&mut V>)
        requires
            old(self).wf(),
        ensures
            final(self).wf(),
            match old(self)@.component(entity, id) {
                Some(v) => component is Some && *component->0 == v && final(self)@ == old(self)@.with_component(
                    entity,
                    id,
                    *final(component->0),
                ),
                None => component is None && final(self)@ == old(self)@,
            },
    {
        if !self.entities.is_alive(entity) {
            return None;
        }
        let i = entity.index as usize;
        let location = match self.locations[i] {
            Some(location) => location,
            None => return None,
        };
        proof {
            let st = self.table_storage@;
            let locations = self.locations@;
            let slots = self.entities@.slots;
            let infos = self.components@;
            let old_view = self@;
            assert(locations[i as int] is Some);
            assert(st.valid(location));
            let arch = st.archetypes[location.archetype as int];
            assert(arch.wf());
            let chunk = arch.chunks[location.row.chunk as int];
            assert(chunk.wf());
            assert(chunk.ids == arch.ids());
            assert(old_view.rows[i as int] == Some(component_map(st, location)));
            if st.ids_at(location).contains(id) {
                assert forall|y: V| {
                    &&& rows_tracked(#[trigger] st.with_value(location, id, y), slots, locations)
                    &&& keys_registered(st.with_value(location, id, y), infos)
                    &&& archetype_sets(st.with_value(location, id, y)) == archetype_sets(st)
                    &&& row_maps(st.with_value(location, id, y), locations) == old_view.with_component(entity, id, y).rows
                } by {
                    lemma_value_replaced(st, slots, locations, location, id, y);
                    let expected = old_view.with_component(entity, id, y);
                    assert forall|x: int| 0 <= x < locations.len() implies #[trigger] row_maps(st.with_value(location, id, y), locations)[x] == expected.rows[x] by {
                        if x != i as int && locations[x] is Some {
                            assert(st.valid(locations[x]->0));
                            assert(locations[x]->0 != location);
                        }
                    }
                    assert(row_maps(st.with_value(location, id, y), locations) =~= expected.rows);
                }
            }
        }
        self.table_storage.get_mut(location, id)
    }
    /// The entity of a stored row is alive, and its components are that row's.
    proof fn lemma_row_owner(&self, location: TableEntityLocation)
        requires
            self.wf(),
            self.storage().valid(location),
        ensures
            self@.alive(self.storage().entity_at(location)),
            self.locations@[self.storage().entity_at(location).index as int] == Some(location),
            self@.components_of(self.storage().entity_at(location)) == Some(component_map(self.storage(), location)),
            forall|id: ComponentId| #[trigger] self@.component(self.storage().entity_at(location), id) == self.storage().value(location, id),
    {
        let st = self.table_storage@;
        let x = st.entity_at(location).index as int;
        assert(self.locations@[x] == Some(location));
        assert forall|id: ComponentId| #[trigger] self@.component(self.storage().entity_at(location), id) == self.storage().value(location, id) by {
            lemma_value_component(st, location, id);
        }
    }

    /// An entity with a row is the owner of the row its slot names.
    proof fn lemma_owner_row(&self, entity: Entity)
        requires
            self.wf(),
            self@.components_of(entity) is Some,
        ensures
            self.locations@[entity.index as int] matches Some(location) && {
                &&& self.storage().valid(location)
                &&& self.storage().entity_at(location) == entity
                &&& self@.components_of(entity) == Some(component_map(self.storage(), location))
            },
    {
        let x = entity.index as int;
        assert(self.locations@[x] is Some);
    }

    /// Every alive entity that has component `id`, each once, with its value, in the order
    /// in which the storage holds their rows.
    pub fn query(&self, id: ComponentId) -> (items: Vec<QueryItem<'_, V>>)
        requires
            self.wf(),
        ensures
            forall|k: int| 0 <= k < items@.len() ==> self@.component(#[trigger] items@[k].entity, id) == Some(*items@[k].component),
            forall|e: Entity| #[trigger] self@.component(e, id) is Some ==> exists|k: int| 0 <= k < items@.len() && #[trigger] items@[k].entity == e,
            forall|j: int, k: int| 0 <= j < items@.len() && 0 <= k < items@.len() && j != k ==> #[trigger] items@[j].entity != #[trigger] items@[k].entity,
            forall|j: int, k: int, lj: TableEntityLocation, lk: TableEntityLocation|
                #![trigger items@[j], items@[k], self.storage().entity_at(lj), self.storage().entity_at(lk)]
                0 <= j < k < items@.len() && self.storage().valid(lj) && self.storage().entity_at(lj) == items@[j].entity
                    && self.storage().valid(lk) && self.storage().entity_at(lk) == items@[k].entity ==> location_before(
                    lj,
                    lk.archetype as int,
                    lk.row.chunk as int,
                    lk.row.row as int,
                ),
    {
        let items = self.table_storage.query(id);
        proof {
            let st = self.table_storage@;
            let ids = seq![id];
            let locations = choose|locations: Seq<TableEntityLocation>| rows_with(st, ids, locations)
                && #[trigger] query_items(st, id, locations, items@);
            assert forall|k: int| 0 <= k < items@.len() implies self@.component(#[trigger] items@[k].entity, id) == Some(*items@[k].component) by {
                assert(st.valid(locations[k]));
                self.lemma_row_owner(locations[k]);
            }
            assert forall|e: Entity| #[trigger] self@.component(e, id) is Some implies exists|k: int| 0 <= k < items@.len() && #[trigger] items@[k].entity == e by {
                self.lemma_owner_row(e);
                let l = self.locations@[e.index as int]->0;
                lemma_value_component(st, l, id);
                assert(st.has_all(l, ids)) by {
                    assert forall|q: int| 0 <= q < ids.len() implies st.ids_at(l).contains(#[trigger] ids[q]) by {
                        assert(ids[q] == id);
                    }
                }
                assert(locations.contains(l));
                let k = choose|k: int| 0 <= k < locations.len() && locations[k] == l;
                assert(items@[k].entity == e);
            }
            assert forall|j: int, k: int| 0 <= j < items@.len() && 0 <= k < items@.len() && j != k
                implies #[trigger] items@[j].entity != #[trigger] items@[k].entity by {
                assert(st.valid(locations[j]));
                assert(st.valid(locations[k]));
                self.lemma_row_owner(locations[j]);
                self.lemma_row_owner(locations[k]);
                assert(locations[j] != locations[k]);
            }
            assert forall|j: int, k: int, lj: TableEntityLocation, lk: TableEntityLocation|
                #![trigger items@[j], items@[k], self.storage().entity_at(lj), self.storage().entity_at(lk)]
                0 <= j < k < items@.len() && self.storage().valid(lj) && self.storage().entity_at(lj) == items@[j].entity
                    && self.storage().valid(lk) && self.storage().entity_at(lk) == items@[k].entity implies location_before(
                    lj,
                    lk.archetype as int,
                    lk.row.chunk as int,
                    lk.row.row as int,
                ) by {
                assert(st.valid(locations[j]));
                assert(st.valid(locations[k]));
                assert(self.locations@[st.entity_at(lj).index as int] == Some(lj));
                assert(self.locations@[st.entity_at(locations[j]).index as int] == Some(locations[j]));
                assert(self.locations@[st.entity_at(lk).index as int] == Some(lk));
                assert(self.locations@[st.entity_at(locations[k]).index as int] == Some(locations[k]));
            }
        }
        items
    }

    /// Every alive entity that has both components `first` and `second`, each once, with
    /// their values, in the order in which the storage holds their rows.
    pub fn query2(&self, first: ComponentId, second: ComponentId) -> (items: Vec<QueryItem2<'_, V>>)
        requires
            self.wf(),
        ensures
            forall|k: int| 0 <= k < items@.len() ==> self@.component(#[trigger] items@[k].entity, first) == Some(*items@[k].first),
            forall|k: int| 0 <= k < items@.len() ==> self@.component(#[trigger] items@[k].entity, second) == Some(*items@[k].second),
            forall|e: Entity| #[trigger] self@.component(e, first) is Some && self@.component(e, second) is Some
                ==> exists|k: int| 0 <= k < items@.len() && #[trigger] items@[k].entity == e,
            forall|j: int, k: int| 0 <= j < items@.len() && 0 <= k < items@.len() && j != k ==> #[trigger] items@[j].entity != #[trigger] items@[k].entity,
            forall|j: int, k: int, lj: TableEntityLocation, lk: TableEntityLocation|
                #![trigger items@[j], items@[k], self.storage().entity_at(lj), self.storage().entity_at(lk)]
                0 <= j < k < items@.len() && self.storage().valid(lj) && self.storage().entity_at(lj) == items@[j].entity
                    && self.storage().valid(lk) && self.storage().entity_at(lk) == items@[k].entity ==> location_before(
                    lj,
                    lk.archetype as int,
                    lk.row.chunk as int,
                    lk.row.row as int,
                ),
    {
        let items = self.table_storage.query2(first, second);
        proof {
            let st = self.table_storage@;
            let ids = seq![first, second];
            let locations = choose|locations: Seq<TableEntityLocation>| rows_with(st, ids, locations)
                && #[trigger] query2_items(st, first, second, locations, items@);
            assert forall|k: int| 0 <= k < items@.len() implies self@.component(#[trigger] items@[k].entity, first) == Some(*items@[k].first) by {
                assert(st.valid(locations[k]));
                self.lemma_row_owner(locations[k]);
            }
            assert forall|k: int| 0 <= k < items@.len() implies self@.component(#[trigger] items@[k].entity, second) == Some(*items@[k].second) by {
                assert(st.valid(locations[k]));
                self.lemma_row_owner(locations[k]);
            }
            assert forall|e: Entity| #[trigger] self@.component(e, first) is Some && self@.component(e, second) is Some
                implies exists|k: int| 0 <= k < items@.len() && #[trigger] items@[k].entity == e by {
                self.lemma_owner_row(e);
                let l = self.locations@[e.index as int]->0;
                lemma_value_component(st, l, first);
                lemma_value_component(st, l, second);
                assert(st.has_all(l, ids)) by {
                    assert forall|q: int| 0 <= q < ids.len() implies st.ids_at(l).contains(#[trigger] ids[q]) by {
                        if q == 0 {
                            assert(ids[q] == first);
                        } else {
                            assert(ids[q] == second);
                        }
                    }
                }
                assert(locations.contains(l));
                let k = choose|k: int| 0 <= k < locations.len() && locations[k] == l;
                assert(items@[k].entity == e);
            }
            assert forall|j: int, k: int| 0 <= j < items@.len() && 0 <= k < items@.len() && j != k
                implies #[trigger] items@[j].entity != #[trigger] items@[k].entity by {
                assert(st.valid(locations[j]));
                assert(st.valid(locations[k]));
                self.lemma_row_owner(locations[j]);
                self.lemma_row_owner(locations[k]);
                assert(locations[j] != locations[k]);
            }
            assert forall|j: int, k: int, lj: TableEntityLocation, lk: TableEntityLocation|
                #![trigger items@[j], items@[k], self.storage().entity_at(lj), self.storage().entity_at(lk)]
                0 <= j < k < items@.len() && self.storage().valid(lj) && self.storage().entity_at(lj) == items@[j].entity
                    && self.storage().valid(lk) && self.storage().entity_at(lk) == items@[k].entity implies location_before(
                    lj,
                    lk.archetype as int,
                    lk.row.chunk as int,
                    lk.row.row as int,
                ) by {
                assert(st.valid(locations[j]));
                assert(st.valid(locations[k]));
                assert(self.locations@[st.entity_at(lj).index as int] == Some(lj));
                assert(self.locations@[st.entity_at(locations[j]).index as int] == Some(locations[j]));
                assert(self.locations@[st.entity_at(lk).index as int] == Some(lk));
                assert(self.locations@[st.entity_at(locations[k]).index as int] == Some(locations[k]));
            }
        }
        items
    }

    /// Every alive entity that has component `id`, each once.
    fn entities_with(&self, id: ComponentId) -> (entities: Vec<Entity>)
        requires
            self.wf(),
        ensures
            forall|e: Entity| #[trigger] entities@.contains(e) <==> self@.component(e, id) is Some,
            entities@.no_duplicates(),
    {
        let items = self.query(id);
        let mut entities: Vec<Entity> = Vec::new();
        let mut k: usize = 0;
        while k < items.len()
            invariant
                k <= items@.len(),
                entities@.len() == k,
                forall|j: int| 0 <= j < k ==> #[trigger] entities@[j] == items@[j].entity,
            decreases items@.len() - k,
        {
            entities.push(items[k].entity);
            k += 1;
        }
        proof {
            assert forall|e: Entity| #[trigger] entities@.contains(e) <==> self@.component(e, id) is Some by {
                if self@.component(e, id) is Some {
                    let k = choose|k: int| 0 <= k < items@.len() && #[trigger] items@[k].entity == e;
                    assert(entities@[k] == e);
                }
                if entities@.contains(e) {
                    let k = choose|k: int| 0 <= k < entities@.len() && entities@[k] == e;
                    assert(items@[k].entity == e);
                }
            }
            assert forall|i: int, j: int| 0 <= i < entities@.len() && 0 <= j < entities@.len() && i != j implies entities@[i] != entities@[j] by {
                assert(items@[i].entity != items@[j].entity);
            }
        }
        entities
    }

    /// Replaces the value of component `id` of every alive entity that has it by what
    /// `update` makes of the entity and the current value; returns those entities, each once.
    pub fn query_mut<F: Fn(Entity, &V) -> V>(&mut self, id: ComponentId, update: F) -> (visited: Vec<Entity>)
        requires
            old(self).wf(),
            forall|e: Entity, v: V| old(self)@.component(e, id) == Some(v) ==> #[trigger] update.requires((e, &v)),
        ensures
            final(self).wf(),
            forall|e: Entity| #[trigger] visited@.contains(e) <==> old(self)@.component(e, id) is Some,
            visited@.no_duplicates(),
            old(self)@.differs_only_in(final(self)@, id),
            forall|e: Entity| #[trigger] updated_by(update, e, old(self)@.component(e, id), final(self)@.component(e, id)),
    {
        let ghost old_view = self@;
        let entities = self.entities_with(id);
        let mut k: usize = 0;
        while k < entities.len()
            invariant
                self.wf(),
                k <= entities@.len(),
                forall|e: Entity| #[trigger] entities@.contains(e) <==> old_view.component(e, id) is Some,
                entities@.no_duplicates(),
                forall|e: Entity, v: V| old_view.component(e, id) == Some(v) ==> #[trigger] update.requires((e, &v)),
                old_view.differs_only_in(self@, id),
                forall|j: int| 0 <= j < k ==> #[trigger] updated_by(update, entities@[j], old_view.component(entities@[j], id), self@.component(entities@[j], id)),
                forall|j: int| k <= j < entities@.len() ==> self@.component(#[trigger] entities@[j], id) == old_view.component(entities@[j], id),
            decreases entities@.len() - k,
        {
            let entity = entities[k];
            let ghost before = self@;
            proof {
                assert(entities@.contains(entity));
                assert(self@.component(entity, id) == old_view.component(entity, id));
            }
            match self.get_component_mut(entity, id) {
                Some(slot) => {
                    let value = update(entity, &*slot);
                    *slot = value;
                },
                None => {
                    proof {
                        assert(false);
                    }
                },
            }
            proof {
                let after = self@;
                assert(after == before.with_component(entity, id, after.component(entity, id)->0));
                old_view.lemma_differs_with_component(before, entity, id, after.component(entity, id)->0);
                assert forall|j: int| 0 <= j < entities@.len() && j != k implies #[trigger] entities@[j].index != entity.index
                    || !old_view.alive(entities@[j]) by {
                    if entities@[j].index == entity.index {
                        assert(entities@.contains(entities@[j]));
                        assert(entities@[j] != entity);
                    }
                }
            }
            k += 1;
        }
        proof {
            assert forall|e: Entity| #[trigger] updated_by(update, e, old_view.component(e, id), self@.component(e, id)) by {
                if old_view.component(e, id) is Some {
                    assert(entities@.contains(e));
                    let j = choose|j: int| 0 <= j < entities@.len() && entities@[j] == e;
                    assert(updated_by(update, entities@[j], old_view.component(entities@[j], id), self@.component(entities@[j], id)));
                }
            }
        }
        entities
    }
    /// Whether another entity can be spawned.
    pub fn can_spawn(&self) -> (can: bool)
        ensures
            can == self@.entities.can_spawn(),
    {
        self.entities.can_spawn()
    }

    /// Spawns an entity with the components of `bundle`; of several components of one
    /// type the first counts.
    pub fn spawn<B: Bundle<V>>(&mut self, bundle: B) -> (entity: Entity)
        requires
            old(self).wf(),
            old(self)@.entities.can_spawn(),
        ensures
            final(self).wf(),
            entity == old(self)@.entities.next_entity(),
            final(self)@ == old(self)@.spawn(first_map(component_pairs(bundle.components()))),
    {
        self.spawn_table(bundle.into_bundle().into_table_components())
    }

    /// Makes one queued command's change.
    pub(crate) fn apply_command(&mut self, command: Command<V>)
        requires
            old(self).wf(),
        ensures
            final(self).wf(),
            final(self)@ == old(self)@.apply_command(command),
    {
        match command {
            Command::Spawn(components) => {
                if self.entities.can_spawn() {
                    self.spawn_table(components);
                }
            },
            Command::Despawn(entity) => {
                self.despawn(entity);
            },
            Command::InsertComponent(entity, component) => {
                self.insert_component(entity, component);
            },
            Command::RemoveComponent(entity, id) => {
                self.remove_component(entity, id);
            },
        }
    }

    /// The queue of deferred changes.
    pub fn commands(&mut self) -> (commands: &mut Commands<V>)
        requires
            old(self).wf(),
        ensures
            commands@ == old(self)@.commands,
            final(self).wf(),
            final(self)@ == (WorldView { commands: final(commands)@, ..old(self)@ }),
    {
        &mut self.commands
    }

    /// Empties the command queue and makes its changes, in queue order.
    pub fn apply_commands(&mut self)
        requires
            old(self).wf(),
        ensures
            final(self).wf(),
            final(self)@ == old(self)@.without_commands().apply_commands(old(self)@.commands),
            final(self)@.commands.len() == 0,
    {
        proof {
            crate::ecs::world_laws::law_commands_keep_queue(old(self)@.without_commands(), old(self)@.commands);
        }
        let mut commands = Commands::new();
        std::mem::swap(&mut commands, &mut self.commands);
        proof {
            assert(self@ == old(self)@.without_commands());
        }
        commands.apply(self);
    }

    /// Stores `resource` under `key`; returns the resource it replaces, if any.
    pub fn insert_resource(&mut self, key: TypeId, resource: V) -> (previous: Option<V>)
        requires
            old(self).wf(),
        ensures
            final(self).wf(),
            final(self)@ == old(self)@.with_resources(old(self)@.resources.insert(key, resource)),
            previous == if old(self)@.resources.contains_key(key) {
                Some(old(self)@.resources[key])
            } else {
                None
            },
    {
        self.resources.insert(key, resource)
    }

    /// The resource stored under `key`, if any.
    pub fn get_resource(&self, key: TypeId) -> (resource: Option<&V>)
        requires
            self.wf(),
        ensures
            resource == if self@.resources.contains_key(key) {
                Some(&self@.resources[key])
            } else {
                None
            },
    {
        self.resources.get(key)
    }

    /// The resource stored under `key`, for writing, if any.
    pub fn get_resource_mut(&mut self, key: TypeId) -> (resource: Option<&mut V>)
        requires
            old(self).wf(),
        ensures
            final(self).wf(),
            old(self)@.resources.contains_key(key) ==> resource is Some && *resource->0 == old(self)@.resources[key]
                && final(self)@ == old(self)@.with_resources(old(self)@.resources.insert(key, *final(resource->0))),
            !old(self)@.resources.contains_key(key) ==> resource is None && final(self)@ == old(self)@,
    {
        self.resources.get_mut(key)
    }

    /// Takes the resource stored under `key` out, if any.
    pub fn remove_resource(&mut self, key: TypeId) -> (removed: Option<V>)
        requires
            old(self).wf(),
        ensures
            final(self).wf(),
            final(self)@ == old(self)@.with_resources(old(self)@.resources.remove(key)),
            removed == if old(self)@.resources.contains_key(key) {
                Some(old(self)@.resources[key])
            } else {
                None
            },
    {
        self.resources.remove(key)
    }

    pub fn contains_resource(&self, key: TypeId) -> (contains: bool)
        requires
            self.wf(),
        ensures
            contains == self@.resources.contains_key(key),
    {
        self.resources.contains(key)
    }

    /// Number of stored resources.
    pub fn resource_count(&self) -> (count: usize)
        requires
            self.wf(),
        ensures
            self@.resources.dom().finite(),
            count == self@.resources.dom().len(),
    {
        self.resources.len()
    }

    /// Appends `event` to the channel under `key`.
    pub fn send_event(&mut self, key: TypeId, event: V)
        requires
            old(self).wf(),
        ensures
            final(self).wf(),
            final(self)@ == old(self)@.with_events(old(self)@.events.insert(key, events_of(old(self)@.events, key).push(event))),
    {
        self.events.send(key, event)
    }

    /// The events sent on the channel under `key` since the last clearing, oldest first.
    pub fn events(&self, key: TypeId) -> (events: &[V])
        requires
            self.wf(),
        ensures
            events@ == events_of(self@.events, key),
    {
        self.events.read(key)
    }

    /// Empties every event channel.
    pub fn clear_events(&mut self)
        requires
            old(self).wf(),
        ensures
            final(self).wf(),
            final(self)@ == old(self)@.with_events(
                Map::new(|key: TypeId| old(self)@.events.contains_key(key), |key: TypeId| Seq::<V>::empty()),
            ),
    {
        self.events.clear()
    }
}

} // verus!
