use vstd::prelude::*;

use crate::ecs::command::Command;
use crate::ecs::component::ComponentId;
use crate::ecs::entity::{law_despawn_kills_only_its_entity, law_spawned_entity_is_alive, next_generation, Entity};
use crate::ecs::row_index::{first_map, lemma_some_count_update, with_archetype};
use crate::ecs::storage::table::storage::component_pairs;
use crate::ecs::storage::table::chunk::pair_ids;
use crate::ecs::world::WorldView;

verus! {

/// Spawning gives the new entity exactly the given components and leaves every other
/// entity's components as they were.
pub proof fn law_spawn_then_get<V>(world: WorldView<V>, components: Map<ComponentId, V>, id: ComponentId, other: Entity)
    requires
        world.wf(),
        world.entities.can_spawn(),
    ensures
        world.spawn(components).component(world.entities.next_entity(), id) == if components.contains_key(id) {
            Some(components[id])
        } else {
            None
        },
        other != world.entities.next_entity() ==> world.spawn(components).component(other, id) == world.component(other, id),
{
    let entity = world.entities.next_entity();
    let after = world.spawn(components);
    law_spawned_entity_is_alive(world.entities);
    if world.entities.free.len() > 0 {
        let i = world.entities.free.len() - 1;
        assert(world.entities.free[i] < world.entities.slots.len());
    }
    if other != entity && after.alive(other) {
        assert(world.alive(other));
        assert(other.index != entity.index) by {
            if world.entities.free.len() > 0 {
                let i = world.entities.free.len() - 1;
                assert(!world.entities.slots[world.entities.free[i] as int].alive);
            }
        }
    }
}

/// Despawning takes every component away from the entity and leaves every other entity's
/// components as they were.
pub proof fn law_despawn_then_get<V>(world: WorldView<V>, entity: Entity, id: ComponentId, other: Entity)
    requires
        world.wf(),
    ensures
        world.despawn(entity).component(entity, id) is None,
        other != entity ==> world.despawn(entity).component(other, id) == world.component(other, id),
{
    law_despawn_kills_only_its_entity(world.entities, entity);
}

/// Giving an alive entity a component makes that component's value the given one, keeps
/// its other components, and leaves every other entity as it was.
pub proof fn law_insert_then_get<V>(world: WorldView<V>, entity: Entity, id: ComponentId, value: V, other_id: ComponentId, other: Entity)
    requires
        world.wf(),
    ensures
        world.insert_component(entity, id, value).component(entity, id) == if world.alive(entity) {
            Some(value)
        } else {
            None
        },
        other_id != id ==> world.insert_component(entity, id, value).component(entity, other_id) == world.component(entity, other_id),
        other != entity ==> world.insert_component(entity, id, value).component(other, other_id) == world.component(other, other_id),
{
    let after = world.insert_component(entity, id, value);
    if other != entity && world.alive(other) && world.alive(entity) {
        assert(other.index != entity.index);
    }
}

/// Taking a component away from an entity leaves it without that component, keeps its
/// other components, and leaves every other entity as it was.
pub proof fn law_remove_then_get<V>(world: WorldView<V>, entity: Entity, id: ComponentId, other_id: ComponentId, other: Entity)
    requires
        world.wf(),
    ensures
        world.remove_component(entity, id).component(entity, id) is None,
        other_id != id ==> world.remove_component(entity, id).component(entity, other_id) == world.component(entity, other_id),
        other != entity ==> world.remove_component(entity, id).component(other, other_id) == world.component(other, other_id),
{
    if world.component(entity, id) is Some {
        let i = entity.index as int;
        let components = world.rows[i]->0;
        let rest = components.remove(id);
        if rest.dom() == Set::<ComponentId>::empty() && other_id != id {
            assert(!rest.dom().contains(other_id));
        }
        if other != entity && world.alive(other) {
            assert(other.index != entity.index);
        }
    }
}

/// The handle of an entity that is not alive has no components, and despawning it,
/// giving it a component or taking one away changes nothing.
pub proof fn law_dead_handle_changes_nothing<V>(world: WorldView<V>, entity: Entity, id: ComponentId, value: V)
    requires
        !world.alive(entity),
    ensures
        world.component(entity, id) is None,
        world.despawn(entity) == world,
        world.insert_component(entity, id, value) == world,
        world.remove_component(entity, id) == world,
{
}

/// The archetype a spawned entity lands in depends only on the set of its component
/// types: it is added to the archetypes only if no archetype has that set yet, whatever
/// the order or the values of the components.
pub proof fn law_spawn_archetype<V>(world: WorldView<V>, components: Seq<(ComponentId, V)>)
    ensures
        world.spawn(first_map(components)).archetypes == with_archetype(world.archetypes, pair_ids(components).to_set()),
{
    assert(first_map(components).dom() =~= pair_ids(components).to_set());
}

/// Spawning two entities with the same set of component types creates at most one
/// archetype: the second spawn reuses the archetype of the first.
pub proof fn law_same_component_types_share_archetype<V>(
    world: WorldView<V>,
    first: Seq<(ComponentId, V)>,
    second: Seq<(ComponentId, V)>,
)
    requires
        pair_ids(first).to_set() == pair_ids(second).to_set(),
    ensures
        world.spawn(first_map(first)).spawn(first_map(second)).archetypes == world.spawn(first_map(first)).archetypes,
{
    let middle = world.spawn(first_map(first));
    law_spawn_archetype(world, first);
    law_spawn_archetype(middle, second);
    let set = pair_ids(first).to_set();
    if !world.archetypes.contains(set) {
        assert(middle.archetypes.last() == set);
        assert(middle.archetypes.contains(set));
    }
}

/// Spawning adds one row; despawning an alive entity that has a row takes one away.
pub proof fn law_table_len<V>(world: WorldView<V>, components: Map<ComponentId, V>, entity: Entity)
    requires
        world.wf(),
        world.entities.can_spawn(),
    ensures
        world.spawn(components).table_len() == world.table_len() + 1,
        world.components_of(entity) is Some ==> world.despawn(entity).table_len() + 1 == world.table_len(),
{
    let next = world.entities.next_entity();
    let i = next.index as int;
    law_spawned_entity_is_alive(world.entities);
    let rows = if next.index == world.rows.len() {
        world.rows.push(None)
    } else {
        world.rows
    };
    if next.index == world.rows.len() {
        assert(rows.drop_last() =~= world.rows);
    } else {
        let f = world.entities.free.len() - 1;
        assert(world.entities.free[f] < world.entities.slots.len());
        assert(!world.entities.slots[i].alive);
    }
    lemma_some_count_update(rows, i, Some(components));
    if world.components_of(entity) is Some {
        lemma_some_count_update(world.rows, entity.index as int, None);
    }
}

/// Applying two queues one after the other is applying their concatenation.
pub proof fn law_apply_commands_append<V>(world: WorldView<V>, first: Seq<Command<V>>, second: Seq<Command<V>>)
    ensures
        world.apply_commands(first + second) == world.apply_commands(first).apply_commands(second),
    decreases second.len(),
{
    if second.len() == 0 {
        assert(first + second =~= first);
    } else {
        law_apply_commands_append(world, first, second.drop_last());
        assert((first + second).drop_last() =~= first + second.drop_last());
        assert((first + second).last() == second.last());
    }
}

/// Archetypes are never dropped: whatever commands run, the archetypes there were come
/// first, in the same order, among the archetypes there are after, even when no entity
/// is left in them.
pub proof fn law_archetypes_never_dropped<V>(world: WorldView<V>, commands: Seq<Command<V>>)
    ensures
        world.archetypes.len() <= world.apply_commands(commands).archetypes.len(),
        world.apply_commands(commands).archetypes.subrange(0, world.archetypes.len() as int) == world.archetypes,
    decreases commands.len(),
{
    if commands.len() > 0 {
        law_archetypes_never_dropped(world, commands.drop_last());
        let before = world.apply_commands(commands.drop_last());
        let after = before.apply_command(commands.last());
        assert(before.archetypes.len() <= after.archetypes.len());
        assert(after.archetypes.subrange(0, before.archetypes.len() as int) == before.archetypes);
        assert(after.archetypes.subrange(0, world.archetypes.len() as int) =~= before.archetypes.subrange(
            0,
            world.archetypes.len() as int,
        ));
    }
}

/// A retired handle, one whose slot has moved on to another generation, is not revived
/// by any command: it stays dead, and stays retired unless a despawn brings its slot's
/// generation round to the handle's own (generations wrap, so that takes 2^32 despawns
/// of the slot).
pub proof fn law_retired_handle_stays_dead<V>(world: WorldView<V>, entity: Entity, command: Command<V>)
    requires
        world.wf(),
        world.entities.retired(entity),
    ensures
        !world.apply_command(command).alive(entity),
        world.apply_command(command).entities.retired(entity) || (command is Despawn && next_generation(
            world.entities.slots[entity.index as int].generation,
        ) == entity.generation),
{
    let after = world.apply_command(command);
    assert(entity.index < after.entities.slots.len());
    if command is Spawn && world.entities.can_spawn() && world.entities.free.len() > 0 {
        let index = world.entities.free.last();
        assert(world.entities.free.contains(index));
    }
}

/// Applying a command leaves the world's own queue as it was: commands change entities
/// and components, never what is pending.
pub proof fn law_commands_keep_queue<V>(world: WorldView<V>, commands: Seq<Command<V>>)
    ensures
        world.apply_commands(commands).commands == world.commands,
    decreases commands.len(),
{
    if commands.len() > 0 {
        law_commands_keep_queue(world, commands.drop_last());
    }
}

/// A queued command does what the matching direct call on the world does: a queue of
/// one spawn spawns (when an index is left), a despawn despawns, an insertion inserts
/// and a removal removes, with no other effect.
pub proof fn law_queued_command_is_direct_call<V>(world: WorldView<V>, command: Command<V>)
    ensures
        world.apply_commands(seq![command]) == match command {
            Command::Spawn(components) => if world.entities.can_spawn() {
                world.spawn(first_map(component_pairs(components@)))
            } else {
                world
            },
            Command::Despawn(entity) => world.despawn(entity),
            Command::InsertComponent(entity, component) => world.insert_component(entity, component.id, component.value),
            Command::RemoveComponent(entity, id) => world.remove_component(entity, id),
        },
{
    assert(seq![command].drop_last() =~= Seq::<Command<V>>::empty());
    assert(seq![command].last() == command);
    assert(world.apply_commands(Seq::<Command<V>>::empty()) == world);
    assert(world.apply_commands(seq![command]) == world.apply_command(command));
}

/// Queued component changes never change which entities are alive: after a queue of
/// insertions and removals every entity is alive or dead as before, and the allocator is
/// untouched (a removal that takes an entity's last component leaves it alive, without
/// a row).
pub proof fn law_component_commands_keep_liveness<V>(world: WorldView<V>, commands: Seq<Command<V>>, entity: Entity)
    requires
        forall|i: int| 0 <= i < commands.len() ==> (#[trigger] commands[i] is InsertComponent || commands[i] is RemoveComponent),
    ensures
        world.apply_commands(commands).entities == world.entities,
        world.apply_commands(commands).alive(entity) == world.alive(entity),
    decreases commands.len(),
{
    if commands.len() > 0 {
        assert forall|i: int| 0 <= i < commands.drop_last().len() implies (#[trigger] commands.drop_last()[i] is InsertComponent
            || commands.drop_last()[i] is RemoveComponent) by {
            assert(commands.drop_last()[i] == commands[i]);
        }
        law_component_commands_keep_liveness(world, commands.drop_last(), entity);
        assert(commands.last() == commands[commands.len() - 1]);
    }
}

/// Storing a resource under a key that held none and then taking it out again leaves
/// the resources as they were.
pub proof fn law_resource_insert_then_remove<V>(world: WorldView<V>, key: std::any::TypeId, resource: V)
    requires
        !world.resources.contains_key(key),
    ensures
        world.resources.insert(key, resource).remove(key) == world.resources,
{
    assert(world.resources.insert(key, resource).remove(key) =~= world.resources);
}

/// Giving an alive entity a component it lacked and then taking it away again leaves the
/// entity with the components it had, unless it had a row with no component at all
/// (taking its last component away leaves it without a row).
pub proof fn law_insert_then_remove<V>(world: WorldView<V>, entity: Entity, id: ComponentId, value: V)
    requires
        world.wf(),
        world.alive(entity),
        world.component(entity, id) is None,
        world.components_of(entity) matches Some(components) ==> components.dom() != Set::<ComponentId>::empty(),
    ensures
        world.insert_component(entity, id, value).remove_component(entity, id).components_of(entity) == world.components_of(entity),
{
    let i = entity.index as int;
    let inserted = world.insert_component(entity, id, value);
    match world.rows[i] {
        Some(components) => {
            assert(!components.contains_key(id));
            let rest = components.insert(id, value).remove(id);
            assert(rest =~= components);
            assert(inserted.component(entity, id) is Some);
        },
        None => {
            let rest = Map::<ComponentId, V>::empty().insert(id, value).remove(id);
            assert(rest.dom() =~= Set::<ComponentId>::empty());
            assert(inserted.component(entity, id) is Some);
        },
    }
}

/// Taking a component away and giving it back with the value it had leaves the entity
/// with the components it had.
pub proof fn law_remove_then_insert<V>(world: WorldView<V>, entity: Entity, id: ComponentId, value: V)
    requires
        world.wf(),
        world.component(entity, id) == Some(value),
    ensures
        world.remove_component(entity, id).insert_component(entity, id, value).components_of(entity) == world.components_of(entity),
{
    let i = entity.index as int;
    let components = world.rows[i]->0;
    let rest = components.remove(id);
    if rest.dom() == Set::<ComponentId>::empty() {
        assert(Map::<ComponentId, V>::empty().insert(id, value) =~= components) by {
            assert forall|c: ComponentId| components.contains_key(c) implies c == id by {
                if c != id {
                    assert(rest.dom().contains(c));
                }
            }
        }
    } else {
        assert(rest.insert(id, value) =~= components);
    }
}

} // verus!
