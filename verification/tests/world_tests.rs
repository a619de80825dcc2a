use std::any::{Any, TypeId};

use lib::ecs::component::ComponentId;
use lib::ecs::entity::Entity;
use lib::ecs::storage::table::TableComponentValue;
use lib::ecs::world::World;

type Value = Box<dyn Any>;

#[derive(Debug, PartialEq)]
struct Position(i32);

#[derive(Debug, PartialEq)]
struct Velocity(i32);

#[derive(Debug, PartialEq)]
struct Health(i32);

#[derive(Debug, PartialEq)]
struct Tick(u64);

fn component<T: 'static>(value: T) -> TableComponentValue<Value> {
    TableComponentValue::of::<T>(Box::new(value))
}

fn id<T: 'static>() -> ComponentId {
    ComponentId::of::<T>()
}

fn get<T: 'static>(world: &World<Value>, entity: Entity) -> Option<&T> {
    world.get_component(entity, id::<T>()).and_then(|value| value.downcast_ref::<T>())
}

fn get_mut<T: 'static>(world: &mut World<Value>, entity: Entity) -> Option<&mut T> {
    world.get_component_mut(entity, id::<T>()).and_then(|value| value.downcast_mut::<T>())
}

fn remove<T: 'static>(world: &mut World<Value>, entity: Entity) -> bool {
    world.remove_component(entity, id::<T>())
}

fn insert<T: 'static>(world: &mut World<Value>, entity: Entity, value: T) -> bool {
    world.insert_component(entity, component(value))
}

fn query_count<T: 'static>(world: &World<Value>) -> usize {
    world.query(id::<T>()).len()
}

fn query2_count<A: 'static, B: 'static>(world: &World<Value>) -> usize {
    world.query2(id::<A>(), id::<B>()).len()
}

fn add_to_position(amount: i32) -> impl Fn(Entity, &Value) -> Value {
    move |_, value| {
        let position = value.downcast_ref::<Position>().expect("value should be a Position");
        Box::new(Position(position.0 + amount))
    }
}

fn set_position(to: i32) -> impl Fn(Entity, &Value) -> Value {
    move |_, _| Box::new(Position(to))
}

#[test]
fn spawn_table_creates_alive_entity() {
    let mut world: World<Value> = World::new();

    let entity = world.spawn_table(vec![component(Position(10)), component(Velocity(1))]);

    assert!(world.is_alive(entity));
    assert_eq!(world.entity_count(), 1);
    assert_eq!(world.table_entity_count(), 1);
}

#[test]
fn same_component_set_reuses_archetype() {
    let mut world: World<Value> = World::new();

    world.spawn_table(vec![component(Position(10)), component(Velocity(1))]);

    world.spawn_table(vec![component(Position(20)), component(Velocity(2))]);

    assert_eq!(world.archetype_count(), 1);
    assert_eq!(world.table_entity_count(), 2);
}

#[test]
fn different_component_set_creates_new_archetype() {
    let mut world: World<Value> = World::new();

    world.spawn_table(vec![component(Position(10))]);

    world.spawn_table(vec![component(Position(20)), component(Velocity(2))]);

    assert_eq!(world.archetype_count(), 2);
    assert_eq!(world.table_entity_count(), 2);
}

#[test]
fn component_order_does_not_change_archetype_identity() {
    let mut world: World<Value> = World::new();

    world.spawn_table(vec![component(Position(10)), component(Velocity(1))]);

    world.spawn_table(vec![component(Velocity(2)), component(Position(20))]);

    assert_eq!(world.archetype_count(), 1);
}

#[test]
fn spawn_accepts_typed_component_bundle() {
    let mut world: World<Value> = World::new();

    let entity = world.spawn((component(Position(10)), component(Velocity(1))));

    assert!(world.is_alive(entity));
    assert_eq!(world.entity_count(), 1);
    assert_eq!(world.table_entity_count(), 1);
    assert_eq!(world.archetype_count(), 1);
}

#[test]
fn typed_spawn_reuses_archetype_for_same_bundle_types() {
    let mut world: World<Value> = World::new();

    world.spawn((component(Position(10)), component(Velocity(1))));
    world.spawn((component(Position(20)), component(Velocity(2))));

    assert_eq!(world.archetype_count(), 1);
    assert_eq!(world.table_entity_count(), 2);
}

#[test]
fn typed_spawn_supports_single_component_tuple() {
    let mut world: World<Value> = World::new();

    let entity = world.spawn((component(Position(10)),));

    assert!(world.is_alive(entity));
    assert_eq!(world.archetype_count(), 1);
}

#[test]
fn despawn_removes_alive_entity() {
    let mut world: World<Value> = World::new();

    let entity = world.spawn((component(Position(10)), component(Velocity(1))));

    assert!(world.despawn(entity));
    assert!(!world.is_alive(entity));
    assert_eq!(world.entity_count(), 0);
    assert_eq!(world.table_entity_count(), 0);
}

#[test]
fn world_despawn_rejects_stale_entity() {
    let mut world: World<Value> = World::new();

    let entity = world.spawn((component(Position(10)),));
    assert!(world.despawn(entity));

    assert!(!world.despawn(entity));
}

#[test]
fn despawn_repairs_moved_entity_location() {
    let mut world: World<Value> = World::new();

    let first = world.spawn((component(Position(10)), component(Velocity(1))));
    let second = world.spawn((component(Position(20)), component(Velocity(2))));

    assert!(world.despawn(first));
    assert!(world.is_alive(second));

    let second_location = world.location(second).expect("moved entity should still have a table location");

    assert_eq!(second_location.row.chunk, 0);
    assert_eq!(second_location.row.row, 0);

    assert!(world.despawn(second));
    assert_eq!(world.entity_count(), 0);
    assert_eq!(world.table_entity_count(), 0);
}

#[test]
fn despawn_unknown_entity_returns_false() {
    let mut world: World<Value> = World::new();

    assert!(!world.despawn(Entity::new(123, 0)));
}

#[test]
fn remove_component_moves_entity_to_smaller_archetype() {
    let mut world: World<Value> = World::new();

    let entity = world.spawn((component(Position(10)), component(Velocity(1))));

    assert!(remove::<Velocity>(&mut world, entity));
    assert!(world.is_alive(entity));
    assert_eq!(world.entity_count(), 1);
    assert_eq!(world.table_entity_count(), 1);
    assert_eq!(world.archetype_count(), 2);
}

#[test]
fn remove_component_rejects_missing_component() {
    let mut world: World<Value> = World::new();

    let entity = world.spawn((component(Position(10)),));

    assert!(!remove::<Velocity>(&mut world, entity));
    assert!(world.is_alive(entity));
    assert_eq!(world.entity_count(), 1);
    assert_eq!(world.table_entity_count(), 1);
}

#[test]
fn remove_component_rejects_dead_entity() {
    let mut world: World<Value> = World::new();

    let entity = world.spawn((component(Position(10)), component(Velocity(1))));
    assert!(world.despawn(entity));

    assert!(!remove::<Velocity>(&mut world, entity));
}

#[test]
fn remove_last_table_component_keeps_entity_alive_without_table_location() {
    let mut world: World<Value> = World::new();

    let entity = world.spawn((component(Position(10)),));

    assert!(remove::<Position>(&mut world, entity));
    assert!(world.is_alive(entity));
    assert_eq!(world.entity_count(), 1);
    assert_eq!(world.table_entity_count(), 0);
    assert!(world.location(entity).is_none());
}

#[test]
fn remove_component_repairs_swap_moved_entity_location() {
    let mut world: World<Value> = World::new();

    let first = world.spawn((component(Position(10)), component(Velocity(1)), component(Health(100))));
    let second = world.spawn((component(Position(20)), component(Velocity(2)), component(Health(90))));

    assert!(remove::<Velocity>(&mut world, first));

    let second_location = world.location(second).expect("swap-moved entity should still have a table location");

    assert_eq!(second_location.row.chunk, 0);
    assert_eq!(second_location.row.row, 0);

    assert!(world.is_alive(first));
    assert!(world.is_alive(second));
    assert_eq!(world.entity_count(), 2);
    assert_eq!(world.table_entity_count(), 2);
}

#[test]
fn get_component_returns_spawned_component() {
    let mut world: World<Value> = World::new();

    let entity = world.spawn((component(Position(10)), component(Velocity(1))));

    assert_eq!(get::<Position>(&world, entity), Some(&Position(10)));
    assert_eq!(get::<Velocity>(&world, entity), Some(&Velocity(1)));
}

#[test]
fn get_component_returns_none_for_missing_component() {
    let mut world: World<Value> = World::new();

    let entity = world.spawn((component(Position(10)),));

    assert_eq!(get::<Velocity>(&world, entity), None);
}

#[test]
fn get_component_returns_none_for_dead_entity() {
    let mut world: World<Value> = World::new();

    let entity = world.spawn((component(Position(10)),));
    assert!(world.despawn(entity));

    assert_eq!(get::<Position>(&world, entity), None);
}

#[test]
fn get_component_reflects_component_removal() {
    let mut world: World<Value> = World::new();

    let entity = world.spawn((component(Position(10)), component(Velocity(1))));

    assert!(remove::<Velocity>(&mut world, entity));

    assert_eq!(get::<Position>(&world, entity), Some(&Position(10)));
    assert_eq!(get::<Velocity>(&world, entity), None);
}

#[test]
fn get_component_survives_swap_moved_location_repair() {
    let mut world: World<Value> = World::new();

    let first = world.spawn((component(Position(10)), component(Velocity(1))));
    let second = world.spawn((component(Position(20)), component(Velocity(2))));

    assert!(world.despawn(first));

    assert_eq!(get::<Position>(&world, second), Some(&Position(20)));
    assert_eq!(get::<Velocity>(&world, second), Some(&Velocity(2)));
}

#[test]
fn get_component_mut_updates_component_value() {
    let mut world: World<Value> = World::new();

    let entity = world.spawn((component(Position(10)), component(Velocity(1))));

    let position = get_mut::<Position>(&mut world, entity).expect("entity should have Position");

    position.0 += 5;

    assert_eq!(get::<Position>(&world, entity), Some(&Position(15)));
}

#[test]
fn get_component_mut_returns_none_for_missing_component() {
    let mut world: World<Value> = World::new();

    let entity = world.spawn((component(Position(10)),));

    assert!(get_mut::<Velocity>(&mut world, entity).is_none());
}

#[test]
fn get_component_mut_returns_none_for_dead_entity() {
    let mut world: World<Value> = World::new();

    let entity = world.spawn((component(Position(10)),));
    assert!(world.despawn(entity));

    assert!(get_mut::<Position>(&mut world, entity).is_none());
}

#[test]
fn get_component_mut_reflects_component_removal() {
    let mut world: World<Value> = World::new();

    let entity = world.spawn((component(Position(10)), component(Velocity(1))));

    assert!(remove::<Velocity>(&mut world, entity));

    assert!(get_mut::<Velocity>(&mut world, entity).is_none());

    let position = get_mut::<Position>(&mut world, entity).expect("remaining component should still be mutable");

    position.0 = 20;

    assert_eq!(get::<Position>(&world, entity), Some(&Position(20)));
}

#[test]
fn query_returns_entities_with_component() {
    let mut world: World<Value> = World::new();

    let first = world.spawn((component(Position(10)),));
    let second = world.spawn((component(Position(20)), component(Velocity(2))));
    world.spawn((component(Velocity(3)),));

    let results = world.query(id::<Position>());

    assert_eq!(results.len(), 2);
    assert!(results
        .iter()
        .any(|item| item.entity == first && item.component.downcast_ref::<Position>() == Some(&Position(10))));
    assert!(results
        .iter()
        .any(|item| item.entity == second && item.component.downcast_ref::<Position>() == Some(&Position(20))));
}

#[test]
fn query2_returns_entities_with_both_components() {
    let mut world: World<Value> = World::new();

    world.spawn((component(Position(10)),));
    let matching = world.spawn((component(Position(20)), component(Velocity(2))));
    world.spawn((component(Velocity(3)),));

    let results = world.query2(id::<Position>(), id::<Velocity>());

    assert_eq!(results.len(), 1);
    assert_eq!(results[0].entity, matching);
    assert_eq!(results[0].first.downcast_ref::<Position>(), Some(&Position(20)));
    assert_eq!(results[0].second.downcast_ref::<Velocity>(), Some(&Velocity(2)));
}

#[test]
fn query_ignores_removed_components() {
    let mut world: World<Value> = World::new();

    let entity = world.spawn((component(Position(10)), component(Velocity(1))));

    assert!(remove::<Velocity>(&mut world, entity));

    assert_eq!(query_count::<Position>(&world), 1);
    assert_eq!(query_count::<Velocity>(&world), 0);
    assert_eq!(query2_count::<Position, Velocity>(&world), 0);
}

#[test]
fn query_ignores_despawned_entities() {
    let mut world: World<Value> = World::new();

    let first = world.spawn((component(Position(10)),));
    let second = world.spawn((component(Position(20)),));

    assert!(world.despawn(first));

    let results = world.query(id::<Position>());

    assert_eq!(results.len(), 1);
    assert_eq!(results[0].entity, second);
    assert_eq!(results[0].component.downcast_ref::<Position>(), Some(&Position(20)));
}

#[test]
fn query_mut_updates_matching_components() {
    let mut world: World<Value> = World::new();

    let first = world.spawn((component(Position(10)), component(Velocity(1))));
    let second = world.spawn((component(Position(20)), component(Velocity(2))));
    world.spawn((component(Velocity(3)),));

    {
        let results = world.query_mut(id::<Position>(), add_to_position(5));

        assert_eq!(results.len(), 2);
    }

    assert_eq!(get::<Position>(&world, first), Some(&Position(15)));
    assert_eq!(get::<Position>(&world, second), Some(&Position(25)));
}

#[test]
fn query_mut_ignores_removed_components() {
    let mut world: World<Value> = World::new();

    let entity = world.spawn((component(Position(10)), component(Velocity(1))));

    assert!(remove::<Velocity>(&mut world, entity));

    assert_eq!(world.query_mut(id::<Velocity>(), |_, _| Box::new(Velocity(0)) as Value).len(), 0);

    {
        let positions = world.query_mut(id::<Position>(), set_position(42));
        assert_eq!(positions.len(), 1);
    }

    assert_eq!(get::<Position>(&world, entity), Some(&Position(42)));
}

#[test]
fn query_mut_ignores_despawned_entities() {
    let mut world: World<Value> = World::new();

    let first = world.spawn((component(Position(10)),));
    let second = world.spawn((component(Position(20)),));

    assert!(world.despawn(first));

    {
        let results = world.query_mut(id::<Position>(), set_position(30));
        assert_eq!(results.len(), 1);
        assert_eq!(results[0], second);
    }

    assert_eq!(get::<Position>(&world, second), Some(&Position(30)));
}

#[test]
fn world_stores_typed_resources() {
    let mut world: World<Value> = World::new();

    assert!(world.insert_resource(TypeId::of::<Tick>(), Box::new(Tick(10))).is_none());
    assert_eq!(
        world.get_resource(TypeId::of::<Tick>()).and_then(|value| value.downcast_ref::<Tick>()),
        Some(&Tick(10))
    );

    world
        .get_resource_mut(TypeId::of::<Tick>())
        .and_then(|value| value.downcast_mut::<Tick>())
        .expect("Tick should exist")
        .0 += 1;

    assert_eq!(
        world.get_resource(TypeId::of::<Tick>()).and_then(|value| value.downcast_ref::<Tick>()),
        Some(&Tick(11))
    );
    assert_eq!(world.resource_count(), 1);
}

#[test]
fn apply_commands_spawns_queued_entity() {
    let mut world: World<Value> = World::new();

    world.commands().spawn((component(Position(10)), component(Velocity(1))));

    assert_eq!(world.entity_count(), 0);
    assert_eq!(world.commands().pending_count(), 1);

    world.apply_commands();

    assert_eq!(world.entity_count(), 1);
    assert_eq!(query2_count::<Position, Velocity>(&world), 1);
    assert!(world.commands().is_empty());
}

#[test]
fn apply_commands_despawns_queued_entity() {
    let mut world: World<Value> = World::new();

    let entity = world.spawn((component(Position(10)),));
    world.commands().despawn(entity);

    assert!(world.is_alive(entity));

    world.apply_commands();

    assert!(!world.is_alive(entity));
    assert_eq!(world.entity_count(), 0);
}

#[test]
fn commands_apply_in_queue_order() {
    let mut world: World<Value> = World::new();

    let entity = world.spawn((component(Position(10)),));

    world.commands().despawn(entity);
    world.commands().spawn((component(Position(20)),));

    world.apply_commands();

    assert!(!world.is_alive(entity));
    assert_eq!(world.entity_count(), 1);
    assert_eq!(world.query(id::<Position>())[0].component.downcast_ref::<Position>(), Some(&Position(20)));
}

#[test]
fn apply_commands_removes_queued_component() {
    let mut world: World<Value> = World::new();

    let entity = world.spawn((component(Position(10)), component(Velocity(1))));

    world.commands().remove_component(entity, id::<Velocity>());

    assert_eq!(get::<Velocity>(&world, entity), Some(&Velocity(1)));

    world.apply_commands();

    assert_eq!(get::<Velocity>(&world, entity), None);
    assert_eq!(get::<Position>(&world, entity), Some(&Position(10)));
    assert!(world.is_alive(entity));
}

#[test]
fn deferred_component_removal_ignores_missing_component() {
    let mut world: World<Value> = World::new();

    let entity = world.spawn((component(Position(10)),));

    world.commands().remove_component(entity, id::<Velocity>());
    world.apply_commands();

    assert_eq!(get::<Position>(&world, entity), Some(&Position(10)));
    assert!(world.is_alive(entity));
}

#[test]
fn deferred_component_removal_ignores_dead_entity() {
    let mut world: World<Value> = World::new();

    let entity = world.spawn((component(Position(10)), component(Velocity(1))));

    world.commands().despawn(entity);
    world.commands().remove_component(entity, id::<Velocity>());
    world.apply_commands();

    assert!(!world.is_alive(entity));
    assert_eq!(world.entity_count(), 0);
}

#[test]
fn insert_component_moves_entity_to_larger_archetype() {
    let mut world: World<Value> = World::new();

    let entity = world.spawn((component(Position(10)),));

    assert!(insert(&mut world, entity, Velocity(2)));

    assert_eq!(get::<Position>(&world, entity), Some(&Position(10)));
    assert_eq!(get::<Velocity>(&world, entity), Some(&Velocity(2)));
    assert_eq!(world.archetype_count(), 2);
}

#[test]
fn insert_component_replaces_existing_value() {
    let mut world: World<Value> = World::new();

    let entity = world.spawn((component(Position(10)), component(Velocity(1))));

    assert!(insert(&mut world, entity, Velocity(5)));

    assert_eq!(get::<Velocity>(&world, entity), Some(&Velocity(5)));
    assert_eq!(world.archetype_count(), 1);
}

#[test]
fn insert_component_rejects_dead_entity() {
    let mut world: World<Value> = World::new();

    let entity = world.spawn((component(Position(10)),));
    assert!(world.despawn(entity));

    assert!(!insert(&mut world, entity, Velocity(2)));
}

#[test]
fn insert_component_adds_first_table_component() {
    let mut world: World<Value> = World::new();

    let entity = world.spawn((component(Position(10)),));
    assert!(remove::<Position>(&mut world, entity));

    assert!(insert(&mut world, entity, Velocity(2)));

    assert_eq!(get::<Velocity>(&world, entity), Some(&Velocity(2)));
    assert_eq!(world.table_entity_count(), 1);
}

#[test]
fn insert_component_repairs_swap_moved_entity_location() {
    let mut world: World<Value> = World::new();

    let first = world.spawn((component(Position(10)),));
    let second = world.spawn((component(Position(20)),));

    assert!(insert(&mut world, first, Velocity(1)));

    assert_eq!(get::<Position>(&world, second), Some(&Position(20)));
    assert_eq!(get::<Velocity>(&world, second), None);
}

#[test]
fn apply_commands_inserts_queued_component() {
    let mut world: World<Value> = World::new();

    let entity = world.spawn((component(Position(10)),));

    world.commands().insert_component(entity, component(Velocity(2)));

    assert_eq!(get::<Velocity>(&world, entity), None);

    world.apply_commands();

    assert_eq!(get::<Position>(&world, entity), Some(&Position(10)));
    assert_eq!(get::<Velocity>(&world, entity), Some(&Velocity(2)));
}

#[test]
fn deferred_component_insertion_replaces_existing_value() {
    let mut world: World<Value> = World::new();

    let entity = world.spawn((component(Position(10)), component(Velocity(1))));

    world.commands().insert_component(entity, component(Velocity(5)));
    world.apply_commands();

    assert_eq!(get::<Velocity>(&world, entity), Some(&Velocity(5)));
}

#[test]
fn deferred_component_insertion_ignores_dead_entity() {
    let mut world: World<Value> = World::new();

    let entity = world.spawn((component(Position(10)),));

    world.commands().despawn(entity);
    world.commands().insert_component(entity, component(Velocity(2)));
    world.apply_commands();

    assert!(!world.is_alive(entity));
    assert_eq!(world.entity_count(), 0);
}

#[test]
fn deferred_component_insertion_adds_first_table_component() {
    let mut world: World<Value> = World::new();

    let entity = world.spawn((component(Position(10)),));
    assert!(remove::<Position>(&mut world, entity));

    world.commands().insert_component(entity, component(Velocity(2)));
    world.apply_commands();

    assert_eq!(get::<Velocity>(&world, entity), Some(&Velocity(2)));
    assert_eq!(world.table_entity_count(), 1);
}

#[test]
fn query_lists_entities_in_storage_order() {
    let mut world: World<Value> = World::new();

    let a = world.spawn((component(Position(1)),));
    let b = world.spawn((component(Position(2)), component(Velocity(2))));
    let c = world.spawn((component(Position(3)),));

    let entities: Vec<Entity> = world.query(id::<Position>()).iter().map(|item| item.entity).collect();
    assert_eq!(entities, vec![a, c, b]);
    let locations: Vec<_> = entities.iter().map(|entity| world.location(*entity).unwrap()).collect();
    assert_eq!((locations[0].archetype, locations[0].row.row), (0, 0));
    assert_eq!((locations[1].archetype, locations[1].row.row), (0, 1));
    assert_eq!((locations[2].archetype, locations[2].row.row), (1, 0));
}
