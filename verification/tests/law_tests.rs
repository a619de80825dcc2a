use std::any::{Any, TypeId};

use lib::ecs::component::ComponentId;
use lib::ecs::entity::Entity;
use lib::ecs::storage::table::TableComponentValue;
use lib::ecs::world::World;

type Value = Box<dyn Any>;

#[derive(Debug, PartialEq)]
struct Position(i32);

#[derive(Debug, PartialEq)]
struct Velocity(i32);

#[derive(Debug, PartialEq)]
struct Health(i32);

fn component<T: 'static>(value: T) -> TableComponentValue<Value> {
    TableComponentValue::of::<T>(Box::new(value))
}

fn id<T: 'static>() -> ComponentId {
    ComponentId::of::<T>()
}

fn get<T: 'static>(world: &World<Value>, entity: Entity) -> Option<&T> {
    world.get_component(entity, id::<T>()).and_then(|value| value.downcast_ref::<T>())
}

#[test]
fn component_ids_tell_types_apart() {
    assert!(id::<Position>().same(&id::<Position>()));
    assert!(!id::<Position>().same(&id::<Velocity>()));
    assert_eq!(TableComponentValue::of::<Health>(Box::new(Health(1)) as Value).id(), id::<Health>());
}

#[test]
fn spawn_gives_exactly_the_given_components() {
    let mut world: World<Value> = World::new();

    let other = world.spawn((component(Health(7)),));
    let entity = world.spawn((component(Position(1)), component(Velocity(2))));

    assert_eq!(get::<Position>(&world, entity), Some(&Position(1)));
    assert_eq!(get::<Velocity>(&world, entity), Some(&Velocity(2)));
    assert_eq!(get::<Health>(&world, entity), None);
    assert_eq!(get::<Health>(&world, other), Some(&Health(7)));
    assert_eq!(get::<Position>(&world, other), None);
}

#[test]
fn first_component_of_a_type_counts() {
    let mut world: World<Value> = World::new();

    let entity = world.spawn_table(vec![component(Position(1)), component(Velocity(2)), component(Position(3))]);
    let plain = world.spawn_table(vec![component(Velocity(4)), component(Position(5))]);

    assert_eq!(get::<Position>(&world, entity), Some(&Position(1)));
    assert_eq!(get::<Velocity>(&world, entity), Some(&Velocity(2)));
    assert_eq!(get::<Position>(&world, plain), Some(&Position(5)));
    assert_eq!(world.archetype_count(), 1);
    assert_eq!(world.table_entity_count(), 2);
}

#[test]
fn empty_spawn_gets_an_empty_row() {
    let mut world: World<Value> = World::new();

    let entity = world.spawn_table(Vec::new());

    assert!(world.is_alive(entity));
    assert_eq!(world.table_entity_count(), 1);
    assert_eq!(world.archetype_count(), 1);
    assert!(world.location(entity).is_some());
    assert_eq!(get::<Position>(&world, entity), None);
}

#[test]
fn despawn_takes_only_its_entity_away() {
    let mut world: World<Value> = World::new();

    let first = world.spawn((component(Position(1)), component(Velocity(1))));
    let second = world.spawn((component(Position(2)), component(Velocity(2))));
    let third = world.spawn((component(Position(3)),));

    assert!(world.despawn(second));

    assert_eq!(get::<Position>(&world, second), None);
    assert_eq!(get::<Velocity>(&world, second), None);
    assert_eq!(get::<Position>(&world, first), Some(&Position(1)));
    assert_eq!(get::<Velocity>(&world, first), Some(&Velocity(1)));
    assert_eq!(get::<Position>(&world, third), Some(&Position(3)));
    assert_eq!(world.table_entity_count(), 2);
}

#[test]
fn insert_then_get_keeps_the_rest() {
    let mut world: World<Value> = World::new();

    let entity = world.spawn((component(Position(1)), component(Velocity(1))));
    let other = world.spawn((component(Position(9)),));

    assert!(world.insert_component(entity, component(Health(5))));

    assert_eq!(get::<Health>(&world, entity), Some(&Health(5)));
    assert_eq!(get::<Position>(&world, entity), Some(&Position(1)));
    assert_eq!(get::<Velocity>(&world, entity), Some(&Velocity(1)));
    assert_eq!(get::<Position>(&world, other), Some(&Position(9)));
    assert_eq!(get::<Health>(&world, other), None);
    assert_eq!(world.archetype_count(), 3);
}

#[test]
fn remove_then_get_keeps_the_rest() {
    let mut world: World<Value> = World::new();

    let entity = world.spawn((component(Position(1)), component(Velocity(1)), component(Health(1))));
    let other = world.spawn((component(Position(2)), component(Velocity(2)), component(Health(2))));

    assert!(world.remove_component(entity, id::<Velocity>()));

    assert_eq!(get::<Velocity>(&world, entity), None);
    assert_eq!(get::<Position>(&world, entity), Some(&Position(1)));
    assert_eq!(get::<Health>(&world, entity), Some(&Health(1)));
    assert_eq!(get::<Velocity>(&world, other), Some(&Velocity(2)));
    assert!(!world.remove_component(entity, id::<Velocity>()));
}

#[test]
fn dead_handle_changes_nothing() {
    let mut world: World<Value> = World::new();

    let entity = world.spawn((component(Position(1)),));
    let other = world.spawn((component(Position(2)),));
    assert!(world.despawn(entity));

    assert!(!world.despawn(entity));
    assert!(!world.insert_component(entity, component(Velocity(1))));
    assert!(!world.remove_component(entity, id::<Position>()));
    assert!(world.get_component_mut(entity, id::<Position>()).is_none());
    assert_eq!(world.entity_count(), 1);
    assert_eq!(world.table_entity_count(), 1);
    assert_eq!(world.archetype_count(), 1);
    assert_eq!(get::<Position>(&world, other), Some(&Position(2)));
}

#[test]
fn same_component_types_share_an_archetype_whatever_the_order() {
    let mut world: World<Value> = World::new();

    world.spawn((component(Position(1)), component(Velocity(1)), component(Health(1))));
    world.spawn((component(Health(2)), component(Position(2)), component(Velocity(2))));
    world.spawn((component(Velocity(3)), component(Health(3)), component(Position(3))));
    assert_eq!(world.archetype_count(), 1);

    world.spawn((component(Velocity(4)), component(Position(4))));
    assert_eq!(world.archetype_count(), 2);
    assert_eq!(world.table_entity_count(), 4);
}

#[test]
fn commands_apply_like_their_concatenation() {
    let mut once: World<Value> = World::new();
    let mut twice: World<Value> = World::new();

    for world in [&mut once, &mut twice] {
        world.spawn((component(Position(1)),));
    }
    let entity = Entity::new(0, 0);

    once.commands().insert_component(entity, component(Velocity(2)));
    once.commands().remove_component(entity, id::<Position>());
    once.commands().spawn((component(Health(3)),));
    once.apply_commands();

    twice.commands().insert_component(entity, component(Velocity(2)));
    twice.apply_commands();
    twice.commands().remove_component(entity, id::<Position>());
    twice.commands().spawn((component(Health(3)),));
    twice.apply_commands();

    for world in [&once, &twice] {
        assert_eq!(get::<Velocity>(world, entity), Some(&Velocity(2)));
        assert_eq!(get::<Position>(world, entity), None);
        assert_eq!(world.entity_count(), 2);
        assert_eq!(world.query(id::<Health>()).len(), 1);
        assert_eq!(world.archetype_count(), 4);
    }
}

#[test]
fn table_count_follows_rows() {
    let mut world: World<Value> = World::new();

    let first = world.spawn((component(Position(1)),));
    let second = world.spawn((component(Position(2)),));
    assert_eq!(world.table_entity_count(), 2);

    assert!(world.remove_component(first, id::<Position>()));
    assert_eq!(world.table_entity_count(), 1);
    assert_eq!(world.entity_count(), 2);

    assert!(world.despawn(first));
    assert_eq!(world.table_entity_count(), 1);
    assert!(world.despawn(second));
    assert_eq!(world.table_entity_count(), 0);
}

#[test]
fn events_and_resources_live_beside_entities() {
    let mut world: World<Value> = World::new();

    world.send_event(TypeId::of::<u32>(), Box::new(5_u32));
    world.send_event(TypeId::of::<u32>(), Box::new(6_u32));
    assert_eq!(world.events(TypeId::of::<u32>()).len(), 2);
    world.clear_events();
    assert!(world.events(TypeId::of::<u32>()).is_empty());

    assert!(world.insert_resource(TypeId::of::<u8>(), Box::new(1_u8)).is_none());
    assert!(world.contains_resource(TypeId::of::<u8>()));
    let taken = world.remove_resource(TypeId::of::<u8>()).map(|value| *value.downcast::<u8>().expect("u8"));
    assert_eq!(taken, Some(1));
    assert!(!world.contains_resource(TypeId::of::<u8>()));
    assert_eq!(world.resource_count(), 0);
}

#[test]
fn insert_then_remove_gives_the_components_back() {
    let mut world: World<Value> = World::new();

    let entity = world.spawn((component(Position(1)),));
    assert!(world.insert_component(entity, component(Velocity(2))));
    assert!(world.remove_component(entity, id::<Velocity>()));

    assert_eq!(get::<Position>(&world, entity), Some(&Position(1)));
    assert_eq!(get::<Velocity>(&world, entity), None);
    assert_eq!(world.table_entity_count(), 1);
}

#[test]
fn insert_then_remove_on_an_empty_row_drops_the_row() {
    let mut world: World<Value> = World::new();

    let entity = world.spawn_table(Vec::new());
    assert_eq!(world.table_entity_count(), 1);
    assert!(world.insert_component(entity, component(Velocity(2))));
    assert!(world.remove_component(entity, id::<Velocity>()));

    assert!(world.is_alive(entity));
    assert_eq!(world.table_entity_count(), 0);
    assert!(world.location(entity).is_none());
}

#[test]
fn remove_then_insert_gives_the_components_back() {
    let mut world: World<Value> = World::new();

    let entity = world.spawn((component(Position(1)), component(Velocity(2))));
    assert!(world.remove_component(entity, id::<Velocity>()));
    assert!(world.insert_component(entity, component(Velocity(2))));

    assert_eq!(get::<Position>(&world, entity), Some(&Position(1)));
    assert_eq!(get::<Velocity>(&world, entity), Some(&Velocity(2)));
    assert_eq!(world.archetype_count(), 2);

    let single = world.spawn((component(Health(4)),));
    assert!(world.remove_component(single, id::<Health>()));
    assert!(world.insert_component(single, component(Health(4))));
    assert_eq!(get::<Health>(&world, single), Some(&Health(4)));
}
