use std::any::Any;

use lib::ecs::component::{ComponentId, ComponentOrder};
use lib::ecs::entity::Entity;
use lib::ecs::storage::table::{Archetype, Chunk, TableComponentKey, TableRowLocation};

type Value = Box<dyn Any>;

#[derive(Debug, PartialEq)]
struct Position(i32);

#[derive(Debug, PartialEq)]
struct Velocity(i32);

fn key(component_id: ComponentId, order: usize) -> TableComponentKey {
    TableComponentKey::new(component_id, ComponentOrder::new(order))
}

fn row(position_id: ComponentId, velocity_id: ComponentId, position: i32, velocity: i32) -> Vec<(ComponentId, Value)> {
    vec![
        (position_id, Box::new(Position(position)) as Value),
        (velocity_id, Box::new(Velocity(velocity)) as Value),
    ]
}

fn get<T: 'static>(archetype: &Archetype<Value>, id: ComponentId, location: TableRowLocation) -> Option<&T> {
    archetype.get(id, location).and_then(|value| value.downcast_ref::<T>())
}

#[test]
fn pushed_rows_are_dense_within_chunk() {
    let position_id = ComponentId::of::<Position>();
    let velocity_id = ComponentId::of::<Velocity>();
    let mut archetype: Archetype<Value> = Archetype::new(vec![key(position_id, 0), key(velocity_id, 1)], 4);

    let first = archetype.push_row(Entity::new(0, 0), row(position_id, velocity_id, 10, 1));
    let second = archetype.push_row(Entity::new(1, 0), row(position_id, velocity_id, 20, 2));

    assert_eq!(first, TableRowLocation { chunk: 0, row: 0 });
    assert_eq!(second, TableRowLocation { chunk: 0, row: 1 });
    assert_eq!(archetype.len(), 2);
    assert_eq!(archetype.chunk_count(), 1);
}

#[test]
fn archetype_splits_rows_across_chunks_at_capacity() {
    let position_id = ComponentId::of::<Position>();
    let velocity_id = ComponentId::of::<Velocity>();
    let mut archetype: Archetype<Value> = Archetype::new(vec![key(position_id, 0), key(velocity_id, 1)], 2);

    let first = archetype.push_row(Entity::new(0, 0), row(position_id, velocity_id, 10, 1));
    let second = archetype.push_row(Entity::new(1, 0), row(position_id, velocity_id, 20, 2));
    let third = archetype.push_row(Entity::new(2, 0), row(position_id, velocity_id, 30, 3));

    assert_eq!(first, TableRowLocation { chunk: 0, row: 0 });
    assert_eq!(second, TableRowLocation { chunk: 0, row: 1 });
    assert_eq!(third, TableRowLocation { chunk: 1, row: 0 });
    assert_eq!(archetype.len(), 3);
    assert_eq!(archetype.chunk_count(), 2);
}

#[test]
fn component_columns_align_by_row() {
    let position_id = ComponentId::of::<Position>();
    let velocity_id = ComponentId::of::<Velocity>();
    let mut archetype: Archetype<Value> = Archetype::new(vec![key(position_id, 0), key(velocity_id, 1)], 4);

    let first = archetype.push_row(Entity::new(0, 0), row(position_id, velocity_id, 10, 1));
    let second = archetype.push_row(Entity::new(1, 0), row(position_id, velocity_id, 20, 2));

    assert_eq!(get::<Position>(&archetype, position_id, first), Some(&Position(10)));
    assert_eq!(get::<Velocity>(&archetype, velocity_id, first), Some(&Velocity(1)));
    assert_eq!(get::<Position>(&archetype, position_id, second), Some(&Position(20)));
    assert_eq!(get::<Velocity>(&archetype, velocity_id, second), Some(&Velocity(2)));
}

#[test]
fn component_order_does_not_need_to_match_column_order() {
    let position_id = ComponentId::of::<Position>();
    let velocity_id = ComponentId::of::<Velocity>();
    let mut archetype: Archetype<Value> = Archetype::new(vec![key(position_id, 0), key(velocity_id, 1)], 4);

    let location = archetype.push_row(
        Entity::new(0, 0),
        vec![(velocity_id, Box::new(Velocity(7)) as Value), (position_id, Box::new(Position(42)) as Value)],
    );

    assert_eq!(get::<Position>(&archetype, position_id, location), Some(&Position(42)));
    assert_eq!(get::<Velocity>(&archetype, velocity_id, location), Some(&Velocity(7)));
}

#[test]
fn archetype_with_a_repeated_key_keeps_both_columns() {
    let position_id = ComponentId::of::<Position>();
    let velocity_id = ComponentId::of::<Velocity>();
    let mut archetype: Archetype<Value> =
        Archetype::new(vec![key(velocity_id, 1), key(position_id, 0), key(position_id, 0)], 4);

    assert_eq!(archetype.component_ids(), vec![position_id, position_id, velocity_id]);
    let location = archetype.push_row(
        Entity::new(0, 0),
        vec![
            (position_id, Box::new(Position(1)) as Value),
            (velocity_id, Box::new(Velocity(2)) as Value),
            (position_id, Box::new(Position(3)) as Value),
        ],
    );

    assert_eq!(get::<Position>(&archetype, position_id, location), Some(&Position(1)));
    assert_eq!(get::<Velocity>(&archetype, velocity_id, location), Some(&Velocity(2)));
    let removed = archetype.take_row(location);
    assert_eq!(removed.components[1].1.downcast_ref::<Position>(), Some(&Position(3)));
}

#[test]
fn archetype_keys_are_sorted_by_order() {
    let position_id = ComponentId::of::<Position>();
    let velocity_id = ComponentId::of::<Velocity>();
    let archetype: Archetype<Value> = Archetype::new(vec![key(velocity_id, 1), key(position_id, 0)], 4);

    assert_eq!(archetype.component_ids(), vec![position_id, velocity_id]);
    assert!(archetype.contains_component(velocity_id));
    assert!(!archetype.contains_component(ComponentId::of::<u8>()));
    let without = archetype.component_keys_without(position_id);
    assert_eq!(without.len(), 1);
    assert_eq!(without[0].id(), velocity_id);
}

#[test]
fn removing_a_row_moves_the_last_row_of_its_chunk() {
    let position_id = ComponentId::of::<Position>();
    let velocity_id = ComponentId::of::<Velocity>();
    let mut archetype: Archetype<Value> = Archetype::new(vec![key(position_id, 0), key(velocity_id, 1)], 4);

    let first = archetype.push_row(Entity::new(0, 0), row(position_id, velocity_id, 10, 1));
    archetype.push_row(Entity::new(1, 0), row(position_id, velocity_id, 20, 2));
    archetype.push_row(Entity::new(2, 0), row(position_id, velocity_id, 30, 3));

    assert_eq!(archetype.remove_row(first), Some(Entity::new(2, 0)));
    assert_eq!(archetype.len(), 2);
    assert_eq!(get::<Position>(&archetype, position_id, first), Some(&Position(30)));
    assert_eq!(archetype.chunks_entity(first), Some(Entity::new(2, 0)));
    assert_eq!(archetype.chunks_entity(TableRowLocation { chunk: 0, row: 2 }), None);
}

#[test]
fn swap_remove_row_returns_moved_entity() {
    let position_id = ComponentId::of::<Position>();
    let velocity_id = ComponentId::of::<Velocity>();

    let mut chunk: Chunk<Value> = Chunk::new(&[position_id, velocity_id], 4);

    let first = Entity::new(0, 0);
    let second = Entity::new(1, 0);

    chunk.push_row(
        first,
        vec![(position_id, Box::new(Position(10)) as Value), (velocity_id, Box::new(Velocity(1)) as Value)],
    );

    chunk.push_row(
        second,
        vec![(position_id, Box::new(Position(20)) as Value), (velocity_id, Box::new(Velocity(2)) as Value)],
    );

    assert_eq!(chunk.swap_remove_row(0), Some(second));
    assert_eq!(chunk.len(), 1);
}

#[test]
fn removing_the_last_row_moves_nothing() {
    let position_id = ComponentId::of::<Position>();
    let mut chunk: Chunk<Value> = Chunk::new(&[position_id], 2);

    chunk.push_row(Entity::new(0, 0), vec![(position_id, Box::new(Position(1)) as Value)]);
    chunk.push_row(Entity::new(1, 0), vec![(position_id, Box::new(Position(2)) as Value)]);

    assert!(chunk.is_full());
    assert_eq!(chunk.swap_remove_row(1), None);
    assert_eq!(chunk.row_count(), 1);
    assert_eq!(chunk.entity(0), Some(Entity::new(0, 0)));
    assert_eq!(chunk.entity(1), None);
    assert_eq!(chunk.get(position_id, 0).and_then(|value| value.downcast_ref::<Position>()), Some(&Position(1)));
}

#[test]
fn repeated_column_ids_take_pairs_in_turn() {
    let position_id = ComponentId::of::<Position>();
    let velocity_id = ComponentId::of::<Velocity>();
    let mut chunk: Chunk<Value> = Chunk::new(&[position_id, velocity_id, position_id], 2);

    chunk.push_row(
        Entity::new(0, 0),
        vec![
            (position_id, Box::new(Position(1)) as Value),
            (position_id, Box::new(Position(2)) as Value),
            (velocity_id, Box::new(Velocity(3)) as Value),
        ],
    );

    assert_eq!(chunk.get(position_id, 0).and_then(|value| value.downcast_ref::<Position>()), Some(&Position(1)));
    let removed = chunk.take_row(0).unwrap();
    assert_eq!(removed.entity, Entity::new(0, 0));
    assert_eq!(removed.moved_entity, None);
    let ids: Vec<ComponentId> = removed.components.iter().map(|(id, _)| *id).collect();
    assert_eq!(ids, vec![position_id, velocity_id, position_id]);
    assert_eq!(removed.components[0].1.downcast_ref::<Position>(), Some(&Position(1)));
    assert_eq!(removed.components[1].1.downcast_ref::<Velocity>(), Some(&Velocity(3)));
    assert_eq!(removed.components[2].1.downcast_ref::<Position>(), Some(&Position(2)));
}

use lib::ecs::storage::table::{TableComponentValue, TableEntityLocation, TableStorage};

fn storage_value<T: 'static>(storage: &TableStorage<Value>, location: TableEntityLocation, id: ComponentId) -> Option<&T> {
    storage.get(location, id).and_then(|value| value.downcast_ref::<T>())
}

fn tagged<T: 'static>(id: ComponentId, value: T) -> TableComponentValue<Value> {
    TableComponentValue::new(id, "", Box::new(value))
}

#[test]
fn storage_groups_rows_by_key_set() {
    let position_id = ComponentId::of::<Position>();
    let velocity_id = ComponentId::of::<Velocity>();
    let mut storage: TableStorage<Value> = TableStorage::new(2);

    let first = storage.insert(
        Entity::new(0, 0),
        vec![tagged(position_id, Position(1)), tagged(velocity_id, Velocity(1))],
        vec![key(position_id, 0), key(velocity_id, 1)],
    );
    let second = storage.insert(
        Entity::new(1, 0),
        vec![tagged(velocity_id, Velocity(2)), tagged(position_id, Position(2))],
        vec![key(velocity_id, 1), key(position_id, 0)],
    );
    let third = storage.insert(Entity::new(2, 0), vec![tagged(position_id, Position(3))], vec![key(position_id, 0)]);

    assert_eq!(storage.archetype_count(), 2);
    assert_eq!(storage.len(), 3);
    assert_eq!(first.archetype, second.archetype);
    assert_ne!(first.archetype, third.archetype);
    assert_eq!(storage_value::<Velocity>(&storage, second, velocity_id), Some(&Velocity(2)));
    assert_eq!(storage.entity_at(third), Some(Entity::new(2, 0)));
    assert_eq!(storage.query(position_id).len(), 3);
    assert_eq!(storage.query2(position_id, velocity_id).len(), 2);
}

#[test]
fn storage_moves_rows_between_archetypes() {
    let position_id = ComponentId::of::<Position>();
    let velocity_id = ComponentId::of::<Velocity>();
    let mut storage: TableStorage<Value> = TableStorage::new(4);

    let first = storage.insert(Entity::new(0, 0), vec![tagged(position_id, Position(1))], vec![key(position_id, 0)]);
    storage.insert(Entity::new(1, 0), vec![tagged(position_id, Position(2))], vec![key(position_id, 0)]);

    let insertion = storage
        .insert_component(first, tagged(velocity_id, Velocity(7)), key(velocity_id, 1))
        .expect("the row exists");
    assert_eq!(insertion.entity, Entity::new(0, 0));
    assert_eq!(insertion.moved_entity, Some(Entity::new(1, 0)));
    assert_eq!(storage.entity_at(first), Some(Entity::new(1, 0)));
    assert_eq!(storage_value::<Velocity>(&storage, insertion.new_location, velocity_id), Some(&Velocity(7)));
    assert_eq!(storage_value::<Position>(&storage, insertion.new_location, position_id), Some(&Position(1)));
    assert_eq!(storage.len(), 2);

    let removal = storage.remove_component(insertion.new_location, position_id).expect("the row has Position");
    assert_eq!(removal.removed_entity, Entity::new(0, 0));
    assert_eq!(removal.moved_entity, None);
    let moved_to = removal.new_location.expect("Velocity is left");
    assert_eq!(storage_value::<Velocity>(&storage, moved_to, velocity_id), Some(&Velocity(7)));
    assert_eq!(storage.archetype_count(), 3);

    assert!(storage.remove_component(moved_to, position_id).is_none());
    assert_eq!(storage.remove(first), None);
    assert_eq!(storage.len(), 1);
}
