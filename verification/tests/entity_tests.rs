use lib::ecs::component::{ComponentId, ComponentOrder, ComponentRegistry};
use lib::ecs::entity::{Entity, EntityAllocator};

struct Position;
struct Velocity;

#[test]
fn registration_assigns_stable_order() {
    let mut registry = ComponentRegistry::default();

    let position = registry.register::<Position>();
    let velocity = registry.register::<Velocity>();

    assert!(registry.order(position) < registry.order(velocity));
}

#[test]
fn repeated_registration_keeps_original_order() {
    let mut registry = ComponentRegistry::default();

    let first = registry.register::<Position>();
    let first_order = registry.order(first);

    let second = registry.register::<Position>();
    let second_order = registry.order(second);

    assert_eq!(first, second);
    assert_eq!(first_order, second_order);
}

#[test]
fn table_id_registration_uses_next_order() {
    let mut registry = ComponentRegistry::default();

    let position = ComponentId::of::<Position>();
    let velocity = ComponentId::of::<Velocity>();

    registry.register_table_id(position, "Position");
    registry.register_table_id(velocity, "Velocity");

    assert_eq!(registry.order(position).map(ComponentOrder::index), Some(0));
    assert_eq!(registry.order(velocity).map(ComponentOrder::index), Some(1));
}

#[test]
fn table_id_registration_keeps_the_first_name() {
    let mut registry = ComponentRegistry::default();
    let position = ComponentId::of::<Position>();

    registry.register_table_id(position, "Position");
    registry.register_table_id(position, "Renamed");

    let shown = format!("{:?}", registry);
    assert!(shown.contains("\"Position\""));
    assert!(!shown.contains("Renamed"));
}

#[test]
fn registry_counts_each_type_once() {
    let mut registry = ComponentRegistry::new();

    registry.register::<Position>();
    registry.register::<Position>();
    registry.register_table_id(ComponentId::of::<Velocity>(), "Velocity");

    assert_eq!(registry.len(), 2);
    assert_eq!(registry.order(ComponentId::of::<u8>()), None);
}

#[test]
fn spawned_entity_is_alive() {
    let mut entities = EntityAllocator::new();
    let entity = entities.spawn();
    assert!(entities.is_alive(entity));
}

#[test]
fn despawn_entity_is_not_alive() {
    let mut entities = EntityAllocator::new();
    let entity = entities.spawn();
    assert!(entities.despawn(entity));
    assert!(!entities.is_alive(entity));
}

#[test]
fn entity_despawn_rejects_stale_entity() {
    let mut entities = EntityAllocator::new();
    let entity = entities.spawn();
    entities.despawn(entity);
    assert!(!entities.despawn(entity));
}

#[test]
fn allocator_reuses_index_with_new_generation() {
    let mut entities = EntityAllocator::new();
    let first = entities.spawn();
    assert!(entities.despawn(first));
    let second = entities.spawn();
    assert_ne!(first.generation(), second.generation());
    assert_eq!(first.index(), second.index());
}

#[test]
fn despawn_rejects_unknown_entity() {
    let mut entities = EntityAllocator::new();
    assert_eq!(
        entities.despawn(Entity {
            index: 0,
            generation: 0
        }),
        false
    );
}

#[test]
fn reused_slot_invalidates_old_entity() {
    let mut entities = EntityAllocator::new();

    let first = entities.spawn();
    assert!(entities.despawn(first));

    let second = entities.spawn();

    assert_eq!(first.index(), second.index());
    assert_ne!(first.generation(), second.generation());
    assert!(!entities.is_alive(first));
    assert!(entities.is_alive(second));
}

#[test]
fn alive_count_follows_spawns_and_despawns() {
    let mut entities = EntityAllocator::new();

    let first = entities.spawn();
    let second = entities.spawn();
    assert_eq!(entities.alive_count(), 2);

    assert!(entities.despawn(first));
    assert_eq!(entities.alive_count(), 1);

    assert!(!entities.despawn(first));
    assert_eq!(entities.alive_count(), 1);

    let third = entities.spawn();
    assert_eq!(entities.alive_count(), 2);
    assert!(entities.is_alive(second));
    assert!(entities.is_alive(third));
}

#[test]
fn recycled_indices_come_back_most_recent_first() {
    let mut entities = EntityAllocator::new();

    let first = entities.spawn();
    let second = entities.spawn();
    assert!(entities.despawn(first));
    assert!(entities.despawn(second));

    let reused = entities.spawn();
    assert_eq!(reused, Entity::new(1, 1));
    let next = entities.spawn();
    assert_eq!(next, Entity::new(0, 1));
    let fresh = entities.spawn();
    assert_eq!(fresh, Entity::new(2, 0));
}

#[test]
fn stale_handle_stays_dead_after_reuse() {
    let mut entities = EntityAllocator::new();

    let first = entities.spawn();
    assert!(entities.despawn(first));
    let second = entities.spawn();

    assert_ne!(first, second);
    assert!(!entities.despawn(first));
    assert!(entities.is_alive(second));
    assert!(entities.can_spawn());
}
