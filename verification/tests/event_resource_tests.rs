use std::any::{Any, TypeId};

use lib::ecs::event::Events;
use lib::ecs::resource::Resources;

type Value = Box<dyn Any>;

#[derive(Debug, PartialEq)]
struct DamageEvent(u32);

#[derive(Debug, PartialEq)]
struct SpawnEvent;

#[derive(Debug, PartialEq)]
struct Time {
    tick: u64,
}

#[derive(Debug, PartialEq)]
struct Settings {
    speed: u32,
}

fn key<T: 'static>() -> TypeId {
    TypeId::of::<T>()
}

fn read<'a, T: 'static>(events: &'a Events<Value>) -> Vec<&'a T> {
    events
        .read(key::<T>())
        .iter()
        .map(|event| event.downcast_ref::<T>().expect("event should have its channel's type"))
        .collect()
}

fn resource<T: 'static>(resources: &Resources<Value>) -> Option<&T> {
    resources.get(key::<T>()).and_then(|value| value.downcast_ref::<T>())
}

fn taken<T: 'static>(value: Option<Value>) -> Option<T> {
    value.map(|value| *value.downcast::<T>().expect("resource should have its key's type"))
}

#[test]
fn send_stores_typed_event() {
    let mut events: Events<Value> = Events::new();

    events.send(key::<DamageEvent>(), Box::new(DamageEvent(10)));

    assert_eq!(read::<DamageEvent>(&events), vec![&DamageEvent(10)]);
}

#[test]
fn event_types_use_separate_channels() {
    let mut events: Events<Value> = Events::new();

    events.send(key::<DamageEvent>(), Box::new(DamageEvent(10)));
    events.send(key::<SpawnEvent>(), Box::new(SpawnEvent));

    assert_eq!(events.len(key::<DamageEvent>()), 1);
    assert_eq!(events.len(key::<SpawnEvent>()), 1);
}

#[test]
fn read_returns_empty_slice_for_unknown_event_type() {
    let events: Events<Value> = Events::new();

    assert!(events.read(key::<DamageEvent>()).is_empty());
}

#[test]
fn clear_removes_events_from_all_channels() {
    let mut events: Events<Value> = Events::new();

    events.send(key::<DamageEvent>(), Box::new(DamageEvent(10)));
    events.send(key::<SpawnEvent>(), Box::new(SpawnEvent));

    events.clear();

    assert!(events.is_empty(key::<DamageEvent>()));
    assert!(events.is_empty(key::<SpawnEvent>()));
}

#[test]
fn events_are_read_back_in_sending_order() {
    let mut events: Events<Value> = Events::new();

    events.send(key::<DamageEvent>(), Box::new(DamageEvent(1)));
    events.send(key::<SpawnEvent>(), Box::new(SpawnEvent));
    events.send(key::<DamageEvent>(), Box::new(DamageEvent(2)));

    assert_eq!(read::<DamageEvent>(&events), vec![&DamageEvent(1), &DamageEvent(2)]);
    events.clear();
    events.send(key::<DamageEvent>(), Box::new(DamageEvent(3)));
    assert_eq!(read::<DamageEvent>(&events), vec![&DamageEvent(3)]);
    assert_eq!(events.len(key::<SpawnEvent>()), 0);
}

#[test]
fn insert_and_get_resource() {
    let mut resources: Resources<Value> = Resources::new();

    assert!(taken::<Time>(resources.insert(key::<Time>(), Box::new(Time { tick: 10 }))).is_none());
    assert_eq!(resource::<Time>(&resources), Some(&Time { tick: 10 }));
}

#[test]
fn insert_replaces_existing_resource() {
    let mut resources: Resources<Value> = Resources::new();

    resources.insert(key::<Time>(), Box::new(Time { tick: 10 }));

    assert_eq!(
        taken::<Time>(resources.insert(key::<Time>(), Box::new(Time { tick: 20 }))),
        Some(Time { tick: 10 })
    );

    assert_eq!(resource::<Time>(&resources), Some(&Time { tick: 20 }));
}

#[test]
fn get_mut_updates_resource() {
    let mut resources: Resources<Value> = Resources::new();

    resources.insert(key::<Time>(), Box::new(Time { tick: 10 }));

    resources
        .get_mut(key::<Time>())
        .and_then(|value| value.downcast_mut::<Time>())
        .expect("Time should exist")
        .tick += 1;

    assert_eq!(resource::<Time>(&resources), Some(&Time { tick: 11 }));
}

#[test]
fn remove_returns_resource() {
    let mut resources: Resources<Value> = Resources::new();

    resources.insert(key::<Settings>(), Box::new(Settings { speed: 2 }));

    assert_eq!(taken::<Settings>(resources.remove(key::<Settings>())), Some(Settings { speed: 2 }));

    assert!(!resources.contains(key::<Settings>()));
    assert!(resources.is_empty());
}

#[test]
fn resources_are_stored_by_type() {
    let mut resources: Resources<Value> = Resources::new();

    resources.insert(key::<Time>(), Box::new(Time { tick: 10 }));
    resources.insert(key::<Settings>(), Box::new(Settings { speed: 2 }));

    assert_eq!(resources.len(), 2);
    assert_eq!(resource::<Time>(&resources), Some(&Time { tick: 10 }));
    assert_eq!(resource::<Settings>(&resources), Some(&Settings { speed: 2 }));
}

#[test]
fn removing_a_missing_resource_changes_nothing() {
    let mut resources: Resources<Value> = Resources::new();

    resources.insert(key::<Time>(), Box::new(Time { tick: 1 }));

    assert!(resources.remove(key::<Settings>()).is_none());
    assert_eq!(resources.len(), 1);
    assert!(resources.get_mut(key::<Settings>()).is_none());
    assert!(resources.contains(key::<Time>()));
}

#[test]
fn insert_then_remove_restores_resources() {
    let mut resources: Resources<Value> = Resources::new();

    resources.insert(key::<Time>(), Box::new(Time { tick: 1 }));
    resources.insert(key::<Settings>(), Box::new(Settings { speed: 3 }));
    resources.remove(key::<Settings>());

    assert_eq!(resources.len(), 1);
    assert!(!resources.contains(key::<Settings>()));
    assert_eq!(resource::<Time>(&resources), Some(&Time { tick: 1 }));
}
