use std::any::{Any, TypeId};

use lib::ecs::component::ComponentId;
use lib::ecs::entity::Entity;
use lib::ecs::storage::table::TableComponentValue;
use lib::ecs::world::World;
use lib::runtime::app::{App, TickError};
use lib::runtime::plugin::Plugin;
use lib::runtime::schedule::{Stage, System};
use lib::runtime::time::{FixedTime, FixedTimeValue};

struct Value(Box<dyn Any>);

impl FixedTimeValue for Value {
    fn clock(&self) -> Option<FixedTime> {
        self.0.downcast_ref::<FixedTime>().copied()
    }

    fn from_fixed_time(time: FixedTime) -> Self {
        Value(Box::new(time))
    }

    fn fixed_time_mut(&mut self) -> Option<&mut FixedTime> {
        self.0.downcast_mut::<FixedTime>()
    }
}

struct FnSystem(Box<dyn FnMut(&mut World<Value>)>);

impl System<Value> for FnSystem {
    fn run(&mut self, world: &mut World<Value>) {
        (self.0)(world)
    }
}

type TestApp = App<Value, FnSystem>;

fn system(run: impl FnMut(&mut World<Value>) + 'static) -> FnSystem {
    FnSystem(Box::new(run))
}

fn value<T: 'static>(value: T) -> Value {
    Value(Box::new(value))
}

fn key<T: 'static>() -> TypeId {
    TypeId::of::<T>()
}

fn component<T: 'static>(component: T) -> TableComponentValue<Value> {
    TableComponentValue::of::<T>(value(component))
}

fn resource<T: 'static>(world: &World<Value>) -> Option<&T> {
    world.get_resource(key::<T>()).and_then(|value| value.0.downcast_ref::<T>())
}

fn resource_mut<T: 'static>(world: &mut World<Value>) -> Option<&mut T> {
    world.get_resource_mut(key::<T>()).and_then(|value| value.0.downcast_mut::<T>())
}

fn get<T: 'static>(world: &World<Value>, entity: Entity) -> Option<&T> {
    world.get_component(entity, ComponentId::of::<T>()).and_then(|value| value.0.downcast_ref::<T>())
}

#[derive(Debug, PartialEq)]
struct Tick(u64);

#[derive(Debug, Default, PartialEq)]
struct Log(Vec<&'static str>);

#[derive(Debug, PartialEq)]
struct Position(i32);

#[derive(Debug, PartialEq)]
struct Velocity(i32);

#[derive(Debug, Default, PartialEq)]
struct ObservedCount(usize);

#[derive(Debug, Default, PartialEq)]
struct ObservedDuringSystem(bool);

#[derive(Debug, PartialEq)]
struct DamageEvent(u32);

#[derive(Debug, PartialEq)]
struct MarkerEvent;

#[derive(Debug, Default, PartialEq)]
struct ObservedDamage(Vec<u32>);

#[derive(Debug, Default, PartialEq)]
struct ObservedCounts(Vec<usize>);

struct TickPlugin {
    initial_tick: u64,
}

impl Plugin<Value, FnSystem> for TickPlugin {
    fn build(&self, app: &mut TestApp) {
        app.world_mut().insert_resource(key::<Tick>(), value(Tick(self.initial_tick)));
    }
}

struct IncrementTickPlugin;

impl Plugin<Value, FnSystem> for IncrementTickPlugin {
    fn build(&self, app: &mut TestApp) {
        resource_mut::<Tick>(app.world_mut()).expect("Tick should exist").0 += 1;
    }
}

struct IncrementTickSystemPlugin;

impl Plugin<Value, FnSystem> for IncrementTickSystemPlugin {
    fn build(&self, app: &mut TestApp) {
        app.add_system(
            Stage::FixedUpdate,
            system(|world| {
                resource_mut::<Tick>(world).expect("Tick should exist").0 += 1;
            }),
        );
    }
}

fn increment_tick(by: u64) -> FnSystem {
    system(move |world| {
        resource_mut::<Tick>(world).expect("Tick should exist").0 += by;
    })
}

#[test]
fn app_owns_world() {
    let mut app = TestApp::new();

    let entity = app.world_mut().spawn((component(Tick(1)),));

    assert!(app.world().is_alive(entity));
}

#[test]
fn insert_resource_configures_world() {
    let mut app = TestApp::new();
    app.insert_resource(key::<Tick>(), value(Tick(10)));

    assert_eq!(resource::<Tick>(app.world()), Some(&Tick(10)));
}

#[test]
fn plugin_configures_app_world() {
    let mut app = TestApp::new();
    app.add_plugin(TickPlugin { initial_tick: 42 });

    assert_eq!(resource::<Tick>(app.world()), Some(&Tick(42)));
}

#[test]
fn plugins_apply_in_registration_order() {
    let mut app = TestApp::new();
    app.add_plugin(TickPlugin { initial_tick: 10 }).add_plugin(IncrementTickPlugin);

    assert_eq!(resource::<Tick>(app.world()), Some(&Tick(11)));
}

#[test]
fn app_runs_registered_system_stage() {
    let mut app = TestApp::new();

    app.insert_resource(key::<Tick>(), value(Tick(10))).add_system(Stage::FixedUpdate, increment_tick(1));

    app.run_stage(Stage::FixedUpdate);

    assert_eq!(resource::<Tick>(app.world()), Some(&Tick(11)));
}

#[test]
fn plugin_registers_system() {
    let mut app = TestApp::new();

    app.insert_resource(key::<Tick>(), value(Tick(10))).add_plugin(IncrementTickSystemPlugin);

    app.run_stage(Stage::FixedUpdate);

    assert_eq!(resource::<Tick>(app.world()), Some(&Tick(11)));
}

#[test]
fn fixed_tick_runner_runs_exact_tick_count() {
    let mut app = TestApp::new();

    app.insert_resource(key::<Tick>(), value(Tick(0))).add_system(Stage::FixedUpdate, increment_tick(1));

    app.run_fixed_ticks(3).expect("FixedTime should exist");

    assert_eq!(resource::<Tick>(app.world()), Some(&Tick(3)));
    assert_eq!(resource::<FixedTime>(app.world()).expect("FixedTime should exist").completed_ticks(), 3);
}

#[test]
fn startup_runs_once_across_multiple_tick_batches() {
    let mut app = TestApp::new();

    app.insert_resource(key::<Tick>(), value(Tick(0)))
        .add_system(Stage::Startup, increment_tick(10))
        .add_system(Stage::FixedUpdate, increment_tick(1));

    app.run_fixed_ticks(2).expect("FixedTime should exist");
    app.run_fixed_ticks(3).expect("FixedTime should exist");

    assert_eq!(resource::<Tick>(app.world()), Some(&Tick(15)));
}

#[test]
fn cleanup_runs_after_each_fixed_tick() {
    let mut app = TestApp::new();

    app.insert_resource(key::<Log>(), value(Log::default()))
        .add_system(
            Stage::FixedUpdate,
            system(|world| {
                resource_mut::<Log>(world).expect("Log should exist").0.push("fixed");
            }),
        )
        .add_system(
            Stage::Cleanup,
            system(|world| {
                resource_mut::<Log>(world).expect("Log should exist").0.push("cleanup");
            }),
        );

    app.run_fixed_ticks(2).expect("FixedTime should exist");

    assert_eq!(resource::<Log>(app.world()), Some(&Log(vec!["fixed", "cleanup", "fixed", "cleanup"])));
}

#[test]
fn zero_ticks_still_runs_startup_once() {
    let mut app = TestApp::new();

    app.insert_resource(key::<Tick>(), value(Tick(0))).add_system(Stage::Startup, increment_tick(1));

    app.run_fixed_ticks(0).expect("FixedTime should exist");
    app.run_fixed_ticks(0).expect("FixedTime should exist");

    assert_eq!(resource::<Tick>(app.world()), Some(&Tick(1)));
}

#[test]
fn fixed_update_applies_spawn_commands_at_stage_boundary() {
    let mut app = TestApp::new();

    app.add_system(
        Stage::FixedUpdate,
        system(|world| {
            world.commands().spawn((component(Position(10)),));
        }),
    );

    app.run_fixed_ticks(1).expect("FixedTime should exist");

    assert_eq!(app.world().entity_count(), 1);
    assert_eq!(
        app.world().query(ComponentId::of::<Position>())[0].component.0.downcast_ref::<Position>(),
        Some(&Position(10))
    );
}

#[test]
fn cleanup_observes_entities_spawned_during_fixed_update() {
    let mut app = TestApp::new();

    app.insert_resource(key::<ObservedCount>(), value(ObservedCount::default()))
        .add_system(
            Stage::FixedUpdate,
            system(|world| {
                world.commands().spawn((component(Position(10)),));
            }),
        )
        .add_system(
            Stage::Cleanup,
            system(|world| {
                let count = world.query(ComponentId::of::<Position>()).len();

                resource_mut::<ObservedCount>(world).expect("ObservedCount should exist").0 = count;
            }),
        );

    app.run_fixed_ticks(1).expect("FixedTime should exist");

    assert_eq!(resource::<ObservedCount>(app.world()), Some(&ObservedCount(1)));
}

#[test]
fn fixed_update_applies_component_removal_after_stage() {
    let mut app = TestApp::new();

    let entity = app.world_mut().spawn((component(Position(10)), component(Velocity(1))));

    app.insert_resource(key::<ObservedDuringSystem>(), value(ObservedDuringSystem::default())).add_system(
        Stage::FixedUpdate,
        system(move |world| {
            world.commands().remove_component(entity, ComponentId::of::<Velocity>());

            let observed = get::<Velocity>(world, entity).is_some();
            resource_mut::<ObservedDuringSystem>(world).expect("ObservedDuringSystem should exist").0 = observed;
        }),
    );

    app.run_fixed_ticks(1).expect("FixedTime should exist");

    assert_eq!(resource::<ObservedDuringSystem>(app.world()), Some(&ObservedDuringSystem(true)));

    assert_eq!(get::<Velocity>(app.world(), entity), None);
    assert_eq!(get::<Position>(app.world(), entity), Some(&Position(10)));
}

#[test]
fn fixed_update_applies_component_insertion_after_stage() {
    let mut app = TestApp::new();

    let entity = app.world_mut().spawn((component(Position(10)),));

    app.insert_resource(key::<ObservedDuringSystem>(), value(ObservedDuringSystem::default())).add_system(
        Stage::FixedUpdate,
        system(move |world| {
            world.commands().insert_component(entity, component(Velocity(2)));

            let velocity_existed = get::<Velocity>(world, entity).is_some();

            resource_mut::<ObservedDuringSystem>(world).expect("ObservedDuringSystem should exist").0 = velocity_existed;
        }),
    );

    app.run_fixed_ticks(1).expect("FixedTime should exist");

    assert_eq!(resource::<ObservedDuringSystem>(app.world()), Some(&ObservedDuringSystem(false)));

    assert_eq!(get::<Velocity>(app.world(), entity), Some(&Velocity(2)));
}

#[test]
fn cleanup_observes_events_sent_during_fixed_update() {
    let mut app = TestApp::new();

    app.insert_resource(key::<ObservedDamage>(), value(ObservedDamage::default()))
        .add_system(
            Stage::FixedUpdate,
            system(|world| {
                world.send_event(key::<DamageEvent>(), value(DamageEvent(10)));
            }),
        )
        .add_system(
            Stage::Cleanup,
            system(|world| {
                let damage = world
                    .events(key::<DamageEvent>())
                    .iter()
                    .map(|event| event.0.downcast_ref::<DamageEvent>().expect("event should be a DamageEvent").0)
                    .collect::<Vec<_>>();

                resource_mut::<ObservedDamage>(world).expect("ObservedDamage should exist").0.extend(damage);
            }),
        );

    app.run_fixed_ticks(1).expect("FixedTime should exist");

    assert_eq!(resource::<ObservedDamage>(app.world()), Some(&ObservedDamage(vec![10])));

    assert!(app.world().events(key::<DamageEvent>()).is_empty());
}

#[test]
fn events_do_not_survive_into_next_tick() {
    let mut app = TestApp::new();

    app.insert_resource(key::<ObservedCounts>(), value(ObservedCounts::default())).add_system(
        Stage::Cleanup,
        system(|world| {
            let count = world.events(key::<MarkerEvent>()).len();

            resource_mut::<ObservedCounts>(world).expect("ObservedCounts should exist").0.push(count);
        }),
    );

    app.world_mut().send_event(key::<MarkerEvent>(), value(MarkerEvent));
    app.run_fixed_ticks(2).expect("FixedTime should exist");

    assert_eq!(resource::<ObservedCounts>(app.world()), Some(&ObservedCounts(vec![1, 0])));
}

#[test]
fn new_app_holds_only_the_clock() {
    let app = TestApp::new();

    assert_eq!(app.world().resource_count(), 1);
    assert_eq!(resource::<FixedTime>(app.world()).map(FixedTime::completed_ticks), Some(0));
    assert_eq!(app.world().entity_count(), 0);
    assert_eq!(app.schedule().system_count(Stage::FixedUpdate), 0);
}

#[test]
fn run_is_one_fixed_tick() {
    let mut app = TestApp::new();

    app.insert_resource(key::<Tick>(), value(Tick(0))).add_system(Stage::FixedUpdate, increment_tick(1));

    app.run().expect("FixedTime should exist");
    app.run().expect("FixedTime should exist");

    assert_eq!(resource::<Tick>(app.world()), Some(&Tick(2)));
    assert_eq!(resource::<FixedTime>(app.world()).map(FixedTime::completed_ticks), Some(2));
}

#[test]
fn missing_clock_stops_the_tick_runner() {
    let mut app = TestApp::new();

    app.insert_resource(key::<Tick>(), value(Tick(0)))
        .add_system(Stage::FixedUpdate, increment_tick(1))
        .add_system(Stage::Cleanup, increment_tick(100));
    app.world_mut().remove_resource(key::<FixedTime>());

    assert_eq!(app.run_fixed_ticks(2), Err(TickError::MissingFixedTime));
    assert_eq!(resource::<Tick>(app.world()), Some(&Tick(1)));
}

#[test]
fn schedule_mut_adds_systems_too() {
    let mut app = TestApp::new();

    app.insert_resource(key::<Tick>(), value(Tick(5)));
    app.schedule_mut().add_system(Stage::Cleanup, increment_tick(2));

    app.run_stage(Stage::Cleanup);

    assert_eq!(resource::<Tick>(app.world()), Some(&Tick(7)));
}

#[test]
fn exhausted_clock_stops_the_tick_runner() {
    let mut app = TestApp::new();

    app.insert_resource(key::<Tick>(), value(Tick(0))).add_system(Stage::FixedUpdate, increment_tick(1));
    app.insert_resource(key::<FixedTime>(), value(FixedTime::starting_at(u64::MAX - 1)));

    assert_eq!(app.run_fixed_ticks(1), Ok(()));
    assert_eq!(resource::<FixedTime>(app.world()).map(FixedTime::completed_ticks), Some(u64::MAX));
    assert_eq!(app.run_fixed_ticks(1), Err(TickError::ClockExhausted));
    assert_eq!(resource::<Tick>(app.world()), Some(&Tick(2)));
}
