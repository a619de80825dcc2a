use std::any::{Any, TypeId};

use lib::ecs::world::World;
use lib::runtime::schedule::{Schedule, Stage, System};

type Value = Box<dyn Any>;

struct FnSystem(Box<dyn FnMut(&mut World<Value>)>);

impl System<Value> for FnSystem {
    fn run(&mut self, world: &mut World<Value>) {
        (self.0)(world)
    }
}

fn system(run: impl FnMut(&mut World<Value>) + 'static) -> FnSystem {
    FnSystem(Box::new(run))
}

#[derive(Debug, Default, PartialEq)]
struct ExecutionLog(Vec<&'static str>);

fn log(world: &mut World<Value>) -> &mut ExecutionLog {
    world
        .get_resource_mut(TypeId::of::<ExecutionLog>())
        .and_then(|value| value.downcast_mut::<ExecutionLog>())
        .expect("ExecutionLog should exist")
}

fn read_log(world: &World<Value>) -> Option<&ExecutionLog> {
    world.get_resource(TypeId::of::<ExecutionLog>()).and_then(|value| value.downcast_ref::<ExecutionLog>())
}

#[test]
fn systems_run_in_registration_order() {
    let mut world: World<Value> = World::new();
    world.insert_resource(TypeId::of::<ExecutionLog>(), Box::new(ExecutionLog::default()));

    let mut schedule = Schedule::new();

    schedule.add_system(Stage::FixedUpdate, system(|world| log(world).0.push("first")));

    schedule.add_system(Stage::FixedUpdate, system(|world| log(world).0.push("second")));

    schedule.run_stage(Stage::FixedUpdate, &mut world);

    assert_eq!(read_log(&world), Some(&ExecutionLog(vec!["first", "second"])));
}

#[test]
fn running_stage_does_not_run_other_stages() {
    let mut world: World<Value> = World::new();
    world.insert_resource(TypeId::of::<ExecutionLog>(), Box::new(ExecutionLog::default()));

    let mut schedule = Schedule::new();

    schedule.add_system(Stage::Startup, system(|world| log(world).0.push("startup")));

    schedule.add_system(Stage::Cleanup, system(|world| log(world).0.push("cleanup")));

    schedule.run_stage(Stage::Startup, &mut world);

    assert_eq!(read_log(&world), Some(&ExecutionLog(vec!["startup"])));
}

#[test]
fn fn_mut_system_keeps_state_between_runs() {
    let mut world: World<Value> = World::new();
    world.insert_resource(TypeId::of::<u64>(), Box::new(0_u64));

    let mut schedule = Schedule::new();
    let mut increment = 0_u64;

    schedule.add_system(
        Stage::FixedUpdate,
        system(move |world| {
            increment += 1;
            *world
                .get_resource_mut(TypeId::of::<u64>())
                .and_then(|value| value.downcast_mut::<u64>())
                .expect("counter should exist") = increment;
        }),
    );

    schedule.run_stage(Stage::FixedUpdate, &mut world);
    schedule.run_stage(Stage::FixedUpdate, &mut world);

    assert_eq!(world.get_resource(TypeId::of::<u64>()).and_then(|value| value.downcast_ref::<u64>()), Some(&2));
}

#[test]
fn system_counts_follow_registration() {
    let mut schedule: Schedule<FnSystem> = Schedule::new();

    schedule.add_system(Stage::FixedUpdate, system(|_| {}));
    schedule.add_system(Stage::FixedUpdate, system(|_| {}));
    schedule.add_system(Stage::Cleanup, system(|_| {}));

    assert_eq!(schedule.system_count(Stage::Startup), 0);
    assert_eq!(schedule.system_count(Stage::FixedUpdate), 2);
    assert_eq!(schedule.system_count(Stage::Cleanup), 1);

    let mut world: World<Value> = World::new();
    schedule.run_stage(Stage::FixedUpdate, &mut world);
    assert_eq!(schedule.system_count(Stage::FixedUpdate), 2);
}
