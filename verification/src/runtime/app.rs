use std::any::TypeId;
use vstd::prelude::*;

use crate::runtime::plugin::Plugin;
use crate::runtime::schedule::{run_trace, runs_in_order, Schedule, ScheduleView, Stage, System};
use crate::runtime::time::{FixedTime, FixedTimeValue};
use crate::ecs::command::Command;
use crate::ecs::event::events_of;
use crate::ecs::type_ids::type_id_of;
use crate::ecs::world::{World, WorldView};
use crate::ecs::world_laws::law_commands_keep_queue;

verus! {

/// Why a run of fixed ticks stopped early.
#[derive(Debug, Clone, Copy, PartialEq, Eq, Structural)]
pub enum TickError {
    /// No resource under the clock's key holds a `FixedTime`.
    MissingFixedTime,
    /// The clock has counted `u64::MAX` ticks and cannot count another.
    ClockExhausted,
}

/// Abstract state of an application: its world, its schedule, whether the startup stage
/// has run, and the resource key of its fixed-step clock.
#[verifier::ext_equal]
pub struct AppView<V, S> {
    pub world: WorldView<V>,
    pub schedule: ScheduleView<S>,
    pub startup_complete: bool,
    pub time_key: TypeId,
}

impl<V, S> AppView<V, S> {
    /// `after` is this application after running `stage`: its systems run in order on
    /// the world and are stored back as their runs left them, then the queued commands
    /// are applied; the other stages keep their systems.
    pub open spec fn ran_stage(self, stage: Stage, after: AppView<V, S>) -> bool
        where
            S: System<V>,
    {
        &&& exists|middle: WorldView<V>| #[trigger] runs_in_order(self.schedule.systems(stage), self.world, middle, after.schedule.systems(stage))
            && after.world == middle.without_commands().apply_commands(middle.commands)
        &&& forall|other: Stage| other != stage ==> #[trigger] after.schedule.systems(other) == self.schedule.systems(other)
        &&& after.startup_complete == self.startup_complete
        &&& after.time_key == self.time_key
    }

    /// The clock held by the resource under the clock's key, if there is one.
    pub open spec fn clock(self) -> Option<FixedTime>
        where
            V: FixedTimeValue,
    {
        clock_in(self.world, self.time_key)
    }

    /// No system that a run of fixed ticks would run can change the clock: either no
    /// system of this type changes it, or the stages that would run hold no system.
    pub open spec fn clock_left_alone(self) -> bool
        where
            V: FixedTimeValue,
            S: System<V>,
    {
        ||| systems_keep_clock::<V, S>(self.time_key)
        ||| {
            &&& self.schedule.fixed_update.len() == 0
            &&& self.schedule.cleanup.len() == 0
            &&& (self.startup_complete || self.schedule.startup.len() == 0)
        }
    }

    /// What a run of `ticks` fixed ticks returns when no system changes the clock: success
    /// for no ticks; without a clock, `MissingFixedTime`; with a clock that cannot count
    /// `ticks` more, `ClockExhausted`; else success.
    pub open spec fn clock_outcome(self, ticks: nat) -> Result<(), TickError>
        where
            V: FixedTimeValue,
    {
        if ticks == 0 {
            Ok(())
        } else {
            match self.clock() {
                None => Err(TickError::MissingFixedTime),
                Some(time) => if time@ + ticks <= u64::MAX {
                    Ok(())
                } else {
                    Err(TickError::ClockExhausted)
                },
            }
        }
    }

    /// The count the clock reaches in a run of `ticks` fixed ticks when no system changes
    /// it: `ticks` more, or `u64::MAX` where the run stops there.
    pub open spec fn clock_reached(self, ticks: nat) -> int
        where
            V: FixedTimeValue,
    {
        let count = self.clock()->0@ + ticks;
        if count <= u64::MAX {
            count
        } else {
            u64::MAX as int
        }
    }

    /// Why the clock cannot count another tick, if it cannot: no clock, or a clock that
    /// has counted `u64::MAX` ticks.
    pub open spec fn clock_error(self) -> Option<TickError>
        where
            V: FixedTimeValue,
    {
        match self.clock() {
            None => Some(TickError::MissingFixedTime),
            Some(time) => if time@ == u64::MAX {
                Some(TickError::ClockExhausted)
            } else {
                None
            },
        }
    }

    /// This application with `value` stored under the clock's key.
    pub open spec fn with_clock_value(self, value: V) -> AppView<V, S> {
        AppView { world: self.world.with_resources(self.world.resources.insert(self.time_key, value)), ..self }
    }

    /// `after` is this application with its clock one tick further and nothing else
    /// changed but the value under the clock's key.
    pub open spec fn clock_advanced(self, after: AppView<V, S>) -> bool
        where
            V: FixedTimeValue,
    {
        &&& self.clock_error() is None
        &&& after.world.resources.contains_key(self.time_key)
        &&& after == self.with_clock_value(after.world.resources[self.time_key])
        &&& after.clock() is Some
        &&& after.clock()->0@ == self.clock()->0@ + 1
    }

    /// `after` is this application, unchanged but perhaps for a new value under the
    /// clock's key that holds the same clock.
    pub open spec fn clock_kept(self, after: AppView<V, S>) -> bool
        where
            V: FixedTimeValue,
    {
        ||| after == self
        ||| {
            &&& self.world.resources.contains_key(self.time_key)
            &&& after.world.resources.contains_key(self.time_key)
            &&& after == self.with_clock_value(after.world.resources[self.time_key])
            &&& after.clock() == self.clock()
        }
    }

    /// This application with every event channel emptied.
    pub open spec fn events_cleared(self) -> AppView<V, S> {
        AppView {
            world: self.world.with_events(
                Map::new(|key: TypeId| self.world.events.contains_key(key), |key: TypeId| Seq::<V>::empty()),
            ),
            ..self
        }
    }

    /// `after` is this application after one fixed tick: the fixed-update stage, one
    /// more tick on the clock, the cleanup stage, and emptied event channels.
    pub open spec fn ticked(self, after: AppView<V, S>) -> bool
        where
            V: FixedTimeValue,
            S: System<V>,
    {
        exists|a: AppView<V, S>, b: AppView<V, S>, c: AppView<V, S>|
            #![trigger self.ran_stage(Stage::FixedUpdate, a), a.clock_advanced(b), b.ran_stage(Stage::Cleanup, c)]
            self.ran_stage(Stage::FixedUpdate, a) && a.clock_advanced(b) && b.ran_stage(Stage::Cleanup, c)
                && after == c.events_cleared()
    }

    /// `after` is this application after `n` fixed ticks.
    pub open spec fn ticked_times(self, after: AppView<V, S>, n: nat) -> bool
        where
            V: FixedTimeValue,
            S: System<V>,
    {
        exists|apps: Seq<AppView<V, S>>| #[trigger] tick_trace(apps) && apps.len() == n + 1 && apps[0] == self && apps.last() == after
    }

    /// `after` is this application once its startup stage has run: unchanged if it
    /// already had, else after running the stage and marking it done.
    pub open spec fn started(self, after: AppView<V, S>) -> bool
        where
            S: System<V>,
    {
        if self.startup_complete {
            after == self
        } else {
            &&& after.startup_complete
            &&& self.ran_stage(Stage::Startup, AppView { startup_complete: false, ..after })
        }
    }

    /// A run of `ticks` fixed ticks from this application stopped with `error` at `after`:
    /// after startup and `k < ticks` whole ticks, the fixed-update stage left a clock that
    /// cannot count another tick, and `after` is that application with its clock kept.
    pub open spec fn stopped(self, after: AppView<V, S>, ticks: nat, error: TickError) -> bool
        where
            V: FixedTimeValue,
            S: System<V>,
    {
        exists|started: AppView<V, S>, before: AppView<V, S>, stuck: AppView<V, S>, k: nat|
            #![trigger self.started(started), started.ticked_times(before, k), before.ran_stage(Stage::FixedUpdate, stuck)]
            self.started(started) && k < ticks && started.ticked_times(before, k) && before.ran_stage(Stage::FixedUpdate, stuck)
                && stuck.clock_error() == Some(error) && stuck.clock_kept(after)
    }
}

/// The clock held by the resource under `key` in `world`, if there is one.
pub open spec fn clock_in<V: FixedTimeValue>(world: WorldView<V>, key: TypeId) -> Option<FixedTime> {
    if world.resources.contains_key(key) {
        world.resources[key].clock()
    } else {
        None
    }
}

/// No system of type `S` changes the clock under `key`: whatever one run makes of a
/// world, the clock there is the one before.
pub open spec fn systems_keep_clock<V: FixedTimeValue, S: System<V>>(key: TypeId) -> bool {
    forall|system: S, before: WorldView<V>, after: WorldView<V>, next: S|
        #[trigger] system.runs(before, after, next) ==> clock_in(after, key) == clock_in(before, key)
}

/// Each application in `apps` is the one before it after one fixed tick.
pub open spec fn tick_trace<V: FixedTimeValue, S: System<V>>(apps: Seq<AppView<V, S>>) -> bool {
    forall|j: int| 0 <= j < apps.len() - 1 ==> #[trigger] apps[j].ticked(apps[j + 1])
}

/// An application: a world, the schedule of systems that run on it, and a fixed-step
/// clock kept as a resource of the world.
pub struct App<V, S> {
    world: World<V>,
    schedule: Schedule<S>,
    startup_complete: bool,
    time_key: TypeId,
}

impl<V, S> View for App<V, S> {
    type V = AppView<V, S>;

    closed spec fn view(&self) -> AppView<V, S> {
        AppView {
            world: self.world@,
            schedule: self.schedule@,
            startup_complete: self.startup_complete,
            time_key: self.time_key,
        }
    }
}

impl<V: FixedTimeValue, S> Default for App<V, S> {
    fn default() -> (app: Self)
        ensures
            app.wf(),
            app@.world == WorldView::<V>::empty().with_resources(app@.world.resources),
            app@.world.resources.dom() == Set::<TypeId>::empty().insert(app@.time_key),
            app@.clock() is Some,
            app@.clock()->0@ == 0,
            app@.schedule.startup.len() == 0,
            app@.schedule.fixed_update.len() == 0,
            app@.schedule.cleanup.len() == 0,
            !app@.startup_complete,
    {
        let mut world = World::new();
        let time_key = type_id_of::<FixedTime>();
        world.insert_resource(time_key, V::from_fixed_time(FixedTime::default()));
        proof {
            assert(world@.resources.dom() =~= Set::<TypeId>::empty().insert(time_key));
        }
        App { world, schedule: Schedule::new(), startup_complete: false, time_key }
    }
}

impl<V, S> App<V, S> {
    /// The application's invariant: its world is well formed.
    pub closed spec fn wf(&self) -> bool {
        self.world.wf()
    }

    pub fn new() -> (app: Self)
        where
            V: FixedTimeValue,
        ensures
            app.wf(),
            app@.world == WorldView::<V>::empty().with_resources(app@.world.resources),
            app@.world.resources.dom() == Set::<TypeId>::empty().insert(app@.time_key),
            app@.clock() is Some,
            app@.clock()->0@ == 0,
            app@.schedule.startup.len() == 0,
            app@.schedule.fixed_update.len() == 0,
            app@.schedule.cleanup.len() == 0,
            !app@.startup_complete,
    {
        Self::default()
    }

    pub fn world(&self) -> (world: &World<V>)
        ensures
            world@ == self@.world,
            world.wf() == self.wf(),
    {
        &self.world
    }

    pub fn world_mut(&mut self) -> (world: &mut World<V>)
        ensures
            world@ == old(self)@.world,
            world.wf() == old(self).wf(),
            final(self)@ == (AppView { world: final(world)@, ..old(self)@ }),
            final(self).wf() == final(world).wf(),
    {
        &mut self.world
    }

    pub fn schedule(&self) -> (schedule: &Schedule<S>)
        ensures
            schedule@ == self@.schedule,
    {
        &self.schedule
    }

    pub fn schedule_mut(&mut self) -> (schedule: &mut Schedule<S>)
        ensures
            schedule@ == old(self)@.schedule,
            final(self)@ == (AppView { schedule: final(schedule)@, ..old(self)@ }),
            final(self).wf() == old(self).wf(),
    {
        &mut self.schedule
    }

    /// Stores `resource` under `key` in the world.
    pub fn insert_resource(&mut self, key: TypeId, resource: V) -> (app: &mut Self)
        requires
            old(self).wf(),
        ensures
            app.wf(),
            app@ == (AppView { world: old(self)@.world.with_resources(old(self)@.world.resources.insert(key, resource)), ..old(self)@ }),
            *final(self) == *final(app),
    {
        self.world.insert_resource(key, resource);
        self
    }

    /// Lets `plugin` configure the application.
    pub fn add_plugin<P: Plugin<V, S>>(&mut self, plugin: P) -> (app: &mut Self)
        requires
            old(self).wf(),
        ensures
            app.wf(),
            plugin.builds(old(self)@, app@),
            *final(self) == *final(app),
    {
        plugin.build(self);
        self
    }

    /// Adds `system` after the systems already in `stage`.
    pub fn add_system(&mut self, stage: Stage, system: S) -> (app: &mut Self)
        requires
            old(self).wf(),
        ensures
            app.wf(),
            app@ == (AppView {
                schedule: old(self)@.schedule.with_systems(stage, old(self)@.schedule.systems(stage).push(system)),
                ..old(self)@
            }),
            *final(self) == *final(app),
    {
        self.schedule.add_system(stage, system);
        self
    }

    /// Runs the systems of `stage`, then applies the commands they queued.
    pub fn run_stage(&mut self, stage: Stage)
        where
            S: System<V>,
        requires
            old(self).wf(),
        ensures
            final(self).wf(),
            old(self)@.ran_stage(stage, final(self)@),
            final(self)@.world.commands.len() == 0,
    {
        let ghost before = self@;
        self.schedule.run_stage(stage, &mut self.world);
        let ghost middle = self.world@;
        self.world.apply_commands();
        proof {
            assert(runs_in_order(before.schedule.systems(stage), before.world, middle, self@.schedule.systems(stage)));
        }
    }

    /// Runs the startup stage unless it has run already.
    fn run_startup_once(&mut self)
        where
            S: System<V>,
        requires
            old(self).wf(),
        ensures
            final(self).wf(),
            final(self)@.startup_complete,
            old(self)@.started(final(self)@),
    {
        if self.startup_complete {
            return;
        }
        self.run_stage(Stage::Startup);
        self.startup_complete = true;
    }

    /// Counts one more tick on the clock resource. When the clock cannot count another
    /// tick it fails with the reason and keeps the clock as it was.
    fn advance_clock(&mut self) -> (result: Result<(), TickError>)
        where
            V: FixedTimeValue,
        requires
            old(self).wf(),
        ensures
            final(self).wf(),
            match old(self)@.clock_error() {
                Some(error) => result == Err::<(), TickError>(error) && old(self)@.clock_kept(final(self)@),
                None => result is Ok && old(self)@.clock_advanced(final(self)@),
            },
    {
        let ghost before = self@;
        let key = self.time_key;
        match self.world.get_resource_mut(key) {
            Some(value) => match value.fixed_time_mut() {
                Some(time) => {
                    if time.completed_ticks() == u64::MAX {
                        return Err(TickError::ClockExhausted);
                    }
                    time.advance();
                    Ok(())
                },
                None => {
                    proof {
                        assert(before.world.resources.insert(key, before.world.resources[key]) =~= before.world.resources);
                    }
                    Err(TickError::MissingFixedTime)
                },
            },
            None => Err(TickError::MissingFixedTime),
        }
    }

    /// Runs the startup stage if it has not run yet, then `ticks` fixed ticks: each runs
    /// the fixed-update stage, advances the clock, runs the cleanup stage and empties the
    /// event channels. Stops with the reason when, after a fixed-update stage, the clock
    /// cannot count another tick. Where no system can change the clock, the clock alone
    /// decides the outcome: see `AppView::clock_outcome` and `AppView::clock_reached`.
    pub fn run_fixed_ticks(&mut self, ticks: u64) -> (result: Result<(), TickError>)
        where
            V: FixedTimeValue,
            S: System<V>,
        requires
            old(self).wf(),
        ensures
            final(self).wf(),
            final(self)@.startup_complete,
            ticks == 0 ==> result is Ok,
            result is Ok ==> exists|started: AppView<V, S>| #[trigger] old(self)@.started(started)
                && started.ticked_times(final(self)@, ticks as nat),
            match result {
                Ok(_) => true,
                Err(error) => old(self)@.stopped(final(self)@, ticks as nat, error),
            },
            final(self)@.time_key == old(self)@.time_key,
            final(self)@.schedule.startup.len() == old(self)@.schedule.startup.len(),
            final(self)@.schedule.fixed_update.len() == old(self)@.schedule.fixed_update.len(),
            final(self)@.schedule.cleanup.len() == old(self)@.schedule.cleanup.len(),
            ticks > 0 || !old(self)@.startup_complete ==> final(self)@.world.commands.len() == 0,
            old(self)@.clock_left_alone() ==> final(self)@.clock_left_alone(),
            old(self)@.clock_left_alone() ==> result == old(self)@.clock_outcome(ticks as nat),
            old(self)@.clock_left_alone() ==> (final(self)@.clock() is Some) == (old(self)@.clock() is Some),
            old(self)@.clock_left_alone() && old(self)@.clock() is Some ==> final(self)@.clock()->0@
                == old(self)@.clock_reached(ticks as nat),
    {
        let ghost before = self@;
        self.run_startup_once();
        let ghost started = self@;
        proof {
            lemma_started_keeps_shape(before, started);
            if !before.startup_complete {
                law_start_runs_startup_stage(before, started);
            }
            if before.clock_left_alone() {
                lemma_started_keeps_clock(before, started);
            }
        }
        let mut done: u64 = 0;
        let ghost apps: Seq<AppView<V, S>> = seq![started];
        while done < ticks
            invariant
                self.wf(),
                self@.startup_complete,
                done <= ticks,
                before == old(self)@,
                before.started(started),
                apps.len() == done + 1,
                apps[0] == started,
                apps.last() == self@,
                tick_trace(apps),
                self@.time_key == before.time_key,
                done > 0 || !before.startup_complete ==> self@.world.commands.len() == 0,
                self@.schedule.startup.len() == before.schedule.startup.len(),
                self@.schedule.fixed_update.len() == before.schedule.fixed_update.len(),
                self@.schedule.cleanup.len() == before.schedule.cleanup.len(),
                before.clock_left_alone() ==> {
                    &&& self@.clock_left_alone()
                    &&& self@.time_key == before.time_key
                    &&& before.clock() is None ==> done == 0 && self@.clock() is None
                    &&& before.clock() is Some ==> self@.clock() is Some && self@.clock()->0@ == before.clock()->0@ + done
                },
            decreases ticks - done,
        {
            let ghost previous = self@;
            self.run_stage(Stage::FixedUpdate);
            let ghost a = self@;
            proof {
                lemma_stage_keeps_shape(previous, Stage::FixedUpdate, a);
                law_stage_leaves_no_commands(previous, Stage::FixedUpdate, a);
            }
            match self.advance_clock() {
                Ok(()) => {},
                Err(error) => {
                    proof {
                        assert(started.ticked_times(previous, done as nat));
                        assert(before.started(started) && (done as nat) < ticks && started.ticked_times(previous, done as nat)
                            && previous.ran_stage(Stage::FixedUpdate, a) && a.clock_error() == Some(error) && a.clock_kept(self@));
                        assert(before.stopped(self@, ticks as nat, error));
                        assert(before == old(self)@);
                        if before.clock_left_alone() {
                            lemma_stage_keeps_clock(previous, Stage::FixedUpdate, a);
                            assert(self@.clock() == a.clock());
                        }
                    }
                    return Err(error);
                },
            }
            let ghost b = self@;
            self.run_stage(Stage::Cleanup);
            let ghost c = self@;
            proof {
                lemma_stage_keeps_shape(b, Stage::Cleanup, c);
                law_stage_leaves_no_commands(b, Stage::Cleanup, c);
            }
            self.world.clear_events();
            proof {
                assert(self@ == c.events_cleared());
                assert(previous.ran_stage(Stage::FixedUpdate, a) && a.clock_advanced(b) && b.ran_stage(Stage::Cleanup, c));
                assert(previous.ticked(self@));
                if before.clock_left_alone() {
                    lemma_tick_counts_clock(previous, a, b, c);
                }
                let earlier = apps;
                apps = apps.push(self@);
                assert forall|j: int| 0 <= j < apps.len() - 1 implies #[trigger] apps[j].ticked(apps[j + 1]) by {
                    if j < earlier.len() - 1 {
                        assert(apps[j] == earlier[j]);
                        assert(apps[j + 1] == earlier[j + 1]);
                    }
                }
            }
            done = done + 1;
        }
        proof {
            assert(tick_trace(apps));
            assert(started.ticked_times(self@, ticks as nat));
        }
        Ok(())
    }

    /// Runs one fixed tick (after the startup stage, the first time).
    pub fn run(&mut self) -> (result: Result<(), TickError>)
        where
            V: FixedTimeValue,
            S: System<V>,
        requires
            old(self).wf(),
        ensures
            final(self).wf(),
            final(self)@.startup_complete,
            result is Ok ==> exists|started: AppView<V, S>| #[trigger] old(self)@.started(started)
                && started.ticked_times(final(self)@, 1),
            match result {
                Ok(_) => true,
                Err(error) => old(self)@.stopped(final(self)@, 1, error),
            },
            final(self)@.time_key == old(self)@.time_key,
            final(self)@.schedule.startup.len() == old(self)@.schedule.startup.len(),
            final(self)@.schedule.fixed_update.len() == old(self)@.schedule.fixed_update.len(),
            final(self)@.schedule.cleanup.len() == old(self)@.schedule.cleanup.len(),
            final(self)@.world.commands.len() == 0,
            old(self)@.clock_left_alone() ==> final(self)@.clock_left_alone(),
            old(self)@.clock_left_alone() ==> result == old(self)@.clock_outcome(1),
            old(self)@.clock_left_alone() ==> (final(self)@.clock() is Some) == (old(self)@.clock() is Some),
            old(self)@.clock_left_alone() && old(self)@.clock() is Some ==> final(self)@.clock()->0@ == old(self)@.clock_reached(1),
    {
        self.run_fixed_ticks(1)
    }
}

/// Commands change entities and components only: the resources are those before.
proof fn lemma_commands_keep_resources<V>(world: WorldView<V>, commands: Seq<Command<V>>)
    ensures
        world.apply_commands(commands).resources == world.resources,
    decreases commands.len(),
{
    if commands.len() > 0 {
        lemma_commands_keep_resources(world, commands.drop_last());
    }
}

/// Along a run of systems that keep the clock under `key`, every world holds the clock of
/// the first.
proof fn lemma_trace_keeps_clock<V: FixedTimeValue, S: System<V>>(
    systems: Seq<S>,
    worlds: Seq<WorldView<V>>,
    nexts: Seq<S>,
    key: TypeId,
    n: int,
)
    requires
        run_trace(systems, worlds, nexts),
        systems_keep_clock::<V, S>(key),
        0 <= n <= systems.len(),
    ensures
        clock_in(worlds[n], key) == clock_in(worlds[0], key),
    decreases n,
{
    if n > 0 {
        lemma_trace_keeps_clock(systems, worlds, nexts, key, n - 1);
        let j = n - 1;
        assert(systems[j].runs(worlds[j], worlds[j + 1], nexts[j]));
    }
}

/// Running a stage keeps the number of systems of every stage and the clock's key.
proof fn lemma_stage_keeps_shape<V, S: System<V>>(app: AppView<V, S>, stage: Stage, after: AppView<V, S>)
    requires
        app.ran_stage(stage, after),
    ensures
        after.time_key == app.time_key,
        after.startup_complete == app.startup_complete,
        after.schedule.startup.len() == app.schedule.startup.len(),
        after.schedule.fixed_update.len() == app.schedule.fixed_update.len(),
        after.schedule.cleanup.len() == app.schedule.cleanup.len(),
{
    let systems = app.schedule.systems(stage);
    let nexts = after.schedule.systems(stage);
    let middle = choose|middle: WorldView<V>| #[trigger] runs_in_order(systems, app.world, middle, nexts)
        && after.world == middle.without_commands().apply_commands(middle.commands);
    assert(after.schedule.systems(Stage::FixedUpdate) == after.schedule.fixed_update);
    assert(after.schedule.systems(Stage::Cleanup) == after.schedule.cleanup);
    assert(after.schedule.systems(Stage::Startup) == after.schedule.startup);
}

/// Starting an application keeps the number of systems of every stage and the clock's key.
proof fn lemma_started_keeps_shape<V, S: System<V>>(app: AppView<V, S>, started: AppView<V, S>)
    requires
        app.started(started),
    ensures
        started.time_key == app.time_key,
        started.schedule.startup.len() == app.schedule.startup.len(),
        started.schedule.fixed_update.len() == app.schedule.fixed_update.len(),
        started.schedule.cleanup.len() == app.schedule.cleanup.len(),
{
    if !app.startup_complete {
        lemma_stage_keeps_shape(app, Stage::Startup, AppView { startup_complete: false, ..started });
    }
}

/// A stage whose systems cannot change the clock leaves the clock, and the number of
/// systems in the stage, as they were.
proof fn lemma_stage_keeps_clock<V: FixedTimeValue, S: System<V>>(app: AppView<V, S>, stage: Stage, after: AppView<V, S>)
    requires
        app.ran_stage(stage, after),
        systems_keep_clock::<V, S>(app.time_key) || app.schedule.systems(stage).len() == 0,
    ensures
        after.clock() == app.clock(),
        after.time_key == app.time_key,
        after.startup_complete == app.startup_complete,
        after.schedule.systems(stage).len() == app.schedule.systems(stage).len(),
        app.clock_left_alone() ==> after.clock_left_alone(),
{
    let systems = app.schedule.systems(stage);
    let nexts = after.schedule.systems(stage);
    let middle = choose|middle: WorldView<V>| #[trigger] runs_in_order(systems, app.world, middle, nexts)
        && after.world == middle.without_commands().apply_commands(middle.commands);
    let worlds = choose|worlds: Seq<WorldView<V>>| #[trigger] run_trace(systems, worlds, nexts) && worlds[0] == app.world
        && worlds.last() == middle;
    if systems.len() > 0 {
        lemma_trace_keeps_clock(systems, worlds, nexts, app.time_key, systems.len() as int);
    }
    lemma_commands_keep_resources(middle.without_commands(), middle.commands);
    assert(after.world.resources == middle.resources);
    assert(after.schedule.systems(Stage::FixedUpdate) == after.schedule.fixed_update);
    assert(after.schedule.systems(Stage::Cleanup) == after.schedule.cleanup);
    assert(after.schedule.systems(Stage::Startup) == after.schedule.startup);
}

/// Starting an application whose systems cannot change the clock leaves the clock as it
/// was.
proof fn lemma_started_keeps_clock<V: FixedTimeValue, S: System<V>>(app: AppView<V, S>, started: AppView<V, S>)
    requires
        app.started(started),
        app.clock_left_alone(),
    ensures
        started.clock() == app.clock(),
        started.time_key == app.time_key,
        started.clock_left_alone(),
{
    if !app.startup_complete {
        let mid = AppView { startup_complete: false, ..started };
        lemma_stage_keeps_clock(app, Stage::Startup, mid);
        assert(mid.schedule.systems(Stage::FixedUpdate) == started.schedule.fixed_update);
        assert(mid.schedule.systems(Stage::Cleanup) == started.schedule.cleanup);
    }
}

/// One fixed tick of an application whose systems cannot change the clock counts one
/// tick on it.
proof fn lemma_tick_counts_clock<V: FixedTimeValue, S: System<V>>(
    app: AppView<V, S>,
    a: AppView<V, S>,
    b: AppView<V, S>,
    c: AppView<V, S>,
)
    requires
        app.clock_left_alone(),
        app.ran_stage(Stage::FixedUpdate, a),
        a.clock_advanced(b),
        b.ran_stage(Stage::Cleanup, c),
    ensures
        a.clock() == app.clock(),
        c.events_cleared().clock() is Some,
        c.events_cleared().clock()->0@ == app.clock()->0@ + 1,
        c.events_cleared().clock_left_alone(),
        c.events_cleared().time_key == app.time_key,
{
    lemma_stage_keeps_clock(app, Stage::FixedUpdate, a);
    assert(b.schedule == a.schedule && b.time_key == a.time_key && b.startup_complete == a.startup_complete);
    lemma_stage_keeps_clock(b, Stage::Cleanup, c);
    assert(c.events_cleared().world.resources == c.world.resources);
}

/// Running a stage leaves no command pending: whatever the queue held when its last
/// system returned has been applied by the time the stage is done.
pub proof fn law_stage_leaves_no_commands<V, S: System<V>>(app: AppView<V, S>, stage: Stage, after: AppView<V, S>)
    requires
        app.ran_stage(stage, after),
    ensures
        after.world.commands.len() == 0,
{
    let systems = app.schedule.systems(stage);
    let nexts = after.schedule.systems(stage);
    let middle = choose|middle: WorldView<V>| #[trigger] runs_in_order(systems, app.world, middle, nexts)
        && after.world == middle.without_commands().apply_commands(middle.commands);
    law_commands_keep_queue(middle.without_commands(), middle.commands);
}

/// A stage's systems run first, one after another in registration order, on the world as
/// it was (commands queued before the stage still pending, so the first system sees
/// them queued); only then is the queue that the last system left applied, in order.
/// The systems are stored back as their runs left them.
pub proof fn law_stage_runs_systems_then_commands<V, S: System<V>>(app: AppView<V, S>, stage: Stage, after: AppView<V, S>)
    requires
        app.ran_stage(stage, after),
    ensures
        exists|worlds: Seq<WorldView<V>>| #[trigger] run_trace(app.schedule.systems(stage), worlds, after.schedule.systems(stage))
            && worlds[0] == app.world
            && after.world == worlds.last().without_commands().apply_commands(worlds.last().commands),
{
    let systems = app.schedule.systems(stage);
    let nexts = after.schedule.systems(stage);
    let middle = choose|middle: WorldView<V>| #[trigger] runs_in_order(systems, app.world, middle, nexts)
        && after.world == middle.without_commands().apply_commands(middle.commands);
    let worlds = choose|worlds: Seq<WorldView<V>>| #[trigger] run_trace(systems, worlds, nexts) && worlds[0] == app.world
        && worlds.last() == middle;
    assert(run_trace(systems, worlds, nexts));
}

/// A stage without systems does what `World::apply_commands` does: it applies the
/// commands that were pending, in order, and leaves the queue empty.
pub proof fn law_empty_stage_applies_pending<V, S: System<V>>(app: AppView<V, S>, stage: Stage, after: AppView<V, S>)
    requires
        app.ran_stage(stage, after),
        app.schedule.systems(stage).len() == 0,
    ensures
        after.world == app.world.without_commands().apply_commands(app.world.commands),
        after.world.commands.len() == 0,
{
    law_stage_runs_systems_then_commands(app, stage, after);
    law_stage_leaves_no_commands(app, stage, after);
}

/// Starting an application for the first time is running its startup stage exactly as
/// `run_stage` does, commands included, and marking it started: the queue is then empty.
pub proof fn law_start_runs_startup_stage<V, S: System<V>>(app: AppView<V, S>, started: AppView<V, S>)
    requires
        app.started(started),
        !app.startup_complete,
    ensures
        started.startup_complete,
        app.ran_stage(Stage::Startup, AppView { startup_complete: false, ..started }),
        started.world.commands.len() == 0,
{
    law_stage_leaves_no_commands(app, Stage::Startup, AppView { startup_complete: false, ..started });
}

/// The startup stage runs at most once: an application that has started is unchanged by
/// starting it again.
pub proof fn law_startup_runs_once<V, S: System<V>>(app: AppView<V, S>, started: AppView<V, S>, again: AppView<V, S>)
    requires
        app.started(started),
        started.started(again),
    ensures
        started.startup_complete,
        again == started,
{
}

/// Events do not outlive their tick: after a fixed tick every event channel is empty.
pub proof fn law_tick_clears_events<V: FixedTimeValue, S: System<V>>(app: AppView<V, S>, after: AppView<V, S>, key: TypeId)
    requires
        app.ticked(after),
    ensures
        events_of(after.world.events, key).len() == 0,
{
}

} // verus!
