use vstd::prelude::*;

use crate::ecs::world::{World, WorldView};

verus! {

/// When a system runs.
#[derive(Debug, Clone, Copy, PartialEq, Eq, Structural)]
pub enum Stage {
    Startup,
    FixedUpdate,
    Cleanup,
}

/// A step of a schedule: runs on the world each time its stage runs.
pub trait System<V>: Sized {
    /// What one run may make of the world `before` and of the system itself: the world
    /// `after` and the system `next`. Without a description of its own, a system may make
    /// anything of both.
    open spec fn runs(&self, before: WorldView<V>, after: WorldView<V>, next: Self) -> bool {
        true
    }

    fn run(&mut self, world: &mut World<V>)
        requires
            old(world).wf(),
        ensures
            final(world).wf(),
            old(self).runs(old(world)@, final(world)@, *final(self)),
    ;
}

/// `worlds` are the worlds that running `systems` one after another passes through, and
/// `nexts` what the systems are after their runs: it starts from the first world, and
/// system `j` turns world `j` into world `j + 1` and itself into `nexts[j]`.
pub open spec fn run_trace<V, S: System<V>>(systems: Seq<S>, worlds: Seq<WorldView<V>>, nexts: Seq<S>) -> bool {
    &&& worlds.len() == systems.len() + 1
    &&& nexts.len() == systems.len()
    &&& forall|j: int| 0 <= j < systems.len() ==> #[trigger] systems[j].runs(worlds[j], worlds[j + 1], nexts[j])
}

/// Running `systems` one after another, in order, can make `after` of `before` and leave
/// the systems as `nexts`, in the same order.
pub open spec fn runs_in_order<V, S: System<V>>(systems: Seq<S>, before: WorldView<V>, after: WorldView<V>, nexts: Seq<S>) -> bool {
    exists|worlds: Seq<WorldView<V>>| #[trigger] run_trace(systems, worlds, nexts) && worlds[0] == before && worlds.last() == after
}

/// The systems of each stage, in registration order.
#[verifier::ext_equal]
pub struct ScheduleView<S> {
    pub startup: Seq<S>,
    pub fixed_update: Seq<S>,
    pub cleanup: Seq<S>,
}

impl<S> ScheduleView<S> {
    pub open spec fn systems(self, stage: Stage) -> Seq<S> {
        match stage {
            Stage::Startup => self.startup,
            Stage::FixedUpdate => self.fixed_update,
            Stage::Cleanup => self.cleanup,
        }
    }

    /// The schedule with `systems` as the systems of `stage`.
    pub open spec fn with_systems(self, stage: Stage, systems: Seq<S>) -> ScheduleView<S> {
        match stage {
            Stage::Startup => ScheduleView { startup: systems, ..self },
            Stage::FixedUpdate => ScheduleView { fixed_update: systems, ..self },
            Stage::Cleanup => ScheduleView { cleanup: systems, ..self },
        }
    }
}

/// Systems grouped by stage; each stage runs its systems in registration order.
pub struct Schedule<S> {
    startup: Vec<S>,
    fixed_update: Vec<S>,
    cleanup: Vec<S>,
}

impl<S> View for Schedule<S> {
    type V = ScheduleView<S>;

    closed spec fn view(&self) -> ScheduleView<S> {
        ScheduleView { startup: self.startup@, fixed_update: self.fixed_update@, cleanup: self.cleanup@ }
    }
}

impl<S> Default for Schedule<S> {
    fn default() -> (schedule: Self)
        ensures
            schedule@.startup.len() == 0,
            schedule@.fixed_update.len() == 0,
            schedule@.cleanup.len() == 0,
    {
        Schedule { startup: Vec::new(), fixed_update: Vec::new(), cleanup: Vec::new() }
    }
}

impl<S> Schedule<S> {
    pub fn new() -> (schedule: Self)
        ensures
            schedule@.startup.len() == 0,
            schedule@.fixed_update.len() == 0,
            schedule@.cleanup.len() == 0,
    {
        Schedule { startup: Vec::new(), fixed_update: Vec::new(), cleanup: Vec::new() }
    }

    /// Adds `system` after the systems already in `stage`.
    pub fn add_system(&mut self, stage: Stage, system: S)
        ensures
            final(self)@ == old(self)@.with_systems(stage, old(self)@.systems(stage).push(system)),
    {
        self.systems_mut(stage).push(system);
    }

    /// Number of systems in `stage`.
    pub fn system_count(&self, stage: Stage) -> (count: usize)
        ensures
            count == self@.systems(stage).len(),
    {
        self.systems(stage).len()
    }

    fn systems(&self, stage: Stage) -> (systems: &[S])
        ensures
            systems@ == self@.systems(stage),
    {
        match stage {
            Stage::Startup => self.startup.as_slice(),
            Stage::FixedUpdate => self.fixed_update.as_slice(),
            Stage::Cleanup => self.cleanup.as_slice(),
        }
    }

    fn systems_mut(&mut self, stage: Stage) -> (systems: &mut Vec<S>)
        ensures
            systems@ == old(self)@.systems(stage),
            final(self)@ == old(self)@.with_systems(stage, final(systems)@),
    {
        match stage {
            Stage::Startup => &mut self.startup,
            Stage::FixedUpdate => &mut self.fixed_update,
            Stage::Cleanup => &mut self.cleanup,
        }
    }

    /// Runs the systems of `stage` on `world`, one after another in registration order;
    /// each system is stored back, in its place, as its run left it.
    pub fn run_stage<V>(&mut self, stage: Stage, world: &mut World<V>)
        where
            S: System<V>,
        requires
            old(world).wf(),
        ensures
            final(world).wf(),
            runs_in_order(old(self)@.systems(stage), old(world)@, final(world)@, final(self)@.systems(stage)),
            forall|other: Stage| other != stage ==> #[trigger] final(self)@.systems(other) == old(self)@.systems(other),
    {
        let ghost before = self@.systems(stage);
        let ghost start = world@;
        let systems = self.systems_mut(stage);
        let mut i: usize = 0;
        let ghost worlds: Seq<WorldView<V>> = seq![start];
        while i < systems.len()
            invariant
                world.wf(),
                systems@.len() == before.len(),
                i <= before.len(),
                forall|j: int| i <= j < before.len() ==> #[trigger] systems@[j] == before[j],
                worlds.len() == i + 1,
                worlds[0] == start,
                worlds.last() == world@,
                forall|j: int| 0 <= j < i ==> #[trigger] before[j].runs(worlds[j], worlds[j + 1], systems@[j]),
            decreases before.len() - i,
        {
            let ghost earlier = systems@;
            let system = &mut systems[i];
            proof {
                assert(*system == before[i as int]);
            }
            system.run(world);
            proof {
                let previous = worlds;
                worlds = worlds.push(world@);
                assert forall|j: int| 0 <= j < i + 1 implies #[trigger] before[j].runs(worlds[j], worlds[j + 1], systems@[j]) by {
                    if j < i {
                        assert(worlds[j] == previous[j]);
                        assert(worlds[j + 1] == previous[j + 1]);
                        assert(systems@[j] == earlier[j]);
                    }
                }
            }
            i += 1;
        }
        proof {
            assert(run_trace(before, worlds, systems@));
        }
    }
}

} // verus!
