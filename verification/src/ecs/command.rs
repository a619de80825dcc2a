use vstd::prelude::*;

use crate::ecs::bundle::Bundle;
use crate::ecs::component::ComponentId;
use crate::ecs::entity::Entity;
use crate::ecs::storage::table::value::TableComponentValue;
use crate::ecs::world::World;

verus! {

/// A structural change to a world, queued to be made later.
pub enum Command<V> {
    /// Spawn an entity with these components.
    Spawn(Vec<TableComponentValue<V>>),
    /// Despawn this entity.
    Despawn(Entity),
    /// Give this entity this component.
    InsertComponent(Entity, TableComponentValue<V>),
    /// Take the component of this type away from this entity.
    RemoveComponent(Entity, ComponentId),
}

/// Structural changes queued while a world is borrowed, applied in queue order.
pub struct Commands<V> {
    queued: Vec<Command<V>>,
}

impl<V> View for Commands<V> {
    type V = Seq<Command<V>>;

    closed spec fn view(&self) -> Seq<Command<V>> {
        self.queued@
    }
}

impl<V> Default for Commands<V> {
    fn default() -> (commands: Self)
        ensures
            commands@ == Seq::<Command<V>>::empty(),
    {
        Self::new()
    }
}

impl<V> Commands<V> {
    pub fn new() -> (commands: Self)
        ensures
            commands@ == Seq::<Command<V>>::empty(),
    {
        Commands { queued: Vec::new() }
    }

    /// Queues spawning an entity with the components of `bundle`.
    pub fn spawn<B: Bundle<V>>(&mut self, bundle: B)
        ensures
            final(self)@.len() == old(self)@.len() + 1,
            final(self)@.drop_last() == old(self)@,
            final(self)@.last() matches Command::Spawn(components) && components@ == bundle.components(),
    {
        let components = bundle.into_bundle().into_table_components();
        self.queued.push(Command::Spawn(components));
    }

    /// Queues despawning `entity`.
    pub fn despawn(&mut self, entity: Entity)
        ensures
            final(self)@ == old(self)@.push(Command::Despawn(entity)),
    {
        self.queued.push(Command::Despawn(entity));
    }

    /// Queues giving `entity` the component.
    pub fn insert_component(&mut self, entity: Entity, component: TableComponentValue<V>)
        ensures
            final(self)@ == old(self)@.push(Command::InsertComponent(entity, component)),
    {
        self.queued.push(Command::InsertComponent(entity, component));
    }

    /// Queues taking component `id` away from `entity`.
    pub fn remove_component(&mut self, entity: Entity, id: ComponentId)
        ensures
            final(self)@ == old(self)@.push(Command::RemoveComponent(entity, id)),
    {
        self.queued.push(Command::RemoveComponent(entity, id));
    }

    /// Number of queued commands.
    pub fn pending_count(&self) -> (count: usize)
        ensures
            count == self@.len(),
    {
        self.queued.len()
    }

    pub fn is_empty(&self) -> (empty: bool)
        ensures
            empty == (self@.len() == 0),
    {
        self.queued.len() == 0
    }

    /// Applies the queued commands to `world`, in queue order.
    pub fn apply(self, world: &mut World<V>)
        requires
            old(world).wf(),
        ensures
            final(world).wf(),
            final(world)@ == old(world)@.apply_commands(self@),
    {
        let ghost all = self@;
        let mut rest = self.queued;
        let ghost count: int = 0;
        proof {
            assert(all.skip(0) =~= all);
            assert(all.take(0) =~= Seq::<Command<V>>::empty());
        }
        while rest.len() > 0
            invariant
                world.wf(),
                0 <= count <= all.len(),
                rest@ == all.skip(count),
                world@ == old(world)@.apply_commands(all.take(count)),
            decreases rest@.len(),
        {
            let ghost rest_before = rest@;
            let ghost before = world@;
            let command = rest.remove(0);
            proof {
                assert(count < all.len());
                assert(rest_before[0] == all[count]);
                assert(all.take(count + 1).drop_last() =~= all.take(count));
                assert(all.take(count + 1).last() == all[count]);
            }
            world.apply_command(command);
            proof {
                assert(rest@ =~= all.skip(count + 1));
                count = count + 1;
            }
        }
        proof {
            assert(all.take(count) =~= all);
        }
    }
}

} // verus!
