use vstd::prelude::*;

verus! {

/// Runtime identity of an entity: the index of its slot and the generation that slot
/// had when the entity was handed out.
#[derive(Debug, Clone, Copy, PartialEq, Eq, Structural, PartialOrd, Ord, Hash)]
pub struct Entity {
    pub index: u32,
    pub generation: u32,
}

impl Entity {
    pub fn new(index: u32, generation: u32) -> (r: Self)
        ensures
            r.index == index,
            r.generation == generation,
    {
        Self { index, generation }
    }

    pub fn index(&self) -> (r: u32)
        ensures
            r == self.index,
    {
        self.index
    }

    pub fn generation(&self) -> (r: u32)
        ensures
            r == self.generation,
    {
        self.generation
    }
}

/// One slot of the allocator: the generation it currently hands out and whether the
/// entity of that generation is alive.
#[derive(Debug, Clone, Copy, PartialEq, Eq, Structural)]
pub struct EntitySlot {
    pub generation: u32,
    pub alive: bool,
}

/// The generation a slot moves to when its entity is despawned (wrapping at `u32::MAX`).
pub open spec fn next_generation(generation: u32) -> u32 {
    if generation == u32::MAX {
        0
    } else {
        (generation + 1) as u32
    }
}

/// Number of dead slots among `slots`.
pub open spec fn dead_count(slots: Seq<EntitySlot>) -> nat
    decreases slots.len(),
{
    if slots.len() == 0 {
        0
    } else {
        dead_count(slots.drop_last()) + if slots.last().alive {
            0nat
        } else {
            1nat
        }
    }
}

/// Number of alive slots among `slots`.
pub open spec fn alive_slot_count(slots: Seq<EntitySlot>) -> nat
    decreases slots.len(),
{
    if slots.len() == 0 {
        0
    } else {
        alive_slot_count(slots.drop_last()) + if slots.last().alive {
            1nat
        } else {
            0nat
        }
    }
}

/// Abstract state of an allocator: its slots and its free list (most recently freed last).
pub struct AllocatorModel {
    pub slots: Seq<EntitySlot>,
    pub free: Seq<u32>,
}

impl AllocatorModel {
    pub open spec fn is_alive(self, entity: Entity) -> bool {
        &&& entity.index < self.slots.len()
        &&& self.slots[entity.index as int].alive
        &&& self.slots[entity.index as int].generation == entity.generation
    }

    pub open spec fn alive_count(self) -> int {
        self.slots.len() - self.free.len()
    }

    /// The allocator's structural invariant: the free list holds exactly the dead slots,
    /// each once, and every slot index fits in a `u32`.
    pub open spec fn wf(self) -> bool {
        &&& self.slots.len() <= u32::MAX as nat + 1
        &&& self.free.no_duplicates()
        &&& forall|i: int|
            0 <= i < self.free.len() ==> #[trigger] self.free[i] < self.slots.len()
                && !self.slots[self.free[i] as int].alive
        &&& forall|j: int|
            0 <= j < self.slots.len() && !#[trigger] self.slots[j].alive ==> self.free.contains(
                j as u32,
            )
        &&& self.free.len() == dead_count(self.slots)
    }

    /// Whether the slot of `entity` exists and has moved on to another generation, so that
    /// the handle names no entity of that slot now.
    pub open spec fn retired(self, entity: Entity) -> bool {
        &&& entity.index < self.slots.len()
        &&& self.slots[entity.index as int].generation != entity.generation
    }

    /// Whether `spawn` can hand out an entity without running out of `u32` indices.
    pub open spec fn can_spawn(self) -> bool {
        self.free.len() > 0 || self.slots.len() <= u32::MAX
    }

    /// The entity that `spawn` hands out next.
    pub open spec fn next_entity(self) -> Entity {
        if self.free.len() > 0 {
            let index = self.free.last();
            Entity { index, generation: self.slots[index as int].generation }
        } else {
            Entity { index: self.slots.len() as u32, generation: 0 }
        }
    }

    /// The allocator after `spawn`: a recycled index is reused, most recently freed first;
    /// otherwise a new slot is appended.
    pub open spec fn spawn(self) -> AllocatorModel {
        if self.free.len() > 0 {
            let index = self.free.last();
            AllocatorModel {
                slots: self.slots.update(
                    index as int,
                    EntitySlot { generation: self.slots[index as int].generation, alive: true },
                ),
                free: self.free.drop_last(),
            }
        } else {
            AllocatorModel {
                slots: self.slots.push(EntitySlot { generation: 0, alive: true }),
                free: self.free,
            }
        }
    }

    /// The allocator after despawning an alive entity: its slot dies, moves to the next
    /// generation, and its index is recycled.
    pub open spec fn despawn(self, entity: Entity) -> AllocatorModel {
        if self.is_alive(entity) {
            AllocatorModel {
                slots: self.slots.update(
                    entity.index as int,
                    EntitySlot { generation: next_generation(entity.generation), alive: false },
                ),
                free: self.free.push(entity.index),
            }
        } else {
            self
        }
    }
}

proof fn lemma_dead_count_update(slots: Seq<EntitySlot>, i: int, slot: EntitySlot)
    requires
        0 <= i < slots.len(),
    ensures
        dead_count(slots.update(i, slot)) + (if slots[i].alive {
            0int
        } else {
            1int
        }) == dead_count(slots) + (if slot.alive {
            0int
        } else {
            1int
        }),
    decreases slots.len(),
{
    if i == slots.len() - 1 {
        assert(slots.update(i, slot).drop_last() =~= slots.drop_last());
    } else {
        lemma_dead_count_update(slots.drop_last(), i, slot);
        assert(slots.update(i, slot).drop_last() =~= slots.drop_last().update(i, slot));
    }
}

proof fn lemma_dead_alive_count(slots: Seq<EntitySlot>)
    ensures
        dead_count(slots) + alive_slot_count(slots) == slots.len(),
    decreases slots.len(),
{
    if slots.len() > 0 {
        lemma_dead_alive_count(slots.drop_last());
    }
}

/// Hands out compact generational entity ids and recycles the indices of despawned ones.
#[derive(Debug)]
pub struct EntityAllocator {
    slots: Vec<EntitySlot>,
    free: Vec<u32>,
}

impl View for EntityAllocator {
    type V = AllocatorModel;

    closed spec fn view(&self) -> AllocatorModel {
        AllocatorModel { slots: self.slots@, free: self.free@ }
    }
}

impl Default for EntityAllocator {
    fn default() -> (r: Self)
        ensures
            r@.wf(),
            r@.slots.len() == 0,
            r@.free.len() == 0,
    {
        Self::new()
    }
}

impl EntityAllocator {
    pub fn new() -> (r: Self)
        ensures
            r@.wf(),
            r@.slots.len() == 0,
            r@.free.len() == 0,
    {
        EntityAllocator { slots: Vec::new(), free: Vec::new() }
    }

    /// Whether `spawn` can hand out another entity.
    pub fn can_spawn(&self) -> (can: bool)
        ensures
            can == self@.can_spawn(),
    {
        self.free.len() > 0 || self.slots.len() <= (u32::MAX as usize)
    }

    /// Allocates an entity, reusing the most recently freed index if there is one.
    pub fn spawn(&mut self) -> (entity: Entity)
        requires
            old(self)@.wf(),
            old(self)@.can_spawn(),
        ensures
            final(self)@.wf(),
            entity == old(self)@.next_entity(),
            final(self)@ == old(self)@.spawn(),
            !old(self)@.is_alive(entity),
            final(self)@.is_alive(entity),
    {
        proof {
            if self@.free.len() > 0 {
                let index = self@.free.last();
                assert(self@.free[self@.free.len() - 1] == index);
            }
        }
        if let Some(index) = self.free.pop() {
            let ghost old_slots = self.slots@;
            let generation = self.slots[index as usize].generation;
            self.slots.set(index as usize, EntitySlot { generation, alive: true });
            proof {
                lemma_dead_count_update(old_slots, index as int, EntitySlot { generation, alive: true });
                let ghost old_free = old(self)@.free;
                assert forall|i: int| 0 <= i < self@.free.len() implies #[trigger] self@.free[i] < self@.slots.len()
                    && !self@.slots[self@.free[i] as int].alive by {
                    assert(self@.free[i] == old_free[i]);
                    assert(old_free[i] != old_free[old_free.len() - 1]);
                }
                assert forall|j: int|
                    0 <= j < self@.slots.len() && !#[trigger] self@.slots[j].alive implies self@.free.contains(j as u32) by {
                    assert(j != index as int);
                    assert(old_free.contains(j as u32));
                    let k = choose|k: int| 0 <= k < old_free.len() && old_free[k] == j as u32;
                    assert(k != old_free.len() - 1);
                    assert(self@.free[k] == j as u32);
                }
            }
            Entity::new(index, generation)
        } else {
            let index = self.slots.len() as u32;
            let ghost old_slots = self.slots@;
            self.slots.push(EntitySlot { generation: 0, alive: true });
            proof {
                assert(self.slots@.drop_last() =~= old_slots);
                assert forall|j: int|
                    0 <= j < self@.slots.len() && !#[trigger] self@.slots[j].alive implies self@.free.contains(j as u32) by {
                    assert(j < old_slots.len());
                    assert(old_slots[j] == self@.slots[j]);
                }
            }
            Entity::new(index, 0)
        }
    }

    /// Despawns `entity` if it is alive; returns whether it was.
    pub fn despawn(&mut self, entity: Entity) -> (despawned: bool)
        requires
            old(self)@.wf(),
        ensures
            final(self)@.wf(),
            despawned == old(self)@.is_alive(entity),
            final(self)@ == old(self)@.despawn(entity),
            !final(self)@.is_alive(entity),
    {
        if (entity.index as usize) >= self.slots.len() {
            return false;
        }
        let slot = self.slots[entity.index as usize];
        if !slot.alive || slot.generation != entity.generation {
            return false;
        }
        let ghost old_slots = self.slots@;
        let ghost old_free = self.free@;
        let next = slot.generation.wrapping_add(1);
        self.slots.set(entity.index as usize, EntitySlot { generation: next, alive: false });
        self.free.push(entity.index);
        proof {
            assert(next == next_generation(entity.generation));
            lemma_dead_count_update(old_slots, entity.index as int, EntitySlot { generation: next, alive: false });
            assert(!old_free.contains(entity.index));
            assert forall|a: int, b: int| 0 <= a < self@.free.len() && 0 <= b < self@.free.len() && a != b
                implies self@.free[a] != self@.free[b] by {
                if a < old_free.len() && b < old_free.len() {
                    assert(old_free[a] != old_free[b]);
                } else if a < old_free.len() {
                    assert(old_free[a] != entity.index);
                } else {
                    assert(old_free[b] != entity.index);
                }
            }
            assert forall|i: int| 0 <= i < self@.free.len() implies #[trigger] self@.free[i] < self@.slots.len()
                && !self@.slots[self@.free[i] as int].alive by {
                if i < old_free.len() {
                    assert(self@.free[i] == old_free[i]);
                }
            }
            assert forall|j: int|
                0 <= j < self@.slots.len() && !#[trigger] self@.slots[j].alive implies self@.free.contains(j as u32) by {
                if j == entity.index as int {
                    assert(self@.free[old_free.len() as int] == entity.index);
                } else {
                    assert(old_free.contains(j as u32));
                    let k = choose|k: int| 0 <= k < old_free.len() && old_free[k] == j as u32;
                    assert(self@.free[k] == j as u32);
                }
            }
        }
        true
    }

    pub fn is_alive(&self, entity: Entity) -> (alive: bool)
        ensures
            alive == self@.is_alive(entity),
    {
        if (entity.index as usize) < self.slots.len() {
            let slot = &self.slots[entity.index as usize];
            slot.alive && slot.generation == entity.generation
        } else {
            false
        }
    }

    /// Number of alive entities.
    pub fn alive_count(&self) -> (count: usize)
        requires
            self@.wf(),
        ensures
            count == self@.alive_count(),
            count == alive_slot_count(self@.slots),
    {
        proof {
            lemma_dead_alive_count(self@.slots);
        }
        self.slots.len() - self.free.len()
    }
}

/// Spawning hands out an entity that was not alive and is alive afterwards; no other
/// entity's liveness changes.
pub proof fn law_spawned_entity_is_alive(model: AllocatorModel)
    requires
        model.wf(),
        model.can_spawn(),
    ensures
        !model.is_alive(model.next_entity()),
        model.spawn().is_alive(model.next_entity()),
        forall|other: Entity| other != model.next_entity() ==> #[trigger] model.spawn().is_alive(other) == model.is_alive(other),
{
    let entity = model.next_entity();
    let after = model.spawn();
    if model.free.len() > 0 {
        let i = model.free.len() - 1;
        assert(model.free[i] < model.slots.len() && !model.slots[model.free[i] as int].alive);
    }
    assert forall|other: Entity| other != entity implies #[trigger] after.is_alive(other) == model.is_alive(other) by {
        if other.index == entity.index && other.index < after.slots.len() {
            assert(after.slots[other.index as int].generation == entity.generation);
            if model.free.len() > 0 {
                let i = model.free.len() - 1;
                assert(!model.slots[model.free[i] as int].alive);
            }
        }
    }
}

/// Despawning kills the entity and leaves every other entity as it was.
pub proof fn law_despawn_kills_only_its_entity(model: AllocatorModel, entity: Entity)
    requires
        model.wf(),
    ensures
        !model.despawn(entity).is_alive(entity),
        forall|other: Entity| other != entity ==> #[trigger] model.despawn(entity).is_alive(other) == model.is_alive(other),
{
}

/// The handle of a despawned entity stays dead: the next spawn, even when it reuses the
/// slot, hands out a different entity, and that entity's handle is not alive afterwards.
pub proof fn law_stale_handle_stays_dead(model: AllocatorModel, entity: Entity)
    requires
        model.wf(),
        model.is_alive(entity),
    ensures
        model.despawn(entity).can_spawn(),
        model.despawn(entity).next_entity() != entity,
        !model.despawn(entity).spawn().is_alive(entity),
{
    let after = model.despawn(entity);
    assert(after.free.last() == entity.index);
    assert(after.slots[entity.index as int].generation == next_generation(entity.generation));
}

/// The number of alive entities is the number of alive slots; spawning adds one, and
/// despawning an alive entity takes one away.
pub proof fn law_alive_count(model: AllocatorModel, entity: Entity)
    requires
        model.wf(),
    ensures
        model.alive_count() == alive_slot_count(model.slots),
        model.can_spawn() ==> model.spawn().alive_count() == model.alive_count() + 1,
        model.is_alive(entity) ==> model.despawn(entity).alive_count() == model.alive_count() - 1,
{
    lemma_dead_alive_count(model.slots);
}

} // verus!
