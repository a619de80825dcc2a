use std::any::TypeId;
use vstd::prelude::*;

use crate::ecs::type_ids::{type_id_of, type_ids_equal};

verus! {

/// Marker for types that may be stored as components.
pub trait Component: 'static {}

impl<T: 'static> Component for T {}

/// Identity of a component type.
#[derive(Debug, Clone, Copy, PartialEq, Eq, Hash)]
pub struct ComponentId(TypeId);

impl ComponentId {
    /// The id of the component type `T`.
    pub fn of<T: Component>() -> Self {
        ComponentId(type_id_of::<T>())
    }

    /// Whether two ids name the same component type.
    pub fn same(&self, other: &Self) -> (same: bool)
        ensures
            same == (*self == *other),
    {
        let equal = type_ids_equal(&self.0, &other.0);
        proof {
            if equal {
                assert(self.0 == other.0);
            }
        }
        equal
    }
}

/// Where a component type is meant to be stored.
#[derive(Debug, Clone, Copy, PartialEq, Eq, Structural)]
pub enum ComponentStorage {
    Table,
    Sparse,
}

/// The registration rank of a component type; table keys are kept sorted by it.
#[derive(Debug, Clone, Copy, PartialEq, Eq, Structural, PartialOrd, Ord, Hash)]
pub struct ComponentOrder(pub usize);

impl ComponentOrder {
    pub fn new(index: usize) -> (order: Self)
        ensures
            order.0 == index,
    {
        ComponentOrder(index)
    }

    pub fn index(self) -> (index: usize)
        ensures
            index == self.0,
    {
        self.0
    }
}

/// What the registry knows of one component type.
#[derive(Debug, Clone, Copy)]
pub struct ComponentInfo {
    pub id: ComponentId,
    pub order: ComponentOrder,
    /// The type's name, for diagnostics.
    pub name: &'static str,
    pub storage: ComponentStorage,
}

/// Whether `id` occurs among the ids of `infos`.
pub open spec fn registered(infos: Seq<ComponentInfo>, id: ComponentId) -> bool {
    exists|i: int| 0 <= i < infos.len() && #[trigger] infos[i].id == id
}

/// The position of `id` among the ids of `infos` (meaningful when it is registered).
pub open spec fn position_of(infos: Seq<ComponentInfo>, id: ComponentId) -> int {
    choose|i: int| 0 <= i < infos.len() && #[trigger] infos[i].id == id
}

/// The ordered list of registered component types.
#[derive(Debug, Clone)]
pub struct ComponentRegistry {
    components: Vec<ComponentInfo>,
}

impl View for ComponentRegistry {
    type V = Seq<ComponentInfo>;

    closed spec fn view(&self) -> Seq<ComponentInfo> {
        self.components@
    }
}

impl Default for ComponentRegistry {
    fn default() -> (registry: Self)
        ensures
            registry.wf(),
            registry@.len() == 0,
    {
        Self::new()
    }
}

impl ComponentRegistry {
    /// Each type is registered once, and its order is its position.
    pub open spec fn wf_infos(infos: Seq<ComponentInfo>) -> bool {
        &&& infos.len() <= usize::MAX
        &&& forall|i: int, j: int|
            0 <= i < infos.len() && 0 <= j < infos.len() && i != j ==> #[trigger] infos[i].id
                != #[trigger] infos[j].id
        &&& forall|i: int| 0 <= i < infos.len() ==> #[trigger] infos[i].order.0 == i
    }

    pub open spec fn wf(&self) -> bool {
        Self::wf_infos(self@)
    }

    /// The order of a registered id is its position.
    pub open spec fn order_of(&self, id: ComponentId) -> Option<ComponentOrder> {
        Self::order_in(self@, id)
    }

    pub open spec fn order_in(infos: Seq<ComponentInfo>, id: ComponentId) -> Option<ComponentOrder> {
        if registered(infos, id) {
            Some(ComponentOrder(position_of(infos, id) as usize))
        } else {
            None
        }
    }

    pub proof fn lemma_position(infos: Seq<ComponentInfo>, i: int)
        requires
            Self::wf_infos(infos),
            0 <= i < infos.len(),
        ensures
            registered(infos, infos[i].id),
            position_of(infos, infos[i].id) == i,
            Self::order_in(infos, infos[i].id) == Some(infos[i].order),
    {
        let id = infos[i].id;
        assert(infos[i].id == id);
        let p = position_of(infos, id);
        if p != i {
            assert(infos[p].id != infos[i].id);
        }
        assert(infos[i].order.0 == i);
    }

    /// Registering one more id keeps the order of every id registered before, and two
    /// different registered ids have different orders.
    pub proof fn lemma_registers_keeps(old_infos: Seq<ComponentInfo>, new_infos: Seq<ComponentInfo>, id: ComponentId, storage: ComponentStorage)
        requires
            Self::wf_infos(old_infos),
            Self::wf_infos(new_infos),
            Self::registers(old_infos, new_infos, id, storage),
        ensures
            forall|x: ComponentId| registered(old_infos, x) ==> #[trigger] Self::order_in(new_infos, x) == Self::order_in(old_infos, x),
            registered(new_infos, id),
    {
        assert forall|x: ComponentId| registered(old_infos, x) implies #[trigger] Self::order_in(new_infos, x) == Self::order_in(old_infos, x) by {
            let p = position_of(old_infos, x);
            assert(old_infos[p].id == x);
            Self::lemma_position(old_infos, p);
            if new_infos != old_infos {
                assert(new_infos[p] == new_infos.drop_last()[p]);
            }
            assert(new_infos[p] == old_infos[p]);
            Self::lemma_position(new_infos, p);
        }
        if !registered(old_infos, id) {
            assert(new_infos[new_infos.len() - 1].id == id);
        }
    }

    /// Different registered ids have different orders.
    pub proof fn lemma_orders_differ(infos: Seq<ComponentInfo>, x: ComponentId, y: ComponentId)
        requires
            Self::wf_infos(infos),
            registered(infos, x),
            registered(infos, y),
            x != y,
        ensures
            Self::order_in(infos, x)->0 != Self::order_in(infos, y)->0,
    {
        let px = position_of(infos, x);
        let py = position_of(infos, y);
        assert(infos[px].id == x);
        assert(infos[py].id == y);
    }

    /// The registry after registering `id`: unchanged if it is already there, else the
    /// new type is appended with the next order.
    pub open spec fn registers(
        old_infos: Seq<ComponentInfo>,
        new_infos: Seq<ComponentInfo>,
        id: ComponentId,
        storage: ComponentStorage,
    ) -> bool {
        if registered(old_infos, id) {
            new_infos == old_infos
        } else {
            &&& new_infos.len() == old_infos.len() + 1
            &&& new_infos.drop_last() == old_infos
            &&& new_infos.last().id == id
            &&& new_infos.last().order.0 == old_infos.len()
            &&& new_infos.last().storage == storage
        }
    }

    pub fn new() -> (registry: Self)
        ensures
            registry.wf(),
            registry@.len() == 0,
    {
        ComponentRegistry { components: Vec::new() }
    }

    fn find(&self, id: ComponentId) -> (found: Option<usize>)
        requires
            self.wf(),
        ensures
            match found {
                Some(i) => i < self@.len() && self@[i as int].id == id,
                None => !registered(self@, id),
            },
    {
        let mut i: usize = 0;
        while i < self.components.len()
            invariant
                i <= self@.len(),
                forall|k: int| 0 <= k < i ==> self@[k].id != id,
            decreases self@.len() - i,
        {
            if self.components[i].id.same(&id) {
                return Some(i);
            }
            i += 1;
        }
        None
    }

    fn register_info(
        &mut self,
        id: ComponentId,
        name: &'static str,
        storage: ComponentStorage,
    ) -> (registered_id: ComponentId)
        requires
            old(self).wf(),
        ensures
            final(self).wf(),
            registered_id == id,
            Self::registers(old(self)@, final(self)@, id, storage),
            registered(final(self)@, id),
            !registered(old(self)@, id) ==> final(self)@.last().name == name,
    {
        if self.find(id).is_some() {
            return id;
        }
        let order = ComponentOrder::new(self.components.len());
        self.components.push(ComponentInfo { id, order, name, storage });
        proof {
            vstd::std_specs::vec::axiom_spec_len(&self.components);
            assert(self@.drop_last() =~= old(self)@);
            assert(self@[self@.len() - 1].id == id);
        }
        id
    }

    /// Registers `T` as a table component; returns its id.
    pub fn register<T: Component>(&mut self) -> (id: ComponentId)
        requires
            old(self).wf(),
        ensures
            final(self).wf(),
            Self::registers(old(self)@, final(self)@, id, ComponentStorage::Table),
            registered(final(self)@, id),
    {
        self.register_with_storage::<T>(ComponentStorage::Table)
    }

    /// Registers the table component `id` under `name`; returns `id`. A type that is
    /// already registered keeps its first registration, name included.
    pub fn register_table_id(&mut self, id: ComponentId, name: &'static str) -> (registered_id:
        ComponentId)
        requires
            old(self).wf(),
        ensures
            final(self).wf(),
            registered_id == id,
            Self::registers(old(self)@, final(self)@, id, ComponentStorage::Table),
            registered(final(self)@, id),
            !registered(old(self)@, id) ==> final(self)@.last().name == name,
    {
        self.register_info(id, name, ComponentStorage::Table)
    }

    /// Registers `T` with the given storage kind, with an empty name (register a named
    /// type with `register_table_id`); returns its id. A type that is already registered
    /// keeps its first registration.
    pub fn register_with_storage<T: Component>(&mut self, storage: ComponentStorage) -> (id:
        ComponentId)
        requires
            old(self).wf(),
        ensures
            final(self).wf(),
            Self::registers(old(self)@, final(self)@, id, storage),
            registered(final(self)@, id),
    {
        let id = ComponentId::of::<T>();
        self.register_info(id, "", storage)
    }

    /// The order of `id`, if it is registered.
    pub fn order(&self, id: ComponentId) -> (order: Option<ComponentOrder>)
        requires
            self.wf(),
        ensures
            order == self.order_of(id),
    {
        match self.find(id) {
            Some(i) => {
                proof {
                    assert(registered(self@, id)) by {
                        assert(self@[i as int].id == id);
                    }
                    let p = position_of(self@, id);
                    assert(self@[p].id == id);
                    assert(p == i);
                    assert(self@[i as int].order.0 == i);
                    assert(self@[i as int].order == ComponentOrder(i));
                }
                Some(self.components[i].order)
            },
            None => None,
        }
    }

    /// Number of registered component types.
    pub fn len(&self) -> (len: usize)
        ensures
            len == self@.len(),
    {
        self.components.len()
    }
}

} // verus!
