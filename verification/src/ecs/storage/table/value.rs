use vstd::prelude::*;

use crate::ecs::component::{Component, ComponentId, ComponentOrder};

verus! {

/// A component value tagged with the id of its component type and the type's name.
pub struct TableComponentValue<V> {
    pub id: ComponentId,
    pub name: &'static str,
    pub value: V,
}

impl<V> TableComponentValue<V> {
    /// Tags `value` as a component with id `id` and type name `name`.
    pub fn new(id: ComponentId, name: &'static str, value: V) -> (component: Self)
        ensures
            component.id == id,
            component.name == name,
            component.value == value,
    {
        TableComponentValue { id, name, value }
    }

    /// Tags a value taken out of a table, where only its id is kept: its name is empty.
    pub fn from_erased(id: ComponentId, value: V) -> (component: Self)
        ensures
            component.id == id,
            component.name == "",
            component.value == value,
    {
        TableComponentValue { id, name: "", value }
    }

    /// Tags `value` as a component of type `T`, with an empty name; `new` with
    /// `ComponentId::of` gives the type a name to be registered under.
    pub fn of<T: Component>(value: V) -> (component: Self)
        ensures
            component.name == "",
            component.value == value,
    {
        TableComponentValue { id: ComponentId::of::<T>(), name: "", value }
    }

    pub fn id(&self) -> (id: ComponentId)
        ensures
            id == self.id,
    {
        self.id
    }

    pub fn name(&self) -> (name: &'static str)
        ensures
            name == self.name,
    {
        self.name
    }

    pub fn into_parts(self) -> (parts: (ComponentId, V))
        ensures
            parts == (self.id, self.value),
    {
        (self.id, self.value)
    }
}

/// A table column key: a component id with the registration order it is sorted by.
#[derive(Debug, Clone, Copy)]
pub struct TableComponentKey {
    pub id: ComponentId,
    pub order: ComponentOrder,
}

impl TableComponentKey {
    pub fn new(id: ComponentId, order: ComponentOrder) -> (key: Self)
        ensures
            key.id == id,
            key.order == order,
    {
        TableComponentKey { id, order }
    }

    pub fn id(self) -> (id: ComponentId)
        ensures
            id == self.id,
    {
        self.id
    }

    pub fn order(self) -> (order: ComponentOrder)
        ensures
            order == self.order,
    {
        self.order
    }

    /// Whether two keys have the same id and the same order.
    pub fn same(&self, other: &Self) -> (same: bool)
        ensures
            same == (*self == *other),
    {
        let ids = self.id.same(&other.id);
        ids && self.order.0 == other.order.0
    }
}

} // verus!
