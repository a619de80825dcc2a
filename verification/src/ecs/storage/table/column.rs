use vstd::prelude::*;

use crate::ecs::component::ComponentId;

verus! {

/// The values of one component type, one per row.
pub struct ComponentColumn<V> {
    component_id: ComponentId,
    values: Vec<V>,
}

impl<V> ComponentColumn<V> {
    pub closed spec fn id_spec(&self) -> ComponentId {
        self.component_id
    }

    pub closed spec fn values(&self) -> Seq<V> {
        self.values@
    }

    pub fn new(component_id: ComponentId) -> (column: Self)
        ensures
            column.id_spec() == component_id,
            column.values() == Seq::<V>::empty(),
    {
        ComponentColumn { component_id, values: Vec::new() }
    }

    pub fn component_id(&self) -> (id: ComponentId)
        ensures
            id == self.id_spec(),
    {
        self.component_id
    }

    pub fn len(&self) -> (len: usize)
        ensures
            len == self.values().len(),
    {
        self.values.len()
    }

    pub fn push(&mut self, value: V)
        ensures
            final(self).id_spec() == old(self).id_spec(),
            final(self).values() == old(self).values().push(value),
    {
        self.values.push(value);
    }

    pub fn get(&self, row: usize) -> (value: Option<&V>)
        ensures
            row < self.values().len() ==> value == Some(&self.values()[row as int]),
            row >= self.values().len() ==> value is None,
    {
        if row < self.values.len() {
            Some(&self.values[row])
        } else {
            None
        }
    }

    pub fn get_mut(&mut self, row: usize) -> (value: Option<&mut V>)
        ensures
            final(self).id_spec() == old(self).id_spec(),
            row < old(self).values().len() ==> value is Some && *value->0 == old(self).values()[row as int]
                && final(self).values() == old(self).values().update(row as int, *final(value->0)),
            row >= old(self).values().len() ==> value is None && final(self).values() == old(self).values(),
    {
        if row < self.values.len() {
            Some(&mut self.values[row])
        } else {
            None
        }
    }

    /// Removes the value at `row`, moving the last value into its place.
    pub fn swap_remove(&mut self, row: usize) -> (value: V)
        requires
            row < old(self).values().len(),
        ensures
            final(self).id_spec() == old(self).id_spec(),
            value == old(self).values()[row as int],
            final(self).values() == old(self).values().update(row as int, old(self).values().last()).drop_last(),
    {
        self.values.swap_remove(row)
    }
}

} // verus!
