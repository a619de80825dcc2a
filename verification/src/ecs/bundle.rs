use vstd::prelude::*;

use crate::ecs::storage::table::value::TableComponentValue;

verus! {

/// The components of one entity-to-be, in the order they were given.
pub struct ComponentBundle<V> {
    components: Vec<TableComponentValue<V>>,
}

impl<V> View for ComponentBundle<V> {
    type V = Seq<TableComponentValue<V>>;

    closed spec fn view(&self) -> Seq<TableComponentValue<V>> {
        self.components@
    }
}

impl<V> ComponentBundle<V> {
    pub(crate) fn new(components: Vec<TableComponentValue<V>>) -> (bundle: Self)
        ensures
            bundle@ == components@,
    {
        ComponentBundle { components }
    }

    /// The bundled components, in order.
    pub fn into_table_components(self) -> (components: Vec<TableComponentValue<V>>)
        ensures
            components@ == self@,
    {
        self.components
    }
}

/// A group of components that spawns as one entity.
pub trait Bundle<V>: Sized {
    /// The components of the group, in order.
    spec fn components(self) -> Seq<TableComponentValue<V>>;

    fn into_bundle(self) -> (bundle: ComponentBundle<V>)
        ensures
            bundle@ == self.components(),
    ;
}

impl<V> Bundle<V> for (TableComponentValue<V>,) {
    open spec fn components(self) -> Seq<TableComponentValue<V>> {
        seq![self.0]
    }

    fn into_bundle(self) -> (bundle: ComponentBundle<V>) {
        let mut components: Vec<TableComponentValue<V>> = Vec::new();
        components.push(self.0);
        proof {
            assert(components@ =~= seq![self.0]);
        }
        ComponentBundle::new(components)
    }
}

impl<V> Bundle<V> for (TableComponentValue<V>, TableComponentValue<V>) {
    open spec fn components(self) -> Seq<TableComponentValue<V>> {
        seq![self.0, self.1]
    }

    fn into_bundle(self) -> (bundle: ComponentBundle<V>) {
        let ghost whole = self;
        let (first, second) = self;
        let mut components: Vec<TableComponentValue<V>> = Vec::new();
        components.push(first);
        components.push(second);
        proof {
            assert(components@ =~= seq![whole.0, whole.1]);
        }
        ComponentBundle::new(components)
    }
}

impl<V> Bundle<V> for (TableComponentValue<V>, TableComponentValue<V>, TableComponentValue<V>) {
    open spec fn components(self) -> Seq<TableComponentValue<V>> {
        seq![self.0, self.1, self.2]
    }

    fn into_bundle(self) -> (bundle: ComponentBundle<V>) {
        let ghost whole = self;
        let (first, second, third) = self;
        let mut components: Vec<TableComponentValue<V>> = Vec::new();
        components.push(first);
        components.push(second);
        components.push(third);
        proof {
            assert(components@ =~= seq![whole.0, whole.1, whole.2]);
        }
        ComponentBundle::new(components)
    }
}

} // verus!
