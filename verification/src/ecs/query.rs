use vstd::prelude::*;

use crate::ecs::entity::Entity;

verus! {

/// One match of a single-component query.
pub struct QueryItem<'a, V> {
    pub entity: Entity,
    pub component: &'a V,
}

/// One match of a two-component query.
pub struct QueryItem2<'a, V> {
    pub entity: Entity,
    pub first: &'a V,
    pub second: &'a V,
}

} // verus!
