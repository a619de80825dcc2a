use std::any::TypeId;
use vstd::prelude::*;

use crate::ecs::keyed::{
    distinct_keys, has_key, keyed_map, lemma_key_position, lemma_keyed_len, lemma_keyed_push,
    lemma_keyed_swap_remove, lemma_keyed_update,
};
use crate::ecs::type_ids::type_ids_equal;

verus! {

/// Marker for types that may be stored as resources.
pub trait Resource: 'static {}

impl<T: 'static> Resource for T {}

/// One value per resource type, keyed by the type's id.
pub struct Resources<V> {
    values: Vec<(TypeId, V)>,
}

impl<V> View for Resources<V> {
    type V = Map<TypeId, V>;

    closed spec fn view(&self) -> Map<TypeId, V> {
        keyed_map(self.values@)
    }
}

impl<V> Default for Resources<V> {
    fn default() -> (resources: Self)
        ensures
            resources.wf(),
            resources@ == Map::<TypeId, V>::empty(),
    {
        Self::new()
    }
}

impl<V> Resources<V> {
    pub closed spec fn wf(&self) -> bool {
        distinct_keys(self.values@)
    }

    pub fn new() -> (resources: Self)
        ensures
            resources.wf(),
            resources@ == Map::<TypeId, V>::empty(),
    {
        let resources = Resources { values: Vec::new() };
        proof {
            assert(resources@ =~= Map::<TypeId, V>::empty());
        }
        resources
    }

    fn find(&self, key: TypeId) -> (found: Option<usize>)
        requires
            self.wf(),
        ensures
            match found {
                Some(i) => i < self.values@.len() && self.values@[i as int].0 == key && self@.contains_key(key),
                None => !self@.contains_key(key),
            },
    {
        let mut i: usize = 0;
        while i < self.values.len()
            invariant
                i <= self.values@.len(),
                forall|j: int| 0 <= j < i ==> #[trigger] self.values@[j].0 != key,
            decreases self.values@.len() - i,
        {
            if type_ids_equal(&self.values[i].0, &key) {
                proof {
                    assert(self.values@[i as int].0 == key);
                    assert(has_key(self.values@, key));
                }
                return Some(i);
            }
            i += 1;
        }
        None
    }

    /// Stores `resource` under `key`; returns the value it replaces, if any.
    pub fn insert(&mut self, key: TypeId, resource: V) -> (previous: Option<V>)
        requires
            old(self).wf(),
        ensures
            final(self).wf(),
            final(self)@ == old(self)@.insert(key, resource),
            previous == if old(self)@.contains_key(key) {
                Some(old(self)@[key])
            } else {
                None
            },
    {
        match self.find(key) {
            Some(i) => {
                let ghost before = self.values@;
                proof {
                    lemma_key_position(before, i as int);
                    lemma_keyed_swap_remove(before, i as int);
                }
                let (_, previous) = self.values.swap_remove(i);
                proof {
                    assert(!has_key(self.values@, key)) by {
                        assert(!keyed_map(self.values@).dom().contains(key));
                    }
                    lemma_keyed_push(self.values@, key, resource);
                }
                self.values.push((key, resource));
                proof {
                    assert(keyed_map(before).remove(key).insert(key, resource) =~= keyed_map(before).insert(key, resource));
                }
                Some(previous)
            },
            None => {
                proof {
                    lemma_keyed_push(self.values@, key, resource);
                }
                self.values.push((key, resource));
                None
            },
        }
    }

    pub fn get(&self, key: TypeId) -> (resource: Option<&V>)
        requires
            self.wf(),
        ensures
            resource == if self@.contains_key(key) {
                Some(&self@[key])
            } else {
                None
            },
    {
        match self.find(key) {
            Some(i) => {
                proof {
                    lemma_key_position(self.values@, i as int);
                }
                Some(&self.values[i].1)
            },
            None => None,
        }
    }

    pub fn get_mut(&mut self, key: TypeId) -> (resource: Option<&mut V>)
        requires
            old(self).wf(),
        ensures
            final(self).wf(),
            old(self)@.contains_key(key) ==> resource is Some && *resource->0 == old(self)@[key] && final(self)@ == old(
                self,
            )@.insert(key, *final(resource->0)),
            !old(self)@.contains_key(key) ==> resource is None && final(self)@ == old(self)@,
    {
        match self.find(key) {
            Some(i) => {
                proof {
                    lemma_key_position(self.values@, i as int);
                    assert forall|v: V| #[trigger] keyed_map(self.values@.update(i as int, (key, v))) == keyed_map(self.values@).insert(key, v)
                        && distinct_keys(self.values@.update(i as int, (key, v))) by {
                        lemma_keyed_update(self.values@, i as int, v);
                    }
                }
                let entry = &mut self.values[i];
                Some(&mut entry.1)
            },
            None => None,
        }
    }

    /// Takes the resource stored under `key` out, if any.
    pub fn remove(&mut self, key: TypeId) -> (removed: Option<V>)
        requires
            old(self).wf(),
        ensures
            final(self).wf(),
            final(self)@ == old(self)@.remove(key),
            removed == if old(self)@.contains_key(key) {
                Some(old(self)@[key])
            } else {
                None
            },
    {
        match self.find(key) {
            Some(i) => {
                proof {
                    lemma_key_position(self.values@, i as int);
                    lemma_keyed_swap_remove(self.values@, i as int);
                }
                let (_, removed) = self.values.swap_remove(i);
                Some(removed)
            },
            None => {
                proof {
                    assert(old(self)@.remove(key) =~= old(self)@);
                }
                None
            },
        }
    }

    pub fn contains(&self, key: TypeId) -> (contains: bool)
        requires
            self.wf(),
        ensures
            contains == self@.contains_key(key),
    {
        self.find(key).is_some()
    }

    /// Number of stored resources.
    pub fn len(&self) -> (len: usize)
        requires
            self.wf(),
        ensures
            self@.dom().finite(),
            len == self@.dom().len(),
    {
        proof {
            lemma_keyed_len(self.values@);
        }
        self.values.len()
    }

    pub fn is_empty(&self) -> (empty: bool)
        requires
            self.wf(),
        ensures
            empty == (self@.dom().len() == 0),
    {
        proof {
            lemma_keyed_len(self.values@);
        }
        self.values.len() == 0
    }
}

} // verus!
