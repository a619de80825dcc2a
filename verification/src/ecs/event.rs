use std::any::TypeId;
use vstd::prelude::*;

use crate::ecs::keyed::{
    distinct_keys, has_key, keyed_map, lemma_key_position, lemma_keyed_push, lemma_keyed_update,
};
use crate::ecs::type_ids::type_ids_equal;

verus! {

/// Marker for types that may be sent as events.
pub trait Event: 'static {}

impl<T: 'static> Event for T {}

/// The events of the channel `key`: empty when the channel does not exist.
pub open spec fn events_of<V>(channels: Map<TypeId, Seq<V>>, key: TypeId) -> Seq<V> {
    if channels.contains_key(key) {
        channels[key]
    } else {
        Seq::empty()
    }
}

/// The channels with their contents as sequences.
pub open spec fn channel_views<V>(channels: Seq<(TypeId, Vec<V>)>) -> Seq<(TypeId, Seq<V>)> {
    channels.map_values(|channel: (TypeId, Vec<V>)| (channel.0, channel.1@))
}

/// One channel of events per event type, in the order they were sent.
pub struct Events<V> {
    channels: Vec<(TypeId, Vec<V>)>,
}

impl<V> View for Events<V> {
    type V = Map<TypeId, Seq<V>>;

    closed spec fn view(&self) -> Map<TypeId, Seq<V>> {
        keyed_map(channel_views(self.channels@))
    }
}

impl<V> Default for Events<V> {
    fn default() -> (events: Self)
        ensures
            events.wf(),
            events@ == Map::<TypeId, Seq<V>>::empty(),
    {
        Self::new()
    }
}

impl<V> Events<V> {
    pub closed spec fn wf(&self) -> bool {
        distinct_keys(channel_views(self.channels@))
    }

    pub fn new() -> (events: Self)
        ensures
            events.wf(),
            events@ == Map::<TypeId, Seq<V>>::empty(),
    {
        let events = Events { channels: Vec::new() };
        proof {
            assert(events@ =~= Map::<TypeId, Seq<V>>::empty());
        }
        events
    }

    fn find(&self, key: TypeId) -> (found: Option<usize>)
        requires
            self.wf(),
        ensures
            match found {
                Some(i) => i < self.channels@.len() && self.channels@[i as int].0 == key && self@.contains_key(key)
                    && self@[key] == self.channels@[i as int].1@,
                None => !self@.contains_key(key),
            },
    {
        let mut i: usize = 0;
        while i < self.channels.len()
            invariant
                self.wf(),
                i <= self.channels@.len(),
                forall|j: int| 0 <= j < i ==> #[trigger] self.channels@[j].0 != key,
            decreases self.channels@.len() - i,
        {
            if type_ids_equal(&self.channels[i].0, &key) {
                proof {
                    assert(channel_views(self.channels@)[i as int].0 == key);
                    lemma_key_position(channel_views(self.channels@), i as int);
                }
                return Some(i);
            }
            i += 1;
        }
        proof {
            if has_key(channel_views(self.channels@), key) {
                let j = choose|j: int| 0 <= j < channel_views(self.channels@).len() && #[trigger] channel_views(self.channels@)[j].0 == key;
                assert(self.channels@[j].0 == key);
            }
        }
        None
    }

    /// Appends `event` to the channel `key`, creating the channel if needed.
    pub fn send(&mut self, key: TypeId, event: V)
        requires
            old(self).wf(),
        ensures
            final(self).wf(),
            final(self)@ == old(self)@.insert(key, events_of(old(self)@, key).push(event)),
    {
        let ghost before = channel_views(self.channels@);
        match self.find(key) {
            Some(i) => {
                let ghost old_channel = self.channels@[i as int].1@;
                {
                    let channel = &mut self.channels[i];
                    channel.1.push(event);
                }
                proof {
                    lemma_keyed_update(before, i as int, old_channel.push(event));
                    assert(channel_views(self.channels@) =~= before.update(i as int, (key, old_channel.push(event))));
                }
            },
            None => {
                let mut channel: Vec<V> = Vec::new();
                channel.push(event);
                self.channels.push((key, channel));
                proof {
                    assert(!has_key(before, key));
                    lemma_keyed_push(before, key, seq![event]);
                    assert(channel_views(self.channels@) =~= before.push((key, seq![event])));
                    assert(Seq::<V>::empty().push(event) =~= seq![event]);
                }
            },
        }
    }

    /// The events sent on channel `key`, oldest first.
    pub fn read(&self, key: TypeId) -> (events: &[V])
        requires
            self.wf(),
        ensures
            events@ == events_of(self@, key),
    {
        match self.find(key) {
            Some(i) => self.channels[i].1.as_slice(),
            None => &[],
        }
    }

    pub fn len(&self, key: TypeId) -> (len: usize)
        requires
            self.wf(),
        ensures
            len == events_of(self@, key).len(),
    {
        self.read(key).len()
    }

    pub fn is_empty(&self, key: TypeId) -> (empty: bool)
        requires
            self.wf(),
        ensures
            empty == (events_of(self@, key).len() == 0),
    {
        self.read(key).len() == 0
    }

    /// Empties every channel.
    pub fn clear(&mut self)
        requires
            old(self).wf(),
        ensures
            final(self).wf(),
            final(self)@ == Map::new(|key: TypeId| old(self)@.contains_key(key), |key: TypeId| Seq::<V>::empty()),
    {
        let ghost before = self.channels@;
        let mut i: usize = 0;
        while i < self.channels.len()
            invariant
                i <= self.channels@.len(),
                self.channels@.len() == before.len(),
                forall|j: int| 0 <= j < before.len() ==> #[trigger] self.channels@[j].0 == before[j].0,
                forall|j: int| 0 <= j < i ==> #[trigger] self.channels@[j].1@.len() == 0,
            decreases self.channels@.len() - i,
        {
            let channel = &mut self.channels[i];
            channel.1.clear();
            i += 1;
        }
        proof {
            let old_views = channel_views(before);
            let new_views = channel_views(self.channels@);
            assert(distinct_keys(new_views)) by {
                assert forall|a: int, b: int| 0 <= a < new_views.len() && 0 <= b < new_views.len() && a != b implies #[trigger] new_views[a].0 != #[trigger] new_views[b].0 by {
                    assert(old_views[a].0 != old_views[b].0);
                }
            }
            assert forall|k: TypeId| #[trigger] has_key(new_views, k) == has_key(old_views, k) by {
                if has_key(new_views, k) {
                    let j = choose|j: int| 0 <= j < new_views.len() && #[trigger] new_views[j].0 == k;
                    assert(old_views[j].0 == k);
                }
                if has_key(old_views, k) {
                    let j = choose|j: int| 0 <= j < old_views.len() && #[trigger] old_views[j].0 == k;
                    assert(new_views[j].0 == k);
                }
            }
            assert forall|k: TypeId| #[trigger] has_key(new_views, k) implies keyed_map(new_views)[k] == Seq::<V>::empty() by {
                let j = choose|j: int| 0 <= j < new_views.len() && #[trigger] new_views[j].0 == k;
                lemma_key_position(new_views, j);
                assert(new_views[j].1 =~= Seq::<V>::empty());
            }
            assert(self@ =~= Map::new(|key: TypeId| old(self)@.contains_key(key), |key: TypeId| Seq::<V>::empty()));
        }
    }
}

} // verus!
