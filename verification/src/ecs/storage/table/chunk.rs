use vstd::prelude::*;

use crate::ecs::component::ComponentId;
use crate::ecs::entity::Entity;

use super::column::ComponentColumn;

verus! {

/// The ids of a sequence of (id, value) pairs.
pub open spec fn pair_ids<V>(pairs: Seq<(ComponentId, V)>) -> Seq<ComponentId> {
    pairs.map_values(|p: (ComponentId, V)| p.0)
}

/// The value paired with `id` (meaningful when exactly one pair has that id).
pub open spec fn lookup<V>(pairs: Seq<(ComponentId, V)>, id: ComponentId) -> V {
    pairs[lookup_index(pairs, id)].1
}

/// A position of `id` among the ids of `pairs` (meaningful when some pair has that id).
pub open spec fn lookup_index<V>(pairs: Seq<(ComponentId, V)>, id: ComponentId) -> int {
    choose|j: int| 0 <= j < pairs.len() && #[trigger] pairs[j].0 == id
}

/// The first position of `id` in `ids` (meaningful when `ids` contains it).
pub open spec fn first_index(ids: Seq<ComponentId>, id: ComponentId) -> int {
    choose|k: int|
        0 <= k < ids.len() && ids[k] == id && forall|j: int| 0 <= j < k ==> #[trigger] ids[j] != id
}

pub proof fn lemma_first_index(ids: Seq<ComponentId>, id: ComponentId, k: int)
    requires
        0 <= k < ids.len(),
        ids[k] == id,
        forall|j: int| 0 <= j < k ==> #[trigger] ids[j] != id,
    ensures
        first_index(ids, id) == k,
{
    let f = first_index(ids, id);
    assert(0 <= f < ids.len() && ids[f] == id && forall|j: int| 0 <= j < f ==> #[trigger] ids[j] != id);
    if f < k {
        assert(ids[f] != id);
    }
    if k < f {
        assert(ids[k] != id);
    }
}

/// The first position of an id that occurs is where it first occurs.
pub proof fn lemma_first_index_exists(ids: Seq<ComponentId>, id: ComponentId)
    requires
        ids.contains(id),
    ensures
        0 <= first_index(ids, id) < ids.len(),
        ids[first_index(ids, id)] == id,
        forall|j: int| 0 <= j < first_index(ids, id) ==> #[trigger] ids[j] != id,
    decreases ids.len(),
{
    let rest = ids.drop_last();
    if rest.contains(id) {
        lemma_first_index_exists(rest, id);
        let k = first_index(rest, id);
        assert forall|j: int| 0 <= j < k implies #[trigger] ids[j] != id by {
            assert(rest[j] == ids[j]);
        }
        lemma_first_index(ids, id, k);
    } else {
        let k = ids.len() - 1;
        assert forall|j: int| 0 <= j < k implies #[trigger] ids[j] != id by {
            assert(rest[j] == ids[j]);
            assert(rest.contains(rest[j]));
        }
        assert(ids[k] == id) by {
            let m = choose|m: int| 0 <= m < ids.len() && ids[m] == id;
            if m < k {
                assert(rest[m] == id);
            }
        }
        lemma_first_index(ids, id, k);
    }
}

pub proof fn lemma_first_index_distinct(ids: Seq<ComponentId>, k: int)
    requires
        0 <= k < ids.len(),
        ids.no_duplicates(),
    ensures
        first_index(ids, ids[k]) == k,
{
    assert forall|j: int| 0 <= j < k implies #[trigger] ids[j] != ids[k] by {}
    lemma_first_index(ids, ids[k], k);
}

pub proof fn lemma_lookup<V>(pairs: Seq<(ComponentId, V)>, i: int)
    requires
        0 <= i < pairs.len(),
        pair_ids(pairs).no_duplicates(),
    ensures
        lookup(pairs, pairs[i].0) == pairs[i].1,
{
    let id = pairs[i].0;
    assert(pairs[i].0 == id);
    let c = lookup_index(pairs, id);
    assert(pair_ids(pairs)[c] == pairs[c].0);
    assert(pair_ids(pairs)[i] == pairs[i].0);
    assert(c == i) by {
        if c != i {
            assert(pair_ids(pairs)[c] != pair_ids(pairs)[i]);
        }
    }
}

fn position_of_id<V>(components: &Vec<(ComponentId, V)>, id: ComponentId) -> (position: usize)
    requires
        pair_ids(components@).contains(id),
    ensures
        position < components@.len(),
        components@[position as int].0 == id,
        position == first_index(pair_ids(components@), id),
{
    let mut position: usize = 0;
    while position < components.len()
        invariant
            position <= components@.len(),
            forall|i: int| 0 <= i < position ==> #[trigger] components@[i].0 != id,
        decreases components@.len() - position,
    {
        if components[position].0.same(&id) {
            proof {
                assert forall|j: int| 0 <= j < position implies #[trigger] pair_ids(components@)[j] != id by {
                    assert(components@[j].0 != id);
                }
                lemma_first_index(pair_ids(components@), id, position as int);
            }
            return position;
        }
        position += 1;
    }
    proof {
        let w = choose|w: int| 0 <= w < pair_ids(components@).len() && pair_ids(components@)[w] == id;
        assert(components@[w].0 == id);
    }
    position
}

/// The values that columns with `ids` take from `pairs`, in column order: each column in
/// turn takes the first pair with its id, and the last pair moves into the place of the
/// pair taken.
pub open spec fn placed<V>(ids: Seq<ComponentId>, pairs: Seq<(ComponentId, V)>) -> Seq<V>
    decreases ids.len(),
{
    if ids.len() == 0 {
        Seq::empty()
    } else {
        let p = first_index(pair_ids(pairs), ids[0]);
        seq![pairs[p].1] + placed(ids.drop_first(), pairs.update(p, pairs.last()).drop_last())
    }
}

/// Taking an item out of a sequence, with the last item moving into its place, takes that
/// one item out of the sequence's multiset.
proof fn lemma_swap_removed_multiset<A>(s: Seq<A>, p: int)
    requires
        0 <= p < s.len(),
    ensures
        s.update(p, s.last()).drop_last().to_multiset() == s.to_multiset().remove(s[p]),
{
    broadcast use vstd::multiset::group_multiset_axioms, vstd::seq_lib::group_to_multiset_ensures;

    let u = s.update(p, s.last());
    vstd::seq_lib::to_multiset_update(s, p, s.last());
    assert(u.drop_last() =~= u.remove(u.len() - 1));
    vstd::seq_lib::to_multiset_remove(u, u.len() - 1);
    assert(u[u.len() - 1] == s.last());
    assert(s.contains(s[p]));
    assert(u.drop_last().to_multiset() =~= s.to_multiset().remove(s[p]));
}

/// Putting an item in front of a sequence puts it into the sequence's multiset.
proof fn lemma_front_multiset<A>(s: Seq<A>)
    requires
        s.len() > 0,
    ensures
        s.to_multiset() == s.drop_first().to_multiset().insert(s[0]),
{
    assert(s =~= s.drop_first().insert(0, s[0]));
    vstd::seq_lib::to_multiset_insert(s.drop_first(), 0, s[0]);
}

/// The ids of the pairs left after a column takes the first pair with id `ids[0]` are,
/// as a multiset, the remaining ids.
proof fn lemma_placed_step<V>(ids: Seq<ComponentId>, pairs: Seq<(ComponentId, V)>)
    requires
        ids.len() > 0,
        pair_ids(pairs).to_multiset() == ids.to_multiset(),
    ensures
        pair_ids(pairs).contains(ids[0]),
        0 <= first_index(pair_ids(pairs), ids[0]) < pairs.len(),
        pairs[first_index(pair_ids(pairs), ids[0])].0 == ids[0],
        pair_ids(pairs.update(first_index(pair_ids(pairs), ids[0]), pairs.last()).drop_last()).to_multiset()
            == ids.drop_first().to_multiset(),
{
    broadcast use vstd::multiset::group_multiset_axioms, vstd::seq_lib::group_to_multiset_ensures;

    let ps = pair_ids(pairs);
    lemma_front_multiset(ids);
    assert(ids.to_multiset().count(ids[0]) > 0);
    assert(ps.to_multiset().count(ids[0]) > 0);
    assert(ps.contains(ids[0]));
    lemma_first_index_exists(ps, ids[0]);
    let p = first_index(ps, ids[0]);
    assert(ps[p] == pairs[p].0);
    lemma_swap_removed_multiset(ps, p);
    assert(pair_ids(pairs.update(p, pairs.last()).drop_last()) =~= ps.update(p, ps.last()).drop_last());
    assert(ids.drop_first().to_multiset().insert(ids[0]).remove(ids[0]) =~= ids.drop_first().to_multiset());
}

/// There are as many placed values as ids.
proof fn lemma_placed_len<V>(ids: Seq<ComponentId>, pairs: Seq<(ComponentId, V)>)
    ensures
        placed(ids, pairs).len() == ids.len(),
    decreases ids.len(),
{
    if ids.len() > 0 {
        let p = first_index(pair_ids(pairs), ids[0]);
        lemma_placed_len(ids.drop_first(), pairs.update(p, pairs.last()).drop_last());
    }
}

/// When no id repeats, each column takes the one value paired with its id.
pub proof fn lemma_placed_distinct<V>(ids: Seq<ComponentId>, pairs: Seq<(ComponentId, V)>)
    requires
        ids.no_duplicates(),
        pair_ids(pairs).to_multiset() == ids.to_multiset(),
    ensures
        placed(ids, pairs) =~= Seq::new(ids.len(), |k: int| lookup(pairs, ids[k])),
    decreases ids.len(),
{
    broadcast use vstd::seq_lib::group_to_multiset_ensures;

    lemma_placed_len(ids, pairs);
    if ids.len() > 0 {
        ids.lemma_multiset_has_no_duplicates();
        pair_ids(pairs).lemma_multiset_has_no_duplicates_conv();
        lemma_placed_step(ids, pairs);
        let p = first_index(pair_ids(pairs), ids[0]);
        let rest = pairs.update(p, pairs.last()).drop_last();
        let tail = ids.drop_first();
        lemma_placed_distinct(tail, rest);
        tail.lemma_multiset_has_no_duplicates();
        pair_ids(rest).lemma_multiset_has_no_duplicates_conv();
        lemma_lookup(pairs, p);
        assert forall|k: int| 0 < k < ids.len() implies #[trigger] placed(ids, pairs)[k] == lookup(pairs, ids[k]) by {
            assert(placed(ids, pairs)[k] == placed(tail, rest)[k - 1]);
            assert(tail[k - 1] == ids[k]);
            assert(tail.to_multiset().count(ids[k]) > 0);
            assert(pair_ids(rest).contains(ids[k]));
            let i = choose|i: int| 0 <= i < pair_ids(rest).len() && pair_ids(rest)[i] == ids[k];
            assert(rest[i].0 == ids[k]);
            lemma_lookup(rest, i);
            let q = if i == p { pairs.len() - 1 } else { i };
            assert(rest[i] == pairs[q]);
            assert(pair_ids(pairs)[q] == pairs[q].0);
            lemma_lookup(pairs, q);
        }
    }
}

/// Two sequences of distinct ids of one length, where each id of the first is in the
/// second, are one multiset.
pub proof fn lemma_distinct_ids_multiset(a: Seq<ComponentId>, b: Seq<ComponentId>)
    requires
        a.no_duplicates(),
        b.no_duplicates(),
        a.len() == b.len(),
        forall|k: int| 0 <= k < a.len() ==> b.contains(#[trigger] a[k]),
    ensures
        a.to_multiset() == b.to_multiset(),
{
    broadcast use vstd::seq_lib::group_to_multiset_ensures, vstd::set::group_set_axioms;

    a.unique_seq_to_set();
    b.unique_seq_to_set();
    assert(a.to_set().subset_of(b.to_set())) by {
        assert forall|x: ComponentId| a.to_set().contains(x) implies b.to_set().contains(x) by {
            let k = choose|k: int| 0 <= k < a.len() && a[k] == x;
        }
    }
    vstd::set_lib::lemma_subset_equality(a.to_set(), b.to_set());
    a.lemma_multiset_has_no_duplicates();
    b.lemma_multiset_has_no_duplicates();
    assert forall|x: ComponentId| a.to_multiset().count(x) == b.to_multiset().count(x) by {
        assert(a.contains(x) == a.to_set().contains(x));
        assert(b.contains(x) == b.to_set().contains(x));
    }
    assert(a.to_multiset() =~= b.to_multiset());
}

#[verifier::ext_equal]
/// Abstract contents of a chunk: its capacity, its entities by row, the component id of
/// each column, and each column's values by row.
pub struct ChunkView<V> {
    pub capacity: nat,
    pub entities: Seq<Entity>,
    pub ids: Seq<ComponentId>,
    pub columns: Seq<Seq<V>>,
}

impl<V> ChunkView<V> {
    /// Columns are dense and aligned with the entity rows, within capacity.
    pub open spec fn wf(self) -> bool {
        &&& self.ids.len() == self.columns.len()
        &&& forall|k: int| 0 <= k < self.columns.len() ==> #[trigger] self.columns[k].len() == self.entities.len()
        &&& self.entities.len() <= self.capacity
        &&& self.capacity <= usize::MAX
    }

    pub open spec fn len(self) -> nat {
        self.entities.len()
    }

    /// The values of row `r`, one per column.
    pub open spec fn row(self, r: int) -> Seq<V> {
        Seq::new(self.columns.len(), |k: int| self.columns[k][r])
    }

    /// The value of component `id` in row `r`, if the chunk has a column for `id` and the row exists.
    pub open spec fn value(self, id: ComponentId, r: int) -> Option<V> {
        if self.ids.contains(id) && 0 <= r < self.entities.len() {
            Some(self.columns[first_index(self.ids, id)][r])
        } else {
            None
        }
    }

    /// The chunk with the value of component `id` in row `r` replaced by `value`.
    pub open spec fn with_value(self, id: ComponentId, r: int, value: V) -> ChunkView<V> {
        let k = first_index(self.ids, id);
        ChunkView { columns: self.columns.update(k, self.columns[k].update(r, value)), ..self }
    }

    /// The chunk after swap-removing row `r`: the last row moves into its place.
    pub open spec fn swap_removed(self, r: int) -> ChunkView<V> {
        ChunkView {
            capacity: self.capacity,
            entities: self.entities.update(r, self.entities.last()).drop_last(),
            ids: self.ids,
            columns: Seq::new(
                self.columns.len(),
                |k: int| self.columns[k].update(r, self.columns[k].last()).drop_last(),
            ),
        }
    }

    /// The chunk after appending `entity` with `values`, one per column.
    pub open spec fn pushed(self, entity: Entity, values: Seq<V>) -> ChunkView<V> {
        ChunkView {
            capacity: self.capacity,
            entities: self.entities.push(entity),
            ids: self.ids,
            columns: Seq::new(self.columns.len(), |k: int| self.columns[k].push(values[k])),
        }
    }
}

/// What `take_row` hands back: the removed entity, its components in column order, and
/// the entity that was moved into the freed row, if any.
pub struct RemovedChunkRow<V> {
    pub entity: Entity,
    pub components: Vec<(ComponentId, V)>,
    pub moved_entity: Option<Entity>,
}

/// A fixed-capacity block of rows with one dense column per component type.
pub struct Chunk<V> {
    capacity: usize,
    entities: Vec<Entity>,
    columns: Vec<ComponentColumn<V>>,
}

impl<V> View for Chunk<V> {
    type V = ChunkView<V>;

    closed spec fn view(&self) -> ChunkView<V> {
        ChunkView {
            capacity: self.capacity as nat,
            entities: self.entities@,
            ids: Seq::new(self.columns@.len(), |k: int| self.columns@[k].id_spec()),
            columns: Seq::new(self.columns@.len(), |k: int| self.columns@[k].values()),
        }
    }
}

impl<V> Chunk<V> {
    pub fn new(component_ids: &[ComponentId], capacity: usize) -> (chunk: Self)
        ensures
            chunk@.wf(),
            chunk@.capacity == capacity,
            chunk@.entities.len() == 0,
            chunk@.ids == component_ids@,
            chunk@.columns =~~= Seq::new(component_ids@.len(), |k: int| Seq::<V>::empty()),
    {
        let mut columns: Vec<ComponentColumn<V>> = Vec::new();
        let mut i: usize = 0;
        while i < component_ids.len()
            invariant
                i <= component_ids@.len(),
                columns@.len() == i,
                forall|k: int| 0 <= k < i ==> #[trigger] columns@[k].id_spec() == component_ids@[k]
                    && columns@[k].values().len() == 0,
            decreases component_ids@.len() - i,
        {
            let ghost before = columns@;
            let column = ComponentColumn::new(component_ids[i]);
            columns.push(column);
            proof {
                assert forall|k: int| 0 <= k < i + 1 implies #[trigger] columns@[k].id_spec() == component_ids@[k]
                    && columns@[k].values().len() == 0 by {
                    if k < i {
                        assert(columns@[k] == before[k]);
                    }
                }
            }
            i += 1;
        }
        let chunk = Chunk { capacity, entities: Vec::new(), columns };
        proof {
            assert(chunk@.ids =~= component_ids@);
            assert forall|k: int| 0 <= k < chunk@.columns.len() implies #[trigger] chunk@.columns[k].len()
                == chunk@.entities.len() by {
                assert(chunk.columns@[k].id_spec() == component_ids@[k]);
                assert(chunk@.columns[k] == chunk.columns@[k].values());
            }
            assert forall|k: int| 0 <= k < chunk@.columns.len() implies #[trigger] chunk@.columns[k] =~= Seq::<V>::empty() by {
                assert(chunk.columns@[k].id_spec() == component_ids@[k]);
                assert(chunk@.columns[k] == chunk.columns@[k].values());
            }
        }
        chunk
    }

    fn find_column(&self, component_id: ComponentId) -> (found: Option<usize>)
        ensures
            match found {
                Some(k) => k < self@.ids.len() && self@.ids.contains(component_id) && k == first_index(
                    self@.ids,
                    component_id,
                ),
                None => !self@.ids.contains(component_id),
            },
    {
        let mut k: usize = 0;
        while k < self.columns.len()
            invariant
                k <= self.columns@.len(),
                forall|j: int| 0 <= j < k ==> #[trigger] self@.ids[j] != component_id,
            decreases self.columns@.len() - k,
        {
            if self.columns[k].component_id().same(&component_id) {
                proof {
                    assert(self@.ids[k as int] == component_id);
                    lemma_first_index(self@.ids, component_id, k as int);
                }
                return Some(k);
            }
            k += 1;
        }
        proof {
            if self@.ids.contains(component_id) {
                let j = choose|j: int| 0 <= j < self@.ids.len() && self@.ids[j] == component_id;
                assert(self@.ids[j] != component_id);
            }
        }
        None
    }

    pub fn get(&self, component_id: ComponentId, row: usize) -> (value: Option<&V>)
        requires
            self@.wf(),
        ensures
            match value {
                Some(v) => self@.value(component_id, row as int) == Some(*v),
                None => self@.value(component_id, row as int) is None,
            },
    {
        match self.find_column(component_id) {
            Some(k) => {
                proof {
                    assert(self@.columns[k as int] == self.columns@[k as int].values());
                    assert(self@.columns[k as int].len() == self@.entities.len());
                }
                self.columns[k].get(row)
            },
            None => None,
        }
    }

    pub fn get_mut(&mut self, component_id: ComponentId, row: usize) -> (value: Option<&mut V>)
        requires
            old(self)@.wf(),
        ensures
            final(self)@.wf(),
            match old(self)@.value(component_id, row as int) {
                Some(v) => value is Some && *value->0 == v && final(self)@ =~~= old(self)@.with_value(
                    component_id,
                    row as int,
                    *final(value->0),
                ),
                None => value is None && final(self)@ =~~= old(self)@,
            },
    {
        match self.find_column(component_id) {
            Some(k) => {
                proof {
                    assert(self@.columns[k as int] == self.columns@[k as int].values());
                    assert(self@.columns[k as int].len() == self@.entities.len());
                    assert forall|j: int| 0 <= j < self.columns@.len() implies #[trigger] self.columns@[j].values().len() == self.entities@.len() by {
                        assert(self@.columns[j] == self.columns@[j].values());
                    }
                }
                let column = &mut self.columns[k];
                column.get_mut(row)
            },
            None => None,
        }
    }

    pub fn entity(&self, row: usize) -> (entity: Option<Entity>)
        ensures
            row < self@.entities.len() ==> entity == Some(self@.entities[row as int]),
            row >= self@.entities.len() ==> entity is None,
    {
        if row < self.entities.len() {
            Some(self.entities[row])
        } else {
            None
        }
    }

    pub fn row_count(&self) -> (count: usize)
        ensures
            count == self@.entities.len(),
    {
        self.len()
    }

    pub fn len(&self) -> (len: usize)
        ensures
            len == self@.entities.len(),
    {
        self.entities.len()
    }

    pub fn is_full(&self) -> (full: bool)
        ensures
            full == (self@.entities.len() == self@.capacity),
    {
        self.len() == self.capacity
    }

    /// Appends a row for `entity`. Each column in turn takes the first pair with its id,
    /// and the last pair moves into the place of the pair taken; the pairs must hold the
    /// chunk's component ids, each as often as the columns do.
    pub fn push_row(&mut self, entity: Entity, components: Vec<(ComponentId, V)>) -> (row: usize)
        requires
            old(self)@.wf(),
            old(self)@.entities.len() < old(self)@.capacity,
            pair_ids(components@).to_multiset() == old(self)@.ids.to_multiset(),
        ensures
            final(self)@.wf(),
            row == old(self)@.entities.len(),
            final(self)@ == old(self)@.pushed(entity, placed(old(self)@.ids, components@)),
            old(self)@.ids.no_duplicates() ==> final(self)@ == old(self)@.pushed(
                entity,
                Seq::new(old(self)@.ids.len(), |k: int| lookup(components@, old(self)@.ids[k])),
            ),
    {
        let ghost given = components@;
        let ghost old_view = self@;
        let ghost values = placed(old_view.ids, given);
        proof {
            lemma_placed_len(old_view.ids, given);
            assert(old_view.ids.subrange(0, old_view.ids.len() as int) =~= old_view.ids);
        }
        let mut components = components;
        self.entities.push(entity);
        let n = self.columns.len();
        let mut k: usize = 0;
        while k < n
            invariant
                n == self.columns@.len(),
                n == old_view.ids.len(),
                k <= n,
                old_view.wf(),
                values == placed(old_view.ids, given),
                values.len() == n,
                self.entities@ == old_view.entities.push(entity),
                self.capacity == old_view.capacity,
                pair_ids(components@).to_multiset() == old_view.ids.subrange(k as int, n as int).to_multiset(),
                placed(old_view.ids.subrange(k as int, n as int), components@) == values.subrange(k as int, n as int),
                forall|j: int| 0 <= j < n ==> #[trigger] self.columns@[j].id_spec() == old_view.ids[j],
                forall|j: int| 0 <= j < k ==> #[trigger] self.columns@[j].values() == old_view.columns[j].push(values[j]),
                forall|j: int| k <= j < n ==> #[trigger] self.columns@[j].values() == old_view.columns[j],
            decreases n - k,
        {
            let id = self.columns[k].component_id();
            let ghost rest_ids = old_view.ids.subrange(k as int, n as int);
            proof {
                assert(rest_ids[0] == id);
                lemma_placed_step(rest_ids, components@);
            }
            let position = position_of_id(&components, id);
            let ghost before = components@;
            let (_, value) = components.swap_remove(position);
            proof {
                assert(rest_ids.drop_first() =~= old_view.ids.subrange(k + 1, n as int));
                assert(placed(rest_ids, before) == seq![before[position as int].1] + placed(
                    rest_ids.drop_first(),
                    components@,
                ));
                assert(values.subrange(k as int, n as int)[0] == values[k as int]);
                assert(values[k as int] == value);
                assert(values.subrange(k + 1, n as int) =~= values.subrange(k as int, n as int).drop_first());
                assert(placed(rest_ids, before).drop_first() =~= placed(rest_ids.drop_first(), components@));
            }
            let column = &mut self.columns[k];
            column.push(value);
            k += 1;
        }
        proof {
            assert(self@.ids =~= old_view.ids);
            assert(self@.columns =~= old_view.pushed(entity, values).columns);
            assert forall|j: int| 0 <= j < self@.columns.len() implies #[trigger] self@.columns[j].len()
                == self@.entities.len() by {
                assert(self@.columns[j] == self.columns@[j].values());
                assert(old_view.columns[j].len() == old_view.entities.len());
            }
            if old_view.ids.no_duplicates() {
                lemma_placed_distinct(old_view.ids, given);
            }
        }
        self.entities.len() - 1
    }

    /// Removes the row and hands back the removed entity with its components; the last
    /// row moves into the freed row. `None` when the chunk is empty.
    pub fn take_row(&mut self, row: usize) -> (removed: Option<RemovedChunkRow<V>>)
        requires
            old(self)@.wf(),
            old(self)@.entities.len() == 0 || row < old(self)@.entities.len(),
        ensures
            final(self)@.wf(),
            old(self)@.entities.len() == 0 ==> removed is None && final(self)@ == old(self)@,
            old(self)@.entities.len() > 0 ==> {
                &&& removed matches Some(r)
                &&& r.entity == old(self)@.entities[row as int]
                &&& r.components@ == Seq::new(
                    old(self)@.ids.len(),
                    |k: int| (old(self)@.ids[k], old(self)@.columns[k][row as int]),
                )
                &&& r.moved_entity == if row + 1 < old(self)@.entities.len() {
                    Some(old(self)@.entities.last())
                } else {
                    None
                }
                &&& final(self)@ == old(self)@.swap_removed(row as int)
            },
    {
        if self.entities.len() == 0 {
            return None;
        }
        let last_row = self.entities.len() - 1;
        let ghost old_view = self@;
        let entity = self.entities.swap_remove(row);
        let mut components: Vec<(ComponentId, V)> = Vec::new();
        let n = self.columns.len();
        let mut k: usize = 0;
        while k < n
            invariant
                n == self.columns@.len(),
                n == old_view.ids.len(),
                k <= n,
                old_view.wf(),
                row < old_view.entities.len(),
                self.entities@ == old_view.entities.update(row as int, old_view.entities.last()).drop_last(),
                self.capacity == old_view.capacity,
                components@.len() == k,
                forall|j: int| 0 <= j < k ==> #[trigger] components@[j] == (old_view.ids[j], old_view.columns[j][row as int]),
                forall|j: int| 0 <= j < n ==> #[trigger] self.columns@[j].id_spec() == old_view.ids[j],
                forall|j: int| 0 <= j < k ==> #[trigger] self.columns@[j].values()
                    == old_view.columns[j].update(row as int, old_view.columns[j].last()).drop_last(),
                forall|j: int| k <= j < n ==> #[trigger] self.columns@[j].values() == old_view.columns[j],
            decreases n - k,
        {
            let id = self.columns[k].component_id();
            proof {
                assert(old_view.columns[k as int].len() == old_view.entities.len());
            }
            let column = &mut self.columns[k];
            let value = column.swap_remove(row);
            components.push((id, value));
            k += 1;
        }
        let moved_entity = if row < last_row {
            Some(self.entities[row])
        } else {
            None
        };
        proof {
            assert(self@.ids =~= old_view.ids);
            assert(self@.columns =~= old_view.swap_removed(row as int).columns);
            assert(components@ =~= Seq::new(old_view.ids.len(), |k: int| (old_view.ids[k], old_view.columns[k][row as int])));
            assert forall|j: int| 0 <= j < self@.columns.len() implies #[trigger] self@.columns[j].len()
                == self@.entities.len() by {
                assert(self@.columns[j] == self.columns@[j].values());
                assert(old_view.columns[j].len() == old_view.entities.len());
            }
        }
        Some(RemovedChunkRow { entity, components, moved_entity })
    }

    /// Removes the row; returns the entity that was moved into it, if any.
    pub fn swap_remove_row(&mut self, row: usize) -> (moved: Option<Entity>)
        requires
            old(self)@.wf(),
            old(self)@.entities.len() == 0 || row < old(self)@.entities.len(),
        ensures
            final(self)@.wf(),
            old(self)@.entities.len() == 0 ==> moved is None && final(self)@ == old(self)@,
            old(self)@.entities.len() > 0 ==> {
                &&& moved == if row + 1 < old(self)@.entities.len() {
                    Some(old(self)@.entities.last())
                } else {
                    None::<Entity>
                }
                &&& final(self)@ == old(self)@.swap_removed(row as int)
            },
    {
        match self.take_row(row) {
            Some(removed) => removed.moved_entity,
            None => None,
        }
    }
}

} // verus!
