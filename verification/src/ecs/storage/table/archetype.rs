use vstd::multiset::Multiset;
use vstd::prelude::*;

use crate::ecs::component::ComponentId;
use crate::ecs::entity::Entity;

use super::chunk::{lemma_placed_distinct, lookup, pair_ids, placed, Chunk, ChunkView, RemovedChunkRow};
use super::location::TableRowLocation;
use super::value::TableComponentKey;

verus! {

broadcast use {vstd::seq_lib::group_to_multiset_ensures, vstd::multiset::group_multiset_axioms};

/// The component ids of `keys`, in order.
pub open spec fn key_ids(keys: Seq<TableComponentKey>) -> Seq<ComponentId> {
    keys.map_values(|key: TableComponentKey| key.id)
}

/// `keys` are sorted by registration order (ties keep no particular order).
pub open spec fn sorted_by_order(keys: Seq<TableComponentKey>) -> bool {
    forall|i: int, j: int| 0 <= i <= j < keys.len() ==> #[trigger] keys[i].order.0 <= #[trigger] keys[j].order.0
}

/// No two keys share a registration order.
pub open spec fn orders_distinct(keys: Seq<TableComponentKey>) -> bool {
    forall|i: int, j: int| 0 <= i < keys.len() && 0 <= j < keys.len() && i != j ==> #[trigger] keys[i].order.0 != #[trigger] keys[j].order.0
}

/// Two sequences of keys, each sorted by pairwise distinct orders, that hold the same keys
/// are the same sequence.
pub proof fn lemma_sorted_unique(s1: Seq<TableComponentKey>, s2: Seq<TableComponentKey>)
    requires
        sorted_by_order(s1),
        sorted_by_order(s2),
        orders_distinct(s1),
        orders_distinct(s2),
        s1.to_multiset() == s2.to_multiset(),
    ensures
        s1 == s2,
    decreases s1.len(),
{
    broadcast use vstd::seq_lib::group_to_multiset_ensures;

    s1.to_multiset_ensures();
    s2.to_multiset_ensures();
    assert(s1.len() == s2.len());
    if s1.len() == 0 {
        assert(s1 =~= s2);
    } else {
        let x = s1[0];
        assert(s1.to_multiset().count(x) > 0);
        assert(s2.contains(x));
        let p = choose|p: int| 0 <= p < s2.len() && s2[p] == x;
        let y = s2[0];
        assert(s2.to_multiset().count(y) > 0);
        assert(s1.contains(y));
        let q = choose|q: int| 0 <= q < s1.len() && s1[q] == y;
        if p != 0 {
            assert(s2[0].order.0 <= s2[p].order.0);
            assert(s2[0].order.0 != s2[p].order.0);
            assert(s1[0].order.0 <= s1[q].order.0);
            assert(false);
        }
        assert(s1.drop_first().to_multiset() == s2.drop_first().to_multiset()) by {
            vstd::seq_lib::to_multiset_remove(s1, 0);
            vstd::seq_lib::to_multiset_remove(s2, 0);
            assert(s1.remove(0) =~= s1.drop_first());
            assert(s2.remove(0) =~= s2.drop_first());
        }
        assert forall|i: int, j: int| 0 <= i <= j < s1.drop_first().len() implies #[trigger] s1.drop_first()[i].order.0
            <= #[trigger] s1.drop_first()[j].order.0 by {
            assert(s1.drop_first()[i] == s1[i + 1]);
            assert(s1.drop_first()[j] == s1[j + 1]);
        }
        assert forall|i: int, j: int| 0 <= i <= j < s2.drop_first().len() implies #[trigger] s2.drop_first()[i].order.0
            <= #[trigger] s2.drop_first()[j].order.0 by {
            assert(s2.drop_first()[i] == s2[i + 1]);
            assert(s2.drop_first()[j] == s2[j + 1]);
        }
        assert forall|i: int, j: int| 0 <= i < s1.drop_first().len() && 0 <= j < s1.drop_first().len() && i != j
            implies #[trigger] s1.drop_first()[i].order.0 != #[trigger] s1.drop_first()[j].order.0 by {
            assert(s1.drop_first()[i] == s1[i + 1]);
            assert(s1.drop_first()[j] == s1[j + 1]);
        }
        assert forall|i: int, j: int| 0 <= i < s2.drop_first().len() && 0 <= j < s2.drop_first().len() && i != j
            implies #[trigger] s2.drop_first()[i].order.0 != #[trigger] s2.drop_first()[j].order.0 by {
            assert(s2.drop_first()[i] == s2[i + 1]);
            assert(s2.drop_first()[j] == s2[j + 1]);
        }
        lemma_sorted_unique(s1.drop_first(), s2.drop_first());
        assert(s1 =~= s2) by {
            assert forall|i: int| 0 <= i < s1.len() implies s1[i] == s2[i] by {
                if i > 0 {
                    assert(s1[i] == s1.drop_first()[i - 1]);
                    assert(s2[i] == s2.drop_first()[i - 1]);
                }
            }
        }
    }
}

/// Filtering keeps distinct keys distinct.
pub proof fn lemma_filter_distinct<A, K>(s: Seq<A>, key: spec_fn(A) -> K, pred: spec_fn(A) -> bool)
    requires
        forall|i: int, j: int| 0 <= i < s.len() && 0 <= j < s.len() && i != j ==> key(#[trigger] s[i]) != key(#[trigger] s[j]),
    ensures
        forall|i: int, j: int|
            0 <= i < s.filter(pred).len() && 0 <= j < s.filter(pred).len() && i != j ==> key(#[trigger] s.filter(pred)[i])
                != key(#[trigger] s.filter(pred)[j]),
        forall|x: A| #[trigger] s.filter(pred).contains(x) <==> s.contains(x) && pred(x),
    decreases s.len(),
{
    broadcast use vstd::seq_lib::group_filter_ensures;

    reveal_with_fuel(Seq::filter, 1);
    if s.len() > 0 {
        let rest = s.drop_last();
        assert forall|i: int, j: int| 0 <= i < rest.len() && 0 <= j < rest.len() && i != j implies key(#[trigger] rest[i])
            != key(#[trigger] rest[j]) by {
            assert(rest[i] == s[i]);
            assert(rest[j] == s[j]);
        }
        lemma_filter_distinct(rest, key, pred);
        let f = s.filter(pred);
        let fr = rest.filter(pred);
        if pred(s.last()) {
            assert(f == fr.push(s.last()));
            assert forall|i: int, j: int| 0 <= i < f.len() && 0 <= j < f.len() && i != j implies key(#[trigger] f[i])
                != key(#[trigger] f[j]) by {
                if i < fr.len() && j < fr.len() {
                    assert(f[i] == fr[i]);
                    assert(f[j] == fr[j]);
                } else if i < fr.len() {
                    assert(f[i] == fr[i]);
                    assert(fr.contains(fr[i]));
                    let m = choose|m: int| 0 <= m < rest.len() && rest[m] == fr[i];
                    assert(s[m] == rest[m]);
                    assert(key(s[m]) != key(s[s.len() - 1]));
                } else {
                    assert(f[j] == fr[j]);
                    assert(fr.contains(fr[j]));
                    let m = choose|m: int| 0 <= m < rest.len() && rest[m] == fr[j];
                    assert(s[m] == rest[m]);
                    assert(key(s[m]) != key(s[s.len() - 1]));
                }
            }
        }
        assert forall|x: A| #[trigger] s.filter(pred).contains(x) <==> s.contains(x) && pred(x) by {
            if s.contains(x) && pred(x) {
                let m = choose|m: int| 0 <= m < s.len() && s[m] == x;
                if m < s.len() - 1 {
                    assert(rest[m] == x);
                    assert(rest.contains(x));
                }
            }
            if s.filter(pred).contains(x) {
                if !fr.contains(x) {
                    assert(pred(s.last()));
                    let m = choose|m: int| 0 <= m < f.len() && f[m] == x;
                    assert(m == fr.len());
                    assert(s[s.len() - 1] == x);
                } else {
                    let m = choose|m: int| 0 <= m < rest.len() && rest[m] == x;
                    assert(s[m] == x);
                }
            }
        }
    }
}

/// Filtering out the single element with a given key shortens the sequence by one.
pub proof fn lemma_filter_one_out<A, K>(s: Seq<A>, key: spec_fn(A) -> K, k: K, pred: spec_fn(A) -> bool)
    requires
        forall|x: A| #[trigger] pred(x) <==> key(x) != k,
        forall|i: int, j: int| 0 <= i < s.len() && 0 <= j < s.len() && i != j ==> key(#[trigger] s[i]) != key(#[trigger] s[j]),
        exists|i: int| 0 <= i < s.len() && key(#[trigger] s[i]) == k,
    ensures
        s.filter(pred).len() == s.len() - 1,
    decreases s.len(),
{
    reveal_with_fuel(Seq::filter, 1);
    let rest = s.drop_last();
    if key(s.last()) == k {
        assert forall|i: int| 0 <= i < rest.len() implies pred(#[trigger] rest[i]) by {
            assert(rest[i] == s[i]);
            assert(key(s[i]) != key(s[s.len() - 1]));
        }
        lemma_filter_all(rest, pred);
    } else {
        let i = choose|i: int| 0 <= i < s.len() && key(#[trigger] s[i]) == k;
        assert(rest[i] == s[i]);
        assert forall|a: int, b: int| 0 <= a < rest.len() && 0 <= b < rest.len() && a != b implies key(#[trigger] rest[a])
            != key(#[trigger] rest[b]) by {
            assert(rest[a] == s[a]);
            assert(rest[b] == s[b]);
        }
        lemma_filter_one_out(rest, key, k, pred);
        assert(s.filter(pred) == rest.filter(pred).push(s.last()));
    }
}

/// Filtering by a predicate every element satisfies changes nothing.
pub proof fn lemma_filter_all<A>(s: Seq<A>, pred: spec_fn(A) -> bool)
    requires
        forall|i: int| 0 <= i < s.len() ==> pred(#[trigger] s[i]),
    ensures
        s.filter(pred) == s,
    decreases s.len(),
{
    reveal_with_fuel(Seq::filter, 1);
    if s.len() > 0 {
        let rest = s.drop_last();
        assert forall|i: int| 0 <= i < rest.len() implies pred(#[trigger] rest[i]) by {
            assert(rest[i] == s[i]);
        }
        lemma_filter_all(rest, pred);
        assert(s.filter(pred) =~= s);
    }
}

/// Total number of rows in `chunks`.
pub open spec fn total_rows<V>(chunks: Seq<ChunkView<V>>) -> nat
    decreases chunks.len(),
{
    if chunks.len() == 0 {
        0
    } else {
        total_rows(chunks.drop_last()) + chunks.last().entities.len()
    }
}

pub proof fn lemma_total_rows_update<V>(chunks: Seq<ChunkView<V>>, c: int, chunk: ChunkView<V>)
    requires
        0 <= c < chunks.len(),
    ensures
        total_rows(chunks.update(c, chunk)) + chunks[c].entities.len() == total_rows(chunks) + chunk.entities.len(),
    decreases chunks.len(),
{
    if c == chunks.len() - 1 {
        assert(chunks.update(c, chunk).drop_last() =~= chunks.drop_last());
    } else {
        lemma_total_rows_update(chunks.drop_last(), c, chunk);
        assert(chunks.update(c, chunk).drop_last() =~= chunks.drop_last().update(c, chunk));
    }
}

pub proof fn lemma_total_rows_ge<V>(chunks: Seq<ChunkView<V>>, c: int)
    requires
        0 <= c < chunks.len(),
    ensures
        total_rows(chunks) >= chunks[c].entities.len(),
    decreases chunks.len(),
{
    if c < chunks.len() - 1 {
        lemma_total_rows_ge(chunks.drop_last(), c);
    }
}

pub proof fn lemma_total_rows_push<V>(chunks: Seq<ChunkView<V>>, chunk: ChunkView<V>)
    ensures
        total_rows(chunks.push(chunk)) == total_rows(chunks) + chunk.entities.len(),
{
    assert(chunks.push(chunk).drop_last() =~= chunks);
}

#[verifier::ext_equal]
/// Abstract contents of an archetype: its sorted component keys, the capacity of its
/// chunks, its chunks, and its row count.
pub struct ArchetypeView<V> {
    pub keys: Seq<TableComponentKey>,
    pub chunk_capacity: nat,
    pub chunks: Seq<ChunkView<V>>,
    pub len: nat,
}

impl<V> ArchetypeView<V> {
    /// An archetype with the given keys and no rows.
    pub open spec fn empty(keys: Seq<TableComponentKey>, chunk_capacity: nat) -> ArchetypeView<V> {
        ArchetypeView { keys, chunk_capacity, chunks: Seq::empty(), len: 0 }
    }

    pub open spec fn ids(self) -> Seq<ComponentId> {
        key_ids(self.keys)
    }

    /// Keys are sorted; every chunk has one column per key, in key order, and the
    /// archetype's capacity; `len` counts the rows of all chunks.
    pub open spec fn wf(self) -> bool {
        &&& sorted_by_order(self.keys)
        &&& forall|c: int| 0 <= c < self.chunks.len() ==> {
            &&& (#[trigger] self.chunks[c]).wf()
            &&& self.chunks[c].capacity == self.chunk_capacity
            &&& self.chunks[c].ids == self.ids()
        }
        &&& self.len == total_rows(self.chunks)
    }

    /// Whether `location` names an existing row.
    pub open spec fn valid(self, location: TableRowLocation) -> bool {
        &&& location.chunk < self.chunks.len()
        &&& location.row < self.chunks[location.chunk as int].entities.len()
    }

    pub open spec fn value(self, id: ComponentId, location: TableRowLocation) -> Option<V> {
        if location.chunk < self.chunks.len() {
            self.chunks[location.chunk as int].value(id, location.row as int)
        } else {
            None
        }
    }

    /// The archetype with the value of component `id` at `location` replaced by `value`.
    pub open spec fn with_value(self, id: ComponentId, location: TableRowLocation, value: V) -> ArchetypeView<V> {
        ArchetypeView {
            chunks: self.chunks.update(
                location.chunk as int,
                self.chunks[location.chunk as int].with_value(id, location.row as int, value),
            ),
            ..self
        }
    }

    pub open spec fn entity(self, location: TableRowLocation) -> Entity {
        self.chunks[location.chunk as int].entities[location.row as int]
    }

    pub open spec fn row(self, location: TableRowLocation) -> Seq<V> {
        self.chunks[location.chunk as int].row(location.row as int)
    }

    /// The location of the last row of the chunk that holds `location`.
    pub open spec fn last_in_chunk(self, location: TableRowLocation) -> TableRowLocation {
        TableRowLocation {
            chunk: location.chunk,
            row: (self.chunks[location.chunk as int].entities.len() - 1) as usize,
        }
    }

    /// Whether `push_row` opens a new chunk.
    pub open spec fn needs_chunk(self) -> bool {
        self.chunks.len() == 0 || self.chunks.last().entities.len() == self.chunk_capacity
    }

    /// Whether `location` is where `push_row` writes: the start of a new chunk, or the
    /// end of the last chunk.
    pub open spec fn is_next_location(self, location: TableRowLocation) -> bool {
        if self.needs_chunk() {
            location.chunk == self.chunks.len() && location.row == 0
        } else {
            location.chunk == self.chunks.len() - 1 && location.row == self.chunks.last().entities.len()
        }
    }

    /// The archetype after appending `entity` with `values` (one per key).
    pub open spec fn pushed(self, entity: Entity, values: Seq<V>) -> ArchetypeView<V> {
        let chunks = if self.needs_chunk() {
            self.chunks.push(
                ChunkView {
                    capacity: self.chunk_capacity,
                    entities: Seq::empty(),
                    ids: self.ids(),
                    columns: Seq::new(self.keys.len(), |k: int| Seq::<V>::empty()),
                },
            )
        } else {
            self.chunks
        };
        ArchetypeView {
            keys: self.keys,
            chunk_capacity: self.chunk_capacity,
            chunks: chunks.update(chunks.len() - 1, chunks.last().pushed(entity, values)),
            len: self.len + 1,
        }
    }

    /// The archetype after swap-removing the row at `location`.
    pub open spec fn removed(self, location: TableRowLocation) -> ArchetypeView<V> {
        ArchetypeView {
            keys: self.keys,
            chunk_capacity: self.chunk_capacity,
            chunks: self.chunks.update(
                location.chunk as int,
                self.chunks[location.chunk as int].swap_removed(location.row as int),
            ),
            len: (self.len - 1) as nat,
        }
    }
}

pub proof fn lemma_sorted_ids_distinct(keys: Seq<TableComponentKey>, sorted: Seq<TableComponentKey>)
    requires
        key_ids(keys).no_duplicates(),
        sorted.to_multiset() == keys.to_multiset(),
        sorted.len() == keys.len(),
    ensures
        key_ids(sorted).no_duplicates(),
        orders_distinct(keys) ==> orders_distinct(sorted),
{
    assert forall|i: int, j: int| 0 <= i < keys.len() && 0 <= j < keys.len() && i != j implies keys[i] != keys[j] by {
        assert(key_ids(keys)[i] != key_ids(keys)[j]);
    }
    assert(keys.no_duplicates());
    keys.lemma_multiset_has_no_duplicates();
    sorted.lemma_multiset_has_no_duplicates_conv();
    assert forall|a: int, b: int| 0 <= a < sorted.len() && 0 <= b < sorted.len() && a != b
        implies key_ids(sorted)[a] != key_ids(sorted)[b] by {
        if sorted[a].id == sorted[b].id {
            assert(sorted.to_multiset().count(sorted[a]) > 0);
            assert(sorted.to_multiset().count(sorted[b]) > 0);
            assert(keys.contains(sorted[a]));
            assert(keys.contains(sorted[b]));
            let ia = choose|i: int| 0 <= i < keys.len() && keys[i] == sorted[a];
            let ib = choose|i: int| 0 <= i < keys.len() && keys[i] == sorted[b];
            assert(key_ids(keys)[ia] == key_ids(keys)[ib]);
            assert(ia == ib);
            assert(sorted[a] != sorted[b]);
        }
    }
    if orders_distinct(keys) {
        lemma_sorted_orders_distinct(keys, sorted);
    }
}

/// Sorting keys whose orders are pairwise distinct keeps them so.
pub proof fn lemma_sorted_orders_distinct(keys: Seq<TableComponentKey>, sorted: Seq<TableComponentKey>)
    requires
        orders_distinct(keys),
        sorted.to_multiset() == keys.to_multiset(),
        sorted.len() == keys.len(),
    ensures
        orders_distinct(sorted),
{
    assert forall|i: int, j: int| 0 <= i < keys.len() && 0 <= j < keys.len() && i != j implies keys[i] != keys[j] by {
        assert(keys[i].order.0 != keys[j].order.0);
    }
    assert(keys.no_duplicates());
    keys.lemma_multiset_has_no_duplicates();
    sorted.lemma_multiset_has_no_duplicates_conv();
    assert forall|a: int, b: int| 0 <= a < sorted.len() && 0 <= b < sorted.len() && a != b
        implies #[trigger] sorted[a].order.0 != #[trigger] sorted[b].order.0 by {
        if sorted[a].order.0 == sorted[b].order.0 {
            assert(sorted.to_multiset().count(sorted[a]) > 0);
            assert(sorted.to_multiset().count(sorted[b]) > 0);
            assert(keys.contains(sorted[a]));
            assert(keys.contains(sorted[b]));
            let ia = choose|i: int| 0 <= i < keys.len() && keys[i] == sorted[a];
            let ib = choose|i: int| 0 <= i < keys.len() && keys[i] == sorted[b];
            assert(ia == ib);
            assert(sorted[a] != sorted[b]);
        }
    }
}

/// Appending a row keeps every existing row where it was and adds exactly one row, at
/// `next_location`.
pub proof fn lemma_pushed_frame<V>(arch: ArchetypeView<V>, entity: Entity, values: Seq<V>, at: TableRowLocation)
    requires
        arch.wf(),
        arch.chunk_capacity > 0,
        values.len() == arch.keys.len(),
        arch.is_next_location(at),
    ensures
        ({
            let new = arch.pushed(entity, values);
            &&& forall|l: TableRowLocation| #[trigger] arch.valid(l) ==> new.valid(l) && new.entity(l) == arch.entity(l) && new.row(l) == arch.row(l) && l != at
            &&& new.valid(at)
            &&& new.entity(at) == entity
            &&& new.row(at) == values
            &&& forall|l: TableRowLocation| #[trigger] new.valid(l) ==> arch.valid(l) || l == at
        }),
{
    let new = arch.pushed(entity, values);
    let chunks = if arch.needs_chunk() {
        arch.chunks.push(
            ChunkView {
                capacity: arch.chunk_capacity,
                entities: Seq::empty(),
                ids: arch.ids(),
                columns: Seq::new(arch.keys.len(), |k: int| Seq::<V>::empty()),
            },
        )
    } else {
        arch.chunks
    };
    let last = chunks.len() - 1;
    assert(chunks.last() == chunks[last]);
    assert(chunks[last].columns.len() == arch.keys.len()) by {
        if !arch.needs_chunk() {
            assert(arch.chunks[last].wf());
            assert(arch.chunks[last].ids == arch.ids());
        }
    }
    assert forall|k: int| 0 <= k < chunks[last].columns.len() implies #[trigger] chunks[last].columns[k].len() == chunks[last].entities.len() by {
        if !arch.needs_chunk() {
            assert(arch.chunks[last].wf());
        }
    }
    assert forall|l: TableRowLocation| #[trigger] arch.valid(l) implies new.valid(l) && new.entity(l) == arch.entity(l) && new.row(l) == arch.row(l) && l != at by {
        let c = l.chunk as int;
        assert(chunks[c] == arch.chunks[c]);
        assert(arch.chunks[c].wf());
        if c == last {
            assert(new.chunks[c] == chunks[c].pushed(entity, values));
            assert(new.row(l) =~= arch.row(l));
        } else {
            assert(new.chunks[c] == arch.chunks[c]);
        }
        if arch.needs_chunk() {
            assert(l.chunk != at.chunk);
        } else if c == last {
            assert(l.row != at.row);
        } else {
            assert(l.chunk != at.chunk);
        }
    }
    assert(new.chunks[at.chunk as int] == chunks[last].pushed(entity, values));
    assert(new.row(at) =~= values);
    assert forall|l: TableRowLocation| #[trigger] new.valid(l) implies arch.valid(l) || l == at by {
        let c = l.chunk as int;
        if c != last {
            assert(new.chunks[c] == arch.chunks[c]);
        } else if l.row < chunks[last].entities.len() {
            if arch.needs_chunk() {
                assert(chunks[last].entities.len() == 0);
            }
        }
    }
}

/// Removing the row at `location` moves the last row of its chunk into it and keeps
/// every other row where it was.
pub proof fn lemma_removed_frame<V>(arch: ArchetypeView<V>, location: TableRowLocation)
    requires
        arch.wf(),
        arch.valid(location),
    ensures
        ({
            let new = arch.removed(location);
            let last = arch.last_in_chunk(location);
            &&& forall|l: TableRowLocation| #[trigger] new.valid(l) <==> arch.valid(l) && l != last
            &&& forall|l: TableRowLocation| #[trigger] new.valid(l) && l != location ==> new.entity(l) == arch.entity(l) && new.row(l) == arch.row(l)
            &&& location != last ==> new.entity(location) == arch.entity(last) && new.row(location) == arch.row(last)
        }),
{
    let new = arch.removed(location);
    let last = arch.last_in_chunk(location);
    let c = location.chunk as int;
    let chunk = arch.chunks[c];
    assert(chunk.wf());
    assert(new.chunks[c] == chunk.swap_removed(location.row as int));
    assert(new.chunks.len() == arch.chunks.len());
    assert(new.chunks[c].entities.len() == chunk.entities.len() - 1);
    assert forall|l: TableRowLocation| #[trigger] new.valid(l) <==> arch.valid(l) && l != last by {
        if l.chunk as int != c && l.chunk < arch.chunks.len() {
            assert(new.chunks[l.chunk as int] == arch.chunks[l.chunk as int]);
            assert(l.chunk != last.chunk);
        } else if l.chunk as int == c {
            if l.row == last.row {
                assert(l == last);
            } else {
                assert(l != last);
            }
        }
    }
    assert forall|l: TableRowLocation| #[trigger] new.valid(l) && l != location implies new.entity(l) == arch.entity(l) && new.row(l) == arch.row(l) by {
        if l.chunk as int != c {
            assert(new.chunks[l.chunk as int] == arch.chunks[l.chunk as int]);
        } else {
            assert(new.row(l) =~= arch.row(l));
        }
    }
    if location != last {
        assert forall|k: int| 0 <= k < chunk.columns.len() implies #[trigger] chunk.columns[k].len() == chunk.entities.len() by {}
        assert(new.row(location) =~= arch.row(last));
    }
}

/// Moves the keys into an order sorted by registration order (stable).
pub(crate) fn sort_keys(keys: Vec<TableComponentKey>) -> (sorted: Vec<TableComponentKey>)
    ensures
        sorted_by_order(sorted@),
        sorted@.to_multiset() == keys@.to_multiset(),
        sorted@.len() == keys@.len(),
{
    let mut rest = keys;
    let mut sorted: Vec<TableComponentKey> = Vec::new();
    proof {
        assert(sorted@.to_multiset() =~= Multiset::empty());
        assert(sorted@.to_multiset().add(rest@.to_multiset()) =~= keys@.to_multiset());
    }
    while rest.len() > 0
        invariant
            sorted_by_order(sorted@),
            forall|i: int, j: int| 0 <= i < sorted@.len() && 0 <= j < rest@.len() ==> #[trigger] sorted@[i].order.0
                <= #[trigger] rest@[j].order.0,
            sorted@.to_multiset().add(rest@.to_multiset()) == keys@.to_multiset(),
            sorted@.len() + rest@.len() == keys@.len(),
        decreases rest@.len(),
    {
        let mut min: usize = 0;
        let mut i: usize = 1;
        while i < rest.len()
            invariant
                0 < rest@.len(),
                min < rest@.len(),
                1 <= i <= rest@.len(),
                forall|j: int| 0 <= j < i ==> rest@[min as int].order.0 <= #[trigger] rest@[j].order.0,
            decreases rest@.len() - i,
        {
            if rest[i].order.0 < rest[min].order.0 {
                min = i;
            }
            i += 1;
        }
        let ghost old_rest = rest@;
        let ghost old_sorted = sorted@;
        let key = rest.remove(min);
        sorted.push(key);
        proof {
            vstd::seq_lib::to_multiset_remove(old_rest, min as int);
            vstd::seq_lib::to_multiset_build(old_sorted, key);
            assert(sorted@.to_multiset() == old_sorted.to_multiset().insert(key));
            assert(old_rest.to_multiset().count(key) > 0) by {
                assert(old_rest.to_multiset() =~= old_rest.remove(min as int).to_multiset().insert(key));
            }
            assert(sorted@.to_multiset().add(rest@.to_multiset()) =~= keys@.to_multiset());
            assert forall|a: int, b: int| 0 <= a < sorted@.len() && 0 <= b < rest@.len() implies #[trigger] sorted@[a].order.0
                <= #[trigger] rest@[b].order.0 by {
                let ob = if b < min { b } else { b + 1 };
                assert(rest@[b] == old_rest[ob]);
                if a < old_sorted.len() {
                    assert(sorted@[a] == old_sorted[a]);
                    assert(old_sorted[a].order.0 <= old_rest[ob].order.0);
                } else {
                    assert(sorted@[a] == old_rest[min as int]);
                    assert(old_rest[min as int].order.0 <= old_rest[ob].order.0);
                }
            }
            assert forall|a: int, b: int| 0 <= a <= b < sorted@.len() implies #[trigger] sorted@[a].order.0
                <= #[trigger] sorted@[b].order.0 by {
                if b == old_sorted.len() {
                    if a < b {
                        assert(sorted@[a] == old_sorted[a]);
                        assert(old_sorted[a].order.0 <= old_rest[min as int].order.0);
                    }
                } else {
                    assert(sorted@[a] == old_sorted[a]);
                    assert(sorted@[b] == old_sorted[b]);
                }
            }
        }
    }
    proof {
        assert(rest@.len() == 0);
        assert(rest@.to_multiset().len() == 0);
        assert(rest@.to_multiset() =~= Multiset::empty());
        assert(sorted@.to_multiset().add(Multiset::empty()) =~= sorted@.to_multiset());
    }
    sorted
}


/// The views of `chunks`, in order.
pub open spec fn chunk_views<V>(chunks: Seq<Chunk<V>>) -> Seq<ChunkView<V>> {
    chunks.map_values(|chunk: Chunk<V>| chunk@)
}

/// Replacing one chunk by a chunk with as many rows keeps the row total.
proof fn lemma_total_rows_replace<V>(chunks: Seq<Chunk<V>>, c: int)
    requires
        0 <= c < chunks.len(),
    ensures
        forall|y: Chunk<V>| #![trigger chunk_views(chunks.update(c, y))]
            y@.entities.len() == chunks[c]@.entities.len() ==> total_rows(chunk_views(chunks.update(c, y)))
                == total_rows(chunk_views(chunks)),
{
    assert forall|y: Chunk<V>| #![trigger chunk_views(chunks.update(c, y))]
        y@.entities.len() == chunks[c]@.entities.len() implies total_rows(chunk_views(chunks.update(c, y)))
            == total_rows(chunk_views(chunks)) by {
        assert(chunk_views(chunks.update(c, y)) =~= chunk_views(chunks).update(c, y@));
        lemma_total_rows_update(chunk_views(chunks), c, y@);
    }
}

/// The rows of one component set, split into fixed-capacity chunks.
pub struct Archetype<V> {
    components: Vec<TableComponentKey>,
    chunk_capacity: usize,
    chunks: Vec<Chunk<V>>,
    len: usize,
}

impl<V> View for Archetype<V> {
    type V = ArchetypeView<V>;

    closed spec fn view(&self) -> ArchetypeView<V> {
        ArchetypeView {
            keys: self.components@,
            chunk_capacity: self.chunk_capacity as nat,
            chunks: chunk_views(self.chunks@),
            len: self.len as nat,
        }
    }
}

impl<V> Archetype<V> {
    /// An empty archetype for the given keys, which are sorted by registration order.
    pub fn new(components: Vec<TableComponentKey>, chunk_capacity: usize) -> (archetype: Self)
        ensures
            archetype@.wf(),
            archetype@.keys.to_multiset() == components@.to_multiset(),
            key_ids(components@).no_duplicates() ==> archetype@.ids().no_duplicates(),
            orders_distinct(components@) ==> orders_distinct(archetype@.keys),
            archetype@.chunk_capacity == chunk_capacity,
            archetype@.chunks.len() == 0,
            archetype@.len == 0,
    {
        let sorted = sort_keys(components);
        proof {
            if key_ids(components@).no_duplicates() {
                lemma_sorted_ids_distinct(components@, sorted@);
            }
            if orders_distinct(components@) {
                lemma_sorted_orders_distinct(components@, sorted@);
            }
        }
        let archetype = Archetype { components: sorted, chunk_capacity, chunks: Vec::new(), len: 0 };
        proof {
            assert(archetype@.chunks =~= Seq::<ChunkView<V>>::empty());
        }
        archetype
    }

    pub fn get(&self, component_id: ComponentId, location: TableRowLocation) -> (value: Option<&V>)
        requires
            self@.wf(),
        ensures
            match value {
                Some(v) => self@.value(component_id, location) == Some(*v),
                None => self@.value(component_id, location) is None,
            },
    {
        if location.chunk < self.chunks.len() {
            proof {
                assert(self@.chunks[location.chunk as int] == self.chunks@[location.chunk as int]@);
            }
            self.chunks[location.chunk].get(component_id, location.row)
        } else {
            None
        }
    }

    pub fn get_mut(&mut self, component_id: ComponentId, location: TableRowLocation) -> (value: Option<&mut V>)
        requires
            old(self)@.wf(),
        ensures
            final(self)@.wf(),
            match old(self)@.value(component_id, location) {
                Some(v) => value is Some && *value->0 == v && final(self)@ =~~= old(self)@.with_value(
                    component_id,
                    location,
                    *final(value->0),
                ),
                None => value is None && final(self)@ =~~= old(self)@,
            },
    {
        if location.chunk < self.chunks.len() {
            proof {
                assert(self@.chunks[location.chunk as int] == self.chunks@[location.chunk as int]@);
                assert forall|c: int| 0 <= c < self.chunks@.len() implies (#[trigger] self.chunks@[c]@).wf()
                    && self.chunks@[c]@.capacity == self.chunk_capacity
                    && self.chunks@[c]@.ids == self@.ids() by {
                    assert(self@.chunks[c] == self.chunks@[c]@);
                }
            }
            proof {
                lemma_total_rows_replace(self.chunks@, location.chunk as int);
            }
            let chunk = &mut self.chunks[location.chunk];
            chunk.get_mut(component_id, location.row)
        } else {
            None
        }
    }

    pub fn len(&self) -> (len: usize)
        ensures
            len == self@.len,
    {
        self.len
    }

    pub fn chunk_capacity(&self) -> (capacity: usize)
        ensures
            capacity == self@.chunk_capacity,
    {
        self.chunk_capacity
    }

    pub fn chunk_count(&self) -> (count: usize)
        ensures
            count == self@.chunks.len(),
    {
        self.chunks.len()
    }

    pub fn components(&self) -> (keys: &[TableComponentKey])
        ensures
            keys@ == self@.keys,
    {
        self.components.as_slice()
    }

    pub fn component_ids(&self) -> (ids: Vec<ComponentId>)
        ensures
            ids@ == self@.ids(),
    {
        let mut ids: Vec<ComponentId> = Vec::new();
        let mut i: usize = 0;
        while i < self.components.len()
            invariant
                i <= self@.keys.len(),
                ids@ == key_ids(self@.keys).take(i as int),
            decreases self@.keys.len() - i,
        {
            ids.push(self.components[i].id);
            i += 1;
            proof {
                assert(ids@ =~= key_ids(self@.keys).take(i as int));
            }
        }
        proof {
            assert(key_ids(self@.keys).take(i as int) =~= key_ids(self@.keys));
        }
        ids
    }

    pub fn contains_component(&self, component_id: ComponentId) -> (contains: bool)
        ensures
            contains == self@.ids().contains(component_id),
    {
        let mut i: usize = 0;
        while i < self.components.len()
            invariant
                i <= self@.keys.len(),
                forall|j: int| 0 <= j < i ==> #[trigger] self@.keys[j].id != component_id,
            decreases self@.keys.len() - i,
        {
            if self.components[i].id.same(&component_id) {
                proof {
                    assert(self@.ids()[i as int] == component_id);
                }
                return true;
            }
            i += 1;
        }
        proof {
            if self@.ids().contains(component_id) {
                let j = choose|j: int| 0 <= j < self@.ids().len() && self@.ids()[j] == component_id;
                assert(self@.keys[j].id == component_id);
            }
        }
        false
    }

    /// The keys of this archetype without `component_id`, in order.
    pub fn component_keys_without(&self, component_id: ComponentId) -> (keys: Vec<TableComponentKey>)
        ensures
            keys@ == self@.keys.filter(|key: TableComponentKey| key.id != component_id),
    {
        let mut keys: Vec<TableComponentKey> = Vec::new();
        let mut i: usize = 0;
        while i < self.components.len()
            invariant
                i <= self@.keys.len(),
                keys@ == self@.keys.take(i as int).filter(|key: TableComponentKey| key.id != component_id),
            decreases self@.keys.len() - i,
        {
            let key = self.components[i];
            proof {
                assert(self@.keys.take(i + 1).drop_last() =~= self@.keys.take(i as int));
                reveal_with_fuel(Seq::filter, 1);
            }
            if !key.id.same(&component_id) {
                keys.push(key);
            }
            i += 1;
        }
        proof {
            assert(self@.keys.take(i as int) =~= self@.keys);
        }
        keys
    }

    /// Appends a row for `entity`, opening a new chunk when there is none or the last
    /// one is full. Each column takes its value as `Chunk::push_row` hands it out; the
    /// pairs must hold the archetype's component ids, each as often as its keys do.
    pub fn push_row(&mut self, entity: Entity, components: Vec<(ComponentId, V)>) -> (location: TableRowLocation)
        requires
            old(self)@.wf(),
            old(self)@.chunk_capacity > 0,
            old(self)@.len < usize::MAX,
            pair_ids(components@).to_multiset() == old(self)@.ids().to_multiset(),
        ensures
            final(self)@.wf(),
            old(self)@.is_next_location(location),
            final(self)@ =~~= old(self)@.pushed(entity, placed(old(self)@.ids(), components@)),
            old(self)@.ids().no_duplicates() ==> final(self)@ =~~= old(self)@.pushed(
                entity,
                Seq::new(old(self)@.keys.len(), |k: int| lookup(components@, old(self)@.ids()[k])),
            ),
    {
        let ghost old_view = self@;
        let needs_chunk = if self.chunks.len() == 0 {
            true
        } else {
            let last = self.chunks.len() - 1;
            proof {
                assert(self@.chunks[last as int] == self.chunks@[last as int]@);
            }
            self.chunks[last].is_full()
        };
        proof {
            if self.chunks@.len() > 0 {
                assert(old_view.chunks.last() == old_view.chunks[old_view.chunks.len() - 1]);
                assert(old_view.chunks.last().capacity == old_view.chunk_capacity);
            }
            assert(needs_chunk == old_view.needs_chunk());
        }
        if needs_chunk {
            let ids = self.component_ids();
            let chunk = Chunk::new(ids.as_slice(), self.chunk_capacity);
            let ghost before = self.chunks@;
            self.chunks.push(chunk);
            proof {
                assert(chunk_views(self.chunks@) =~= chunk_views(before).push(chunk@));
                lemma_total_rows_push(chunk_views(before), chunk@);
                assert(chunk@.columns =~= Seq::new(old_view.keys.len(), |k: int| Seq::<V>::empty()));
            }
        }
        let ghost middle = self@;
        proof {
            assert(middle.chunks =~~= if old_view.needs_chunk() {
                old_view.chunks.push(ChunkView {
                    capacity: old_view.chunk_capacity,
                    entities: Seq::empty(),
                    ids: old_view.ids(),
                    columns: Seq::new(old_view.keys.len(), |k: int| Seq::<V>::empty()),
                })
            } else {
                old_view.chunks
            });
            assert(middle.wf());
        }
        let chunk = self.chunks.len() - 1;
        proof {
            assert(self@.chunks[chunk as int] == self.chunks@[chunk as int]@);
            assert(self@.chunks[chunk as int].wf());
            assert(self@.chunks[chunk as int].ids == self@.ids());
            assert(self@.chunks[chunk as int].entities.len() < self@.chunk_capacity);
            assert(self@.ids() == old_view.ids());
            lemma_total_rows_replace(self.chunks@, chunk as int);
        }
        let ghost before = self.chunks@;
        let row = {
            let c = &mut self.chunks[chunk];
            c.push_row(entity, components)
        };
        self.len = self.len + 1;
        proof {
            let values = placed(old_view.ids(), components@);
            assert(chunk_views(self.chunks@) =~= chunk_views(before).update(chunk as int, self.chunks@[chunk as int]@));
            lemma_total_rows_update(chunk_views(before), chunk as int, self.chunks@[chunk as int]@);
            assert(self@.chunks =~~= old_view.pushed(entity, values).chunks);
            assert forall|c: int| 0 <= c < self@.chunks.len() implies {
                &&& (#[trigger] self@.chunks[c]).wf()
                &&& self@.chunks[c].capacity == self@.chunk_capacity
                &&& self@.chunks[c].ids == self@.ids()
            } by {
                if c != chunk {
                    assert(self@.chunks[c] == middle.chunks[c]);
                }
            }
            if old_view.ids().no_duplicates() {
                lemma_placed_distinct(old_view.ids(), components@);
                assert(values =~= Seq::new(old_view.keys.len(), |k: int| lookup(components@, old_view.ids()[k])));
            }
        }
        TableRowLocation { chunk, row }
    }

    /// Removes the row at `location` and hands it back; the last row of that chunk moves
    /// into its place.
    pub fn take_row(&mut self, location: TableRowLocation) -> (removed: RemovedChunkRow<V>)
        requires
            old(self)@.wf(),
            old(self)@.valid(location),
        ensures
            final(self)@.wf(),
            final(self)@ =~~= old(self)@.removed(location),
            removed.entity == old(self)@.chunks[location.chunk as int].entities[location.row as int],
            removed.components@ == Seq::new(
                old(self)@.keys.len(),
                |k: int| (old(self)@.ids()[k], old(self)@.chunks[location.chunk as int].columns[k][location.row as int]),
            ),
            removed.moved_entity == if location.row + 1 < old(self)@.chunks[location.chunk as int].entities.len() {
                Some(old(self)@.chunks[location.chunk as int].entities.last())
            } else {
                None
            },
    {
        let ghost old_view = self@;
        let ghost before = self.chunks@;
        proof {
            assert(self@.chunks[location.chunk as int] == self.chunks@[location.chunk as int]@);
            assert(self@.chunks[location.chunk as int].wf());
            lemma_total_rows_update(chunk_views(before), location.chunk as int, old_view.chunks[location.chunk as int].swap_removed(location.row as int));
            assert(old_view.len >= old_view.chunks[location.chunk as int].entities.len()) by {
                lemma_total_rows_ge(old_view.chunks, location.chunk as int);
            }
        }
        let removed = {
            let chunk = &mut self.chunks[location.chunk];
            chunk.take_row(location.row)
        };
        self.len = self.len - 1;
        proof {
            assert(chunk_views(self.chunks@) =~= chunk_views(before).update(location.chunk as int, self.chunks@[location.chunk as int]@));
            assert(self@.chunks =~~= old_view.removed(location).chunks);
            assert forall|c: int| 0 <= c < self@.chunks.len() implies {
                &&& (#[trigger] self@.chunks[c]).wf()
                &&& self@.chunks[c].capacity == self@.chunk_capacity
                &&& self@.chunks[c].ids == self@.ids()
            } by {
                if c != location.chunk {
                    assert(self@.chunks[c] == old_view.chunks[c]);
                }
            }
            assert(old_view.ids() =~= old_view.chunks[location.chunk as int].ids);
        }
        match removed {
            Some(row) => row,
            None => {
                proof {
                    assert(false);
                }
                RemovedChunkRow { entity: Entity::new(0, 0), components: Vec::new(), moved_entity: None }
            },
        }
    }

    /// Removes the row at `location`; returns the entity moved into its place, if any.
    pub fn remove_row(&mut self, location: TableRowLocation) -> (moved: Option<Entity>)
        requires
            old(self)@.wf(),
            old(self)@.valid(location),
        ensures
            final(self)@.wf(),
            final(self)@ =~~= old(self)@.removed(location),
            moved == if location.row + 1 < old(self)@.chunks[location.chunk as int].entities.len() {
                Some(old(self)@.chunks[location.chunk as int].entities.last())
            } else {
                None
            },
    {
        self.take_row(location).moved_entity
    }

    /// The entity stored at `location`, if the location exists.
    pub fn chunks_entity(&self, location: TableRowLocation) -> (entity: Option<Entity>)
        requires
            self@.wf(),
        ensures
            self@.valid(location) ==> entity == Some(self@.chunks[location.chunk as int].entities[location.row as int]),
            !self@.valid(location) ==> entity is None,
    {
        if location.chunk < self.chunks.len() {
            proof {
                assert(self@.chunks[location.chunk as int] == self.chunks@[location.chunk as int]@);
            }
            self.chunks[location.chunk].entity(location.row)
        } else {
            None
        }
    }

    /// The chunk at `index`.
    pub fn chunk(&self, index: usize) -> (chunk: &Chunk<V>)
        requires
            index < self@.chunks.len(),
        ensures
            chunk@ == self@.chunks[index as int],
    {
        &self.chunks[index]
    }
}

} // verus!
