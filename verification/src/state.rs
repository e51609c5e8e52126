//! The mathematical content of a shard and of a store, and what an insert
//! does to it.

use vstd::prelude::*;
use std::sync::Arc;
use crate::models::RecordView;
use crate::models::VectorRecord;
use crate::routing::route_of;

verus! {

/// The records that a list of shared references stands for, in its order.
pub open spec fn views_of(records: Seq<Arc<VectorRecord>>) -> Seq<RecordView> {
    records.map_values(|record: Arc<VectorRecord>| record@)
}

/// The records in a run of slots, in slot order; empty slots are passed over.
pub open spec fn occupants(slots: Seq<Option<RecordView>>) -> Seq<RecordView> {
    slots.filter_map(|slot: Option<RecordView>| slot)
}

/// The number of values that the cursor can take before it starts again.
pub open spec fn cursor_range() -> int {
    usize::MAX as int + 1
}

/// The cursor after one more write. It counts up, and starts again from zero
/// only where the machine's word is exhausted.
pub open spec fn next_cursor(cursor: usize) -> usize {
    if cursor == usize::MAX {
        0
    } else {
        (cursor + 1) as usize
    }
}

/// The content of a shard: what each slot holds, and the write cursor.
pub struct ShardState {
    pub slots: Seq<Option<RecordView>>,
    pub cursor: usize,
}

impl ShardState {
    /// A shard of `capacity` empty slots that has seen no write.
    pub open spec fn empty(capacity: nat) -> ShardState {
        ShardState { slots: Seq::new(capacity, |i: int| None::<RecordView>), cursor: 0 }
    }

    /// The number of slots.
    pub open spec fn capacity(self) -> nat {
        self.slots.len()
    }

    /// The slot that the next write goes to: the cursor modulo the capacity.
    pub open spec fn target(self) -> int {
        self.cursor as int % self.slots.len() as int
    }

    /// The shard after one write: the record takes the target slot, whatever
    /// was there is gone, and the cursor moves on.
    pub open spec fn insert(self, record: RecordView) -> ShardState {
        ShardState {
            slots: self.slots.update(self.target(), Some(record)),
            cursor: next_cursor(self.cursor),
        }
    }

    /// The shard after the records were written to it one after another.
    pub open spec fn insert_all(self, records: Seq<RecordView>) -> ShardState
        decreases records.len(),
    {
        if records.len() == 0 {
            self
        } else {
            self.insert_all(records.drop_last()).insert(records.last())
        }
    }

    /// The records held, in slot order.
    pub open spec fn live(self) -> Seq<RecordView> {
        occupants(self.slots)
    }

    /// The records held, in the order in which further writes will overwrite
    /// them: from the target slot round the ring. In a shard that started
    /// empty this is the order in which they were written, for as long as the
    /// cursor has not started again from zero.
    pub open spec fn retained(self) -> Seq<RecordView> {
        occupants(self.slots.skip(self.target()) + self.slots.take(self.target()))
    }
}

/// The content of a store: its shards in order, and the dimension that its
/// records share once it holds any.
pub struct StoreState {
    pub shards: Seq<ShardState>,
    pub dimension: Option<nat>,
}

impl StoreState {
    /// A store of `shard_count` empty shards of `capacity` slots each.
    pub open spec fn empty(shard_count: nat, capacity: nat) -> StoreState {
        StoreState {
            shards: Seq::new(shard_count, |s: int| ShardState::empty(capacity)),
            dimension: None,
        }
    }

    /// There is at least one shard, all shards have the same positive
    /// capacity, the slots of all shards together can be counted in a machine
    /// word, and every record held has the store's dimension.
    pub open spec fn wf(self) -> bool {
        &&& self.shards.len() > 0
        &&& self.shards.len() * self.shards[0].capacity() <= usize::MAX
        &&& forall|s: int|
            0 <= s < self.shards.len() ==> (#[trigger] self.shards[s]).capacity()
                == self.shards[0].capacity() > 0
        &&& forall|s: int, i: int|
            0 <= s < self.shards.len() && 0 <= i < self.shards[s].slots.len() && (
            #[trigger] self.shards[s].slots[i]) is Some ==> self.dimension == Some(
                self.shards[s].slots[i]->0.vector.len(),
            )
    }

    /// The number of shards.
    pub open spec fn shard_count(self) -> nat {
        self.shards.len()
    }

    /// The number of slots of each shard.
    pub open spec fn shard_capacity(self) -> nat {
        self.shards[0].capacity()
    }

    /// The shard that records with this identifier go to.
    pub open spec fn route(self, id: Seq<char>) -> int {
        route_of(id, self.shards.len())
    }

    /// Whether the store takes this record: its embedding must have the
    /// store's dimension, which the first record taken fixes.
    pub open spec fn accepts(self, record: RecordView) -> bool {
        match self.dimension {
            Some(dimension) => record.vector.len() == dimension,
            None => true,
        }
    }

    /// The store after `record` was offered: written to the shard it routes
    /// to where the store takes it, and no change otherwise.
    pub open spec fn insert(self, record: RecordView) -> StoreState {
        if self.accepts(record) {
            let s = self.route(record.id);
            StoreState {
                shards: self.shards.update(s, self.shards[s].insert(record)),
                dimension: Some(record.vector.len()),
            }
        } else {
            self
        }
    }

    /// The store after the records were offered to it one after another.
    pub open spec fn insert_all(self, records: Seq<RecordView>) -> StoreState
        decreases records.len(),
    {
        if records.len() == 0 {
            self
        } else {
            self.insert_all(records.drop_last()).insert(records.last())
        }
    }

    /// What each shard holds, shard by shard.
    pub open spec fn parts(self) -> Seq<Seq<RecordView>> {
        self.shards.map_values(|shard: ShardState| shard.live())
    }

    /// The records held, shard by shard, each shard in slot order.
    pub open spec fn live(self) -> Seq<RecordView> {
        self.parts().flatten()
    }
}

/// Looking at one more slot adds its record, if it holds one, to the
/// occupants seen so far.
pub proof fn lemma_occupants_step(slots: Seq<Option<RecordView>>, i: int)
    requires
        0 <= i < slots.len(),
    ensures
        occupants(slots.take(i + 1)) == match slots[i] {
            Some(record) => occupants(slots.take(i)).push(record),
            None => occupants(slots.take(i)),
        },
{
    slots.lemma_filter_map_take_succ(|slot: Option<RecordView>| slot, i);
    match slots[i] {
        Some(record) => {
            assert(occupants(slots.take(i)) + seq![record] =~= occupants(slots.take(i)).push(
                record,
            ));
        },
        None => {
            assert(occupants(slots.take(i)) + Seq::<RecordView>::empty() =~= occupants(
                slots.take(i),
            ));
        },
    }
}

/// The occupants of two runs of slots laid end to end are the occupants of
/// the first followed by those of the second.
pub proof fn lemma_occupants_concat(a: Seq<Option<RecordView>>, b: Seq<Option<RecordView>>)
    ensures
        occupants(a + b) == occupants(a) + occupants(b),
    decreases b.len(),
{
    if b.len() == 0 {
        assert(a + b =~= a);
        assert(occupants(a) + occupants(b) =~= occupants(a));
    } else {
        lemma_occupants_concat(a, b.drop_last());
        assert((a + b).drop_last() =~= a + b.drop_last());
        assert((a + b).last() == b.last());
        assert(occupants(a + b) =~= occupants(a) + occupants(b));
    }
}

/// Empty slots have no occupants.
pub proof fn lemma_occupants_of_empty(slots: Seq<Option<RecordView>>)
    requires
        forall|i: int| 0 <= i < slots.len() ==> slots[i] is None,
    ensures
        occupants(slots) == Seq::<RecordView>::empty(),
    decreases slots.len(),
{
    if slots.len() > 0 {
        lemma_occupants_of_empty(slots.drop_last());
    }
}

/// Where every slot is occupied, the occupants are the records slot by slot.
pub proof fn lemma_occupants_of_full(slots: Seq<Option<RecordView>>, records: Seq<RecordView>)
    requires
        slots.len() == records.len(),
        forall|i: int| 0 <= i < slots.len() ==> slots[i] == Some(records[i]),
    ensures
        occupants(slots) == records,
    decreases slots.len(),
{
    if slots.len() == 0 {
        assert(records =~= Seq::<RecordView>::empty());
    } else {
        lemma_occupants_of_full(slots.drop_last(), records.drop_last());
        assert(occupants(slots) =~= records.drop_last() + seq![records.last()]);
        assert(records =~= records.drop_last() + seq![records.last()]);
    }
}

/// No run of slots has more occupants than slots.
pub proof fn lemma_occupants_len(slots: Seq<Option<RecordView>>)
    ensures
        occupants(slots).len() <= slots.len(),
    decreases slots.len(),
{
    if slots.len() > 0 {
        lemma_occupants_len(slots.drop_last());
    }
}

/// The record of an occupied slot is among the occupants.
pub proof fn lemma_occupied_is_live(slots: Seq<Option<RecordView>>, i: int)
    requires
        0 <= i < slots.len(),
        slots[i] is Some,
    ensures
        occupants(slots).contains(slots[i]->0),
    decreases slots.len(),
{
    let rest = slots.drop_last();
    let live = occupants(slots);
    if i == slots.len() - 1 {
        assert(live == occupants(rest) + seq![slots[i]->0]);
        assert(live[live.len() - 1] == slots[i]->0);
    } else {
        lemma_occupied_is_live(rest, i);
        let j = choose|j: int| 0 <= j < occupants(rest).len() && occupants(rest)[j] == rest[i]->0;
        assert(live[j] == slots[i]->0);
    }
}

/// Every member of a part is a member of the parts laid end to end.
pub proof fn lemma_part_in_flatten(parts: Seq<Seq<RecordView>>, s: int, j: int)
    requires
        0 <= s < parts.len(),
        0 <= j < parts[s].len(),
    ensures
        parts.flatten().contains(parts[s][j]),
    decreases parts.len(),
{
    let whole = parts.flatten();
    if s == 0 {
        assert(whole[j] == parts[s][j]);
    } else {
        let later = parts.drop_first();
        lemma_part_in_flatten(later, s - 1, j);
        let t = choose|t: int|
            0 <= t < later.flatten().len() && later.flatten()[t] == later[s - 1][j];
        assert(whole[parts[0].len() + t] == parts[s][j]);
    }
}

/// Laying one more part at the end adds its members at the end.
pub proof fn lemma_flatten_step(parts: Seq<Seq<RecordView>>, upto: int)
    requires
        0 <= upto < parts.len(),
    ensures
        parts.take(upto + 1).flatten() == parts.take(upto).flatten() + parts[upto],
{
    assert(parts.take(upto + 1) =~= parts.take(upto).push(parts[upto]));
    parts.take(upto).lemma_flatten_push(parts[upto]);
}

/// The first parts laid end to end are no longer than all of them.
pub proof fn lemma_flatten_prefix_len(parts: Seq<Seq<RecordView>>, upto: int)
    requires
        0 <= upto <= parts.len(),
    ensures
        parts.take(upto).flatten().len() <= parts.flatten().len(),
    decreases parts.len() - upto,
{
    if upto < parts.len() {
        lemma_flatten_prefix_len(parts, upto + 1);
        lemma_flatten_step(parts, upto);
    } else {
        assert(parts.take(upto) =~= parts);
    }
}

/// Parts of at most `bound` members each, laid end to end, have at most
/// `bound` members per part.
pub proof fn lemma_flatten_len_at_most(parts: Seq<Seq<RecordView>>, bound: nat)
    requires
        forall|s: int| 0 <= s < parts.len() ==> (#[trigger] parts[s]).len() <= bound,
    ensures
        parts.flatten().len() <= parts.len() * bound,
    decreases parts.len(),
{
    if parts.len() > 0 {
        let later = parts.drop_first();
        assert forall|s: int| 0 <= s < later.len() implies (#[trigger] later[s]).len() <= bound by {
            assert(later[s] == parts[s + 1]);
        }
        lemma_flatten_len_at_most(later, bound);
        assert(parts.len() * bound == later.len() * bound + bound) by (nonlinear_arith)
            requires
                parts.len() == later.len() + 1,
        ;
    }
}

/// Parts of exactly `size` members each, laid end to end, have `size` members
/// per part.
pub proof fn lemma_flatten_len_exact(parts: Seq<Seq<RecordView>>, size: nat)
    requires
        forall|s: int| 0 <= s < parts.len() ==> (#[trigger] parts[s]).len() == size,
    ensures
        parts.flatten().len() == parts.len() * size,
    decreases parts.len(),
{
    if parts.len() > 0 {
        let later = parts.drop_first();
        assert forall|s: int| 0 <= s < later.len() implies (#[trigger] later[s]).len() == size by {
            assert(later[s] == parts[s + 1]);
        }
        lemma_flatten_len_exact(later, size);
        assert(parts.len() * size == later.len() * size + size) by (nonlinear_arith)
            requires
                parts.len() == later.len() + 1,
        ;
    }
}

} // verus!
