//! The sharded circular buffer: shards of slots that are overwritten in a
//! ring, and the store that routes records to them and searches them all.

use vstd::prelude::*;
use std::sync::Arc;
use rayon::iter::IntoParallelRefIterator;
use rayon::iter::ParallelIterator;
use crate::models::RecordView;
use crate::models::VectorRecord;
use crate::retention::lemma_store_holds_at_most_its_slots;
use crate::routing::fx_hash_str;
use crate::search::admits;
use crate::search::callable_on;
use crate::search::hit_of;
use crate::search::hits_of;
use crate::search::holds_vector;
use crate::search::is_scoring;
use crate::search::is_search_result;
use crate::search::lemma_empty_ranks;
use crate::search::lemma_merge_part;
use crate::search::lemma_offer_keeps_top_k;
use crate::search::lemma_search_result_entries;
use crate::search::min_nat;
use crate::search::ranks_top_k;
use crate::search::sorted_desc;
use crate::search::Hit;
use crate::search::TopK;
use crate::slot::empty_slot;
use crate::slot::load_slot;
use crate::slot::slot_record;
use crate::slot::store_slot;
use crate::slot::Slot;
use crate::state::lemma_flatten_prefix_len;
use crate::state::lemma_flatten_step;
use crate::state::lemma_occupants_step;
use crate::state::lemma_occupied_is_live;
use crate::state::lemma_part_in_flatten;
use crate::state::occupants;
use crate::state::views_of;
use crate::state::ShardState;
use crate::state::StoreState;

verus! {

/// The number of shards of a store of the default shape.
pub const NUM_SHARDS: usize = 16;

/// The capacity of each shard of a store of the default shape.
pub const SHARD_SIZE: usize = 1024;

/// One fixed-capacity partition of the store: a circular array of slots and
/// the cursor that picks the next slot to overwrite.
pub struct Shard {
    buffer: Vec<Slot>,
    index: usize,
}

impl View for Shard {
    type V = ShardState;

    closed spec fn view(&self) -> ShardState {
        ShardState {
            slots: self.buffer@.map_values(|slot: Slot| slot_record(slot)),
            cursor: self.index,
        }
    }
}

impl Shard {
    /// A shard has at least one slot.
    pub open spec fn wf(&self) -> bool {
        self@.capacity() > 0
    }

    /// A shard of `size` empty slots.
    pub fn new(size: usize) -> (shard: Shard)
        requires
            size > 0,
        ensures
            shard.wf(),
            shard@ == ShardState::empty(size as nat),
    {
        let mut buffer: Vec<Slot> = Vec::with_capacity(size);
        let mut filled: usize = 0;
        while filled < size
            invariant
                filled <= size,
                buffer.len() == filled,
                forall|j: int| 0 <= j < filled ==> slot_record(#[trigger] buffer[j]) is None,
            decreases size - filled,
        {
            buffer.push(empty_slot());
            filled = filled + 1;
        }
        let shard = Shard { buffer, index: 0 };
        assert(shard@.slots =~= ShardState::empty(size as nat).slots);
        shard
    }

    /// Writes `record` to the slot that the cursor points at, modulo the
    /// capacity, and advances the cursor. What the slot held is overwritten.
    pub fn insert(&mut self, record: Arc<VectorRecord>)
        requires
            old(self).wf(),
        ensures
            final(self).wf(),
            final(self)@ == old(self)@.insert(record@),
    {
        let pos = self.index % self.buffer.len();
        self.index = if self.index == usize::MAX {
            0
        } else {
            self.index + 1
        };
        store_slot(&mut self.buffer[pos], record);
        assert(self@.slots =~= old(self)@.slots.update(pos as int, Some(record@)));
    }

    /// The number of records held: never more than the shard has slots.
    pub fn len(&self) -> (count: usize)
        ensures
            count == self@.live().len(),
            count <= self@.capacity(),
    {
        let ghost slots = self@.slots;
        let mut count: usize = 0;
        let mut i: usize = 0;
        assert(occupants(slots.take(0)) =~= Seq::<RecordView>::empty());
        while i < self.buffer.len()
            invariant
                i <= self.buffer.len(),
                slots == self@.slots,
                slots.len() == self.buffer.len(),
                count <= i,
                count == occupants(slots.take(i as int)).len(),
            decreases self.buffer.len() - i,
        {
            proof {
                lemma_occupants_step(slots, i as int);
            }
            if load_slot(&self.buffer[i]).is_some() {
                count = count + 1;
            }
            i = i + 1;
        }
        assert(slots.take(i as int) == slots);
        count
    }

    /// The records held, in slot order.
    pub fn records(&self) -> (out: Vec<Arc<VectorRecord>>)
        ensures
            views_of(out@) == self@.live(),
    {
        let ghost slots = self@.slots;
        let mut out: Vec<Arc<VectorRecord>> = Vec::new();
        let mut i: usize = 0;
        assert(occupants(slots.take(0)) =~= views_of(out@));
        while i < self.buffer.len()
            invariant
                i <= self.buffer.len(),
                slots == self@.slots,
                slots.len() == self.buffer.len(),
                views_of(out@) == occupants(slots.take(i as int)),
            decreases self.buffer.len() - i,
        {
            let ghost held = out@;
            proof {
                lemma_occupants_step(slots, i as int);
            }
            match load_slot(&self.buffer[i]) {
                Some(record) => {
                    out.push(record);
                    assert(views_of(out@) =~= views_of(held).push(record@));
                },
                None => {},
            }
            i = i + 1;
        }
        assert(slots.take(i as int) == slots);
        out
    }

    /// Scores every occupied slot against `query` and returns the `k` best,
    /// best first. Empty slots are passed over. Fewer than `k` entries come
    /// back only where fewer than `k` slots are occupied.
    pub fn scan_top_k<F: Fn(&[u32], &[u32]) -> i64>(
        &self,
        query: &[u32],
        k: usize,
        metric: &F,
    ) -> (out: Vec<(Arc<VectorRecord>, i64)>)
        requires
            callable_on(*metric, query@, self@.live()),
        ensures
            is_search_result(*metric, query@, self@.live(), k as nat, hits_of(out@)),
            out@.len() == min_nat(k as nat, self@.live().len()),
            sorted_desc(hits_of(out@)),
            forall|i: int|
                0 <= i < out@.len() ==> self@.live().contains((#[trigger] out@[i]).0@) && admits(
                    *metric,
                    query@,
                    out@[i].0@.vector,
                    out@[i].1,
                ),
    {
        let ghost slots = self@.slots;
        let mut top = TopK::new(k);
        let ghost mut scored: Seq<Hit> = Seq::empty();
        let mut i: usize = 0;
        proof {
            assert(occupants(slots.take(0)) =~= Seq::<RecordView>::empty());
            lemma_empty_ranks(k as nat);
        }
        while i < self.buffer.len()
            invariant
                i <= self.buffer.len(),
                slots == self@.slots,
                slots.len() == self.buffer.len(),
                callable_on(*metric, query@, self@.live()),
                top.wf(),
                top.limit() == k,
                is_scoring(*metric, query@, occupants(slots.take(i as int)), scored),
                ranks_top_k(top@, scored, k as nat),
            decreases self.buffer.len() - i,
        {
            proof {
                lemma_occupants_step(slots, i as int);
            }
            match load_slot(&self.buffer[i]) {
                Some(record) => {
                    let vector = record.vector.as_slice();
                    proof {
                        lemma_occupied_is_live(slots, i as int);
                        let j = choose|j: int|
                            0 <= j < self@.live().len() && self@.live()[j] == record@;
                        assert(self@.live()[j].vector == vector@);
                    }
                    let score = metric(query, vector);
                    let ghost hit = Hit { record: record@, score };
                    let ghost before = top@;
                    top.push(record, score);
                    proof {
                        lemma_offer_keeps_top_k(before, top@, scored, hit, k as nat);
                        scored = scored.push(hit);
                    }
                },
                None => {},
            }
            i = i + 1;
        }
        assert(slots.take(i as int) == slots);
        let out = top.into_sorted_vec();
        proof {
            lemma_search_result_entries(*metric, query@, self@.live(), k as nat, hits_of(out@));
            assert forall|i: int| 0 <= i < out@.len() implies self@.live().contains(
                (#[trigger] out@[i]).0@,
            ) && admits(*metric, query@, out@[i].0@.vector, out@[i].1) by {
                assert(hits_of(out@)[i] == hit_of(out@[i]));
            }
        }
        out
    }
}

/// Why a record was turned away: its embedding has `found` components where
/// the store holds records of `expected`.
#[derive(Debug, Clone, Copy, PartialEq, Eq, Structural)]
pub struct DimensionMismatch {
    pub expected: usize,
    pub found: usize,
}

/// A fixed number of independent shards. A record goes to the shard that the
/// hash of its identifier picks; a search scans every shard and merges what
/// they return.
pub struct ShardedCircularBuffer {
    shards: Vec<Shard>,
    dimension: Option<usize>,
}

impl View for ShardedCircularBuffer {
    type V = StoreState;

    closed spec fn view(&self) -> StoreState {
        StoreState {
            shards: self.shards@.map_values(|shard: Shard| shard@),
            dimension: match self.dimension {
                Some(dimension) => Some(dimension as nat),
                None => None,
            },
        }
    }
}

impl Default for ShardedCircularBuffer {
    /// A store of the default shape: [`NUM_SHARDS`] shards of [`SHARD_SIZE`]
    /// slots each.
    fn default() -> (store: ShardedCircularBuffer)
        ensures
            store.wf(),
            store@ == StoreState::empty(NUM_SHARDS as nat, SHARD_SIZE as nat),
    {
        ShardedCircularBuffer::new(NUM_SHARDS, SHARD_SIZE)
    }
}

/// Calls rayon's `par_iter`, `map` and `collect` on the shards: each shard is
/// scanned once by [`Shard::scan_top_k`], on whichever worker thread takes it,
/// and the results come back in the order of the shards.
#[verifier::external_body]
fn scan_shards<F: Fn(&[u32], &[u32]) -> i64 + Sync>(
    shards: &Vec<Shard>,
    query: &[u32],
    k: usize,
    metric: &F,
) -> (lists: Vec<Vec<(Arc<VectorRecord>, i64)>>)
    requires
        forall|s: int|
            0 <= s < shards.len() ==> callable_on(*metric, query@, (#[trigger] shards[s])@.live()),
    ensures
        lists.len() == shards.len(),
        forall|s: int|
            0 <= s < shards.len() ==> is_search_result(
                *metric,
                query@,
                shards[s]@.live(),
                k as nat,
                hits_of(#[trigger] lists[s]@),
            ),
{
    shards.par_iter().map(|shard| shard.scan_top_k(query, k, metric)).collect()
}

impl ShardedCircularBuffer {
    /// The store's invariant, stated of its content.
    pub open spec fn wf(&self) -> bool {
        self@.wf()
    }

    /// A store of `shard_count` empty shards of `shard_capacity` slots each.
    pub fn new(shard_count: usize, shard_capacity: usize) -> (store: ShardedCircularBuffer)
        requires
            shard_count > 0,
            shard_capacity > 0,
            shard_count * shard_capacity <= usize::MAX,
        ensures
            store.wf(),
            store@ == StoreState::empty(shard_count as nat, shard_capacity as nat),
    {
        let mut shards: Vec<Shard> = Vec::with_capacity(shard_count);
        let mut built: usize = 0;
        while built < shard_count
            invariant
                built <= shard_count,
                shard_capacity > 0,
                shards.len() == built,
                forall|s: int|
                    0 <= s < built ==> (#[trigger] shards[s])@ == ShardState::empty(
                        shard_capacity as nat,
                    ),
            decreases shard_count - built,
        {
            shards.push(Shard::new(shard_capacity));
            built = built + 1;
        }
        let store = ShardedCircularBuffer { shards, dimension: None };
        assert(store@.shards =~= StoreState::empty(
            shard_count as nat,
            shard_capacity as nat,
        ).shards);
        store
    }

    /// The shard that records with this identifier go to: the Fx hash of the
    /// identifier, modulo the number of shards. It depends on nothing else.
    pub fn get_shard_index(&self, id: &str) -> (shard_idx: usize)
        requires
            self.wf(),
        ensures
            shard_idx == self@.route(id@),
            shard_idx < self@.shard_count(),
    {
        fx_hash_str(id) % self.shards.len()
    }

    /// The dimension that the store's records share, once it holds any.
    pub fn dimension(&self) -> (dimension: Option<usize>)
        ensures
            dimension is Some <==> self@.dimension is Some,
            dimension matches Some(d) ==> self@.dimension == Some(d as nat),
    {
        self.dimension
    }

    /// The number of records held: never more than the shards have slots.
    pub fn len(&self) -> (count: usize)
        requires
            self.wf(),
        ensures
            count == self@.live().len(),
            count <= self@.shard_count() * self@.shard_capacity(),
    {
        let ghost parts = self@.parts();
        let mut count: usize = 0;
        let mut s: usize = 0;
        proof {
            assert(parts.take(0).flatten() =~= Seq::<RecordView>::empty());
            lemma_store_holds_at_most_its_slots(self@);
        }
        while s < self.shards.len()
            invariant
                s <= self.shards.len(),
                parts == self@.parts(),
                parts.len() == self.shards.len(),
                parts.flatten().len() <= usize::MAX,
                count == parts.take(s as int).flatten().len(),
            decreases self.shards.len() - s,
        {
            let held = self.shards[s].len();
            proof {
                assert(self@.shards[s as int] == self.shards[s as int]@);
                lemma_flatten_step(parts, s as int);
                lemma_flatten_prefix_len(parts, s as int + 1);
            }
            count = count + held;
            s = s + 1;
        }
        assert(parts.take(s as int) == parts);
        count
    }

    /// The records held, shard by shard, each shard in slot order.
    pub fn records(&self) -> (out: Vec<Arc<VectorRecord>>)
        requires
            self.wf(),
        ensures
            views_of(out@) == self@.live(),
    {
        let ghost parts = self@.parts();
        let mut out: Vec<Arc<VectorRecord>> = Vec::new();
        let mut s: usize = 0;
        assert(parts.take(0).flatten() =~= views_of(out@));
        while s < self.shards.len()
            invariant
                s <= self.shards.len(),
                parts == self@.parts(),
                parts.len() == self.shards.len(),
                views_of(out@) == parts.take(s as int).flatten(),
            decreases self.shards.len() - s,
        {
            let ghost held = out@;
            let mut more = self.shards[s].records();
            let ghost added = more@;
            out.append(&mut more);
            proof {
                assert(self@.shards[s as int] == self.shards[s as int]@);
                lemma_flatten_step(parts, s as int);
                assert(views_of(out@) =~= views_of(held) + views_of(added));
            }
            s = s + 1;
        }
        assert(parts.take(s as int) == parts);
        out
    }

    /// Offers a record to the store. The first record taken fixes the store's
    /// dimension; a later record whose embedding has another length is turned
    /// away and the store is left as it was. A record that is taken goes to
    /// the shard its identifier routes to, where it overwrites the oldest
    /// slot.
    pub fn insert(&mut self, record: VectorRecord) -> (outcome: Result<(), DimensionMismatch>)
        requires
            old(self).wf(),
        ensures
            final(self).wf(),
            final(self)@ == old(self)@.insert(record@),
            outcome is Ok <==> old(self)@.accepts(record@),
            outcome matches Err(mismatch) ==> old(self)@.dimension == Some(mismatch.expected as nat)
                && mismatch.found == record@.vector.len(),
    {
        let found = record.dimension();
        match self.dimension {
            Some(expected) => {
                if expected != found {
                    return Err(DimensionMismatch { expected, found });
                }
            },
            None => {},
        }
        let shard_idx = self.get_shard_index(record.id.as_str());
        let ghost before = self@;
        let ghost entry = record@;
        self.dimension = Some(found);
        self.shards[shard_idx].insert(Arc::new(record));
        proof {
            let after = self@;
            assert(after.shards =~= before.shards.update(
                shard_idx as int,
                before.shards[shard_idx as int].insert(entry),
            ));
            assert forall|s: int, i: int|
                0 <= s < after.shards.len() && 0 <= i < after.shards[s].slots.len() && (
                #[trigger] after.shards[s].slots[i]) is Some implies after.dimension == Some(
                after.shards[s].slots[i]->0.vector.len(),
            ) by {
                if s == shard_idx && i == before.shards[s].target() {
                } else {
                    assert(after.shards[s].slots[i] == before.shards[s].slots[i]);
                }
            }
        }
        Ok(())
    }

    /// The `k` records most similar to `query_vector` under `metric`, best
    /// first. Every shard is scanned, the per-shard results are merged, and
    /// the `k` best of all records held come back: fewer than `k` only where
    /// the store holds fewer, none for `k == 0` or an empty store.
    pub fn search<F: Fn(&[u32], &[u32]) -> i64 + Sync>(
        &self,
        query_vector: &[u32],
        k: usize,
        metric: &F,
    ) -> (out: Vec<(Arc<VectorRecord>, i64)>)
        requires
            self.wf(),
            callable_on(*metric, query_vector@, self@.live()),
        ensures
            is_search_result(*metric, query_vector@, self@.live(), k as nat, hits_of(out@)),
            out@.len() == min_nat(k as nat, self@.live().len()),
            sorted_desc(hits_of(out@)),
            forall|i: int|
                0 <= i < out@.len() ==> self@.live().contains((#[trigger] out@[i]).0@) && admits(
                    *metric,
                    query_vector@,
                    out@[i].0@.vector,
                    out@[i].1,
                ),
    {
        let ghost parts = self@.parts();
        proof {
            assert forall|s: int| 0 <= s < self.shards.len() implies callable_on(
                *metric,
                query_vector@,
                (#[trigger] self.shards[s])@.live(),
            ) by {
                assert(self@.shards[s] == self.shards[s]@);
                assert forall|q: &[u32], v: &[u32]|
                    q@ == query_vector@ && holds_vector(
                        self.shards[s]@.live(),
                        v@,
                    ) implies #[trigger] metric.requires((q, v)) by {
                    let j = choose|j: int|
                        0 <= j < parts[s].len() && (#[trigger] parts[s][j]).vector == v@;
                    lemma_part_in_flatten(parts, s, j);
                    let t = choose|t: int|
                        0 <= t < parts.flatten().len() && parts.flatten()[t] == parts[s][j];
                    assert(self@.live()[t].vector == v@);
                }
            }
        }
        let mut lists = scan_shards(&self.shards, query_vector, k, metric);
        let ghost scans = lists@;
        let mut top = TopK::new(k);
        let ghost mut all: Seq<Hit> = Seq::empty();
        proof {
            lemma_empty_ranks(k as nat);
            assert(parts.skip(parts.len() as int).flatten() =~= Seq::<RecordView>::empty());
        }
        while lists.len() > 0
            invariant
                lists.len() <= scans.len(),
                scans.len() == parts.len(),
                lists@ == scans.take(lists.len() as int),
                forall|s: int|
                    0 <= s < scans.len() ==> is_search_result(
                        *metric,
                        query_vector@,
                        parts[s],
                        k as nat,
                        hits_of((#[trigger] scans[s])@),
                    ),
                top.wf(),
                top.limit() == k,
                is_scoring(*metric, query_vector@, parts.skip(lists.len() as int).flatten(), all),
                ranks_top_k(top@, all, k as nat),
            decreases lists.len(),
        {
            let ghost s = lists.len() - 1;
            let mut list = lists.pop().unwrap();
            let ghost offered = hits_of(list@);
            let ghost mut pushed: Seq<Hit> = Seq::empty();
            proof {
                assert(list == scans[s]);
                assert(all + pushed =~= all);
                assert(offered =~= offered + pushed);
            }
            while list.len() > 0
                invariant
                    top.wf(),
                    top.limit() == k,
                    ranks_top_k(top@, all + pushed, k as nat),
                    (hits_of(list@) + pushed).to_multiset() == offered.to_multiset(),
                decreases list.len(),
            {
                let ghost rest = hits_of(list@);
                let (record, score) = list.pop().unwrap();
                let ghost hit = Hit { record: record@, score };
                let ghost before = top@;
                top.push(record, score);
                proof {
                    lemma_offer_keeps_top_k(before, top@, all + pushed, hit, k as nat);
                    assert((all + pushed).push(hit) =~= all + pushed.push(hit));
                    assert(rest =~= hits_of(list@).push(hit));
                    vstd::seq_lib::lemma_multiset_commutative(rest, pushed);
                    vstd::seq_lib::lemma_multiset_commutative(hits_of(list@), pushed.push(hit));
                    vstd::seq_lib::to_multiset_build(hits_of(list@), hit);
                    vstd::seq_lib::to_multiset_build(pushed, hit);
                    assert((hits_of(list@) + pushed.push(hit)).to_multiset() =~= (rest
                        + pushed).to_multiset());
                    pushed = pushed.push(hit);
                }
            }
            proof {
                assert(hits_of(list@) + pushed =~= pushed);
                let part = choose|scored: Seq<Hit>| #[trigger]
                    is_scoring(*metric, query_vector@, parts[s], scored) && ranks_top_k(
                        offered,
                        scored,
                        k as nat,
                    );
                vstd::seq_lib::lemma_multiset_commutative(all, pushed);
                vstd::seq_lib::lemma_multiset_commutative(all, offered);
                assert((all + offered).to_multiset() == (all + pushed).to_multiset());
                lemma_merge_part(top@, all, offered, part, k as nat);
                assert(parts.skip(s).flatten() =~= parts[s] + parts.skip(s + 1).flatten()) by {
                    assert(parts.skip(s).first() == parts[s]);
                    assert(parts.skip(s).drop_first() =~= parts.skip(s + 1));
                }
                all = part + all;
            }
        }
        proof {
            assert(parts.skip(0) =~= parts);
        }
        let out = top.into_sorted_vec();
        proof {
            lemma_search_result_entries(
                *metric,
                query_vector@,
                self@.live(),
                k as nat,
                hits_of(out@),
            );
            assert forall|i: int| 0 <= i < out@.len() implies self@.live().contains(
                (#[trigger] out@[i]).0@,
            ) && admits(*metric, query_vector@, out@[i].0@.vector, out@[i].1) by {
                assert(hits_of(out@)[i] == hit_of(out@[i]));
            }
        }
        out
    }
}

} // verus!
