//! What a store holds after a run of inserts: each shard keeps the records
//! most recently routed to it, as many as it has slots, and the store never
//! holds more than its shards have slots.

use vstd::prelude::*;
use vstd::arithmetic::div_mod::lemma_fundamental_div_mod;
use vstd::arithmetic::div_mod::lemma_fundamental_div_mod_converse;
use vstd::arithmetic::div_mod::lemma_mod_bound;
use vstd::arithmetic::div_mod::lemma_small_mod;
use crate::models::RecordView;
use crate::routing::lemma_route_in_range;
use crate::routing::routed_to;
use crate::routing::routes_to;
use crate::search::min_nat;
use crate::state::lemma_flatten_len_at_most;
use crate::state::lemma_flatten_len_exact;
use crate::state::lemma_occupants_concat;
use crate::state::lemma_occupants_len;
use crate::state::lemma_occupants_of_empty;
use crate::state::lemma_occupants_of_full;
use crate::state::cursor_range;
use crate::state::next_cursor;
use crate::state::occupants;
use crate::state::ShardState;
use crate::state::StoreState;

verus! {

/// The last `capacity` of `records`, or all of them where there are fewer.
pub open spec fn most_recent(records: Seq<RecordView>, capacity: nat) -> Seq<RecordView> {
    if records.len() <= capacity {
        records
    } else {
        records.skip(records.len() - capacity)
    }
}

/// The cursor keeps step with the number of writes: either the writes are no
/// more than the machine's word can count, or the capacity divides the range
/// of the cursor, so that its starting again from zero moves the target on by
/// one slot like any other write.
pub open spec fn keeps_step(capacity: nat, writes: nat) -> bool {
    writes <= usize::MAX || cursor_range() % (capacity as int) == 0
}

/// Counting one further, modulo the range of the cursor, is what the cursor
/// does.
proof fn lemma_cursor_counts(writes: int)
    requires
        0 <= writes,
    ensures
        0 <= writes % cursor_range() <= usize::MAX,
        next_cursor((writes % cursor_range()) as usize) == (writes + 1) % cursor_range(),
{
    let w = cursor_range();
    let q = writes / w;
    let r = writes % w;
    lemma_fundamental_div_mod(writes, w);
    lemma_mod_bound(writes, w);
    if r == usize::MAX {
        assert(writes + 1 == (q + 1) * w + 0) by (nonlinear_arith)
            requires
                writes == w * q + r,
                r + 1 == w,
        ;
        lemma_fundamental_div_mod_converse(writes + 1, w, q + 1, 0);
    } else {
        assert(writes + 1 == q * w + (r + 1)) by (nonlinear_arith)
            requires
                writes == w * q + r,
        ;
        lemma_fundamental_div_mod_converse(writes + 1, w, q, r + 1);
    }
}

/// While the cursor keeps step, the target slot is the number of writes
/// modulo the capacity.
proof fn lemma_target_counts(capacity: nat, writes: nat)
    requires
        capacity > 0,
        keeps_step(capacity, writes),
    ensures
        (writes as int % cursor_range()) % (capacity as int) == writes as int % (capacity as int),
{
    let w = cursor_range();
    let c = capacity as int;
    if writes <= usize::MAX {
        lemma_small_mod(writes, w as nat);
    } else {
        let m = w / c;
        lemma_fundamental_div_mod(w, c);
        assert(m > 0) by (nonlinear_arith)
            requires
                w == c * m,
                w > 0,
                c > 0,
        ;
        vstd::arithmetic::div_mod::lemma_mod_mod(writes as int, c, m);
    }
}

/// Two numbers less than `c` apart leave different remainders modulo `c`.
proof fn lemma_mod_distinct(a: int, b: int, c: int)
    requires
        0 <= a < b < a + c,
    ensures
        a % c != b % c,
{
    lemma_fundamental_div_mod(a, c);
    lemma_fundamental_div_mod(b, c);
    if a % c == b % c {
        let k = b / c - a / c;
        assert(b - a == c * k) by (nonlinear_arith)
            requires
                a == c * (a / c) + a % c,
                b == c * (b / c) + b % c,
                a % c == b % c,
                k == b / c - a / c,
        ;
        assert(false) by (nonlinear_arith)
            requires
                0 < b - a < c,
                b - a == c * k,
        ;
    }
}

/// Slot by slot, what a shard that started empty holds after `records` were
/// written to it: each of the last `capacity` records sits in the slot that its
/// position picks, and the slots that no record has reached are empty.
pub proof fn lemma_slots_after_writes(capacity: nat, records: Seq<RecordView>)
    requires
        capacity > 0,
        keeps_step(capacity, records.len()),
    ensures
        ({
            let shard = ShardState::empty(capacity).insert_all(records);
            &&& shard.capacity() == capacity
            &&& shard.cursor == records.len() as int % cursor_range()
            &&& shard.target() == records.len() as int % (capacity as int)
            &&& forall|t: int|
                0 <= t < records.len() <= t + capacity ==> shard.slots[t % (capacity as int)]
                    == Some(#[trigger] records[t])
            &&& forall|i: int| records.len() <= i < capacity ==> (#[trigger] shard.slots[i]) is None
        }),
    decreases records.len(),
{
    let c = capacity as int;
    let n = records.len() as int;
    let shard = ShardState::empty(capacity).insert_all(records);
    lemma_target_counts(capacity, records.len());
    if n == 0 {
        lemma_small_mod(0, cursor_range() as nat);
    } else {
        let earlier = records.drop_last();
        let before = ShardState::empty(capacity).insert_all(earlier);
        lemma_slots_after_writes(capacity, earlier);
        lemma_cursor_counts(n - 1);
        assert(shard == before.insert(records.last()));
        assert(before.target() == (n - 1) % c);
        lemma_mod_bound(n - 1, c);
        assert forall|t: int| 0 <= t < n <= t + c implies shard.slots[t % c] == Some(
            #[trigger] records[t],
        ) by {
            lemma_mod_bound(t, c);
            if t < n - 1 {
                lemma_mod_distinct(t, n - 1, c);
                assert(earlier[t] == records[t]);
            }
        }
        assert forall|i: int| n <= i < c implies (#[trigger] shard.slots[i]) is None by {
            lemma_small_mod((n - 1) as nat, capacity);
        }
    }
}

/// A shard that started empty and was written `records` retains, while its
/// cursor keeps step, exactly the most recent of them, as many as it has
/// slots, oldest first. The earlier ones are gone.
pub proof fn lemma_shard_retains_most_recent(capacity: nat, records: Seq<RecordView>)
    requires
        capacity > 0,
        keeps_step(capacity, records.len()),
    ensures
        ({
            let shard = ShardState::empty(capacity).insert_all(records);
            &&& shard.retained() == most_recent(records, capacity)
            &&& shard.live().to_multiset() == most_recent(records, capacity).to_multiset()
            &&& shard.live().len() == min_nat(records.len(), capacity)
        }),
{
    let c = capacity as int;
    let n = records.len() as int;
    let shard = ShardState::empty(capacity).insert_all(records);
    let kept = most_recent(records, capacity);
    lemma_slots_after_writes(capacity, records);
    lemma_mod_bound(n, c);
    let target = shard.target();
    assert(target == n % c);
    let ahead = shard.slots.skip(target);
    let behind = shard.slots.take(target);
    lemma_occupants_concat(ahead, behind);
    lemma_occupants_concat(behind, ahead);
    assert(behind + ahead =~= shard.slots);
    if n <= c {
        if n < c {
            lemma_small_mod(n as nat, capacity);
        } else {
            lemma_fundamental_div_mod_converse(n, c, 1, 0);
        }
        assert forall|i: int| 0 <= i < n implies shard.slots[i] == Some(records[i]) by {
            lemma_small_mod(i as nat, capacity);
            assert(shard.slots[i % c] == Some(records[i]));
        }
        if n < c {
            lemma_occupants_of_empty(ahead);
            lemma_occupants_of_full(behind, records);
        } else {
            assert(behind =~= Seq::<Option<RecordView>>::empty());
            lemma_occupants_of_empty(behind);
            lemma_occupants_of_full(ahead, records);
        }
    } else {
        let aged = ahead + behind;
        let q = n / c;
        lemma_fundamental_div_mod(n, c);
        assert forall|u: int| 0 <= u < c implies aged[u] == Some(kept[u]) by {
            let t = n - c + u;
            assert(kept[u] == records[t]);
            assert(shard.slots[t % c] == Some(records[t]));
            if target + u < c {
                assert(t == (q - 1) * c + (target + u)) by (nonlinear_arith)
                    requires
                        n == c * q + target,
                        t == n - c + u,
                ;
                lemma_fundamental_div_mod_converse(t, c, q - 1, target + u);
            } else {
                assert(t == q * c + (target + u - c)) by (nonlinear_arith)
                    requires
                        n == c * q + target,
                        t == n - c + u,
                ;
                lemma_fundamental_div_mod_converse(t, c, q, target + u - c);
            }
        }
        lemma_occupants_of_full(aged, kept);
    }
    vstd::seq_lib::lemma_multiset_commutative(occupants(behind), occupants(ahead));
    vstd::seq_lib::lemma_multiset_commutative(occupants(ahead), occupants(behind));
    assert(shard.live().to_multiset() =~= shard.retained().to_multiset());
    shard.live().to_multiset_ensures();
    kept.to_multiset_ensures();
}

/// Writing one run of records and then another is writing the two runs laid
/// end to end.
pub proof fn lemma_insert_all_concat(
    shard: ShardState,
    first: Seq<RecordView>,
    second: Seq<RecordView>,
)
    ensures
        shard.insert_all(first + second) == shard.insert_all(first).insert_all(second),
    decreases second.len(),
{
    if second.len() == 0 {
        assert(first + second =~= first);
    } else {
        lemma_insert_all_concat(shard, first, second.drop_last());
        assert((first + second).drop_last() =~= first + second.drop_last());
        assert((first + second).last() == second.last());
    }
}

/// A write never empties a slot: a shard whose slots are all occupied stays
/// that way, whatever is written to it.
pub proof fn lemma_full_shard_stays_full(shard: ShardState, records: Seq<RecordView>)
    requires
        shard.capacity() > 0,
        forall|i: int| 0 <= i < shard.slots.len() ==> (#[trigger] shard.slots[i]) is Some,
    ensures
        shard.insert_all(records).capacity() == shard.capacity(),
        forall|i: int|
            0 <= i < shard.slots.len() ==> (#[trigger] shard.insert_all(records).slots[i]) is Some,
    decreases records.len(),
{
    if records.len() > 0 {
        let before = shard.insert_all(records.drop_last());
        lemma_full_shard_stays_full(shard, records.drop_last());
        lemma_mod_bound(before.cursor as int, before.slots.len() as int);
        assert forall|i: int| 0 <= i < shard.slots.len() implies (#[trigger] shard.insert_all(
            records,
        ).slots[i]) is Some by {
            if i != before.target() {
                assert(before.slots[i] is Some);
            }
        }
    }
}

/// A shard that started empty holds as many records as were written to it,
/// up to its capacity, however long the run of writes.
pub proof fn lemma_shard_count_after_writes(capacity: nat, records: Seq<RecordView>)
    requires
        0 < capacity <= usize::MAX,
    ensures
        ShardState::empty(capacity).insert_all(records).live().len() == min_nat(
            records.len(),
            capacity,
        ),
{
    let c = capacity as int;
    if records.len() <= capacity {
        lemma_shard_retains_most_recent(capacity, records);
    } else {
        let first = records.take(c);
        let rest = records.skip(c);
        let filled = ShardState::empty(capacity).insert_all(first);
        let shard = ShardState::empty(capacity).insert_all(records);
        assert(first + rest =~= records);
        lemma_insert_all_concat(ShardState::empty(capacity), first, rest);
        lemma_slots_after_writes(capacity, first);
        assert forall|i: int| 0 <= i < filled.slots.len() implies (#[trigger] filled.slots[i]) is Some by {
            lemma_small_mod(i as nat, capacity);
            assert(filled.slots[i % c] == Some(first[i]));
        }
        lemma_full_shard_stays_full(filled, rest);
        let held = shard.slots.map_values(|slot: Option<RecordView>| slot->0);
        assert forall|i: int| 0 <= i < shard.slots.len() implies shard.slots[i] == Some(held[i]) by {
            assert(shard.slots[i] is Some);
        }
        lemma_occupants_of_full(shard.slots, held);
    }
}

/// A store that has seen no insert holds nothing.
pub proof fn lemma_new_store_holds_nothing(shard_count: nat, capacity: nat)
    ensures
        StoreState::empty(shard_count, capacity).live() == Seq::<RecordView>::empty(),
{
    let store = StoreState::empty(shard_count, capacity);
    let parts = store.parts();
    assert forall|s: int| 0 <= s < parts.len() implies (#[trigger] parts[s]).len() == 0 by {
        lemma_occupants_of_empty(store.shards[s].slots);
    }
    lemma_flatten_len_exact(parts, 0);
    assert(store.live() =~= Seq::<RecordView>::empty());
}

/// A store never holds more records than its shards have slots.
pub proof fn lemma_store_holds_at_most_its_slots(store: StoreState)
    requires
        store.wf(),
    ensures
        store.live().len() <= store.shard_count() * store.shard_capacity(),
{
    let parts = store.parts();
    let capacity = store.shard_capacity();
    assert forall|s: int| 0 <= s < parts.len() implies (#[trigger] parts[s]).len() <= capacity by {
        lemma_occupants_len(store.shards[s].slots);
        assert(store.shards[s].capacity() == capacity);
    }
    lemma_flatten_len_at_most(parts, capacity);
}

/// An insert keeps the store well formed and keeps its shape: the number of
/// shards and their capacity stay as they are.
pub proof fn lemma_insert_keeps_shape(store: StoreState, record: RecordView)
    requires
        store.wf(),
    ensures
        store.insert(record).wf(),
        store.insert(record).shard_count() == store.shard_count(),
        store.insert(record).shard_capacity() == store.shard_capacity(),
{
    let after = store.insert(record);
    if store.accepts(record) {
        let to = store.route(record.id);
        lemma_route_in_range(record.id, store.shards.len());
        lemma_mod_bound(store.shards[to].cursor as int, store.shards[to].slots.len() as int);
        assert forall|s: int| 0 <= s < after.shards.len() implies (#[trigger] after.shards[s]).capacity()
            == after.shards[0].capacity() > 0 by {
            assert(store.shards[s].capacity() == store.shards[0].capacity());
            assert(store.shards[to].capacity() == store.shards[0].capacity());
        }
        assert forall|s: int, i: int|
            0 <= s < after.shards.len() && 0 <= i < after.shards[s].slots.len() && (
            #[trigger] after.shards[s].slots[i]) is Some implies after.dimension == Some(
            after.shards[s].slots[i]->0.vector.len(),
        ) by {
            if s == to && i == store.shards[to].target() {
            } else {
                assert(after.shards[s].slots[i] == store.shards[s].slots[i]);
            }
        }
    }
}

/// Routing is a function of the identifier and the number of shards alone.
/// No insert changes that number, so an identifier goes to the same shard
/// before and after any insert.
pub proof fn lemma_route_is_stable(store: StoreState, record: RecordView, id: Seq<char>)
    requires
        store.wf(),
    ensures
        store.insert(record).route(id) == store.route(id),
        0 <= store.route(id) < store.shard_count(),
{
    lemma_insert_keeps_shape(store, record);
    lemma_route_in_range(id, store.shards.len());
}

/// Offering records of one dimension to an empty store is the same as
/// writing, to each shard, the records routed to it, in the order in which
/// they were offered.
pub proof fn lemma_store_shards_after_inserts(
    shard_count: nat,
    capacity: nat,
    records: Seq<RecordView>,
    dimension: nat,
)
    requires
        shard_count > 0,
        capacity > 0,
        forall|i: int| 0 <= i < records.len() ==> (#[trigger] records[i]).vector.len() == dimension,
    ensures
        ({
            let store = StoreState::empty(shard_count, capacity).insert_all(records);
            &&& store.shards.len() == shard_count
            &&& store.dimension == (if records.len() == 0 {
                None::<nat>
            } else {
                Some(dimension)
            })
            &&& forall|s: int|
                0 <= s < shard_count ==> (#[trigger] store.shards[s]) == ShardState::empty(
                    capacity,
                ).insert_all(routed_to(records, shard_count, s))
        }),
    decreases records.len(),
{
    let store = StoreState::empty(shard_count, capacity).insert_all(records);
    if records.len() == 0 {
        assert forall|s: int| 0 <= s < shard_count implies (#[trigger] store.shards[s])
            == ShardState::empty(capacity).insert_all(routed_to(records, shard_count, s)) by {
            reveal(Seq::filter);
            assert(routed_to(records, shard_count, s).len() == 0);
        }
    } else {
        let earlier = records.drop_last();
        let last = records.last();
        let before = StoreState::empty(shard_count, capacity).insert_all(earlier);
        lemma_store_shards_after_inserts(shard_count, capacity, earlier, dimension);
        assert(records =~= earlier.push(last));
        assert(before.accepts(last));
        let to = before.route(last.id);
        lemma_route_in_range(last.id, shard_count);
        assert(store == before.insert(last));
        assert forall|s: int| 0 <= s < shard_count implies (#[trigger] store.shards[s])
            == ShardState::empty(capacity).insert_all(routed_to(records, shard_count, s)) by {
            earlier.lemma_filter_push(last, routes_to(shard_count, s));
            let routed_before = routed_to(earlier, shard_count, s);
            if s == to {
                assert(routed_to(records, shard_count, s) == routed_before.push(last));
                assert(routed_before.push(last).drop_last() =~= routed_before);
            } else {
                assert(routed_to(records, shard_count, s) == routed_before);
            }
        }
    }
}

/// After any run of inserts into an empty store, of records of one
/// dimension, shard `s` retains exactly the most recent of the records routed
/// to it, as many as it has slots, oldest first. Earlier ones were evicted in
/// the order in which they came. This holds while the cursors keep step: for
/// as many inserts as the machine's word can count, and without end where the
/// capacity divides the range of the cursor.
pub proof fn lemma_store_retains_most_recent(
    shard_count: nat,
    capacity: nat,
    records: Seq<RecordView>,
    dimension: nat,
    s: int,
)
    requires
        shard_count > 0,
        capacity > 0,
        keeps_step(capacity, records.len()),
        forall|i: int| 0 <= i < records.len() ==> (#[trigger] records[i]).vector.len() == dimension,
        0 <= s < shard_count,
    ensures
        ({
            let store = StoreState::empty(shard_count, capacity).insert_all(records);
            let routed = routed_to(records, shard_count, s);
            &&& store.shards[s].retained() == most_recent(routed, capacity)
            &&& store.shards[s].live().to_multiset() == most_recent(routed, capacity).to_multiset()
            &&& store.shards[s].live().len() == min_nat(routed.len(), capacity)
        }),
{
    let routed = routed_to(records, shard_count, s);
    lemma_store_shards_after_inserts(shard_count, capacity, records, dimension);
    records.lemma_filter_len(routes_to(shard_count, s));
    lemma_shard_retains_most_recent(capacity, routed);
}

/// After any run of inserts into an empty store, of records of one
/// dimension, each shard holds as many records as were routed to it, up to
/// its capacity.
pub proof fn lemma_store_shard_counts(
    shard_count: nat,
    capacity: nat,
    records: Seq<RecordView>,
    dimension: nat,
    s: int,
)
    requires
        shard_count > 0,
        0 < capacity <= usize::MAX,
        forall|i: int| 0 <= i < records.len() ==> (#[trigger] records[i]).vector.len() == dimension,
        0 <= s < shard_count,
    ensures
        StoreState::empty(shard_count, capacity).insert_all(records).shards[s].live().len()
            == min_nat(routed_to(records, shard_count, s).len(), capacity),
{
    lemma_store_shards_after_inserts(shard_count, capacity, records, dimension);
    lemma_shard_count_after_writes(capacity, routed_to(records, shard_count, s));
}

/// Once every shard has been routed at least as many records as it has
/// slots, the store holds exactly `shard_count * capacity` records, and goes
/// on holding that many.
pub proof fn lemma_store_fills_up(
    shard_count: nat,
    capacity: nat,
    records: Seq<RecordView>,
    dimension: nat,
)
    requires
        shard_count > 0,
        0 < capacity <= usize::MAX,
        forall|i: int| 0 <= i < records.len() ==> (#[trigger] records[i]).vector.len() == dimension,
        forall|s: int|
            0 <= s < shard_count ==> (#[trigger] routed_to(records, shard_count, s)).len()
                >= capacity,
    ensures
        StoreState::empty(shard_count, capacity).insert_all(records).live().len() == shard_count
            * capacity,
{
    let store = StoreState::empty(shard_count, capacity).insert_all(records);
    let parts = store.parts();
    lemma_store_shards_after_inserts(shard_count, capacity, records, dimension);
    assert forall|s: int| 0 <= s < parts.len() implies (#[trigger] parts[s]).len() == capacity by {
        lemma_store_shard_counts(shard_count, capacity, records, dimension, s);
        assert(routed_to(records, shard_count, s).len() >= capacity);
    }
    lemma_flatten_len_exact(parts, capacity);
}

} // verus!
