//! The hash that routes a record to its shard.

use vstd::prelude::*;
use crate::models::RecordView;

verus! {

/// The Fx hash of a string, as `fxhash::hash` computes it for the target the
/// crate is built for. It depends on the characters alone: there is no seed and
/// no state.
pub uninterp spec fn fx_hash(id: Seq<char>) -> usize;

/// Calls `fxhash::hash` on the string: a fresh `FxHasher` is fed the bytes of
/// `id` and its final state is returned.
#[verifier::external_body]
pub(crate) fn fx_hash_str(id: &str) -> (hash: usize)
    ensures
        hash == fx_hash(id@),
{
    fxhash::hash(id)
}

/// The shard that an identifier belongs to, among `shard_count` shards.
pub open spec fn route_of(id: Seq<char>, shard_count: nat) -> int
    recommends
        shard_count > 0,
{
    fx_hash(id) as int % shard_count as int
}

/// Whether a record goes to shard `s` of `shard_count`.
pub open spec fn routes_to(shard_count: nat, s: int) -> spec_fn(RecordView) -> bool {
    |record: RecordView| route_of(record.id, shard_count) == s
}

/// Those of `records` that go to shard `s` of `shard_count`, in their order.
pub open spec fn routed_to(records: Seq<RecordView>, shard_count: nat, s: int) -> Seq<
    RecordView,
> {
    records.filter(routes_to(shard_count, s))
}

/// Routing stays inside the shard array.
pub proof fn lemma_route_in_range(id: Seq<char>, shard_count: nat)
    requires
        shard_count > 0,
    ensures
        0 <= route_of(id, shard_count) < shard_count,
{
}

} // verus!
