//! One cell of a shard's circular buffer.

use vstd::prelude::*;
use std::sync::Arc;
use arc_swap::ArcSwapOption;
use crate::models::RecordView;
use crate::models::VectorRecord;

verus! {

/// A cell that is either empty or holds a shared reference to one record.
///
/// The cell is an `arc_swap::ArcSwapOption`, which Verus cannot look into, so
/// what it holds goes by the name [`slot_record`]. Every write goes through
/// [`store_slot`], which asks for exclusive access: between two writes a slot
/// holds one value, and every read returns a whole record.
#[verifier::external_body]
pub struct Slot {
    cell: ArcSwapOption<VectorRecord>,
}

/// The record that a slot holds, if any.
pub uninterp spec fn slot_record(slot: Slot) -> Option<RecordView>;

/// Calls `ArcSwapOption::from(None)`: the new cell holds nothing.
#[verifier::external_body]
pub(crate) fn empty_slot() -> (slot: Slot)
    ensures
        slot_record(slot) is None,
{
    Slot { cell: ArcSwapOption::from(None) }
}

/// Calls `ArcSwapAny::store`: afterwards the cell holds `record`, and the
/// reference it held before is released.
#[verifier::external_body]
pub(crate) fn store_slot(slot: &mut Slot, record: Arc<VectorRecord>)
    ensures
        slot_record(*final(slot)) == Some(record@),
{
    slot.cell.store(Some(record));
}

/// Calls `ArcSwapAny::load_full`: returns a new reference to the record that
/// the cell holds, or `None` for an empty cell. The cell is left as it was.
#[verifier::external_body]
pub(crate) fn load_slot(slot: &Slot) -> (held: Option<Arc<VectorRecord>>)
    ensures
        held is Some <==> slot_record(*slot) is Some,
        held matches Some(record) ==> slot_record(*slot) == Some(record@),
{
    slot.cell.load_full()
}

} // verus!
