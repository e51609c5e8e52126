//! The record that the store holds.

use vstd::prelude::*;

verus! {

/// One stored item: a caller-chosen identifier, an embedding and an opaque payload.
///
/// The embedding is carried as one 32-bit word per component. The store never
/// interprets the words; it only counts them and hands them to the similarity
/// metric that the caller supplies.
#[derive(Debug)]
pub struct VectorRecord {
    pub id: String,
    pub vector: Vec<u32>,
    pub metadata: String,
}

/// The mathematical content of a [`VectorRecord`].
pub struct RecordView {
    pub id: Seq<char>,
    pub vector: Seq<u32>,
    pub metadata: Seq<char>,
}

impl View for VectorRecord {
    type V = RecordView;

    open spec fn view(&self) -> RecordView {
        RecordView { id: self.id@, vector: self.vector@, metadata: self.metadata@ }
    }
}

impl VectorRecord {
    /// Builds a record from its three parts, unchanged.
    pub fn new(id: String, vector: Vec<u32>, metadata: String) -> (record: VectorRecord)
        ensures
            record@ == (RecordView { id: id@, vector: vector@, metadata: metadata@ }),
            record.id == id,
            record.vector == vector,
            record.metadata == metadata,
    {
        VectorRecord { id, vector, metadata }
    }

    /// The number of components of the embedding.
    pub fn dimension(&self) -> (d: usize)
        ensures
            d == self@.vector.len(),
    {
        self.vector.len()
    }
}

} // verus!
