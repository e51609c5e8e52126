//! An in-memory vector store: a fixed number of circular shards that absorb an
//! unbounded stream of records into bounded memory, and a ranked top-k search
//! over what they retain.
//!
//! Every operation that changes the store takes `&mut self`, so the contracts
//! below are those of a store with one writer at a time. Embeddings and scores
//! are carried as integers; the arithmetic on real numbers that produces them
//! belongs to the caller, who hands the store its similarity metric.

pub mod batch;
pub mod engine;
pub mod models;
pub mod retention;
pub mod routing;
pub mod search;
pub mod slot;
pub mod state;

