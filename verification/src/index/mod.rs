//! The pointer indexes: each maps keys to `RecordId`s and never holds values.
//! To read a value, query an index for its record, then read the record from
//! the primary store; each value is therefore stored once, however many
//! indexes point at it.
pub mod adjacency;
pub mod adjacency_format;
pub mod bitmap;
pub mod bm25;
pub mod btree;
pub mod field_sets;
pub mod graph;
pub mod hnsw;
pub mod hnsw_format;
pub mod inverted;
pub mod inverted_format;
pub mod inverted_rows;
pub mod keyed_sets;
pub mod lsm;
pub mod scalar;
pub mod specialized;
pub mod time_series;
pub mod tokenize;
pub mod vector_query;
pub mod versions;

use crate::errors::Result;
use crate::store::RecordId;
use vstd::prelude::*;

verus! {

/// The interface of an index plugin: it stores `key -> RecordId` mappings
/// only, never a copy of the value.
pub trait IndexPlugin: Send + Sync {
    /// The plugin's own well-formedness, kept by every operation.
    spec fn inv(&self) -> bool;

    /// The name that on-disk file names derive from.
    fn name(&self) -> &str;

    /// Associate `key` with `rid`.
    fn put(&mut self, key: &[u8], rid: RecordId) -> (r: Result<()>)
        requires
            old(self).inv(),
        ensures
            final(self).inv(),
    ;

    /// The record for `key`, if any.
    fn get(&self, key: &[u8]) -> Option<RecordId>
        requires
            self.inv(),
    ;

    /// Remove the mapping for `key`.
    fn delete(&mut self, key: &[u8]) -> (r: Result<()>)
        requires
            old(self).inv(),
        ensures
            final(self).inv(),
    ;

    /// Persist the in-memory state.
    fn flush(&mut self) -> (r: Result<()>)
        requires
            old(self).inv(),
        ensures
            final(self).inv(),
    ;
}

} // verus!
