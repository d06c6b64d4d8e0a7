//! How a vector index answers a query: by a flat scan while it is small,
//! by its HNSW graph from a threshold on.
use vstd::prelude::*;

verus! {

/// The search strategy of a vector index.
#[derive(Clone, Copy, Debug, PartialEq, Eq, Structural)]
pub enum VectorStrategy {
    Flat,
    Hnsw,
}

/// The strategy for `len` vectors: a flat scan below `hnsw_threshold`,
/// the HNSW graph from it on.
pub fn select_strategy(len: usize, hnsw_threshold: usize) -> (s: VectorStrategy)
    ensures
        s == (if len < hnsw_threshold {
            VectorStrategy::Flat
        } else {
            VectorStrategy::Hnsw
        }),
{
    if len < hnsw_threshold {
        VectorStrategy::Flat
    } else {
        VectorStrategy::Hnsw
    }
}

} // verus!
