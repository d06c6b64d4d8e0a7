//! The HNSW graph's construction and search parameters.
use vstd::prelude::*;

verus! {

/// How many links a node keeps, how wide construction and search look, and
/// how many layers the graph may have.
#[derive(Clone, Copy, Debug, PartialEq, Eq, Structural)]
pub struct HnswConfig {
    pub max_connections: usize,
    pub ef_construction: usize,
    pub ef_search: usize,
    pub max_level: u8,
}

impl Default for HnswConfig {
    /// 16 links, 64 wide for construction and search, 16 layers.
    fn default() -> (c: HnswConfig)
        ensures
            c == (HnswConfig { max_connections: 16, ef_construction: 64, ef_search: 64, max_level: 16 }),
    {
        HnswConfig { max_connections: 16, ef_construction: 64, ef_search: 64, max_level: 16 }
    }
}

} // verus!
