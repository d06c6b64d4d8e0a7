//! The specialized engines the kernel ships: each a pointer index with a
//! versioned, checksummed, recoverable durable format that the manifest
//! tracks.
use crate::kernel::{
    DurableFormatDescriptor, EngineCapability, EngineRole, PhysicalEngine, PhysicalEngineKind,
    StorageOperationMetrics,
};
use vstd::prelude::*;

verus! {

/// What a specialized engine promises: the engine, its durable format,
/// that the manifest tracks it, and its measured cost.
#[derive(Clone, Debug, PartialEq, Eq)]
pub struct SpecializedEngineContract {
    pub engine: PhysicalEngine,
    pub format: DurableFormatDescriptor,
    pub manifest_tracked: bool,
    pub metrics: StorageOperationMetrics,
}

/// A pointer-engine contract: the engine named `name`, of kind `kind`,
/// with capabilities `caps`, its format `structure` at version 1 with a
/// `crc32c` checksum, forward compatible and recoverable on its own,
/// tracked by the manifest, nothing measured yet.
pub open spec fn is_pointer_contract(
    c: SpecializedEngineContract,
    name: Seq<char>,
    kind: PhysicalEngineKind,
    caps: Seq<EngineCapability>,
    structure: Seq<char>,
) -> bool {
    &&& c.engine.name@ == name
    &&& c.engine.kind == kind
    &&& c.engine.role == EngineRole::PointerIndex
    &&& c.engine.capabilities@ == caps
    &&& !c.engine.stores_canonical_values
    &&& c.engine.pointer_oriented
    &&& c.format.structure@ == structure
    &&& c.format.format_version == 1
    &&& c.format.checksum@ == "crc32c"@
    &&& c.format.forward_compatible
    &&& c.format.independently_recoverable
    &&& c.manifest_tracked
    &&& c.metrics == StorageOperationMetrics {
        latency_us: 0,
        bytes_read: 0,
        bytes_written: 0,
        io_ops: 0,
        memory_bytes: 0,
        cpu_units: 0,
    }
}

/// The engines shipped by default, in order: name, kind, capabilities and
/// durable structure.
pub open spec fn shipped_engines() -> Seq<(Seq<char>, PhysicalEngineKind, Seq<EngineCapability>, Seq<char>)> {
    seq![
        ("art"@, PhysicalEngineKind::Art, seq![EngineCapability::PointLookup, EngineCapability::PrefixScan], "art_index"@),
        ("hash"@, PhysicalEngineKind::Hash, seq![EngineCapability::PointLookup], "hash_index"@),
        ("search"@, PhysicalEngineKind::Inverted, seq![EngineCapability::FullTextSearch, EngineCapability::FilteredScan], "inverted_segments"@),
        ("graph"@, PhysicalEngineKind::GraphAdjacency, seq![EngineCapability::GraphTraversal], "graph_adjacency_pages"@),
        ("vector"@, PhysicalEngineKind::Hnsw, seq![EngineCapability::VectorSearch, EngineCapability::FilteredScan], "vector_graph"@),
        ("columnar"@, PhysicalEngineKind::ColumnarProjection, seq![EngineCapability::ColumnarScan, EngineCapability::FilteredScan], "columnar_projection"@),
        ("wide_column"@, PhysicalEngineKind::WideColumn, seq![EngineCapability::RangeScan, EngineCapability::PrefixScan], "wide_column_sstable"@),
        ("time_series"@, PhysicalEngineKind::TimeSeries, seq![EngineCapability::RangeScan, EngineCapability::ColumnarScan], "time_series_partition"@),
        ("log_stream"@, PhysicalEngineKind::LogStream, seq![EngineCapability::AppendOnlyLog], "log_stream_segment"@),
    ]
}

/// The contracts are the shipped engines, in order.
pub open spec fn are_shipped(v: Seq<SpecializedEngineContract>) -> bool {
    &&& v.len() == shipped_engines().len()
    &&& forall|i: int| 0 <= i < v.len() ==> is_pointer_contract(
        #[trigger] v[i],
        shipped_engines()[i].0,
        shipped_engines()[i].1,
        shipped_engines()[i].2,
        shipped_engines()[i].3,
    )
}

fn caps1(a: EngineCapability) -> (v: Vec<EngineCapability>)
    ensures
        v@ == seq![a],
{
    let mut v: Vec<EngineCapability> = Vec::new();
    v.push(a);
    proof {
        assert(v@ =~= seq![a]);
    }
    v
}

fn caps2(a: EngineCapability, b: EngineCapability) -> (v: Vec<EngineCapability>)
    ensures
        v@ == seq![a, b],
{
    let mut v: Vec<EngineCapability> = Vec::new();
    v.push(a);
    v.push(b);
    proof {
        assert(v@ =~= seq![a, b]);
    }
    v
}

impl SpecializedEngineContract {
    /// The contract of a pointer engine (see `is_pointer_contract`).
    pub fn pointer_engine(
        name: &str,
        kind: PhysicalEngineKind,
        capabilities: Vec<EngineCapability>,
        structure: &'static str,
    ) -> (c: SpecializedEngineContract)
        ensures
            is_pointer_contract(c, name@, kind, capabilities@, structure@),
    {
        SpecializedEngineContract {
            engine: PhysicalEngine::pointer_index(name, kind, capabilities),
            format: DurableFormatDescriptor {
                structure,
                format_version: 1,
                checksum: "crc32c",
                forward_compatible: true,
                independently_recoverable: true,
            },
            manifest_tracked: true,
            metrics: StorageOperationMetrics {
                latency_us: 0,
                bytes_read: 0,
                bytes_written: 0,
                io_ops: 0,
                memory_bytes: 0,
                cpu_units: 0,
            },
        }
    }

    /// The contracts of the engines shipped by default.
    pub fn shipping_defaults() -> (v: Vec<SpecializedEngineContract>)
        ensures
            are_shipped(v@),
    {
        let mut v: Vec<SpecializedEngineContract> = Vec::new();
        v.push(Self::pointer_engine("art", PhysicalEngineKind::Art, caps2(EngineCapability::PointLookup, EngineCapability::PrefixScan), "art_index"));
        v.push(Self::pointer_engine("hash", PhysicalEngineKind::Hash, caps1(EngineCapability::PointLookup), "hash_index"));
        v.push(Self::pointer_engine("search", PhysicalEngineKind::Inverted, caps2(EngineCapability::FullTextSearch, EngineCapability::FilteredScan), "inverted_segments"));
        v.push(Self::pointer_engine("graph", PhysicalEngineKind::GraphAdjacency, caps1(EngineCapability::GraphTraversal), "graph_adjacency_pages"));
        v.push(Self::pointer_engine("vector", PhysicalEngineKind::Hnsw, caps2(EngineCapability::VectorSearch, EngineCapability::FilteredScan), "vector_graph"));
        v.push(Self::pointer_engine("columnar", PhysicalEngineKind::ColumnarProjection, caps2(EngineCapability::ColumnarScan, EngineCapability::FilteredScan), "columnar_projection"));
        v.push(Self::pointer_engine("wide_column", PhysicalEngineKind::WideColumn, caps2(EngineCapability::RangeScan, EngineCapability::PrefixScan), "wide_column_sstable"));
        v.push(Self::pointer_engine("time_series", PhysicalEngineKind::TimeSeries, caps2(EngineCapability::RangeScan, EngineCapability::ColumnarScan), "time_series_partition"));
        v.push(Self::pointer_engine("log_stream", PhysicalEngineKind::LogStream, caps1(EngineCapability::AppendOnlyLog), "log_stream_segment"));
        proof {
            assert forall|i: int| 0 <= i < v@.len() implies is_pointer_contract(
                #[trigger] v@[i],
                shipped_engines()[i].0,
                shipped_engines()[i].1,
                shipped_engines()[i].2,
                shipped_engines()[i].3,
            ) by {
                if i == 0 {
                } else if i == 1 {
                } else if i == 2 {
                } else if i == 3 {
                } else if i == 4 {
                } else if i == 5 {
                } else if i == 6 {
                } else if i == 7 {
                } else {
                }
            }
        }
        v
    }
}

/// The specialized engines an engine runs with.
#[derive(Clone, Debug, PartialEq, Eq)]
pub struct SpecializedEngineRegistry {
    contracts: Vec<SpecializedEngineContract>,
}

impl Default for SpecializedEngineRegistry {
    /// No engines.
    fn default() -> (r: SpecializedEngineRegistry)
        ensures
            r.contracts_view() == Seq::<SpecializedEngineContract>::empty(),
    {
        SpecializedEngineRegistry { contracts: Vec::new() }
    }
}

impl SpecializedEngineRegistry {
    /// The registered contracts, in order.
    pub closed spec fn contracts_view(&self) -> Seq<SpecializedEngineContract> {
        self.contracts@
    }

    /// The engines shipped by default.
    pub fn shipping_defaults() -> (r: SpecializedEngineRegistry)
        ensures
            are_shipped(r.contracts_view()),
    {
        SpecializedEngineRegistry { contracts: SpecializedEngineContract::shipping_defaults() }
    }

    pub fn contracts(&self) -> (s: &[SpecializedEngineContract])
        ensures
            s@ == self.contracts_view(),
    {
        self.contracts.as_slice()
    }

    /// Whether every engine is a pointer index tracked by the manifest.
    pub fn all_pointer_oriented(&self) -> (r: bool)
        ensures
            r == forall|i: int| 0 <= i < self.contracts_view().len() ==> {
                &&& (#[trigger] self.contracts_view()[i]).engine.pointer_oriented
                &&& self.contracts_view()[i].manifest_tracked
            },
    {
        let mut i: usize = 0;
        while i < self.contracts.len()
            invariant
                i <= self.contracts@.len(),
                forall|j: int| 0 <= j < i ==> {
                    &&& (#[trigger] self.contracts@[j]).engine.pointer_oriented
                    &&& self.contracts@[j].manifest_tracked
                },
            decreases self.contracts@.len() - i,
        {
            if !(self.contracts[i].engine.pointer_oriented && self.contracts[i].manifest_tracked) {
                return false;
            }
            i = i + 1;
        }
        true
    }
}

/// Every engine shipped by default is a pointer index tracked by the
/// manifest, and none stores canonical values.
pub proof fn lemma_shipped_pointer_oriented(v: Seq<SpecializedEngineContract>)
    requires
        are_shipped(v),
    ensures
        forall|i: int| 0 <= i < v.len() ==> {
            &&& (#[trigger] v[i]).engine.pointer_oriented
            &&& v[i].manifest_tracked
            &&& !v[i].engine.stores_canonical_values
        },
{
    assert forall|i: int| 0 <= i < v.len() implies {
        &&& (#[trigger] v[i]).engine.pointer_oriented
        &&& v[i].manifest_tracked
        &&& !v[i].engine.stores_canonical_values
    } by {
        assert(is_pointer_contract(
            v[i],
            shipped_engines()[i].0,
            shipped_engines()[i].1,
            shipped_engines()[i].2,
            shipped_engines()[i].3,
        ));
    }
}

} // verus!
