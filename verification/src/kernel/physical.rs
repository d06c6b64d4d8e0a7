//! The physical engines of the storage kernel: what each is, the role it
//! plays, and what it can do.
use vstd::prelude::*;

verus! {

/// The kinds of physical engine.
#[derive(Clone, Copy, Debug, PartialEq, Eq, Structural)]
pub enum PhysicalEngineKind {
    ValueStore,
    RecordDirectory,
    Lsm,
    BTree,
    Art,
    Hash,
    Bitmap,
    Inverted,
    Hnsw,
    Ivf,
    GraphAdjacency,
    ColumnarProjection,
    WideColumn,
    TimeSeries,
    LogStream,
}

/// The role an engine plays towards the canonical values.
#[derive(Clone, Copy, Debug, PartialEq, Eq, Structural)]
pub enum EngineRole {
    CanonicalValueOwner,
    PointerIndex,
    DerivedMaterializedLayout,
    LossySummary,
    ReplicationPrimitive,
}

/// What an engine can do.
#[derive(Clone, Copy, Debug, PartialEq, Eq, Structural)]
pub enum EngineCapability {
    PointLookup,
    RangeScan,
    PrefixScan,
    OrderedIteration,
    FilteredScan,
    VectorSearch,
    GraphTraversal,
    FullTextSearch,
    ColumnarScan,
    AppendOnlyLog,
    SnapshotTransfer,
}

/// A physical engine: its name, kind, role and capabilities, and whether
/// it stores canonical values or only points at them.
#[derive(Clone, Debug, PartialEq, Eq)]
pub struct PhysicalEngine {
    pub name: String,
    pub kind: PhysicalEngineKind,
    pub role: EngineRole,
    pub capabilities: Vec<EngineCapability>,
    pub stores_canonical_values: bool,
    pub pointer_oriented: bool,
}

impl PhysicalEngine {
    /// A pointer index: it points at canonical values and stores none.
    pub fn pointer_index(name: &str, kind: PhysicalEngineKind, capabilities: Vec<EngineCapability>) -> (e: PhysicalEngine)
        ensures
            e.name@ == name@,
            e.kind == kind,
            e.role == EngineRole::PointerIndex,
            e.capabilities@ == capabilities@,
            !e.stores_canonical_values,
            e.pointer_oriented,
    {
        PhysicalEngine {
            name: String::from_str(name),
            kind,
            role: EngineRole::PointerIndex,
            capabilities,
            stores_canonical_values: false,
            pointer_oriented: true,
        }
    }
}

/// The store that owns the canonical values.
#[derive(Clone, Debug, PartialEq, Eq)]
pub struct ValueStore {
    pub name: String,
    pub canonical_owner: bool,
}

impl Default for ValueStore {
    /// The value store, which owns the canonical values.
    fn default() -> (s: ValueStore)
        ensures
            s.name@ == "value_store"@,
            s.canonical_owner,
    {
        ValueStore { name: String::from_str("value_store"), canonical_owner: true }
    }
}

/// A layout materialized from another engine's values.
#[derive(Clone, Debug, PartialEq, Eq)]
pub struct MaterializedLayout {
    pub name: String,
    pub source_engine: String,
    pub canonical: bool,
}

/// A projection derived from another engine for analysis.
#[derive(Clone, Debug, PartialEq, Eq)]
pub struct AnalyticalProjection {
    pub name: String,
    pub source_engine: String,
    pub derived: bool,
}

} // verus!
