//! The storage kernel: the invariants it keeps, its physical engines, and
//! the interface of a kernel that stores canonical records.
pub mod invariants;
pub mod physical;

use crate::errors::Result;
use crate::store::RecordId;
use vstd::prelude::*;

pub use invariants::{
    CanonicalValuePolicy, DurableArtifactDescriptor, DurableArtifactKind, DurableArtifactState,
    DurableFormatDescriptor, KernelInvariant, KernelInvariantReport, KernelInvariantValidator,
    ManifestTracked, MemoryOwnership, RecoverableStructure, StorageOperationMetrics,
};
pub use physical::{
    AnalyticalProjection, EngineCapability, EngineRole, MaterializedLayout, PhysicalEngine,
    PhysicalEngineKind, ValueStore,
};

verus! {

/// How engines are combined to serve a workload.
#[derive(Clone, Copy, Debug, PartialEq, Eq, Structural)]
pub enum ExecutionMode {
    Individual,
    Unified,
    Specialized,
    Hybrid,
}

/// A point in the kernel's history that reads can be pinned to.
#[derive(Clone, Copy, Debug, Default, PartialEq, Eq, Structural)]
pub struct KernelSnapshot {
    pub sequence: u64,
}

/// What a compaction kept, dropped and rewrote.
#[derive(Clone, Copy, Debug, Default, PartialEq, Eq, Structural)]
pub struct KernelCompactionReport {
    pub records_retained: u64,
    pub records_dropped: u64,
    pub bytes_rewritten: u64,
}

/// The kernel's live and dead records and live canonical bytes.
#[derive(Clone, Copy, Debug, Default, PartialEq, Eq, Structural)]
pub struct KernelStorageReport {
    pub live_records: u64,
    pub dead_records: u64,
    pub canonical_live_bytes: u64,
}

/// A kernel that stores each canonical record once, for its implementors
/// to provide.
pub trait StorageKernel {
    fn put_record(&mut self, bytes: &[u8]) -> Result<RecordId>;

    fn get_record(&self, rid: RecordId) -> Result<Vec<u8>>;

    fn delete_record(&mut self, rid: RecordId) -> Result<()>;

    fn storage_report(&self) -> KernelStorageReport;

    fn snapshot(&self) -> KernelSnapshot;

    fn flush(&mut self) -> Result<()>;

    fn compact(&mut self) -> Result<KernelCompactionReport>;
}

} // verus!
