//! Hardware back ends and the operations each can take over, with the
//! profile of what this build can use and where the CPU stands in.
use vstd::prelude::*;

verus! {

/// The hardware back ends an operation can run on.
#[derive(Clone, Copy, Debug, PartialEq, Eq, Structural)]
pub enum HardwareBackend {
    BufferedIo,
    DirectIo,
    AsyncIo,
    IoUring,
    Spdk,
    Pmem,
    Rdma,
    ZnsSsd,
    Simd,
    Gpu,
    ObjectStorage,
}

/// The operations that hardware can take over.
#[derive(Clone, Copy, Debug, PartialEq, Eq, Structural)]
pub enum HardwareOperation {
    Read,
    Write,
    Fsync,
    Checksum,
    Compression,
    BloomProbe,
    VectorDistance,
    AnnScoring,
    ColumnarFilter,
    ReplicationTransfer,
}

/// One back end for one operation: whether it is available, and whether
/// the CPU can stand in for it.
#[derive(Clone, Copy, Debug, PartialEq, Eq, Structural)]
pub struct HardwareCapability {
    pub backend: HardwareBackend,
    pub operation: HardwareOperation,
    pub available: bool,
    pub cpu_fallback: bool,
}

impl HardwareCapability {
    /// A back end this build does not use, with the CPU standing in.
    pub fn portable(backend: HardwareBackend, operation: HardwareOperation) -> (c: HardwareCapability)
        ensures
            c == (HardwareCapability { backend, operation, available: false, cpu_fallback: true }),
    {
        HardwareCapability { backend, operation, available: false, cpu_fallback: true }
    }
}

/// What the hardware offers, back end by back end.
#[derive(Clone, Debug, PartialEq, Eq)]
pub struct HardwareIoProfile {
    pub capabilities: Vec<HardwareCapability>,
}

/// The default profile: buffered reads and writes and SIMD checksums are
/// available; io_uring reads, SPDK writes, PMEM syncs, RDMA replication,
/// ZNS writes and GPU scoring are not; the CPU stands in for all.
pub open spec fn default_capabilities() -> Seq<HardwareCapability> {
    seq![
        HardwareCapability { backend: HardwareBackend::BufferedIo, operation: HardwareOperation::Read, available: true, cpu_fallback: true },
        HardwareCapability { backend: HardwareBackend::BufferedIo, operation: HardwareOperation::Write, available: true, cpu_fallback: true },
        HardwareCapability { backend: HardwareBackend::IoUring, operation: HardwareOperation::Read, available: false, cpu_fallback: true },
        HardwareCapability { backend: HardwareBackend::Spdk, operation: HardwareOperation::Write, available: false, cpu_fallback: true },
        HardwareCapability { backend: HardwareBackend::Pmem, operation: HardwareOperation::Fsync, available: false, cpu_fallback: true },
        HardwareCapability { backend: HardwareBackend::Rdma, operation: HardwareOperation::ReplicationTransfer, available: false, cpu_fallback: true },
        HardwareCapability { backend: HardwareBackend::ZnsSsd, operation: HardwareOperation::Write, available: false, cpu_fallback: true },
        HardwareCapability { backend: HardwareBackend::Simd, operation: HardwareOperation::Checksum, available: true, cpu_fallback: true },
        HardwareCapability { backend: HardwareBackend::Gpu, operation: HardwareOperation::AnnScoring, available: false, cpu_fallback: true },
    ]
}

impl Default for HardwareIoProfile {
    /// The default profile (see `default_capabilities`).
    fn default() -> (p: HardwareIoProfile)
        ensures
            p.capabilities@ == default_capabilities(),
    {
        let mut c: Vec<HardwareCapability> = Vec::new();
        c.push(HardwareCapability { backend: HardwareBackend::BufferedIo, operation: HardwareOperation::Read, available: true, cpu_fallback: true });
        c.push(HardwareCapability { backend: HardwareBackend::BufferedIo, operation: HardwareOperation::Write, available: true, cpu_fallback: true });
        c.push(HardwareCapability::portable(HardwareBackend::IoUring, HardwareOperation::Read));
        c.push(HardwareCapability::portable(HardwareBackend::Spdk, HardwareOperation::Write));
        c.push(HardwareCapability::portable(HardwareBackend::Pmem, HardwareOperation::Fsync));
        c.push(HardwareCapability::portable(HardwareBackend::Rdma, HardwareOperation::ReplicationTransfer));
        c.push(HardwareCapability::portable(HardwareBackend::ZnsSsd, HardwareOperation::Write));
        c.push(HardwareCapability { backend: HardwareBackend::Simd, operation: HardwareOperation::Checksum, available: true, cpu_fallback: true });
        c.push(HardwareCapability::portable(HardwareBackend::Gpu, HardwareOperation::AnnScoring));
        proof {
            assert(c@ =~= default_capabilities());
        }
        HardwareIoProfile { capabilities: c }
    }
}

impl HardwareIoProfile {
    /// Whether `backend` is available for `operation`.
    pub fn supports(&self, backend: HardwareBackend, operation: HardwareOperation) -> (r: bool)
        ensures
            r == exists|i: int| {
                &&& 0 <= i < self.capabilities@.len()
                &&& (#[trigger] self.capabilities@[i]).backend == backend
                &&& self.capabilities@[i].operation == operation
                &&& self.capabilities@[i].available
            },
    {
        let mut i: usize = 0;
        while i < self.capabilities.len()
            invariant
                i <= self.capabilities@.len(),
                forall|j: int| 0 <= j < i ==> !{
                    &&& (#[trigger] self.capabilities@[j]).backend == backend
                    &&& self.capabilities@[j].operation == operation
                    &&& self.capabilities@[j].available
                },
            decreases self.capabilities@.len() - i,
        {
            let c = self.capabilities[i];
            if c.backend == backend && c.operation == operation && c.available {
                return true;
            }
            i = i + 1;
        }
        false
    }

    /// Whether the CPU can stand in for `operation` on some back end.
    pub fn has_cpu_fallback(&self, operation: HardwareOperation) -> (r: bool)
        ensures
            r == exists|i: int| {
                &&& 0 <= i < self.capabilities@.len()
                &&& (#[trigger] self.capabilities@[i]).operation == operation
                &&& self.capabilities@[i].cpu_fallback
            },
    {
        let mut i: usize = 0;
        while i < self.capabilities.len()
            invariant
                i <= self.capabilities@.len(),
                forall|j: int| 0 <= j < i ==> !{
                    &&& (#[trigger] self.capabilities@[j]).operation == operation
                    &&& self.capabilities@[j].cpu_fallback
                },
            decreases self.capabilities@.len() - i,
        {
            let c = self.capabilities[i];
            if c.operation == operation && c.cpu_fallback {
                return true;
            }
            i = i + 1;
        }
        false
    }
}

} // verus!
