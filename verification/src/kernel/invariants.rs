//! The storage kernel's invariants and the checks that hold durable
//! formats, artifacts, writes and recovery plans to them.
use crate::errors::{PraxisError, Result};
use crate::text::{concat_str, str_equal};
use vstd::prelude::*;

verus! {

/// The invariants the storage kernel keeps.
#[derive(Clone, Copy, Debug, PartialEq, Eq, Structural)]
pub enum KernelInvariant {
    CanonicalValuesSingleCopy,
    PointerOrientedIndexes,
    WalBeforeVisibility,
    DurableStructuresVersionedChecksummedRecoverable,
    ReadsDoNotBlockWrites,
    DeterministicCrashRecovery,
    ForwardCompatibleFormats,
    SnapshotSafeCompaction,
    ExplicitMemoryOwnership,
    ManifestTrackedDurability,
    MeasurableStorageOperations,
}

/// What copies of a canonical value the kernel allows.
#[derive(Clone, Copy, Debug, PartialEq, Eq, Structural)]
pub struct CanonicalValuePolicy {
    pub canonical_values_single_copy: bool,
    pub allow_replicas: bool,
    pub allow_snapshots: bool,
    pub allow_backups: bool,
    pub allow_erasure_redundancy: bool,
    pub allow_lossy_summaries: bool,
}

impl CanonicalValuePolicy {
    /// One canonical copy of each value; replicas, snapshots, backups,
    /// erasure redundancy and lossy summaries allowed beside it.
    pub fn strict() -> (p: CanonicalValuePolicy)
        ensures
            p.canonical_values_single_copy,
            p.allow_replicas,
            p.allow_snapshots,
            p.allow_backups,
            p.allow_erasure_redundancy,
            p.allow_lossy_summaries,
    {
        CanonicalValuePolicy {
            canonical_values_single_copy: true,
            allow_replicas: true,
            allow_snapshots: true,
            allow_backups: true,
            allow_erasure_redundancy: true,
            allow_lossy_summaries: true,
        }
    }
}

/// The durable format of a structure: its version, its checksum, and
/// whether it is forward compatible and recoverable on its own.
#[derive(Clone, Debug, PartialEq, Eq)]
pub struct DurableFormatDescriptor {
    pub structure: &'static str,
    pub format_version: u16,
    pub checksum: &'static str,
    pub forward_compatible: bool,
    pub independently_recoverable: bool,
}

/// `e` is a refused configuration with message `m`.
pub open spec fn is_invalid_config(e: PraxisError, m: Seq<char>) -> bool {
    e matches PraxisError::InvalidConfig(s) && s@ == m
}

/// Why a format is refused, if it is: no version, no checksum, or not
/// recoverable on its own, checked in that order.
pub open spec fn format_error(d: DurableFormatDescriptor) -> Option<Seq<char>> {
    if d.format_version == 0 {
        Some(d.structure@ + " has no durable format version"@)
    } else if d.checksum@.len() == 0 {
        Some(d.structure@ + " has no durable checksum"@)
    } else if !d.independently_recoverable {
        Some(d.structure@ + " is not independently recoverable"@)
    } else {
        None
    }
}

/// A check's result against the reason it should fail for, if any.
pub open spec fn check_result(r: Result<()>, why: Option<Seq<char>>) -> bool {
    match r {
        Ok(()) => why is None,
        Err(e) => why matches Some(m) && is_invalid_config(e, m),
    }
}

impl DurableFormatDescriptor {
    /// Refuse a format without a version, without a checksum, or not
    /// recoverable on its own.
    pub fn validate(&self) -> (r: Result<()>)
        ensures
            check_result(r, format_error(*self)),
    {
        if self.format_version == 0 {
            return Err(PraxisError::InvalidConfig(concat_str(self.structure, " has no durable format version")));
        }
        if self.checksum.unicode_len() == 0 {
            return Err(PraxisError::InvalidConfig(concat_str(self.structure, " has no durable checksum")));
        }
        if !self.independently_recoverable {
            return Err(PraxisError::InvalidConfig(concat_str(self.structure, " is not independently recoverable")));
        }
        Ok(())
    }
}

/// The measured cost of a storage operation, in whole units; the
/// amplification ratios are kept beside the library.
#[derive(Clone, Copy, Debug, PartialEq, Eq, Structural)]
pub struct StorageOperationMetrics {
    pub latency_us: u64,
    pub bytes_read: u64,
    pub bytes_written: u64,
    pub io_ops: u64,
    pub memory_bytes: u64,
    pub cpu_units: u64,
}

impl Default for StorageOperationMetrics {
    /// Nothing measured.
    fn default() -> (m: StorageOperationMetrics)
        ensures
            m == (StorageOperationMetrics {
                latency_us: 0,
                bytes_read: 0,
                bytes_written: 0,
                io_ops: 0,
                memory_bytes: 0,
                cpu_units: 0,
            }),
    {
        StorageOperationMetrics {
            latency_us: 0,
            bytes_read: 0,
            bytes_written: 0,
            io_ops: 0,
            memory_bytes: 0,
            cpu_units: 0,
        }
    }
}

/// Who owns a piece of memory.
#[derive(Clone, Copy, Debug, PartialEq, Eq, Structural)]
pub enum MemoryOwnership {
    Arena,
    Slab,
    Epoch,
    RefCount,
    PageLifetime,
    Borrowed,
    Owned,
}

/// A structure the manifest tracks: its logical name, its path and its
/// format version.
#[derive(Clone, Debug, PartialEq, Eq)]
pub struct ManifestTracked {
    pub logical_name: String,
    pub path: String,
    pub format_version: u16,
}

impl ManifestTracked {
    pub fn new(logical_name: &str, path: &str, format_version: u16) -> (t: ManifestTracked)
        ensures
            t.logical_name@ == logical_name@,
            t.path@ == path@,
            t.format_version == format_version,
    {
        ManifestTracked {
            logical_name: String::from_str(logical_name),
            path: String::from_str(path),
            format_version,
        }
    }
}

/// Why a recoverable structure is refused, if it is: its format's reason,
/// or an empty manifest path.
pub open spec fn recovery_error(d: DurableFormatDescriptor, manifest_path: Seq<char>) -> Option<Seq<char>> {
    if format_error(d) is Some {
        format_error(d)
    } else if manifest_path.len() == 0 {
        Some("recoverable structure has no manifest path"@)
    } else {
        None
    }
}

/// A structure that can be recovered from its durable form, for its
/// implementors to describe.
pub trait RecoverableStructure {
    /// The structure's durable format.
    spec fn spec_durable_format(&self) -> DurableFormatDescriptor;

    /// The path of the manifest that tracks it.
    spec fn spec_manifest_path(&self) -> Seq<char>;

    fn durable_format(&self) -> (d: DurableFormatDescriptor)
        ensures
            d == self.spec_durable_format(),
    ;

    fn manifest_path(&self) -> (p: &str)
        ensures
            p@ == self.spec_manifest_path(),
    ;

    /// Refuse a structure whose format is refused or that has no manifest
    /// path.
    fn validate_recovery_contract(&self) -> (r: Result<()>)
        ensures
            check_result(r, recovery_error(self.spec_durable_format(), self.spec_manifest_path())),
    {
        let d = self.durable_format();
        d.validate()?;
        if self.manifest_path().unicode_len() == 0 {
            return Err(PraxisError::InvalidConfig(String::from_str("recoverable structure has no manifest path")));
        }
        Ok(())
    }
}

/// The kinds of durable artifact.
#[derive(Clone, Copy, Debug, PartialEq, Eq, Structural)]
pub enum DurableArtifactKind {
    WalSegment,
    Manifest,
    RecordDirectory,
    ValueSegment,
    IndexSegment,
    Sstable,
    BTreePageFile,
    Checkpoint,
    TieredObject,
    ReplicationLog,
}

/// Where a durable artifact is in its life.
#[derive(Clone, Copy, Debug, PartialEq, Eq, Structural)]
pub enum DurableArtifactState {
    Created,
    Installed,
    Replaced,
    Deleted,
}

/// A durable artifact: its logical name, path, kind, state and format.
#[derive(Clone, Debug, PartialEq, Eq)]
pub struct DurableArtifactDescriptor {
    pub logical_name: String,
    pub path: String,
    pub kind: DurableArtifactKind,
    pub state: DurableArtifactState,
    pub format: DurableFormatDescriptor,
}

/// Why an artifact is refused, if it is: its format's reason, no logical
/// name, or no path, checked in that order.
pub open spec fn artifact_error(a: DurableArtifactDescriptor) -> Option<Seq<char>> {
    if format_error(a.format) is Some {
        format_error(a.format)
    } else if a.logical_name@.len() == 0 {
        Some("durable artifact has no logical name"@)
    } else if a.path@.len() == 0 {
        Some("durable artifact "@ + a.logical_name@ + " has no manifest path"@)
    } else {
        None
    }
}

impl DurableArtifactDescriptor {
    /// Refuse an artifact whose format is refused, or that has no logical
    /// name or no path.
    pub fn validate(&self) -> (r: Result<()>)
        ensures
            check_result(r, artifact_error(*self)),
    {
        self.format.validate()?;
        if self.logical_name.as_str().unicode_len() == 0 {
            return Err(PraxisError::InvalidConfig(String::from_str("durable artifact has no logical name")));
        }
        if self.path.as_str().unicode_len() == 0 {
            let m = concat_str("durable artifact ", self.logical_name.as_str());
            return Err(PraxisError::InvalidConfig(concat_str(m.as_str(), " has no manifest path")));
        }
        Ok(())
    }
}

/// The invariants a check went through.
#[derive(Clone, Debug, PartialEq, Eq)]
pub struct KernelInvariantReport {
    pub checked: Vec<KernelInvariant>,
}

impl Default for KernelInvariantReport {
    /// No invariant checked.
    fn default() -> (r: KernelInvariantReport)
        ensures
            r.checked@ == Seq::<KernelInvariant>::empty(),
    {
        KernelInvariantReport { checked: Vec::new() }
    }
}

/// The first reason, in order, that refuses one of the artifacts.
pub open spec fn first_artifact_error(s: Seq<DurableArtifactDescriptor>) -> Option<Seq<char>>
    decreases s.len(),
{
    if s.len() == 0 {
        None
    } else if first_artifact_error(s.drop_last()) is Some {
        first_artifact_error(s.drop_last())
    } else {
        artifact_error(s.last())
    }
}

/// The recovery steps, in the one order the kernel accepts.
pub open spec fn recovery_steps() -> Seq<Seq<char>> {
    seq![
        "wal_replay"@,
        "manifest_reconcile"@,
        "record_directory_repair"@,
        "index_replay"@,
        "compaction_cleanup"@,
        "tier_migration_cleanup"@,
    ]
}

/// Why a recovery plan is refused.
pub open spec fn recovery_plan_message() -> Seq<char> {
    "recovery plan must be deterministic and ordered as wal_replay -> manifest_reconcile -> record_directory_repair -> index_replay -> compaction_cleanup -> tier_migration_cleanup"@
}

/// Why a write is refused, if it is: made visible before the WAL was
/// durable, or without any measured cost.
pub open spec fn write_error(wal_durable: bool, visibility_applied: bool, m: StorageOperationMetrics) -> Option<Seq<char>> {
    if visibility_applied && !wal_durable {
        Some("write visibility cannot precede WAL durability"@)
    } else if m.latency_us == 0 && m.bytes_written == 0 && m.io_ops == 0 {
        Some("storage write completed without measurable operation metrics"@)
    } else {
        None
    }
}

/// A check's report against the reason it should fail for and the
/// invariants it goes through when it passes.
pub open spec fn report_result(r: Result<KernelInvariantReport>, why: Option<Seq<char>>, checked: Seq<KernelInvariant>) -> bool {
    match r {
        Ok(rep) => why is None && rep.checked@ == checked,
        Err(e) => why matches Some(m) && is_invalid_config(e, m),
    }
}

/// Checks of the kernel's invariants.
pub struct KernelInvariantValidator;

impl KernelInvariantValidator {
    /// Opening an engine: every durable artifact must pass.
    pub fn validate_engine_open(artifacts: &[DurableArtifactDescriptor]) -> (r: Result<KernelInvariantReport>)
        ensures
            report_result(
                r,
                first_artifact_error(artifacts@),
                seq![
                    KernelInvariant::DurableStructuresVersionedChecksummedRecoverable,
                    KernelInvariant::ManifestTrackedDurability,
                    KernelInvariant::DeterministicCrashRecovery,
                ],
            ),
    {
        Self::validate_durable_artifacts(artifacts)?;
        let mut checked: Vec<KernelInvariant> = Vec::new();
        checked.push(KernelInvariant::DurableStructuresVersionedChecksummedRecoverable);
        checked.push(KernelInvariant::ManifestTrackedDurability);
        checked.push(KernelInvariant::DeterministicCrashRecovery);
        proof {
            assert(checked@ =~= seq![
                KernelInvariant::DurableStructuresVersionedChecksummedRecoverable,
                KernelInvariant::ManifestTrackedDurability,
                KernelInvariant::DeterministicCrashRecovery,
            ]);
        }
        Ok(KernelInvariantReport { checked })
    }

    /// A write: visible only after the WAL is durable, and measured.
    pub fn validate_write(wal_durable: bool, visibility_applied: bool, metrics: StorageOperationMetrics) -> (r: Result<KernelInvariantReport>)
        ensures
            report_result(
                r,
                write_error(wal_durable, visibility_applied, metrics),
                seq![KernelInvariant::WalBeforeVisibility, KernelInvariant::MeasurableStorageOperations],
            ),
    {
        if visibility_applied && !wal_durable {
            return Err(PraxisError::InvalidConfig(String::from_str("write visibility cannot precede WAL durability")));
        }
        if metrics.latency_us == 0 && metrics.bytes_written == 0 && metrics.io_ops == 0 {
            return Err(
                PraxisError::InvalidConfig(String::from_str("storage write completed without measurable operation metrics")),
            );
        }
        let mut checked: Vec<KernelInvariant> = Vec::new();
        checked.push(KernelInvariant::WalBeforeVisibility);
        checked.push(KernelInvariant::MeasurableStorageOperations);
        proof {
            assert(checked@ =~= seq![KernelInvariant::WalBeforeVisibility, KernelInvariant::MeasurableStorageOperations]);
        }
        Ok(KernelInvariantReport { checked })
    }

    /// Every artifact must pass; the first one refused, in order, decides
    /// the error.
    pub fn validate_durable_artifacts(artifacts: &[DurableArtifactDescriptor]) -> (r: Result<KernelInvariantReport>)
        ensures
            report_result(
                r,
                first_artifact_error(artifacts@),
                seq![
                    KernelInvariant::DurableStructuresVersionedChecksummedRecoverable,
                    KernelInvariant::ManifestTrackedDurability,
                ],
            ),
    {
        let mut i: usize = 0;
        proof {
            assert(artifacts@.take(0) =~= Seq::<DurableArtifactDescriptor>::empty());
        }
        while i < artifacts.len()
            invariant
                i <= artifacts@.len(),
                first_artifact_error(artifacts@.take(i as int)) is None,
            decreases artifacts@.len() - i,
        {
            proof {
                assert(artifacts@.take(i + 1).drop_last() =~= artifacts@.take(i as int));
                assert(artifacts@.take(i + 1).last() == artifacts@[i as int]);
            }
            match artifacts[i].validate() {
                Ok(()) => {},
                Err(e) => {
                    proof {
                        lemma_first_error_prefix(artifacts@, i as int + 1);
                    }
                    return Err(e);
                },
            }
            i = i + 1;
        }
        proof {
            assert(artifacts@.take(i as int) =~= artifacts@);
        }
        let mut checked: Vec<KernelInvariant> = Vec::new();
        checked.push(KernelInvariant::DurableStructuresVersionedChecksummedRecoverable);
        checked.push(KernelInvariant::ManifestTrackedDurability);
        proof {
            assert(checked@ =~= seq![
                KernelInvariant::DurableStructuresVersionedChecksummedRecoverable,
                KernelInvariant::ManifestTrackedDurability,
            ]);
        }
        Ok(KernelInvariantReport { checked })
    }

    /// A recovery plan must name exactly the kernel's steps, in order.
    pub fn validate_recovery_plan(steps: &[&str]) -> (r: Result<KernelInvariantReport>)
        ensures
            report_result(
                r,
                if steps@.map_values(|s: &str| s@) == recovery_steps() {
                    None
                } else {
                    Some(recovery_plan_message())
                },
                seq![KernelInvariant::DeterministicCrashRecovery],
            ),
    {
        proof {
            reveal_strlit("wal_replay");
            reveal_strlit("manifest_reconcile");
            reveal_strlit("record_directory_repair");
            reveal_strlit("index_replay");
            reveal_strlit("compaction_cleanup");
            reveal_strlit("tier_migration_cleanup");
        }
        let expected: [&str; 6] = [
            "wal_replay",
            "manifest_reconcile",
            "record_directory_repair",
            "index_replay",
            "compaction_cleanup",
            "tier_migration_cleanup",
        ];
        let ghost want = recovery_steps();
        let ghost got = steps@.map_values(|s: &str| s@);
        let mut same = steps.len() == 6;
        if same {
            let mut i: usize = 0;
            while i < 6
                invariant
                    steps@.len() == 6,
                    got == steps@.map_values(|s: &str| s@),
                    want == recovery_steps(),
                    i <= 6,
                    forall|j: int| 0 <= j < 6 ==> (#[trigger] expected@[j])@ == want[j],
                    same ==> forall|j: int| 0 <= j < i ==> got[j] == want[j],
                    !same ==> got != want,
                decreases 6 - i,
            {
                if !str_equal(steps[i], expected[i]) {
                    proof {
                        assert(got[i as int] != want[i as int]);
                    }
                    same = false;
                }
                i = i + 1;
            }
            proof {
                if same {
                    assert(got =~= want);
                }
            }
        } else {
            proof {
                assert(got.len() != want.len());
            }
        }
        if !same {
            return Err(PraxisError::InvalidConfig(String::from_str(
                "recovery plan must be deterministic and ordered as wal_replay -> manifest_reconcile -> record_directory_repair -> index_replay -> compaction_cleanup -> tier_migration_cleanup",
            )));
        }
        let mut checked: Vec<KernelInvariant> = Vec::new();
        checked.push(KernelInvariant::DeterministicCrashRecovery);
        proof {
            assert(checked@ =~= seq![KernelInvariant::DeterministicCrashRecovery]);
        }
        Ok(KernelInvariantReport { checked })
    }
}

/// Once a prefix of the artifacts has a refused one, so do all longer
/// prefixes, with the same reason.
proof fn lemma_first_error_prefix(s: Seq<DurableArtifactDescriptor>, i: int)
    requires
        0 < i <= s.len(),
        first_artifact_error(s.take(i)) is Some,
    ensures
        first_artifact_error(s) == first_artifact_error(s.take(i)),
    decreases s.len() - i,
{
    if i < s.len() {
        assert(s.take(i + 1).drop_last() =~= s.take(i));
        lemma_first_error_prefix(s, i + 1);
    } else {
        assert(s.take(i) =~= s);
    }
}

} // verus!
