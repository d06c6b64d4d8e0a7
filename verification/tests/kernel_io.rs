use trident::errors::TridentError;
use trident::identity::{Cid, Eid, Fid, Pid};
use trident::io::capability::{
    direct_io_length_compatible, direct_io_write_compatible, fall_back, plan_read, plan_write,
    resolve_io_execution, IoCapability,
};
use trident::io::compression::{decode_block, encode_block, Compression};
use trident::io::hardware::{HardwareBackend, HardwareCapability, HardwareIoProfile, HardwareOperation};
use trident::io::rate_limiter::IoRateLimiter;
use trident::kernel::{
    CanonicalValuePolicy, DurableArtifactDescriptor, DurableArtifactKind, DurableArtifactState,
    DurableFormatDescriptor, KernelInvariant, KernelInvariantValidator, ManifestTracked,
    StorageOperationMetrics, ValueStore,
};
use trident::layout::PraxisLayout;
use trident::maintenance::job::{
    JobPriority, MaintenanceJob, MaintenanceLane, MaintenanceRuntimeConfig, QueuedJob, RuntimeLaneConfig,
};
use trident::maintenance::scheduler::MaintenanceScheduler;
use trident::maintenance::runtime::{worker_name, MaintenanceRuntimeController};
use trident::manifest::{ManifestEdit, ManifestEditKind, ManifestTrackedFile, PageLayoutManifest, PageManifestStore};
use trident::memory::manager::{AdaptiveMemoryQuota, MemoryManager, MemoryPoolKind, SpillPolicy};

fn invalid(e: TridentError) -> String {
    match e {
        TridentError::InvalidConfig(m) => m,
        other => panic!("unexpected {:?}", other),
    }
}

fn format(structure: &'static str) -> DurableFormatDescriptor {
    DurableFormatDescriptor {
        structure,
        format_version: 1,
        checksum: "crc32c",
        forward_compatible: true,
        independently_recoverable: true,
    }
}

#[test]
fn durable_format_refusals_in_order() {
    assert!(format("wal").validate().is_ok());
    let mut f = format("wal");
    f.format_version = 0;
    f.checksum = "";
    assert_eq!(invalid(f.validate().unwrap_err()), "wal has no durable format version");
    let mut f = format("wal");
    f.checksum = "";
    assert_eq!(invalid(f.validate().unwrap_err()), "wal has no durable checksum");
    let mut f = format("wal");
    f.independently_recoverable = false;
    assert_eq!(invalid(f.validate().unwrap_err()), "wal is not independently recoverable");
}

#[test]
fn artifacts_checked_in_order() {
    let good = DurableArtifactDescriptor {
        logical_name: "wal-1".to_string(),
        path: "wal/000001.wal".to_string(),
        kind: DurableArtifactKind::WalSegment,
        state: DurableArtifactState::Installed,
        format: format("wal"),
    };
    let mut no_path = good.clone();
    no_path.path = String::new();
    let mut no_name = good.clone();
    no_name.logical_name = String::new();
    let r = KernelInvariantValidator::validate_engine_open(&[good.clone()]).unwrap();
    assert_eq!(
        r.checked,
        vec![
            KernelInvariant::DurableStructuresVersionedChecksummedRecoverable,
            KernelInvariant::ManifestTrackedDurability,
            KernelInvariant::DeterministicCrashRecovery,
        ]
    );
    let e = KernelInvariantValidator::validate_durable_artifacts(&[good.clone(), no_path, no_name]).unwrap_err();
    assert_eq!(invalid(e), "durable artifact wal-1 has no manifest path");
    let mut no_name = good.clone();
    no_name.logical_name = String::new();
    assert_eq!(invalid(no_name.validate().unwrap_err()), "durable artifact has no logical name");
    assert_eq!(KernelInvariantValidator::validate_durable_artifacts(&[]).unwrap().checked.len(), 2);
}

#[test]
fn write_and_recovery_checks() {
    let mut m = StorageOperationMetrics::default();
    assert_eq!(
        invalid(KernelInvariantValidator::validate_write(false, true, m).unwrap_err()),
        "write visibility cannot precede WAL durability"
    );
    assert_eq!(
        invalid(KernelInvariantValidator::validate_write(true, true, m).unwrap_err()),
        "storage write completed without measurable operation metrics"
    );
    m.io_ops = 1;
    let r = KernelInvariantValidator::validate_write(true, true, m).unwrap();
    assert_eq!(r.checked, vec![KernelInvariant::WalBeforeVisibility, KernelInvariant::MeasurableStorageOperations]);
    let plan = [
        "wal_replay",
        "manifest_reconcile",
        "record_directory_repair",
        "index_replay",
        "compaction_cleanup",
        "tier_migration_cleanup",
    ];
    let r = KernelInvariantValidator::validate_recovery_plan(&plan).unwrap();
    assert_eq!(r.checked, vec![KernelInvariant::DeterministicCrashRecovery]);
    let e = KernelInvariantValidator::validate_recovery_plan(&plan[..5]).unwrap_err();
    assert_eq!(
        invalid(e),
        "recovery plan must be deterministic and ordered as wal_replay -> manifest_reconcile -> record_directory_repair -> index_replay -> compaction_cleanup -> tier_migration_cleanup"
    );
    let swapped = [plan[1], plan[0], plan[2], plan[3], plan[4], plan[5]];
    assert!(KernelInvariantValidator::validate_recovery_plan(&swapped).is_err());
}

#[test]
fn kernel_small_types() {
    let p = CanonicalValuePolicy::strict();
    assert!(p.canonical_values_single_copy && p.allow_replicas && p.allow_lossy_summaries);
    let t = ManifestTracked::new("wal", "wal/1.wal", 3);
    assert_eq!(t.logical_name, "wal");
    assert_eq!(t.path, "wal/1.wal");
    assert_eq!(t.format_version, 3);
    let v = ValueStore::default();
    assert_eq!(v.name, "value_store");
    assert!(v.canonical_owner);
}

#[test]
fn hardware_profile_defaults() {
    let p = HardwareIoProfile::default();
    assert_eq!(p.capabilities.len(), 9);
    assert!(p.supports(HardwareBackend::BufferedIo, HardwareOperation::Read));
    assert!(p.supports(HardwareBackend::Simd, HardwareOperation::Checksum));
    assert!(!p.supports(HardwareBackend::IoUring, HardwareOperation::Read));
    assert!(!p.supports(HardwareBackend::Gpu, HardwareOperation::Read));
    assert!(p.has_cpu_fallback(HardwareOperation::AnnScoring));
    assert!(!p.has_cpu_fallback(HardwareOperation::BloomProbe));
    let c = HardwareCapability::portable(HardwareBackend::Rdma, HardwareOperation::Write);
    assert!(!c.available && c.cpu_fallback);
}

fn capability(supported: bool) -> IoCapability {
    IoCapability {
        platform: "linux".to_string(),
        direct_io_supported: supported,
        direct_io_mode: "o_direct".to_string(),
        fallback_mode: "buffered_io".to_string(),
    }
}

#[test]
fn io_execution_resolution() {
    let e = resolve_io_execution(&capability(true), true);
    assert_eq!(e.effective_mode, "o_direct");
    assert_eq!(e.requested_mode, "o_direct");
    assert_eq!(e.fallback_reason, None);
    let e = resolve_io_execution(&capability(false), true);
    assert_eq!(e.effective_mode, "buffered_io");
    assert_eq!(e.requested_mode, "o_direct");
    assert_eq!(e.fallback_reason.as_deref(), Some("platform_not_supported"));
    let e = resolve_io_execution(&capability(true), false);
    assert_eq!(e.effective_mode, "buffered_io");
    assert_eq!(e.requested_mode, "buffered_io");
    assert_eq!(e.fallback_reason, None);
}

#[test]
fn unaligned_write_plan_falls_back_explicitly() {
    let mut e = resolve_io_execution(&capability(true), true);
    assert_eq!(plan_write(&mut e, b"abc"), (false, true));
    assert_eq!(e.effective_mode, "buffered_io");
    assert_eq!(e.fallback_reason.as_deref(), Some("unaligned_payload"));
    let mut e = resolve_io_execution(&capability(true), true);
    assert_eq!(plan_write(&mut e, &vec![0u8; 8192]), (true, false));
    assert_eq!(e.effective_mode, "o_direct");
    let mut e = resolve_io_execution(&capability(false), true);
    assert_eq!(plan_write(&mut e, b"abc"), (false, false));
    assert_eq!(e.fallback_reason.as_deref(), Some("platform_not_supported"));
    assert!(direct_io_write_compatible(&[0u8; 4096]));
    assert!(!direct_io_write_compatible(&[]));
    assert!(direct_io_length_compatible(0));
    assert!(!direct_io_length_compatible(3));
    let mut e = resolve_io_execution(&capability(true), true);
    fall_back(&mut e, "unaligned_file_length".to_string());
    assert_eq!(e.effective_mode, "buffered_io");
    assert_eq!(e.fallback_reason.as_deref(), Some("unaligned_file_length"));
}

#[test]
fn rate_limiter_reports_overrun() {
    let mut l = IoRateLimiter::new(100);
    assert_eq!(l.consume(60, false), (false, 0));
    assert_eq!(l.consume(60, false), (false, 20));
    assert_eq!(l.consume(10, true), (true, 0));
    assert_eq!(l.consume(0, true), (false, 0));
    let mut free = IoRateLimiter::new(0);
    assert_eq!(free.consume(1_000_000, false), (false, 0));
    assert_eq!(free.bytes_per_second(), 0);
}

#[test]
fn compression_roundtrips() {
    let data: Vec<u8> = b"hello hello hello hello hello world".to_vec();
    for codec in [Compression::Uncompressed, Compression::Lz4, Compression::Zstd] {
        let enc = encode_block(codec, &data).unwrap();
        assert_eq!(decode_block(codec, &enc).unwrap(), data);
    }
    let lz = encode_block(Compression::Lz4, &data).unwrap();
    assert_eq!(&lz[0..4], &(data.len() as u32).to_le_bytes());
    match decode_block(Compression::Lz4, &[1, 2]) {
        Err(TridentError::InvalidConfig(m)) => assert!(m.starts_with("lz4 decompression failed: ")),
        other => panic!("unexpected {:?}", other),
    }
    assert!(matches!(decode_block(Compression::Zstd, b"not zstd"), Err(TridentError::Io(_))));
}

#[test]
fn manifest_edits() {
    let f = ManifestTrackedFile::durable("a/b.page", "page", 2, "deadbeef");
    assert!(f.recoverable);
    let e = ManifestEdit::add_file(7, f.clone());
    assert_eq!(e.sequence, 7);
    assert_eq!(e.kind, ManifestEditKind::AddFile);
    assert_eq!(e.file, Some(f));
}

#[test]
fn page_manifest_upsert_sorts_and_replaces() {
    let mut m = PageLayoutManifest::default();
    m.upsert_file(ManifestTrackedFile::durable("b", "page", 1, "1"));
    m.upsert_file(ManifestTrackedFile::durable("a", "page", 1, "2"));
    m.upsert_file(ManifestTrackedFile::durable("c", "page", 1, "3"));
    let paths: Vec<&str> = m.files.iter().map(|f| f.path.as_str()).collect();
    assert_eq!(paths, vec!["a", "b", "c"]);
    m.upsert_file(ManifestTrackedFile::durable("b", "slot", 4, "9"));
    assert_eq!(m.files.len(), 3);
    assert_eq!(m.files[1].format, "slot");
    assert_eq!(m.files[1].format_version, 4);
}

#[test]
fn page_manifest_bytes_roundtrip_and_track_bytes() {
    let store = PageManifestStore::open("/data/.praxis/catalog/page-layout.manifest");
    let mut m = PageLayoutManifest::default();
    store.track_bytes(&mut m, "x/1.page", "page", 1, b"123456789");
    assert_eq!(m.files[0].checksum, "e3069283");
    store.track_file(&mut m, ManifestTrackedFile::durable("w/2.page", "page", 7, "00000000"));
    let bytes = store.encode(&m);
    assert_eq!(&bytes[0..4], &0x5450_4d46u32.to_le_bytes());
    let back = store.decode(&bytes).unwrap();
    assert_eq!(back, m);
    let mut bad = bytes.clone();
    bad[4] = 3;
    match store.decode(&bad) {
        Err(TridentError::Corrupt { path, reason }) => {
            assert_eq!(path, "/data/.praxis/catalog/page-layout.manifest");
            assert_eq!(reason, "unsupported page manifest version 3");
        }
        other => panic!("unexpected {:?}", other),
    }
    match store.decode(&bytes[..12]) {
        Err(TridentError::Corrupt { reason, .. }) => assert_eq!(reason, "truncated page manifest header"),
        other => panic!("unexpected {:?}", other),
    }
}

#[test]
fn layout_paths() {
    let l = PraxisLayout::new("/srv");
    assert_eq!(l.root(), "/srv/.praxis");
    assert_eq!(l.catalog_root(), "/srv/.praxis/catalog");
    assert_eq!(l.page_manifest_path().path, "/srv/.praxis/catalog/page-layout.manifest");
    let c = Cid(1);
    let e = Eid(2);
    let page = l.page_path(c, e, Fid(3), Pid(4));
    let expected = format!(
        "/srv/.praxis/data/{}/entities/{}/pages/frames/{}/pages/{}.page",
        c.to_hex(),
        e.to_hex(),
        Fid(3).to_hex(),
        Pid(4).to_hex()
    );
    assert_eq!(page.path, expected);
}

#[test]
fn memory_manager_quotas_and_spill() {
    let mut m = MemoryManager::default();
    assert!(m.reserve(MemoryPoolKind::Arena, 1000));
    m.set_quota(MemoryPoolKind::Slab, AdaptiveMemoryQuota { hard_limit_bytes: 100, soft_limit_bytes: 50 });
    assert!(m.reserve(MemoryPoolKind::Slab, 60));
    assert!(!m.reserve(MemoryPoolKind::Slab, 41));
    assert!(m.reserve(MemoryPoolKind::Slab, 40));
    assert_eq!(m.used_bytes(MemoryPoolKind::Slab), 100);
    m.release(MemoryPoolKind::Slab, 150);
    assert_eq!(m.used_bytes(MemoryPoolKind::Slab), 0);
    let policy = SpillPolicy { threshold_bytes: 1000, spill_to_disk: true };
    assert!(m.should_spill(MemoryPoolKind::Arena, policy));
    assert!(!m.should_spill(MemoryPoolKind::Slab, policy));
    assert!(!m.should_spill(MemoryPoolKind::Arena, SpillPolicy { threshold_bytes: 0, spill_to_disk: false }));
}

#[test]
fn maintenance_runtime_lifecycle() {
    let mut c = MaintenanceRuntimeController::default();
    assert!(matches!(c.stop(), Err(TridentError::MaintenanceRuntimeNotRunning)));
    assert!(matches!(c.join(), Err(TridentError::MaintenanceRuntimeNotRunning)));
    let none = MaintenanceRuntimeConfig {
        flush: RuntimeLaneConfig { workers: 0 },
        compaction: RuntimeLaneConfig { workers: 0 },
        admin: RuntimeLaneConfig { workers: 0 },
        idle_sleep_ms: 5,
    };
    assert_eq!(invalid(c.start(none, 1).unwrap_err()), "maintenance runtime requires at least one worker");
    let config = MaintenanceRuntimeConfig {
        flush: RuntimeLaneConfig { workers: 2 },
        compaction: RuntimeLaneConfig { workers: 0 },
        admin: RuntimeLaneConfig { workers: 1 },
        idle_sleep_ms: 5,
    };
    let plan = c.start(config, 1000).unwrap();
    assert_eq!(plan, vec![(MaintenanceLane::Flush, 0), (MaintenanceLane::Flush, 1), (MaintenanceLane::Admin, 0)]);
    assert!(matches!(c.start(config, 2000), Err(TridentError::MaintenanceRuntimeRunning)));
    let s = c.status();
    assert!(s.running && !s.stop_requested);
    assert_eq!(s.started_at_ms, Some(1000));
    assert_eq!(s.workers_by_lane, vec![("admin".to_string(), 1), ("flush".to_string(), 2)]);
    c.stop().unwrap();
    assert!(c.status().stop_requested);
    c.join().unwrap();
    let s = c.status();
    assert!(!s.running && s.workers_by_lane.is_empty() && s.started_at_ms.is_none());
    assert_eq!(worker_name(MaintenanceLane::Compaction, 3), "trident-Compaction-3");
}

fn queued(priority: JobPriority, reason: &str) -> QueuedJob {
    QueuedJob {
        id: 0,
        priority,
        lane: MaintenanceLane::Flush,
        attempts: 0,
        queued_at_ms: 5,
        source_failed_job_id: None,
        job: MaintenanceJob::Flush { reason: reason.to_string() },
    }
}

#[test]
fn scheduler_runs_higher_priority_first_and_numbers_jobs() {
    let mut s = MaintenanceScheduler::new();
    assert!(s.is_empty());
    assert_eq!(s.enqueue(queued(JobPriority::Low, "a")), 1);
    assert_eq!(s.enqueue(queued(JobPriority::High, "b")), 2);
    assert_eq!(s.enqueue(queued(JobPriority::Normal, "c")), 3);
    assert_eq!(s.enqueue(queued(JobPriority::High, "d")), 4);
    assert_eq!(s.len(), 4);
    let order: Vec<u64> = (0..4).map(|_| s.dequeue().unwrap().id).collect();
    assert_eq!(order, vec![2, 4, 3, 1]);
    assert!(s.dequeue().is_none());
    assert!(s.is_empty());
}

#[test]
fn read_plan_falls_back_for_unaligned_length() {
    let mut e = resolve_io_execution(&capability(true), true);
    assert!(plan_read(&mut e, 8192));
    assert_eq!(e.effective_mode, "o_direct");
    assert!(plan_read(&mut e, 0));
    let mut e = resolve_io_execution(&capability(true), true);
    assert!(!plan_read(&mut e, 100));
    assert_eq!(e.effective_mode, "buffered_io");
    assert_eq!(e.fallback_reason.as_deref(), Some("unaligned_file_length"));
    let mut e = resolve_io_execution(&capability(false), true);
    assert!(!plan_read(&mut e, 4096));
    assert_eq!(e.fallback_reason.as_deref(), Some("platform_not_supported"));
    let mut e = resolve_io_execution(&capability(true), false);
    assert!(!plan_read(&mut e, 4096));
    assert_eq!(e.fallback_reason, None);
}

#[test]
fn upsert_keeps_paths_sorted_and_replaces_in_place() {
    let mut m = PageLayoutManifest::default();
    m.upsert_file(ManifestTrackedFile::durable("m", "page", 1, "1"));
    m.upsert_file(ManifestTrackedFile::durable("b", "page", 1, "2"));
    m.upsert_file(ManifestTrackedFile::durable("x", "page", 1, "3"));
    m.upsert_file(ManifestTrackedFile::durable("b", "page", 2, "4"));
    let paths: Vec<&str> = m.files.iter().map(|f| f.path.as_str()).collect();
    assert_eq!(paths, vec!["b", "m", "x"]);
    assert_eq!(m.files.len(), 3);
}
