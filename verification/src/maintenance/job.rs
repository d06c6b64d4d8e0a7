//! Maintenance jobs and the records kept of them.
use vstd::prelude::*;

verus! {

/// How urgent a job is; `High` runs first.
#[derive(Clone, Copy, Debug, PartialEq, Eq, PartialOrd, Ord, Structural)]
pub enum JobPriority {
    High,
    Normal,
    Low,
}

/// How a compaction merges data.
#[derive(Clone, Copy, Debug, PartialEq, Eq, Structural)]
pub enum CompactionStrategy {
    Leveled,
    Tiered,
    Universal,
}

/// A unit of maintenance work.
#[derive(Clone, Debug)]
pub enum MaintenanceJob {
    Flush { reason: String },
    Compact { strategy: CompactionStrategy, reason: String },
}

/// The lane of workers a job runs on.
#[derive(Clone, Copy, Debug, PartialEq, Eq, PartialOrd, Ord, Structural)]
pub enum MaintenanceLane {
    Flush,
    Compaction,
    Admin,
}

/// A job waiting in the queue.
#[derive(Clone, Debug)]
pub struct QueuedJob {
    pub id: u64,
    pub priority: JobPriority,
    pub lane: MaintenanceLane,
    pub attempts: u8,
    pub queued_at_ms: u64,
    pub source_failed_job_id: Option<u64>,
    pub job: MaintenanceJob,
}

/// A job being run.
#[derive(Clone, Debug)]
pub struct RunningJobRecord {
    pub id: u64,
    pub priority: JobPriority,
    pub lane: MaintenanceLane,
    pub attempts: u8,
    pub queued_at_ms: u64,
    pub started_at_ms: u64,
    pub source_failed_job_id: Option<u64>,
    pub job: MaintenanceJob,
}

/// A job that failed.
#[derive(Clone, Debug)]
pub struct FailedJobRecord {
    pub id: u64,
    pub priority: JobPriority,
    pub lane: MaintenanceLane,
    pub attempts: u8,
    pub queued_at_ms: u64,
    pub started_at_ms: Option<u64>,
    pub finished_at_ms: u64,
    pub retryable: bool,
    pub last_error: String,
    pub source_failed_job_id: Option<u64>,
    pub job: MaintenanceJob,
}

/// The workers of one lane.
#[derive(Clone, Copy, Debug, PartialEq, Eq, Structural)]
pub struct RuntimeLaneConfig {
    pub workers: usize,
}

/// The workers of each lane and how long an idle worker sleeps.
#[derive(Clone, Copy, Debug, PartialEq, Eq, Structural)]
pub struct MaintenanceRuntimeConfig {
    pub flush: RuntimeLaneConfig,
    pub compaction: RuntimeLaneConfig,
    pub admin: RuntimeLaneConfig,
    pub idle_sleep_ms: u64,
}

impl Default for MaintenanceRuntimeConfig {
    /// One worker per lane; idle workers sleep 25 ms.
    fn default() -> (c: Self)
        ensures
            c.flush.workers == 1,
            c.compaction.workers == 1,
            c.admin.workers == 1,
            c.idle_sleep_ms == 25,
    {
        MaintenanceRuntimeConfig {
            flush: RuntimeLaneConfig { workers: 1 },
            compaction: RuntimeLaneConfig { workers: 1 },
            admin: RuntimeLaneConfig { workers: 1 },
            idle_sleep_ms: 25,
        }
    }
}

/// Whether the runtime runs, and its workers by lane name.
#[derive(Clone, Debug)]
pub struct RuntimeStatusSnapshot {
    pub running: bool,
    pub stop_requested: bool,
    pub started_at_ms: Option<u64>,
    pub workers_by_lane: Vec<(String, usize)>,
}

impl Default for RuntimeStatusSnapshot {
    /// Not running, no workers.
    fn default() -> (s: Self)
        ensures
            !s.running,
            !s.stop_requested,
            s.started_at_ms is None,
            s.workers_by_lane@.len() == 0,
    {
        RuntimeStatusSnapshot {
            running: false,
            stop_requested: false,
            started_at_ms: None,
            workers_by_lane: Vec::new(),
        }
    }
}

/// The state of maintenance: the queue's capacity, the retry limit, the
/// queued, running and failed jobs, and the runtime.
#[derive(Clone, Debug)]
pub struct MaintenanceStatusSnapshot {
    pub capacity: usize,
    pub retry_limit: u8,
    pub queued: Vec<QueuedJob>,
    pub running: Vec<RunningJobRecord>,
    pub failed: Vec<FailedJobRecord>,
    pub runtime: RuntimeStatusSnapshot,
}

} // verus!
