//! The maintenance runtime's controller: when it may start, which workers
//! a start brings up, lane by lane, stopping and joining, and the status it
//! reports. Spawning and joining the worker threads is the caller's.
use crate::errors::{Result, TridentError};
use crate::maintenance::job::{MaintenanceLane, MaintenanceRuntimeConfig, RuntimeStatusSnapshot};
use crate::text::{concat_str, dec_str, decimal_padded};
use vstd::prelude::*;
use vstd::string::*;

verus! {

/// The workers a start brings up: `n` of `lane`, numbered from 0.
pub open spec fn lane_workers(lane: MaintenanceLane, n: nat) -> Seq<(MaintenanceLane, usize)> {
    Seq::new(n, |i: int| (lane, i as usize))
}

/// All the workers of a configuration: flush, then compaction, then admin.
pub open spec fn planned_workers(c: MaintenanceRuntimeConfig) -> Seq<(MaintenanceLane, usize)> {
    lane_workers(MaintenanceLane::Flush, c.flush.workers as nat) + lane_workers(
        MaintenanceLane::Compaction,
        c.compaction.workers as nat,
    ) + lane_workers(MaintenanceLane::Admin, c.admin.workers as nat)
}

/// A lane's name as workers and the status show it.
pub open spec fn lane_name(lane: MaintenanceLane) -> Seq<char> {
    match lane {
        MaintenanceLane::Flush => "Flush"@,
        MaintenanceLane::Compaction => "Compaction"@,
        MaintenanceLane::Admin => "Admin"@,
    }
}

/// How many of the workers are of `lane`.
pub open spec fn lane_count(ws: Seq<MaintenanceLane>, lane: MaintenanceLane) -> nat {
    ws.filter(|l: MaintenanceLane| l == lane).len()
}

/// The status's lane counts: each lane with a worker, by lower-case name in
/// increasing order (admin, compaction, flush).
pub open spec fn lane_counts(ws: Seq<MaintenanceLane>) -> Seq<(Seq<char>, usize)> {
    let a = if lane_count(ws, MaintenanceLane::Admin) > 0 {
        seq![("admin"@, lane_count(ws, MaintenanceLane::Admin) as usize)]
    } else {
        Seq::empty()
    };
    let c = if lane_count(ws, MaintenanceLane::Compaction) > 0 {
        seq![("compaction"@, lane_count(ws, MaintenanceLane::Compaction) as usize)]
    } else {
        Seq::empty()
    };
    let f = if lane_count(ws, MaintenanceLane::Flush) > 0 {
        seq![("flush"@, lane_count(ws, MaintenanceLane::Flush) as usize)]
    } else {
        Seq::empty()
    };
    a + c + f
}

/// The name of a worker thread: `trident-`, its lane, `-`, its number.
pub fn worker_name(lane: MaintenanceLane, index: usize) -> (s: String)
    ensures
        s@ == "trident-"@ + lane_name(lane) + "-"@ + dec_str(index as nat),
{
    let l = match lane {
        MaintenanceLane::Flush => "Flush",
        MaintenanceLane::Compaction => "Compaction",
        MaintenanceLane::Admin => "Admin",
    };
    let a = concat_str("trident-", l);
    let b = concat_str(a.as_str(), "-");
    let d = decimal_padded(index as u64, 0);
    proof {
        assert(dec_str(index as u64 as nat) == dec_str(index as nat));
    }
    concat_str(b.as_str(), d.as_str())
}

/// Whether a runtime runs, its stop signal while it does, when it started,
/// its configuration, and the lane of each worker, in the order started.
#[derive(Debug)]
pub struct MaintenanceRuntimeController {
    stop: Option<bool>,
    started_at_ms: Option<u64>,
    config: Option<MaintenanceRuntimeConfig>,
    workers: Vec<MaintenanceLane>,
}

impl Default for MaintenanceRuntimeController {
    /// Not running.
    fn default() -> (c: MaintenanceRuntimeController)
        ensures
            c.stop_signal() is None,
            c.started() is None,
            c.spec_config() is None,
            c.worker_lanes() == Seq::<MaintenanceLane>::empty(),
    {
        MaintenanceRuntimeController { stop: None, started_at_ms: None, config: None, workers: Vec::new() }
    }
}

/// The error that a start of a running runtime gets.
pub open spec fn already_running(e: TridentError) -> bool {
    e is MaintenanceRuntimeRunning
}

impl MaintenanceRuntimeController {
    /// The stop signal: none unless started, then whether a stop was asked.
    pub closed spec fn stop_signal(&self) -> Option<bool> {
        self.stop
    }

    pub closed spec fn started(&self) -> Option<u64> {
        self.started_at_ms
    }

    pub closed spec fn spec_config(&self) -> Option<MaintenanceRuntimeConfig> {
        self.config
    }

    /// The lane of each worker, in the order started.
    pub closed spec fn worker_lanes(&self) -> Seq<MaintenanceLane> {
        self.workers@
    }

    /// Whether workers run.
    pub fn is_running(&self) -> (b: bool)
        ensures
            b == (self.worker_lanes().len() > 0),
    {
        self.workers.len() > 0
    }

    /// Start with `config` at `now_ms`: refused while running, or without
    /// any worker. Otherwise the workers to bring up are returned, flush
    /// ones, then compaction ones, then admin ones, each lane numbered from
    /// 0, and the runtime records them, its start time, its configuration
    /// and a stop signal not yet given.
    pub fn start(&mut self, config: MaintenanceRuntimeConfig, now_ms: u64) -> (r: Result<Vec<(MaintenanceLane, usize)>>)
        requires
            config.flush.workers + config.compaction.workers + config.admin.workers <= usize::MAX,
        ensures
            old(self).worker_lanes().len() > 0 ==> (r matches Err(e) && already_running(e)) && *final(self) == *old(self),
            old(self).worker_lanes().len() == 0 && config.flush.workers + config.compaction.workers + config.admin.workers == 0
                ==> (r matches Err(e) && e matches TridentError::InvalidConfig(m) && m@ == "maintenance runtime requires at least one worker"@)
                && *final(self) == *old(self),
            r matches Ok(plan) ==> {
                &&& plan@ == planned_workers(config)
                &&& final(self).worker_lanes() == plan@.map_values(|w: (MaintenanceLane, usize)| w.0)
                &&& final(self).started() == Some(now_ms)
                &&& final(self).spec_config() == Some(config)
                &&& final(self).stop_signal() == Some(false)
            },
            old(self).worker_lanes().len() == 0 && config.flush.workers + config.compaction.workers + config.admin.workers > 0
                ==> r is Ok,
    {
        if self.workers.len() > 0 {
            return Err(TridentError::MaintenanceRuntimeRunning);
        }
        let total = config.flush.workers + config.compaction.workers + config.admin.workers;
        if total == 0 {
            return Err(TridentError::InvalidConfig(String::from_str("maintenance runtime requires at least one worker")));
        }
        let mut plan: Vec<(MaintenanceLane, usize)> = Vec::new();
        let mut lanes: Vec<MaintenanceLane> = Vec::new();
        let ghost want = planned_workers(config);
        let ghost f = lane_workers(MaintenanceLane::Flush, config.flush.workers as nat);
        let ghost c = lane_workers(MaintenanceLane::Compaction, config.compaction.workers as nat);
        let ghost a = lane_workers(MaintenanceLane::Admin, config.admin.workers as nat);
        let mut i: usize = 0;
        while i < config.flush.workers
            invariant
                f == lane_workers(MaintenanceLane::Flush, config.flush.workers as nat),
                i <= config.flush.workers,
                plan@ == f.take(i as int),
                lanes@ == plan@.map_values(|w: (MaintenanceLane, usize)| w.0),
            decreases config.flush.workers - i,
        {
            plan.push((MaintenanceLane::Flush, i));
            lanes.push(MaintenanceLane::Flush);
            proof {
                assert(plan@ =~= f.take(i + 1));
                assert(lanes@ =~= plan@.map_values(|w: (MaintenanceLane, usize)| w.0));
            }
            i = i + 1;
        }
        proof {
            assert(f.take(i as int) =~= f);
        }
        let mut j: usize = 0;
        while j < config.compaction.workers
            invariant
                f == lane_workers(MaintenanceLane::Flush, config.flush.workers as nat),
                c == lane_workers(MaintenanceLane::Compaction, config.compaction.workers as nat),
                j <= config.compaction.workers,
                plan@ == f + c.take(j as int),
                lanes@ == plan@.map_values(|w: (MaintenanceLane, usize)| w.0),
            decreases config.compaction.workers - j,
        {
            plan.push((MaintenanceLane::Compaction, j));
            lanes.push(MaintenanceLane::Compaction);
            proof {
                assert(plan@ =~= f + c.take(j + 1));
                assert(lanes@ =~= plan@.map_values(|w: (MaintenanceLane, usize)| w.0));
            }
            j = j + 1;
        }
        proof {
            assert(c.take(j as int) =~= c);
        }
        let mut k: usize = 0;
        while k < config.admin.workers
            invariant
                f == lane_workers(MaintenanceLane::Flush, config.flush.workers as nat),
                c == lane_workers(MaintenanceLane::Compaction, config.compaction.workers as nat),
                a == lane_workers(MaintenanceLane::Admin, config.admin.workers as nat),
                k <= config.admin.workers,
                plan@ == f + c + a.take(k as int),
                lanes@ == plan@.map_values(|w: (MaintenanceLane, usize)| w.0),
            decreases config.admin.workers - k,
        {
            plan.push((MaintenanceLane::Admin, k));
            lanes.push(MaintenanceLane::Admin);
            proof {
                assert(plan@ =~= f + c + a.take(k + 1));
                assert(lanes@ =~= plan@.map_values(|w: (MaintenanceLane, usize)| w.0));
            }
            k = k + 1;
        }
        proof {
            assert(a.take(k as int) =~= a);
            assert(plan@ =~= want);
        }
        self.stop = Some(false);
        self.started_at_ms = Some(now_ms);
        self.config = Some(config);
        self.workers = lanes;
        Ok(plan)
    }

    /// Ask the workers to stop; refused when the runtime was not started.
    pub fn stop(&mut self) -> (r: Result<()>)
        ensures
            old(self).stop_signal() is None ==> (r matches Err(e) && e is MaintenanceRuntimeNotRunning) && *final(self) == *old(self),
            old(self).stop_signal() is Some ==> r is Ok && final(self).stop_signal() == Some(true),
            final(self).worker_lanes() == old(self).worker_lanes(),
            final(self).started() == old(self).started(),
            final(self).spec_config() == old(self).spec_config(),
    {
        if self.stop.is_none() {
            return Err(TridentError::MaintenanceRuntimeNotRunning);
        }
        self.stop = Some(true);
        Ok(())
    }

    /// Record that the workers were joined: refused when none runs;
    /// otherwise the runtime is back to not running.
    pub fn join(&mut self) -> (r: Result<()>)
        ensures
            old(self).worker_lanes().len() == 0 ==> (r matches Err(e) && e is MaintenanceRuntimeNotRunning) && *final(self) == *old(self),
            old(self).worker_lanes().len() > 0 ==> {
                &&& r is Ok
                &&& final(self).worker_lanes() == Seq::<MaintenanceLane>::empty()
                &&& final(self).stop_signal() is None
                &&& final(self).started() is None
                &&& final(self).spec_config() is None
            },
    {
        if self.workers.len() == 0 {
            return Err(TridentError::MaintenanceRuntimeNotRunning);
        }
        self.workers = Vec::new();
        self.stop = None;
        self.started_at_ms = None;
        self.config = None;
        Ok(())
    }

    /// Whether it runs, whether a stop was asked, when it started, and its
    /// workers counted by lower-case lane name, in name order.
    pub fn status(&self) -> (s: RuntimeStatusSnapshot)
        ensures
            s.running == (self.worker_lanes().len() > 0),
            s.stop_requested == (self.stop_signal() == Some(true)),
            s.started_at_ms == self.started(),
            s.workers_by_lane@.map_values(|e: (String, usize)| (e.0@, e.1)) == lane_counts(self.worker_lanes()),
    {
        let ghost ws = self.workers@;
        let mut na: usize = 0;
        let mut nc: usize = 0;
        let mut nf: usize = 0;
        let mut i: usize = 0;
        proof {
            reveal(Seq::filter);
            assert(ws.take(0) =~= Seq::<MaintenanceLane>::empty());
        }
        while i < self.workers.len()
            invariant
                ws == self.workers@,
                i <= ws.len(),
                na == lane_count(ws.take(i as int), MaintenanceLane::Admin),
                nc == lane_count(ws.take(i as int), MaintenanceLane::Compaction),
                nf == lane_count(ws.take(i as int), MaintenanceLane::Flush),
                na + nc + nf == i,
            decreases ws.len() - i,
        {
            proof {
                reveal(Seq::filter);
                assert(ws.take(i + 1).drop_last() =~= ws.take(i as int));
                assert(ws.take(i + 1).last() == ws[i as int]);
            }
            match self.workers[i] {
                MaintenanceLane::Admin => {
                    na = na + 1;
                },
                MaintenanceLane::Compaction => {
                    nc = nc + 1;
                },
                MaintenanceLane::Flush => {
                    nf = nf + 1;
                },
            }
            i = i + 1;
        }
        proof {
            assert(ws.take(i as int) =~= ws);
        }
        let mut counts: Vec<(String, usize)> = Vec::new();
        if na > 0 {
            counts.push((String::from_str("admin"), na));
        }
        if nc > 0 {
            counts.push((String::from_str("compaction"), nc));
        }
        if nf > 0 {
            counts.push((String::from_str("flush"), nf));
        }
        proof {
            assert(counts@.map_values(|e: (String, usize)| (e.0@, e.1)) =~= lane_counts(ws));
        }
        let stop_requested = match self.stop {
            Some(b) => b,
            None => false,
        };
        RuntimeStatusSnapshot {
            running: self.workers.len() > 0,
            stop_requested,
            started_at_ms: self.started_at_ms,
            workers_by_lane: counts,
        }
    }
}

} // verus!
