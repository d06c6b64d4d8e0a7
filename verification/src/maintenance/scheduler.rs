//! The maintenance queue: jobs by priority, first in first out within a
//! priority, each numbered as it arrives.
use crate::maintenance::job::{JobPriority, QueuedJob};
use std::collections::VecDeque;
use vstd::prelude::*;

verus! {

/// What the queue holds: the last number handed out and the jobs of each
/// priority in arrival order.
pub struct SchedulerView {
    pub next_id: u64,
    pub high: Seq<QueuedJob>,
    pub normal: Seq<QueuedJob>,
    pub low: Seq<QueuedJob>,
}

/// A job with its number and priority set.
pub open spec fn numbered(job: QueuedJob, id: u64) -> QueuedJob {
    QueuedJob { id, ..job }
}

/// The queue of maintenance jobs.
#[derive(Debug)]
pub struct MaintenanceScheduler {
    next_id: u64,
    high: VecDeque<QueuedJob>,
    normal: VecDeque<QueuedJob>,
    low: VecDeque<QueuedJob>,
}

impl View for MaintenanceScheduler {
    type V = SchedulerView;

    closed spec fn view(&self) -> SchedulerView {
        SchedulerView { next_id: self.next_id, high: self.high@, normal: self.normal@, low: self.low@ }
    }
}

impl Default for MaintenanceScheduler {
    fn default() -> (s: Self)
        ensures
            s@ == (SchedulerView {
                next_id: 0,
                high: Seq::empty(),
                normal: Seq::empty(),
                low: Seq::empty(),
            }),
    {
        MaintenanceScheduler {
            next_id: 0,
            high: VecDeque::new(),
            normal: VecDeque::new(),
            low: VecDeque::new(),
        }
    }
}

/// The order in which the queued jobs come out: the high-priority ones,
/// then the normal ones, then the low ones, each oldest first.
pub open spec fn drain_order(v: SchedulerView) -> Seq<QueuedJob> {
    v.high + v.normal + v.low
}

/// The number a job gets: one more than the last (stuck at `u64::MAX`).
pub open spec fn next_number(n: u64) -> u64 {
    if n == u64::MAX {
        n
    } else {
        (n + 1) as u64
    }
}

impl MaintenanceScheduler {
    /// An empty queue.
    pub fn new() -> (s: Self)
        ensures
            s@ == (SchedulerView {
                next_id: 0,
                high: Seq::empty(),
                normal: Seq::empty(),
                low: Seq::empty(),
            }),
    {
        Self::default()
    }

    /// Number the job and queue it behind those of its priority; the
    /// number is returned.
    pub fn enqueue(&mut self, job: QueuedJob) -> (id: u64)
        ensures
            id == next_number(old(self)@.next_id),
            final(self)@.next_id == id,
            final(self)@.high == if job.priority == JobPriority::High {
                old(self)@.high.push(numbered(job, id))
            } else {
                old(self)@.high
            },
            final(self)@.normal == if job.priority == JobPriority::Normal {
                old(self)@.normal.push(numbered(job, id))
            } else {
                old(self)@.normal
            },
            final(self)@.low == if job.priority == JobPriority::Low {
                old(self)@.low.push(numbered(job, id))
            } else {
                old(self)@.low
            },
    {
        let mut job = job;
        self.next_id = self.next_id.saturating_add(1);
        job.id = self.next_id;
        match job.priority {
            JobPriority::High => self.high.push_back(job),
            JobPriority::Normal => self.normal.push_back(job),
            JobPriority::Low => self.low.push_back(job),
        }
        self.next_id
    }

    /// The oldest job of the highest priority that has one.
    pub fn dequeue(&mut self) -> (r: Option<QueuedJob>)
        ensures
            final(self)@.next_id == old(self)@.next_id,
            drain_order(old(self)@).len() == 0 ==> r is None && drain_order(final(self)@) == drain_order(old(self)@),
            drain_order(old(self)@).len() > 0 ==> r == Some(drain_order(old(self)@)[0])
                && drain_order(final(self)@) == drain_order(old(self)@).drop_first(),
            if old(self)@.high.len() > 0 {
                &&& r == Some(old(self)@.high[0])
                &&& final(self)@.high == old(self)@.high.drop_first()
                &&& final(self)@.normal == old(self)@.normal
                &&& final(self)@.low == old(self)@.low
            } else if old(self)@.normal.len() > 0 {
                &&& r == Some(old(self)@.normal[0])
                &&& final(self)@.high == old(self)@.high
                &&& final(self)@.normal == old(self)@.normal.drop_first()
                &&& final(self)@.low == old(self)@.low
            } else if old(self)@.low.len() > 0 {
                &&& r == Some(old(self)@.low[0])
                &&& final(self)@.high == old(self)@.high
                &&& final(self)@.normal == old(self)@.normal
                &&& final(self)@.low == old(self)@.low.drop_first()
            } else {
                &&& r is None
                &&& final(self)@ == old(self)@
            },
    {
        match self.high.pop_front() {
            Some(j) => Some(j),
            None => match self.normal.pop_front() {
                Some(j) => Some(j),
                None => self.low.pop_front(),
            },
        }
    }

    /// The number of queued jobs.
    pub fn len(&self) -> (n: usize)
        requires
            self@.high.len() + self@.normal.len() + self@.low.len() <= usize::MAX,
        ensures
            n == self@.high.len() + self@.normal.len() + self@.low.len(),
    {
        self.high.len() + self.normal.len() + self.low.len()
    }

    /// Whether no job is queued.
    pub fn is_empty(&self) -> (b: bool)
        requires
            self@.high.len() + self@.normal.len() + self@.low.len() <= usize::MAX,
        ensures
            b == (self@.high.len() + self@.normal.len() + self@.low.len() == 0),
    {
        self.len() == 0
    }
}

} // verus!
