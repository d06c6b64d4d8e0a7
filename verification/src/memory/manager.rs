//! Per-pool memory accounting: quotas, reservations against the hard
//! limit, releases, and when a pool should spill to disk.
use vstd::prelude::*;

verus! {

/// The kinds of memory pool.
#[derive(Clone, Copy, Debug, PartialEq, Eq, PartialOrd, Ord, Structural)]
pub enum MemoryPoolKind {
    Arena,
    Slab,
    Epoch,
    RefCount,
    Page,
    VectorAligned,
}

/// A size class of a slab allocator.
#[derive(Clone, Copy, Debug, PartialEq, Eq, Structural)]
pub struct SlabClass {
    pub object_size: usize,
    pub capacity: usize,
}

/// A NUMA node with its memory budget.
#[derive(Clone, Copy, Debug, PartialEq, Eq, Structural)]
pub struct NumaPartition {
    pub node: u16,
    pub memory_budget_bytes: usize,
}

/// An alignment for SIMD buffers.
#[derive(Clone, Copy, Debug, PartialEq, Eq, Structural)]
pub struct SimdAlignment {
    pub bytes: usize,
}

impl Default for SimdAlignment {
    /// Cache-line alignment: 64 bytes.
    fn default() -> (a: Self)
        ensures
            a.bytes == 64,
    {
        SimdAlignment { bytes: 64 }
    }
}

/// When a pool spills to disk.
#[derive(Clone, Copy, Debug, PartialEq, Eq, Structural)]
pub struct SpillPolicy {
    pub threshold_bytes: usize,
    pub spill_to_disk: bool,
}

/// A pool's limits.
#[derive(Clone, Copy, Debug, PartialEq, Eq, Structural)]
pub struct AdaptiveMemoryQuota {
    pub hard_limit_bytes: usize,
    pub soft_limit_bytes: usize,
}

/// The slot of a pool in the manager's tables.
pub open spec fn pool_slot(p: MemoryPoolKind) -> int {
    match p {
        MemoryPoolKind::Arena => 0,
        MemoryPoolKind::Slab => 1,
        MemoryPoolKind::Epoch => 2,
        MemoryPoolKind::RefCount => 3,
        MemoryPoolKind::Page => 4,
        MemoryPoolKind::VectorAligned => 5,
    }
}

fn slot(p: MemoryPoolKind) -> (i: usize)
    ensures
        i == pool_slot(p),
        i < 6,
{
    match p {
        MemoryPoolKind::Arena => 0,
        MemoryPoolKind::Slab => 1,
        MemoryPoolKind::Epoch => 2,
        MemoryPoolKind::RefCount => 3,
        MemoryPoolKind::Page => 4,
        MemoryPoolKind::VectorAligned => 5,
    }
}

/// Each pool's quota (if set) and bytes in use.
#[derive(Clone, Debug)]
pub struct MemoryManager {
    quotas: Vec<Option<AdaptiveMemoryQuota>>,
    used: Vec<usize>,
}

impl MemoryManager {
    /// One quota slot and one usage slot per pool.
    pub closed spec fn wf(&self) -> bool {
        self.quotas@.len() == 6 && self.used@.len() == 6
    }

    /// The quota of a pool, if one is set.
    pub closed spec fn quota(&self, p: MemoryPoolKind) -> Option<AdaptiveMemoryQuota> {
        self.quotas@[pool_slot(p)]
    }

    /// The bytes a pool has in use.
    pub closed spec fn used(&self, p: MemoryPoolKind) -> usize {
        self.used@[pool_slot(p)]
    }

    /// A pool's hard limit: its quota's, or no limit.
    pub open spec fn hard_limit(&self, p: MemoryPoolKind) -> usize {
        match self.quota(p) {
            Some(q) => q.hard_limit_bytes,
            None => usize::MAX,
        }
    }

    /// Set a pool's quota.
    pub fn set_quota(&mut self, pool: MemoryPoolKind, quota: AdaptiveMemoryQuota)
        requires
            old(self).wf(),
        ensures
            final(self).wf(),
            final(self).quota(pool) == Some(quota),
            forall|p: MemoryPoolKind| p != pool ==> final(self).quota(p) == old(self).quota(p),
            forall|p: MemoryPoolKind| final(self).used(p) == old(self).used(p),
    {
        let i = slot(pool);
        self.quotas.set(i, Some(quota));
    }

    /// Reserve `bytes` in a pool: refused (and nothing changes) when the
    /// pool's use would pass its hard limit.
    pub fn reserve(&mut self, pool: MemoryPoolKind, bytes: usize) -> (ok: bool)
        requires
            old(self).wf(),
            !(old(self).hard_limit(pool) == usize::MAX && old(self).used(pool) + bytes > usize::MAX),
        ensures
            final(self).wf(),
            ok == (old(self).used(pool) + bytes <= old(self).hard_limit(pool)),
            final(self).used(pool) == if ok {
                (old(self).used(pool) + bytes) as usize
            } else {
                old(self).used(pool)
            },
            forall|p: MemoryPoolKind| p != pool ==> final(self).used(p) == old(self).used(p),
            forall|p: MemoryPoolKind| final(self).quota(p) == old(self).quota(p),
    {
        let i = slot(pool);
        let used = self.used[i];
        let hard_limit = match self.quotas[i] {
            Some(q) => q.hard_limit_bytes,
            None => usize::MAX,
        };
        if used.saturating_add(bytes) > hard_limit {
            return false;
        }
        self.used.set(i, used + bytes);
        true
    }

    /// Release `bytes` from a pool (not below zero).
    pub fn release(&mut self, pool: MemoryPoolKind, bytes: usize)
        requires
            old(self).wf(),
        ensures
            final(self).wf(),
            final(self).used(pool) == if old(self).used(pool) < bytes {
                0
            } else {
                (old(self).used(pool) - bytes) as usize
            },
            forall|p: MemoryPoolKind| p != pool ==> final(self).used(p) == old(self).used(p),
            forall|p: MemoryPoolKind| final(self).quota(p) == old(self).quota(p),
    {
        let i = slot(pool);
        let used = self.used[i];
        self.used.set(i, used.saturating_sub(bytes));
    }

    /// The bytes a pool has in use.
    pub fn used_bytes(&self, pool: MemoryPoolKind) -> (n: usize)
        requires
            self.wf(),
        ensures
            n == self.used(pool),
    {
        self.used[slot(pool)]
    }

    /// Whether a pool should spill: the policy spills, and the pool has
    /// reached its threshold.
    pub fn should_spill(&self, pool: MemoryPoolKind, policy: SpillPolicy) -> (b: bool)
        requires
            self.wf(),
        ensures
            b == (policy.spill_to_disk && self.used(pool) >= policy.threshold_bytes),
    {
        policy.spill_to_disk && self.used_bytes(pool) >= policy.threshold_bytes
    }
}

impl Default for MemoryManager {
    /// No quotas, nothing in use.
    fn default() -> (m: Self)
        ensures
            m.wf(),
            forall|p: MemoryPoolKind| m.quota(p) is None && m.used(p) == 0,
    {
        let mut quotas: Vec<Option<AdaptiveMemoryQuota>> = Vec::new();
        let mut used: Vec<usize> = Vec::new();
        quotas.push(None);
        quotas.push(None);
        quotas.push(None);
        quotas.push(None);
        quotas.push(None);
        quotas.push(None);
        used.push(0);
        used.push(0);
        used.push(0);
        used.push(0);
        used.push(0);
        used.push(0);
        let m = MemoryManager { quotas, used };
        proof {
            assert forall|p: MemoryPoolKind| m.quota(p) is None && m.used(p) == 0 by {
                assert(0 <= pool_slot(p) < 6);
            }
        }
        m
    }
}

} // verus!
