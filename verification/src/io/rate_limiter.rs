//! Throttling I/O to a byte rate: the bytes taken in the current
//! one-second window, and how far a transfer runs over the budget.
use vstd::prelude::*;

verus! {

/// A byte budget per second and what the current window has taken.
#[derive(Clone, Copy, Debug, PartialEq, Eq, Structural)]
pub struct IoRateLimiter {
    bytes_per_second: usize,
    consumed_in_window: usize,
}

impl IoRateLimiter {
    /// The budget per second; no budget (`0`) means no throttling.
    pub closed spec fn budget(&self) -> usize {
        self.bytes_per_second
    }

    /// The bytes taken in the current window.
    pub closed spec fn consumed(&self) -> usize {
        self.consumed_in_window
    }

    /// A limiter of `bytes_per_second`, with a fresh window.
    pub fn new(bytes_per_second: usize) -> (l: IoRateLimiter)
        ensures
            l.budget() == bytes_per_second,
            l.consumed() == 0,
    {
        IoRateLimiter { bytes_per_second, consumed_in_window: 0 }
    }

    pub fn bytes_per_second(&self) -> (b: usize)
        ensures
            b == self.budget(),
    {
        self.bytes_per_second
    }

    /// Take `bytes` from the budget; `window_expired` tells whether a
    /// second has passed since the window began. Without a budget or bytes
    /// nothing changes. Otherwise an expired window starts over (the first
    /// result says so), the bytes are added (saturating), and the second
    /// result is how far the window now runs over the budget, which the
    /// caller waits off.
    pub fn consume(&mut self, bytes: usize, window_expired: bool) -> (r: (bool, usize))
        ensures
            old(self).budget() == 0 || bytes == 0 ==> r == (false, 0usize) && *final(self) == *old(self),
            old(self).budget() != 0 && bytes != 0 ==> {
                let base = if window_expired {
                    0
                } else {
                    old(self).consumed() as int
                };
                let total = if base + bytes <= usize::MAX {
                    base + bytes
                } else {
                    usize::MAX as int
                };
                &&& r.0 == window_expired
                &&& final(self).consumed() == total
                &&& r.1 == if total > old(self).budget() {
                    total - old(self).budget()
                } else {
                    0
                }
            },
            final(self).budget() == old(self).budget(),
    {
        if self.bytes_per_second == 0 || bytes == 0 {
            return (false, 0);
        }
        if window_expired {
            self.consumed_in_window = 0;
        }
        self.consumed_in_window = self.consumed_in_window.saturating_add(bytes);
        if self.consumed_in_window <= self.bytes_per_second {
            return (window_expired, 0);
        }
        (window_expired, self.consumed_in_window - self.bytes_per_second)
    }
}

} // verus!
