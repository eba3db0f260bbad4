//! Decorrelated-jitter backoff: `next = min(cap, rand(base, prev * 3))`.

use crate::config::ReconnectPolicy;
use vstd::prelude::*;

verus! {

/// Delays between connection attempts, in nanoseconds.
#[derive(Debug)]
pub struct Backoff {
    pub base: u64,
    pub cap: u64,
    pub max: Option<u32>,
    /// The delay before.
    pub prev: u64,
    /// Attempts taken since the last success.
    pub attempts: u32,
}

/// Calls `fastrand::u64` on the half-open range from `lo` to `hi`, which
/// panics where that range is empty. Claims that the number drawn lies in the
/// range, and nothing about which number it is.
#[verifier::external_body]
fn random_between(lo: u64, hi: u64) -> (r: u64)
    requires
        lo < hi,
    ensures
        lo <= r < hi,
{
    fastrand::u64(lo..hi)
}

impl Backoff {
    /// No attempt is left.
    pub open spec fn exhausted(&self) -> bool {
        self.max matches Some(m) && self.attempts >= m
    }

    /// No attempt is left, or another can be counted and timed.
    pub open spec fn can_go_on(&self) -> bool {
        self.exhausted() || (self.base < u64::MAX && self.attempts < u32::MAX)
    }

    /// Upper end, exclusive, of the range that the next delay is drawn from:
    /// three times the last delay, and at least one above the base.
    pub open spec fn ceiling(&self) -> int {
        let triple = if self.prev * 3 > u64::MAX {
            u64::MAX as int
        } else {
            self.prev * 3
        };
        if triple > self.base + 1 {
            triple
        } else {
            self.base + 1
        }
    }

    /// The state after a delay of `d`.
    pub open spec fn waited(&self, d: u64) -> Backoff {
        Backoff { prev: d, attempts: (self.attempts + 1) as u32, ..*self }
    }

    pub fn new(p: &ReconnectPolicy) -> (r: Backoff)
        ensures
            r == (Backoff {
                base: p.base,
                cap: p.cap,
                max: p.max_attempts,
                prev: p.base,
                attempts: 0,
            }),
    {
        Backoff { base: p.base, cap: p.cap, max: p.max_attempts, prev: p.base, attempts: 0 }
    }

    /// Start over after a successful connect.
    pub fn reset(&mut self)
        ensures
            *final(self) == (Backoff { prev: old(self).base, attempts: 0, ..*old(self) }),
    {
        self.prev = self.base;
        self.attempts = 0;
    }

    /// The range that the next delay is drawn from.
    pub fn range(&self) -> (r: (u64, u64))
        requires
            self.base < u64::MAX,
        ensures
            r.0 == self.base,
            r.1 == self.ceiling(),
            self.prev * 3 <= u64::MAX ==> r.1 == self.prev * 3 || (r.1 == self.base + 1 && self.prev
                * 3 <= self.base + 1),
            self.prev * 3 > u64::MAX ==> r.1 == u64::MAX,
            r.0 < r.1,
    {
        let triple: u64 = match self.prev.checked_mul(3) {
            Some(t) => t,
            None => u64::MAX,
        };
        let least: u64 = self.base + 1;
        (
            self.base,
            if triple > least {
                triple
            } else {
                least
            },
        )
    }

    /// Take `pick`, bounded by the cap, as the delay before the next attempt.
    pub fn next_with(&mut self, pick: u64) -> (r: Option<u64>)
        requires
            old(self).exhausted() || old(self).attempts < u32::MAX,
        ensures
            if old(self).exhausted() {
                r is None && *final(self) == *old(self)
            } else {
                let d = if pick < old(self).cap {
                    pick
                } else {
                    old(self).cap
                };
                r == Some(d) && *final(self) == old(self).waited(d)
            },
            r is None <==> old(self).max is Some && old(self).attempts >= old(self).max->0,
            r is Some ==> {
                &&& final(self).attempts == old(self).attempts + 1
                &&& Some(final(self).prev) == r
                &&& final(self).base == old(self).base
                &&& final(self).cap == old(self).cap
                &&& final(self).max == old(self).max
            },
    {
        match self.max {
            Some(m) => {
                if self.attempts >= m {
                    return None;
                }
            },
            None => {},
        }
        let d: u64 = if pick < self.cap {
            pick
        } else {
            self.cap
        };
        self.prev = d;
        self.attempts = self.attempts + 1;
        Some(d)
    }

    /// The delay before the next attempt, or `None` if no attempt is left.
    /// The delay is never above the cap, and below the base only where the
    /// cap is.
    pub fn next(&mut self) -> (r: Option<u64>)
        requires
            old(self).can_go_on(),
        ensures
            match r {
                None => old(self).exhausted() && *final(self) == *old(self),
                Some(d) => {
                    &&& !old(self).exhausted()
                    &&& *final(self) == old(self).waited(d)
                    &&& d <= old(self).cap
                    &&& d >= old(self).base || d == old(self).cap
                    &&& d < old(self).ceiling()
                },
            },
            r is None <==> old(self).max is Some && old(self).attempts >= old(self).max->0,
            r matches Some(d) ==> {
                &&& final(self).attempts == old(self).attempts + 1
                &&& final(self).prev == d
                &&& final(self).base == old(self).base
                &&& final(self).cap == old(self).cap
                &&& final(self).max == old(self).max
                &&& d < old(self).prev * 3 || d <= old(self).base
            },
    {
        match self.max {
            Some(m) => {
                if self.attempts >= m {
                    return None;
                }
            },
            None => {},
        }
        let (lo, hi) = self.range();
        let pick = random_between(lo, hi);
        self.next_with(pick)
    }

    pub fn attempts(&self) -> (r: u32)
        ensures
            r == self.attempts,
    {
        self.attempts
    }
}

} // verus!
