//! One tracked port and the expiry rule.

use vstd::prelude::*;

verus! {

/// Time-to-live of an entry, in milliseconds, unless the owner picks another.
pub const DEFAULT_TTL_MS: u64 = 5000;

/// Pause between two iterations of the worker, in milliseconds, unless the
/// owner picks another.
pub const DEFAULT_POLL_MS: u64 = 200;

/// A port currently believed live, with the time (in milliseconds on the
/// owner's clock) at which it was last confirmed.
#[derive(Clone, Copy, Debug, PartialEq, Eq, Structural)]
pub struct TrackedEntry {
    pub port: u16,
    pub last_confirmed: u64,
}

impl TrackedEntry {
    /// An entry is due for a probe once its age has reached the time-to-live.
    /// A clock that went backwards gives no age, and the entry is not due.
    pub open spec fn is_due(self, now: u64, ttl_ms: u64) -> bool {
        now >= self.last_confirmed && now - self.last_confirmed >= ttl_ms
    }

    /// The entry after a successful probe at `now`.
    pub open spec fn refreshed(self, now: u64) -> TrackedEntry {
        TrackedEntry { port: self.port, last_confirmed: now }
    }

    /// Whether the entry has to be probed again at `now`.
    pub fn due(&self, now: u64, ttl_ms: u64) -> (r: bool)
        ensures
            r == self.is_due(now, ttl_ms),
    {
        now >= self.last_confirmed && now - self.last_confirmed >= ttl_ms
    }

    /// What becomes of a due entry once its probe has answered: a reachable
    /// port stays, confirmed at `now`; an unreachable one leaves the table.
    pub fn settle(&self, now: u64, reachable: bool) -> (r: Option<TrackedEntry>)
        ensures
            r == (if reachable { Some(self.refreshed(now)) } else { None::<TrackedEntry> }),
    {
        if reachable {
            Some(TrackedEntry { port: self.port, last_confirmed: now })
        } else {
            None
        }
    }
}

} // verus!
