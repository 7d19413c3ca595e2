//! When a heartbeat is due.

use vstd::prelude::*;

verus! {

/// How often a server publishes what it is carrying, until told otherwise, in
/// nanoseconds.
///
/// A control plane runs at human timescales, so this is far slower than
/// anything else here.
pub const DEFAULT_HEARTBEAT: u64 = 30_000_000_000;

/// How often the heartbeat task wakes to see whether it is due, in
/// nanoseconds.
///
/// Coarse on purpose: the interval it is checking against is measured in tens
/// of seconds, and a quarter second of slop against that is not worth a timer
/// that has to be rebuilt every time the interval changes.
pub const HEARTBEAT_GRANULARITY: u64 = 250_000_000;

/// Counts wakes up to the next heartbeat.
#[derive(Clone, Copy, Debug, PartialEq, Eq, Structural)]
pub struct Beat {
    /// Nanoseconds between heartbeats. Zero switches them off.
    pub every: u64,
    /// Nanoseconds since the last.
    pub since: u64,
}

impl Beat {
    /// How long it will have been at the next wake.
    pub open spec fn elapsed(self) -> u64 {
        if self.since + HEARTBEAT_GRANULARITY > u64::MAX {
            u64::MAX
        } else {
            (self.since + HEARTBEAT_GRANULARITY) as u64
        }
    }

    /// Whether a heartbeat is due at the next wake.
    pub open spec fn is_due(self) -> bool {
        self.every != 0 && self.elapsed() >= self.every
    }

    /// After one wake. Switched off, the span keeps accumulating, so
    /// switching heartbeats back on reports the whole interval rather than a
    /// slice.
    pub open spec fn woken(self) -> Beat {
        Beat {
            since: if self.every == 0 {
                self.since
            } else if self.is_due() {
                0
            } else {
                self.elapsed()
            },
            ..self
        }
    }

    /// After several wakes.
    pub open spec fn woken_times(self, n: nat) -> Beat
        decreases n,
    {
        if n == 0 {
            self
        } else {
            self.woken_times((n - 1) as nat).woken()
        }
    }

    /// At the default interval, with the last just gone.
    pub fn new() -> (b: Beat)
        ensures
            b == (Beat { every: DEFAULT_HEARTBEAT, since: 0 }),
    {
        Beat { every: DEFAULT_HEARTBEAT, since: 0 }
    }

    /// How often heartbeats come. Zero switches them off.
    pub fn set_interval(&mut self, every: u64)
        ensures
            *final(self) == (Beat { every, ..*old(self) }),
    {
        self.every = every;
    }

    /// Wakes once, and says whether a heartbeat is due.
    pub fn wake(&mut self) -> (due: bool)
        ensures
            due == old(self).is_due(),
            *final(self) == old(self).woken(),
    {
        if self.every == 0 {
            return false;
        }
        self.since = self.since.saturating_add(HEARTBEAT_GRANULARITY);
        if self.since < self.every {
            return false;
        }
        self.since = 0;
        true
    }
}

/// Switched off, no heartbeat ever comes.
pub proof fn law_zero_switches_heartbeats_off(b: Beat, n: nat)
    requires
        b.every == 0,
    ensures
        b.woken_times(n) == b,
        !b.woken_times(n).is_due(),
    decreases n,
{
    if n > 0 {
        law_zero_switches_heartbeats_off(b, (n - 1) as nat);
    }
}

/// At a steady interval a heartbeat comes on the first wake by which the
/// interval has passed, and not before.
pub proof fn law_a_heartbeat_comes_when_its_interval_has_passed(b: Beat, n: nat)
    requires
        b.since == 0,
        b.every > 0,
        n * HEARTBEAT_GRANULARITY < b.every,
    ensures
        b.woken_times(n) == (Beat { since: (n * HEARTBEAT_GRANULARITY) as u64, ..b }),
        b.woken_times(n).is_due() == ((n + 1) * HEARTBEAT_GRANULARITY >= b.every),
    decreases n,
{
    if n > 0 {
        assert((n - 1) * HEARTBEAT_GRANULARITY == n * HEARTBEAT_GRANULARITY
            - HEARTBEAT_GRANULARITY) by (nonlinear_arith);
        law_a_heartbeat_comes_when_its_interval_has_passed(b, (n - 1) as nat);
    }
    assert((n + 1) * HEARTBEAT_GRANULARITY == n * HEARTBEAT_GRANULARITY + HEARTBEAT_GRANULARITY)
        by (nonlinear_arith);
}

} // verus!
