//! Hybrid logical clocks.

use crate::id::ReplicaId;
use vstd::prelude::*;

verus! {

/// A totally ordered hybrid logical timestamp.
#[derive(Clone, Copy, Debug, PartialEq, Eq, PartialOrd, Ord, Structural)]
pub struct Timestamp {
    /// Greatest observed physical time in Unix milliseconds.
    pub physical_ms: u64,
    /// Logical counter used when physical time does not advance.
    pub logical: u32,
    /// Replica breaking otherwise equal timestamps deterministically.
    pub replica: ReplicaId,
}

impl Timestamp {
    /// Whether one timestamp is strictly later than another: by physical
    /// time, then by logical counter, then by replica.
    pub open spec fn later(self, other: Timestamp) -> bool {
        ||| self.physical_ms > other.physical_ms
        ||| self.physical_ms == other.physical_ms && self.logical > other.logical
        ||| self.physical_ms == other.physical_ms && self.logical == other.logical && self.replica.0
            > other.replica.0
    }

    /// Whether a timestamp's physical time and logical counter are at least
    /// those of another.
    pub open spec fn reaches(self, other: Timestamp) -> bool {
        ||| self.physical_ms > other.physical_ms
        ||| self.physical_ms == other.physical_ms && self.logical >= other.logical
    }

    /// Returns whether this timestamp is strictly later than `other`.
    pub fn is_later(&self, other: &Timestamp) -> (later: bool)
        ensures
            later == self.later(*other),
            later == (self.physical_ms > other.physical_ms || (self.physical_ms
                == other.physical_ms && (self.logical > other.logical || (self.logical
                == other.logical && self.replica.0 > other.replica.0)))),
    {
        if self.physical_ms != other.physical_ms {
            self.physical_ms > other.physical_ms
        } else if self.logical != other.logical {
            self.logical > other.logical
        } else {
            self.replica.0 > other.replica.0
        }
    }
}

/// Mutable hybrid logical clock state for one replica.
#[derive(Clone, Copy, Debug, PartialEq, Eq, Structural)]
pub struct Clock {
    replica: ReplicaId,
    physical_ms: u64,
    logical: u32,
}

/// One more, or the greatest counter.
pub open spec fn saturating_next(logical: u32) -> u32 {
    if logical == u32::MAX {
        u32::MAX
    } else {
        (logical + 1) as u32
    }
}

/// What a clock shows after a local event at `now_ms`.
pub open spec fn ticked(shown: Timestamp, now_ms: u64) -> Timestamp {
    if now_ms > shown.physical_ms {
        Timestamp { physical_ms: now_ms, logical: 0, replica: shown.replica }
    } else {
        Timestamp {
            physical_ms: shown.physical_ms,
            logical: saturating_next(shown.logical),
            replica: shown.replica,
        }
    }
}

/// The greater of two numbers.
pub open spec fn max64(a: u64, b: u64) -> u64 {
    if a >= b {
        a
    } else {
        b
    }
}

/// What a clock shows after it has seen `remote` at `now_ms`.
pub open spec fn observed(shown: Timestamp, remote: Timestamp, now_ms: u64) -> Timestamp {
    let physical = max64(max64(shown.physical_ms, remote.physical_ms), now_ms);
    let logical = if physical == shown.physical_ms && physical == remote.physical_ms {
        saturating_next(
            if shown.logical >= remote.logical {
                shown.logical
            } else {
                remote.logical
            },
        )
    } else if physical == shown.physical_ms {
        saturating_next(shown.logical)
    } else if physical == remote.physical_ms {
        saturating_next(remote.logical)
    } else {
        0
    };
    Timestamp { physical_ms: physical, logical, replica: shown.replica }
}

impl Clock {
    /// What the clock shows.
    pub closed spec fn shown(self) -> Timestamp {
        Timestamp { physical_ms: self.physical_ms, logical: self.logical, replica: self.replica }
    }

    /// Creates a clock for `replica` with no observed time.
    pub fn new(replica: ReplicaId) -> (clock: Self)
        ensures
            clock.shown() == (Timestamp { physical_ms: 0, logical: 0, replica }),
    {
        Clock { replica, physical_ms: 0, logical: 0 }
    }

    /// Advances the clock for a local event at `now_ms`.
    pub fn tick(&mut self, now_ms: u64) -> (timestamp: Timestamp)
        ensures
            final(self).shown() == ticked(old(self).shown(), now_ms),
            timestamp == final(self).shown(),
            timestamp.replica == old(self).shown().replica,
            now_ms > old(self).shown().physical_ms ==> timestamp.physical_ms == now_ms
                && timestamp.logical == 0,
            now_ms <= old(self).shown().physical_ms ==> timestamp.physical_ms
                == old(self).shown().physical_ms && (timestamp.logical == old(
                self,
            ).shown().logical + 1 || (timestamp.logical == u32::MAX && old(self).shown().logical
                == u32::MAX)),
    {
        if now_ms > self.physical_ms {
            self.physical_ms = now_ms;
            self.logical = 0;
        } else {
            self.logical = self.logical.saturating_add(1);
        }
        self.timestamp()
    }

    /// Incorporates a remote timestamp without trusting it as physical time.
    pub fn observe(&mut self, remote: Timestamp, now_ms: u64)
        ensures
            final(self).shown() == observed(old(self).shown(), remote, now_ms),
            final(self).shown().physical_ms >= old(self).shown().physical_ms,
            final(self).shown().physical_ms >= remote.physical_ms,
            final(self).shown().physical_ms >= now_ms,
    {
        let mut physical: u64 = self.physical_ms;
        if remote.physical_ms > physical {
            physical = remote.physical_ms;
        }
        if now_ms > physical {
            physical = now_ms;
        }
        let logical: u32 = if physical == self.physical_ms && physical == remote.physical_ms {
            if self.logical >= remote.logical {
                self.logical.saturating_add(1)
            } else {
                remote.logical.saturating_add(1)
            }
        } else if physical == self.physical_ms {
            self.logical.saturating_add(1)
        } else if physical == remote.physical_ms {
            remote.logical.saturating_add(1)
        } else {
            0
        };
        self.physical_ms = physical;
        self.logical = logical;
    }

    /// Returns the clock's current timestamp without advancing it.
    pub fn timestamp(self) -> (timestamp: Timestamp)
        ensures
            timestamp == self.shown(),
    {
        Timestamp { physical_ms: self.physical_ms, logical: self.logical, replica: self.replica }
    }
}

/// A clock never runs backwards: a local event is strictly later than what
/// the clock showed, whatever the physical time, as long as the logical
/// counter is not exhausted or physical time advances.
pub proof fn law_tick_is_monotonic(shown: Timestamp, now_ms: u64)
    requires
        shown.logical < u32::MAX || now_ms > shown.physical_ms,
    ensures
        ticked(shown, now_ms).later(shown),
        ticked(shown, now_ms).physical_ms >= shown.physical_ms,
{
}

/// A clock advances past every remote time that it has seen: a later local
/// event is strictly later than the remote timestamp, as long as the logical
/// counter is not exhausted or physical time advances.
pub proof fn law_tick_passes_observed(
    shown: Timestamp,
    remote: Timestamp,
    observed_ms: u64,
    now_ms: u64,
)
    requires
        ({
            let after = observed(shown, remote, observed_ms);
            after.logical < u32::MAX || now_ms > after.physical_ms
        }),
    ensures
        ticked(observed(shown, remote, observed_ms), now_ms).later(remote),
        ticked(observed(shown, remote, observed_ms), now_ms).later(shown),
{
}

/// Timestamps are totally ordered: of two, either they are equal or exactly
/// one is later.
pub proof fn law_timestamps_are_totally_ordered(a: Timestamp, b: Timestamp, c: Timestamp)
    ensures
        a == b || a.later(b) || b.later(a),
        !(a.later(b) && b.later(a)),
        !a.later(a),
        a.later(b) && b.later(c) ==> a.later(c),
{
}

/// A local event is dated by physical time: the clock then shows the greater of
/// its own and the physical time. Where physical time advances the clock, the
/// logical counter starts again; where it does not, the counter goes up by one.
pub proof fn law_tick_follows_physical_time(shown: Timestamp, now_ms: u64)
    ensures
        ({
            let after = ticked(shown, now_ms);
            &&& after.replica == shown.replica
            &&& after.physical_ms >= shown.physical_ms
            &&& after.physical_ms >= now_ms
            &&& after.physical_ms == shown.physical_ms || after.physical_ms == now_ms
            &&& now_ms > shown.physical_ms ==> after.logical == 0
            &&& now_ms <= shown.physical_ms && shown.logical < u32::MAX ==> after.logical
                == shown.logical + 1
            &&& now_ms <= shown.physical_ms && shown.logical == u32::MAX ==> after.logical
                == u32::MAX
        }),
{
}

/// Of two local events of whatever clocks, each dated ahead of its clock, the
/// one at the greater physical time is later.
pub proof fn law_later_event_is_later(
    first: Timestamp,
    second: Timestamp,
    first_ms: u64,
    second_ms: u64,
)
    requires
        first_ms > first.physical_ms,
        second_ms > first_ms,
    ensures
        ticked(second, second_ms).later(ticked(first, first_ms)),
        ticked(second, second_ms).physical_ms > ticked(first, first_ms).physical_ms,
{
}

/// What a clock shows after it has seen a remote timestamp is the greatest of
/// its own, the remote and the physical time. The logical counter is one more
/// than the greatest that belongs to that time, and none where the physical
/// time is ahead of both.
pub proof fn law_observation_takes_the_greatest_time(
    shown: Timestamp,
    remote: Timestamp,
    now_ms: u64,
)
    ensures
        ({
            let after = observed(shown, remote, now_ms);
            let ours = shown.physical_ms == after.physical_ms;
            let theirs = remote.physical_ms == after.physical_ms;
            &&& after.replica == shown.replica
            &&& after.physical_ms >= shown.physical_ms
            &&& after.physical_ms >= remote.physical_ms
            &&& after.physical_ms >= now_ms
            &&& ours || theirs || after.physical_ms == now_ms
            &&& !ours && !theirs ==> after.logical == 0
            &&& ours && after.logical < u32::MAX ==> after.logical > shown.logical
            &&& theirs && after.logical < u32::MAX ==> after.logical > remote.logical
            &&& (ours || theirs) && after.logical < u32::MAX ==> (ours && after.logical
                == shown.logical + 1) || (theirs && after.logical == remote.logical + 1)
            &&& (ours || theirs) && after.logical == u32::MAX ==> (ours && shown.logical
                >= u32::MAX - 1) || (theirs && remote.logical >= u32::MAX - 1)
        }),
{
}

/// Which of two timestamps is later: the one with the greater physical time;
/// at the same time the one with the greater logical counter; with the same
/// counter that of the greater replica.
pub proof fn law_later_goes_by_time_first(a: Timestamp, b: Timestamp)
    ensures
        a.physical_ms > b.physical_ms ==> a.later(b) && !b.later(a),
        a.physical_ms == b.physical_ms && a.logical > b.logical ==> a.later(b) && !b.later(a),
        a.physical_ms == b.physical_ms && a.logical == b.logical && a.replica.0 > b.replica.0
            ==> a.later(b) && !b.later(a),
        a == b ==> !a.later(b),
{
}

} // verus!
