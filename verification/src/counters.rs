//! What has become of the writes that were submitted, in numbers.

use vstd::prelude::*;

verus! {

/// Counts of writes, by what became of them.
#[derive(Clone, Copy, Debug, PartialEq, Eq, Structural)]
pub struct WriteQueueCounters {
    pub accepted: u64,
    pub applied: u64,
    pub failed: u64,
    pub abandoned: u64,
    pub dropped_queue_full: u64,
    pub dropped_queue_bytes: u64,
    pub dropped_closed: u64,
    pub deferred: u64,
    pub replayed: u64,
}

impl Default for WriteQueueCounters {
    fn default() -> (r: WriteQueueCounters)
        ensures
            r == WriteQueueCounters::zero(),
    {
        WriteQueueCounters {
            accepted: 0,
            applied: 0,
            failed: 0,
            abandoned: 0,
            dropped_queue_full: 0,
            dropped_queue_bytes: 0,
            dropped_closed: 0,
            deferred: 0,
            replayed: 0,
        }
    }
}

impl WriteQueueCounters {
    /// Nothing counted yet.
    pub open spec fn zero() -> WriteQueueCounters {
        WriteQueueCounters {
            accepted: 0,
            applied: 0,
            failed: 0,
            abandoned: 0,
            dropped_queue_full: 0,
            dropped_queue_bytes: 0,
            dropped_closed: 0,
            deferred: 0,
            replayed: 0,
        }
    }

    /// The writes that were refused.
    pub open spec fn refusals(self) -> int {
        self.dropped_queue_full + self.dropped_queue_bytes + self.dropped_closed
    }

    /// The writes that were accepted and of which nothing has become yet; none rather than
    /// fewer.
    pub open spec fn in_flight(self) -> int {
        let rest = self.accepted - self.applied - self.failed - self.deferred;
        if rest < 0 {
            0
        } else {
            rest
        }
    }

    /// Writes that were admitted.
    pub fn accepted(&self) -> (n: u64)
        ensures
            n == self.accepted,
    {
        self.accepted
    }

    /// Writes that were applied.
    pub fn applied(&self) -> (n: u64)
        ensures
            n == self.applied,
    {
        self.applied
    }

    /// Writes that failed, those given up on included.
    pub fn failed(&self) -> (n: u64)
        ensures
            n == self.failed,
    {
        self.failed
    }

    /// Writes given up on because the lease was lost.
    pub fn abandoned(&self) -> (n: u64)
        ensures
            n == self.abandoned,
    {
        self.abandoned
    }

    /// Writes refused because a lane or the queue was full.
    pub fn dropped_queue_full(&self) -> (n: u64)
        ensures
            n == self.dropped_queue_full,
    {
        self.dropped_queue_full
    }

    /// Writes refused because of the payload that was queued.
    pub fn dropped_queue_bytes(&self) -> (n: u64)
        ensures
            n == self.dropped_queue_bytes,
    {
        self.dropped_queue_bytes
    }

    /// Writes refused because the session was closing.
    pub fn dropped_closed(&self) -> (n: u64)
        ensures
            n == self.dropped_closed,
    {
        self.dropped_closed
    }

    /// Writes left to the next process as durable intents.
    pub fn deferred(&self) -> (n: u64)
        ensures
            n == self.deferred,
    {
        self.deferred
    }

    /// Writes of an earlier process that were applied here.
    pub fn replayed(&self) -> (n: u64)
        ensures
            n == self.replayed,
    {
        self.replayed
    }

    /// Writes that were refused.
    pub fn dropped(&self) -> (n: u64)
        requires
            self.refusals() <= u64::MAX,
        ensures
            n == self.refusals(),
    {
        self.dropped_queue_full + self.dropped_queue_bytes + self.dropped_closed
    }

    /// Writes that were accepted and of which nothing has become yet.
    pub fn outstanding(&self) -> (n: u64)
        ensures
            n == self.in_flight(),
    {
        self.accepted.saturating_sub(self.applied).saturating_sub(self.failed).saturating_sub(
            self.deferred,
        )
    }
}

} // verus!
