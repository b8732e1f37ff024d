//! The bounds of the write queue and of the receipts, and how they fit together.

use vstd::prelude::*;

verus! {

/// Receipts kept at once.
pub const MAX_RETAINED_RECEIPTS: usize = 4096;

/// Writes queued or running at once, over all agents.
pub const WRITE_QUEUE_MAX: usize = MAX_RETAINED_RECEIPTS / 4;

/// Callers that may wait on a receipt at once.
pub const MAX_CONCURRENT_RECEIPT_WAITS: usize = 16;

/// Writes queued or running at once for one agent.
pub const WRITE_QUEUE_LANE_MAX: usize = WRITE_QUEUE_MAX / MAX_CONCURRENT_RECEIPT_WAITS;

/// Bytes of one concept's content.
pub const MAX_CONTENT_BYTES: usize = 16 * 1024;

/// Concepts of one derive.
pub const MAX_CONCEPTS_PER_DERIVE: usize = 64;

/// Bytes of payload queued at once.
pub const WRITE_QUEUE_MAX_BYTES: usize = MAX_CONTENT_BYTES * 1024;

/// Seconds that a clean close waits for the queue to drain.
pub const WRITE_QUEUE_DRAIN_BUDGET_SECS: u64 = 2;

/// Seconds that a close has for its final flush.
pub const CLOSE_FLUSH_GRACE_SECS: u64 = 8;

/// The rate reported for work too quick to time.
pub const PROBE_CLAMP_RPS: u64 = 1024;

/// The throughput measured on a local embedder.
pub const MEASURED_LOCAL_EMBEDDER_RPS: u64 = 141;

/// Embeds in the probe's concurrent leg.
pub const PROBE_CONCURRENCY: usize = 4;

/// Embeds before the probe measures.
pub const PROBE_WARMUP_EMBEDS: usize = 1;

/// Embeds of a whole probe.
pub const PROBE_EMBEDS: usize = PROBE_WARMUP_EMBEDS + 2 + PROBE_CONCURRENCY;

/// Samples before the observed rate replaces the probe's.
pub const OBSERVED_MIN_SAMPLES: u64 = 4;

/// The weight of the running mean: a new sample counts for one part in this many.
pub const OBSERVED_EWMA_WEIGHT: u32 = 4;

/// Seconds that a probe may take.
pub const PROBE_BUDGET_SECS: u64 = 5;

/// Bytes of the probe's representative text.
pub const PROBE_TEXT_BYTES: usize = 1024;

/// Seconds that a settled receipt is kept.
pub const RECEIPT_RETENTION_SECS: u64 = 300;

/// The longest wait for a flush that was measured, in seconds.
pub const MEASURED_WORST_FLUSH_LAG_SECS: u64 = 227;

/// Identifiers listed in one receipt.
pub const MAX_RECEIPT_IDS: usize = MAX_CONCEPTS_PER_DERIVE;

/// Seconds that a caller may wait on a receipt.
pub const RECEIPT_WAIT_MAX_SECS: u64 = 4;

/// Requests in flight at which a proxy warns.
pub const INFLIGHT_DEPTH_WARN: usize = 64;

/// Settled receipts handed out along with another answer.
pub const MAX_PIGGYBACK_RECEIPTS: usize = 8;

/// The bounds fit together: a close drains within a quarter of its grace and never within no
/// time at all, one lane's share is at least one job and at most the queue, the rate for work
/// too quick to time lies well above a real embedder's, a receipt outlives the longest flush
/// and lives exactly as long as a consumed intent, a wait covers two drains, waits leave half
/// of the proxy's depth to other traffic, and the longer of the probe's texts is the longer.
pub proof fn limits_fit_together()
    ensures
        WRITE_QUEUE_DRAIN_BUDGET_SECS * 4 <= CLOSE_FLUSH_GRACE_SECS,
        WRITE_QUEUE_DRAIN_BUDGET_SECS > 0,
        1 <= WRITE_QUEUE_LANE_MAX <= WRITE_QUEUE_MAX,
        WRITE_QUEUE_MAX >= MAX_CONCURRENT_RECEIPT_WAITS,
        WRITE_QUEUE_MAX < MAX_RETAINED_RECEIPTS,
        PROBE_CLAMP_RPS == WRITE_QUEUE_MAX,
        PROBE_CLAMP_RPS > 3 * MEASURED_LOCAL_EMBEDDER_RPS,
        OBSERVED_MIN_SAMPLES == PROBE_CONCURRENCY,
        OBSERVED_EWMA_WEIGHT == PROBE_CONCURRENCY,
        RECEIPT_RETENTION_SECS == crate::types::WRITE_INTENT_RETENTION_SECS,
        RECEIPT_RETENTION_SECS > MEASURED_WORST_FLUSH_LAG_SECS,
        RECEIPT_WAIT_MAX_SECS >= 2 * WRITE_QUEUE_DRAIN_BUDGET_SECS,
        MAX_CONCURRENT_RECEIPT_WAITS * 2 <= INFLIGHT_DEPTH_WARN,
        PROBE_TEXT_BYTES > crate::probe::PROBE_TEXT@.len(),
{
    crate::probe::probe_text_is_short_ascii();
}

/// The bounds, in numbers.
pub proof fn the_limits_in_numbers()
    ensures
        MAX_RETAINED_RECEIPTS == 4096,
        WRITE_QUEUE_MAX == 1024,
        WRITE_QUEUE_LANE_MAX == 64,
        MAX_CONCURRENT_RECEIPT_WAITS == 16,
        MAX_CONTENT_BYTES == 16_384,
        MAX_CONCEPTS_PER_DERIVE == 64,
        WRITE_QUEUE_MAX_BYTES == 16_777_216,
        MAX_RECEIPT_IDS == 64,
        MAX_PIGGYBACK_RECEIPTS == 8,
        RECEIPT_RETENTION_SECS == 300,
        RECEIPT_WAIT_MAX_SECS == 4,
        PROBE_CLAMP_RPS == 1024,
        PROBE_CONCURRENCY == 4,
        PROBE_WARMUP_EMBEDS == 1,
        PROBE_EMBEDS == 7,
        PROBE_BUDGET_SECS == 5,
        PROBE_TEXT_BYTES == 1024,
        OBSERVED_MIN_SAMPLES == 4,
        OBSERVED_EWMA_WEIGHT == 4,
        crate::types::WRITE_INTENT_RETENTION_SECS == 300,
        crate::store::bulk::CONCEPTS_TOGETHER == 60,
{
}

} // verus!
