//! What the write pipeline promises as a whole.

use crate::job::JobModel;
use crate::lanes::{
    enqueue, has_lane, held_in, in_flight, lane_in_order, lane_index, next_job, refusal,
    refusal_bound, runs, LanesModel,
};
use crate::limits::{
    MAX_RETAINED_RECEIPTS, WRITE_QUEUE_LANE_MAX, WRITE_QUEUE_MAX, WRITE_QUEUE_MAX_BYTES,
};
use crate::pipeline::{
    aborted, aged, end_answer, finish, lemma_aged_wf, lemma_running_is_pending, lookup_answer,
    seeded, seeds, submit_answer, submitted, JobEnd, PipelineModel,
};
use crate::receipt::{drop_text, read_wire, AnswerModel, DropReason, ReceiptId};
use crate::receipts::{
    entry_of, eviction_takes_the_excess, excess, expire, has_id, is_pending, lemma_entry_of,
    lemma_entry_of_taken, lemma_evict_wf, lemma_expire_wf, lemma_pending_held, lemma_settle_wf,
    lemma_unexpired_pending, lemma_with_dropped_wf, lemma_with_pending_wf, pending_count,
    pending_in, settle, settled_count, settled_entry, stamped, taken_from, with_dropped,
    with_pending, EntryModel,
};
use crate::time::Timestamp;
use vstd::prelude::*;

verus! {

/// Every submission is counted once, as accepted or as refused. Every accepted one is applied,
/// failed, deferred or still outstanding, so the count of outstanding writes never has to be cut
/// at zero. What was given up on is part of what failed.
pub proof fn every_submission_is_counted_once(m: PipelineModel)
    requires
        m.wf(),
    ensures
        m.counters.accepted + m.counters.refusals() == m.seq,
        m.counters.in_flight() == m.counters.accepted - m.counters.applied - m.counters.failed
            - m.counters.deferred,
        m.counters.in_flight() == m.lanes.outstanding(),
        m.counters.abandoned <= m.counters.failed,
{
}

/// Nothing that is admitted breaks a bound: not the share of one agent, not the whole queue, not
/// the payload that waits.
pub proof fn the_bounds_hold(m: PipelineModel, agent: Seq<char>)
    requires
        m.wf(),
    ensures
        m.lanes.lane_outstanding(agent) <= WRITE_QUEUE_LANE_MAX,
        m.lanes.outstanding() <= WRITE_QUEUE_MAX,
        m.lanes.bytes() <= WRITE_QUEUE_MAX_BYTES,
{
    if has_lane(m.lanes.lanes, agent) {
        let i = lane_index(m.lanes.lanes, agent);
        assert(held_in(m.lanes.lanes[i]) <= WRITE_QUEUE_LANE_MAX);
    }
}

/// A write that is refused is counted as refused and never as accepted, and leaves the queue as
/// it was; one that is admitted is counted as accepted and never as refused.
pub proof fn a_refusal_is_never_accepted(m: PipelineModel, job: JobModel, now: Timestamp)
    requires
        m.wf(),
        job.receipt.seq == m.seq + 1,
    ensures
        submit_answer(m, job) is Dropped ==> {
            let r = submitted(m, job, now);
            &&& r.counters.accepted == m.counters.accepted
            &&& r.counters.refusals() == m.counters.refusals() + 1
            &&& r.counters.in_flight() == m.counters.in_flight()
            &&& r.lanes == m.lanes
        },
        submit_answer(m, job) is Pending ==> {
            let r = submitted(m, job, now);
            &&& r.counters.accepted == m.counters.accepted + 1
            &&& r.counters.refusals() == m.counters.refusals()
            &&& r.counters.in_flight() == m.counters.in_flight() + 1
            &&& r.lanes == enqueue(m.lanes, job)
        },
        submit_answer(m, job) is Dropped || submit_answer(m, job) is Pending,
{
}

/// A session that closes refuses every write, and says so.
pub proof fn a_sealed_queue_refuses(m: PipelineModel, job: JobModel)
    requires
        m.lanes.sealed,
    ensures
        submit_answer(m, job) == AnswerModel::Dropped(
            drop_text(DropReason::Closed, WRITE_QUEUE_LANE_MAX as nat),
        ),
{
}

/// An entry is settled or pending.
pub proof fn lemma_settled_and_pending(entries: Seq<EntryModel>)
    requires
        stamped(entries),
    ensures
        settled_count(entries) + pending_count(entries) == entries.len(),
    decreases entries.len(),
{
    if entries.len() > 0 {
        let front = entries.drop_last();
        assert forall|i: int| 0 <= i < front.len() implies ((#[trigger] front[i]).settled_at is Some
            <==> !(front[i].answer is Pending)) by {
            assert(front[i] == entries[i]);
        }
        lemma_settled_and_pending(front);
        lemma_settled_count_last(entries);
        assert(entries[entries.len() - 1] == entries.last());
    }
}

/// The last entry counts among the settled where it is.
pub proof fn lemma_settled_count_last(entries: Seq<EntryModel>)
    requires
        entries.len() > 0,
    ensures
        settled_count(entries) == settled_count(entries.drop_last()) + if entries.last().settled_at
            is Some {
            1nat
        } else {
            0nat
        },
    decreases entries.len(),
{
    if entries.len() == 1 {
        assert(entries.skip(1) =~= Seq::<EntryModel>::empty());
        assert(entries.drop_last() =~= Seq::<EntryModel>::empty());
        assert(settled_count(entries.skip(1)) == 0);
        assert(settled_count(entries.drop_last()) == 0);
    } else {
        lemma_settled_count_last(entries.skip(1));
        assert(entries.skip(1).drop_last() =~= entries.drop_last().skip(1));
        assert(entries.skip(1).last() == entries.last());
    }
}

/// However many writes are submitted, the receipts stay within their bound.
pub proof fn receipts_stay_within_their_bound(m: PipelineModel, job: JobModel, now: Timestamp)
    requires
        m.wf(),
        job.receipt.epoch == m.epoch,
        job.receipt.seq == m.seq + 1,
    ensures
        submitted(m, job, now).receipts.entries.len() <= MAX_RETAINED_RECEIPTS,
{
    let r = submitted(m, job, now);
    let held = expire(m.receipts, now);
    lemma_expire_wf(m.receipts, now);
    lemma_unexpired_pending(m.receipts.entries, now);
    if has_id(held.entries, job.receipt) {
        let j = choose|j: int|
            0 <= j < held.entries.len() && (#[trigger] held.entries[j]).id == job.receipt;
        assert(m.receipts.entries.contains(held.entries[j]));
    }
    let more = match refusal(m.lanes, job.agent, job.bytes as nat) {
        Some(reason) => {
            let why = drop_text(reason, refusal_bound(reason) as nat);
            lemma_with_dropped_wf(held, job.receipt, job.agent, why, now);
            crate::receipts::lemma_with_dropped_pending(held, job.receipt, job.agent, why, now);
            with_dropped(held, job.receipt, job.agent, why, now)
        },
        None => {
            lemma_with_pending_wf(held, job.receipt, job.agent);
            crate::receipts::lemma_with_pending_pending(held, job.receipt, job.agent);
            with_pending(held, job.receipt, job.agent)
        },
    };
    lemma_settled_and_pending(more.entries);
    eviction_takes_the_excess(more.entries, excess(more.entries));
}

/// The receipt of a write that waits or runs neither expires nor is lost, whatever the time: it
/// answers `pending` to its own agent, and to any other that it is not theirs.
pub proof fn a_running_receipt_neither_expires_nor_is_lost(
    m: PipelineModel,
    id: ReceiptId,
    agent: Seq<char>,
    now: Timestamp,
)
    requires
        m.wf(),
        in_flight(m.lanes, id),
    ensures
        has_id(m.receipts.entries, id),
        lookup_answer(aged(m, now), agent, id) == if agent == entry_of(
            m.receipts.entries,
            id,
        ).agent {
            AnswerModel::Pending
        } else {
            AnswerModel::Forbidden
        },
{
    let r = aged(m, now);
    lemma_aged_wf(m, now);
    assert(in_flight(r.lanes, id));
    assert(pending_in(m.receipts.entries, id));
    assert(pending_in(r.receipts.entries, id));
    lemma_pending_held(m.receipts.entries, id);
    lemma_pending_held(r.receipts.entries, id);
    lemma_expire_wf(m.receipts, now);
    lemma_entry_of_taken(r.receipts.entries, m.receipts.entries, id);
}

/// A receipt answers its own agent alone: whoever else asks learns only that it is not theirs.
pub proof fn receipts_are_scoped_to_their_agent(
    m: PipelineModel,
    owner: Seq<char>,
    other: Seq<char>,
    id: ReceiptId,
)
    requires
        owner != other,
        !(lookup_answer(m, owner, id) is Forbidden),
        has_id(m.receipts.entries, id) || m.restart.dom().contains(id),
    ensures
        lookup_answer(m, other, id) is Forbidden,
{
}

/// Where nothing is held of a receipt, the answer says why, and the three reasons exclude each
/// other: another process issued it, nobody issued it, or it was let go.
pub proof fn a_missing_receipt_says_why(m: PipelineModel, agent: Seq<char>, id: ReceiptId)
    requires
        !has_id(m.receipts.entries, id),
        !m.restart.dom().contains(id),
    ensures
        lookup_answer(m, agent, id) is RestartLost <==> id.epoch != m.epoch,
        lookup_answer(m, agent, id) is NeverIssued <==> id.epoch == m.epoch && id.seq > m.seq,
        lookup_answer(m, agent, id) is Expired <==> id.epoch == m.epoch && id.seq <= m.seq,
{
}

/// Each agent's writes are taken in the order in which that agent submitted them: the next one
/// was submitted before all that wait behind it, and after the one that runs.
pub proof fn each_lane_drains_in_submission_order(m: LanesModel, agent: Seq<char>, k: int)
    requires
        m.wf(),
        next_job(m, agent) is Some,
        0 < k < m.lanes[lane_index(m.lanes, agent)].queue.len(),
    ensures
        next_job(m, agent)->0.agent == agent,
        next_job(m, agent)->0.receipt.seq < m.lanes[lane_index(
            m.lanes,
            agent,
        )].queue[k].receipt.seq,
        m.lanes[lane_index(m.lanes, agent)].running matches Some(r) ==> r.seq < next_job(
            m,
            agent,
        )->0.receipt.seq,
{
    let l = m.lanes[lane_index(m.lanes, agent)];
    assert(lane_in_order(l));
    assert(l.queue[0].receipt.seq < l.queue[k].receipt.seq);
    assert(l.queue[0].agent == l.agent);
}

/// What has been put into the log of a session: for each write, whether its intent is recorded
/// there, and whether it was consumed.
pub type IntentLog = Map<ReceiptId, bool>;

/// The log agrees with the receipts: a pending or a deferred write has an intent that was not
/// consumed, an applied one an intent that was, and a refused one none at all. The log holds
/// intents of writes submitted so far.
pub open spec fn intents_agree(m: PipelineModel, log: IntentLog) -> bool {
    &&& forall|i: int|
        0 <= i < m.receipts.entries.len() ==> {
            let e = #[trigger] m.receipts.entries[i];
            match e.answer {
                AnswerModel::Pending => log.dom().contains(e.id) && !log[e.id],
                AnswerModel::IntentRecorded => log.dom().contains(e.id) && !log[e.id],
                AnswerModel::Applied(_) => log.dom().contains(e.id) && log[e.id],
                AnswerModel::Dropped(_) => !log.dom().contains(e.id),
                _ => true,
            }
        }
    &&& forall|id: ReceiptId| log.dom().contains(id) ==> id.seq <= m.seq
}

/// The log after a write was submitted: an admitted write's intent is recorded.
pub open spec fn log_submitted(log: IntentLog, m: PipelineModel, job: JobModel) -> IntentLog {
    if submit_answer(m, job) is Pending {
        log.insert(job.receipt, false)
    } else {
        log
    }
}

/// The log after the work on a write ended: the intent is consumed, unless the write was given up
/// on because the lease was lost.
pub open spec fn log_finished(log: IntentLog, job: JobModel, end: JobEnd) -> IntentLog {
    if end is LeaseLost {
        log
    } else {
        log.insert(job.receipt, true)
    }
}

proof fn lemma_agree_taken(m: PipelineModel, entries: Seq<EntryModel>, log: IntentLog)
    requires
        intents_agree(m, log),
        taken_from(entries, m.receipts.entries),
    ensures
        forall|i: int|
            0 <= i < entries.len() ==> {
                let e = #[trigger] entries[i];
                match e.answer {
                    AnswerModel::Pending => log.dom().contains(e.id) && !log[e.id],
                    AnswerModel::IntentRecorded => log.dom().contains(e.id) && !log[e.id],
                    AnswerModel::Applied(_) => log.dom().contains(e.id) && log[e.id],
                    AnswerModel::Dropped(_) => !log.dom().contains(e.id),
                    _ => true,
                }
            },
{
    assert forall|i: int| 0 <= i < entries.len() implies {
        let e = #[trigger] entries[i];
        match e.answer {
            AnswerModel::Pending => log.dom().contains(e.id) && !log[e.id],
            AnswerModel::IntentRecorded => log.dom().contains(e.id) && !log[e.id],
            AnswerModel::Applied(_) => log.dom().contains(e.id) && log[e.id],
            AnswerModel::Dropped(_) => !log.dom().contains(e.id),
            _ => true,
        }
    } by {
        assert(m.receipts.entries.contains(entries[i]));
        let j = choose|j: int|
            0 <= j < m.receipts.entries.len() && m.receipts.entries[j] == entries[i];
        assert(m.receipts.entries[j] == entries[i]);
    }
}

/// Submitting a write keeps the log in agreement: an acknowledged write has its intent recorded,
/// a refused one leaves none.
pub proof fn submitting_keeps_the_intents(
    m: PipelineModel,
    job: JobModel,
    now: Timestamp,
    log: IntentLog,
)
    requires
        m.wf(),
        job.receipt.epoch == m.epoch,
        job.receipt.seq == m.seq + 1,
        intents_agree(m, log),
    ensures
        intents_agree(submitted(m, job, now), log_submitted(log, m, job)),
{
    let r = submitted(m, job, now);
    let after = log_submitted(log, m, job);
    let held = expire(m.receipts, now);
    lemma_expire_wf(m.receipts, now);
    lemma_agree_taken(m, held.entries, log);
    assert forall|i: int| 0 <= i < held.entries.len() implies (#[trigger] held.entries[i]).id
        != job.receipt by {
        assert(m.receipts.entries.contains(held.entries[i]));
    }
    if has_id(held.entries, job.receipt) {
        let j = choose|j: int|
            0 <= j < held.entries.len() && (#[trigger] held.entries[j]).id == job.receipt;
        assert(held.entries[j].id != job.receipt);
    }
    let more = match refusal(m.lanes, job.agent, job.bytes as nat) {
        Some(reason) => {
            let why = drop_text(reason, refusal_bound(reason) as nat);
            lemma_with_dropped_wf(held, job.receipt, job.agent, why, now);
            with_dropped(held, job.receipt, job.agent, why, now)
        },
        None => {
            lemma_with_pending_wf(held, job.receipt, job.agent);
            with_pending(held, job.receipt, job.agent)
        },
    };
    lemma_evict_wf(more);
    let staged = PipelineModel { receipts: more, seq: job.receipt.seq, ..m };
    assert(intents_agree(staged, after)) by {
        assert forall|i: int| 0 <= i < more.entries.len() implies {
            let e = #[trigger] more.entries[i];
            match e.answer {
                AnswerModel::Pending => after.dom().contains(e.id) && !after[e.id],
                AnswerModel::IntentRecorded => after.dom().contains(e.id) && !after[e.id],
                AnswerModel::Applied(_) => after.dom().contains(e.id) && after[e.id],
                AnswerModel::Dropped(_) => !after.dom().contains(e.id),
                _ => true,
            }
        } by {
            if i < held.entries.len() {
                assert(more.entries[i] == held.entries[i]);
            }
        }
    }
    lemma_agree_taken(staged, r.receipts.entries, after);
}

/// The work on a write keeps the log in agreement: its intent is consumed exactly where the write
/// was applied or refused, and stays for the session's next holder where the lease was lost.
pub proof fn finishing_keeps_the_intents(
    m: PipelineModel,
    job: JobModel,
    end: JobEnd,
    now: Timestamp,
    log: IntentLog,
)
    requires
        m.wf(),
        runs(m.lanes, job.agent, job.receipt),
        intents_agree(m, log),
    ensures
        intents_agree(finish(m, job, end, now), log_finished(log, job, end)),
{
    let r = finish(m, job, end, now);
    let after = log_finished(log, job, end);
    let answer = end_answer(m.session, end);
    let told = settle(m.receipts, job.receipt, answer, now);
    lemma_running_is_pending(m, job.agent, job.receipt);
    lemma_pending_held(m.receipts.entries, job.receipt);
    lemma_settle_wf(m.receipts, job.receipt, answer, now);
    lemma_expire_wf(told, now);
    let staged = PipelineModel { receipts: told, ..m };
    let at = choose|j: int|
        0 <= j < m.receipts.entries.len() && (#[trigger] m.receipts.entries[j]).id == job.receipt;
    assert(m.receipts.entries[at].id == job.receipt);
    lemma_entry_of(m.receipts.entries, at);
    assert(intents_agree(staged, after)) by {
        assert forall|i: int| 0 <= i < told.entries.len() implies {
            let e = #[trigger] told.entries[i];
            match e.answer {
                AnswerModel::Pending => after.dom().contains(e.id) && !after[e.id],
                AnswerModel::IntentRecorded => after.dom().contains(e.id) && !after[e.id],
                AnswerModel::Applied(_) => after.dom().contains(e.id) && after[e.id],
                AnswerModel::Dropped(_) => !after.dom().contains(e.id),
                _ => true,
            }
        } by {
            let before = m.receipts.entries[i];
            if before.id != job.receipt {
                assert(told.entries[i] == before);
            }
        }
    }
    lemma_agree_taken(staged, r.receipts.entries, after);
}

/// Stopping the workers keeps the log in agreement.
pub proof fn aborting_keeps_the_intents(m: PipelineModel, now: Timestamp, log: IntentLog)
    requires
        m.wf(),
        intents_agree(m, log),
    ensures
        intents_agree(aborted(m, now), log),
{
    let r = aborted(m, now);
    assert forall|i: int| 0 <= i < r.receipts.entries.len() implies {
        let e = #[trigger] r.receipts.entries[i];
        match e.answer {
            AnswerModel::Pending => log.dom().contains(e.id) && !log[e.id],
            AnswerModel::IntentRecorded => log.dom().contains(e.id) && !log[e.id],
            AnswerModel::Applied(_) => log.dom().contains(e.id) && log[e.id],
            AnswerModel::Dropped(_) => !log.dom().contains(e.id),
            _ => true,
        }
    } by {
        let before = m.receipts.entries[i];
        if is_pending(before) {
            assert(r.receipts.entries[i] == settled_entry(before, AnswerModel::IntentRecorded, now));
        } else {
            assert(r.receipts.entries[i] == before);
        }
    }
}

/// No acknowledged write is lost at a close: once the workers are stopped nothing waits, runs or
/// is pending, and every write that had not ended is left to an intent that was not consumed.
pub proof fn a_close_loses_no_acknowledged_write(
    m: PipelineModel,
    id: ReceiptId,
    now: Timestamp,
    log: IntentLog,
)
    requires
        m.wf(),
        intents_agree(m, log),
        in_flight(m.lanes, id),
    ensures
        aborted(m, now).lanes.outstanding() == 0,
        has_id(aborted(m, now).receipts.entries, id),
        entry_of(aborted(m, now).receipts.entries, id).answer is IntentRecorded,
        log.dom().contains(id),
        !log[id],
{
    let r = aborted(m, now);
    crate::pipeline::lemma_aborted_wf(m, now);
    assert(pending_in(m.receipts.entries, id));
    lemma_pending_held(m.receipts.entries, id);
    let j = choose|j: int|
        0 <= j < m.receipts.entries.len() && (#[trigger] m.receipts.entries[j]).id == id;
    lemma_entry_of(m.receipts.entries, j);
    assert(r.receipts.entries[j].id == id);
    lemma_entry_of(r.receipts.entries, j);
    crate::receipts::lemma_defer_wf(m.receipts, now);
}

/// After a close every accepted write is applied, failed, or left to its intent; none is
/// outstanding.
pub proof fn a_close_accounts_for_every_accepted_write(m: PipelineModel, now: Timestamp)
    requires
        m.wf(),
    ensures
        aborted(m, now).counters.accepted == aborted(m, now).counters.applied + aborted(
            m,
            now,
        ).counters.failed + aborted(m, now).counters.deferred,
        aborted(m, now).counters.deferred == m.counters.deferred + m.lanes.outstanding(),
{
    crate::pipeline::lemma_aborted_wf(m, now);
}

/// Of an earlier process's writes the latest word counts, and an intent that was consumed longer
/// ago than a receipt is kept gives none: its receipt answers that a restart lost it, unless a
/// later intent answers for the same receipt.
pub proof fn a_stale_intent_gives_no_answer(
    restart: Map<ReceiptId, (Seq<char>, AnswerModel)>,
    intents: Seq<crate::job::IntentModel>,
    now: Timestamp,
    id: ReceiptId,
)
    requires
        !restart.dom().contains(id),
        forall|i: int|
            0 <= i < intents.len() && read_wire((#[trigger] intents[i]).receipt) == Some(id)
                ==> !seeds(intents[i], now),
    ensures
        !seeded(restart, intents, now).dom().contains(id),
    decreases intents.len(),
{
    if intents.len() > 0 {
        let front = intents.drop_last();
        assert forall|i: int|
            0 <= i < front.len() && read_wire((#[trigger] front[i]).receipt) == Some(
                id,
            ) implies !seeds(front[i], now) by {
            assert(front[i] == intents[i]);
        }
        a_stale_intent_gives_no_answer(restart, front, now, id);
        assert(intents[intents.len() - 1] == intents.last());
    }
}

} // verus!
