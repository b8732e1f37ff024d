//! The write pipeline: admission, the work of the lanes' workers, the close, and the answers
//! that receipts give.

use crate::boundary;
use crate::counters::WriteQueueCounters;
use crate::job::{
    capped, intent_for, payload_bytes, payload_kind, IntentModel, Job, JobModel, JobPayload,
    OutcomeModel, PayloadModel,
};
use crate::lanes::{
    done, enqueue, has_lane, idle, in_flight, lemma_done, lemma_enqueue, lemma_sealed_wf,
    lemma_taken, next_job, refusal, refusal_bound, runs, taken, Lanes, LanesModel,
};
use crate::limits::{RECEIPT_RETENTION_SECS, RECEIPT_WAIT_MAX_SECS};
use crate::receipt::{
    drop_text, read_wire, wire, AnswerModel, AppliedSummary, DropReason, ReceiptAnswer, ReceiptId,
    WriteKind,
};
use crate::receipts::{
    defer, entry_of, evict, excess, expire, has_id, lemma_defer_wf, lemma_evict_wf,
    lemma_evicted_pending, lemma_expire_wf, lemma_pending_held, lemma_settle_pending,
    lemma_settle_wf, lemma_unexpired_pending, lemma_with_dropped_pending, lemma_with_dropped_wf,
    lemma_with_pending_pending, lemma_with_pending_wf, past_retention, pending_count, pending_in,
    pending_notices, settle, taken_from, with_dropped, with_pending, EntryModel, Receipts,
    ReceiptsModel,
};
use crate::time::Timestamp;
use crate::types::{
    joined, lambo_error_text, AgentId, ConceptType, LamboError, NodeId, SessionId, WriteIntent,
    WriteIntentOutcome,
};
use vstd::prelude::*;
use vstd::string::*;

verus! {

/// What a caller is told of a write that it submitted.
#[derive(Debug)]
pub struct Submitted {
    pub receipt: ReceiptId,
    pub kind: WriteKind,
    pub answer: ReceiptAnswer,
}

impl Submitted {
    /// Whether the write was refused.
    pub fn dropped(&self) -> (r: bool)
        ensures
            r == (self.answer@ is Dropped),
    {
        match &self.answer {
            ReceiptAnswer::Dropped(_) => true,
            _ => false,
        }
    }
}

/// The pipeline, as values.
#[verifier::ext_equal]
pub struct PipelineModel {
    pub session: Seq<char>,
    pub epoch: u64,
    pub seq: u64,
    pub lanes: LanesModel,
    pub receipts: ReceiptsModel,
    pub counters: WriteQueueCounters,
    pub restart: Map<ReceiptId, (Seq<char>, AnswerModel)>,
}

impl PipelineModel {
    /// What holds of the pipeline at all times. A receipt is pending exactly as long as its
    /// write waits or runs. Every submission is counted as accepted or refused, and every
    /// accepted one as applied, failed, deferred or still outstanding.
    pub open spec fn wf(self) -> bool {
        &&& self.lanes.wf()
        &&& self.receipts.wf()
        &&& forall|i: int|
            0 <= i < self.receipts.entries.len() ==> {
                let id = (#[trigger] self.receipts.entries[i]).id;
                id.epoch == self.epoch && id.seq <= self.seq
            }
        &&& forall|id: ReceiptId|
            #[trigger] in_flight(self.lanes, id) <==> pending_in(self.receipts.entries, id)
        &&& pending_count(self.receipts.entries) == self.lanes.outstanding()
        &&& self.counters.accepted + self.counters.refusals() == self.seq
        &&& self.counters.accepted == self.counters.applied + self.counters.failed
            + self.counters.deferred + self.lanes.outstanding()
        &&& self.counters.abandoned <= self.counters.failed
    }
}

/// The receipt that the next write is given.
pub open spec fn next_id(m: PipelineModel, issued: Timestamp) -> ReceiptId {
    ReceiptId { epoch: m.epoch, issued_ms: issued.millis() as i64, seq: (m.seq + 1) as u64 }
}

/// The write as it would stand in its lane.
pub open spec fn next_write(
    m: PipelineModel,
    agent: Seq<char>,
    interaction: NodeId,
    payload: PayloadModel,
    issued: Timestamp,
) -> JobModel {
    JobModel {
        receipt: next_id(m, issued),
        agent,
        interaction,
        bytes: capped(payload_bytes(payload)),
        payload,
    }
}

/// The counts with one refusal more.
pub open spec fn count_refusal(c: WriteQueueCounters, reason: DropReason) -> WriteQueueCounters {
    match reason {
        DropReason::QueueBytes => WriteQueueCounters {
            dropped_queue_bytes: (c.dropped_queue_bytes + 1) as u64,
            ..c
        },
        DropReason::Closed => WriteQueueCounters {
            dropped_closed: (c.dropped_closed + 1) as u64,
            ..c
        },
        DropReason::LaneFull => WriteQueueCounters {
            dropped_queue_full: (c.dropped_queue_full + 1) as u64,
            ..c
        },
        DropReason::QueueFull => WriteQueueCounters {
            dropped_queue_full: (c.dropped_queue_full + 1) as u64,
            ..c
        },
    }
}

/// The pipeline after a write was submitted. A refused write leaves its lanes alone; its receipt
/// is settled at once. An admitted one stands last in its agent's lane; its receipt is pending.
pub open spec fn submitted(m: PipelineModel, job: JobModel, now: Timestamp) -> PipelineModel {
    let held = expire(m.receipts, now);
    match refusal(m.lanes, job.agent, job.bytes as nat) {
        Some(reason) => PipelineModel {
            seq: job.receipt.seq,
            receipts: evict(
                with_dropped(
                    held,
                    job.receipt,
                    job.agent,
                    drop_text(reason, refusal_bound(reason) as nat),
                    now,
                ),
            ),
            counters: count_refusal(m.counters, reason),
            ..m
        },
        None => PipelineModel {
            seq: job.receipt.seq,
            lanes: enqueue(m.lanes, job),
            receipts: evict(with_pending(held, job.receipt, job.agent)),
            counters: WriteQueueCounters { accepted: (m.counters.accepted + 1) as u64, ..m.counters
            },
            ..m
        },
    }
}

/// What the submitter of a write is told.
pub open spec fn submit_answer(m: PipelineModel, job: JobModel) -> AnswerModel {
    match refusal(m.lanes, job.agent, job.bytes as nat) {
        Some(reason) => AnswerModel::Dropped(drop_text(reason, refusal_bound(reason) as nat)),
        None => AnswerModel::Pending,
    }
}

/// How the work on a write ended.
#[derive(Debug)]
pub enum JobEnd {
    /// The lease was lost before the write was begun.
    LeaseLost,
    /// The graph applied the write, and its intent was consumed in the same step.
    Applied(AppliedSummary),
    /// The graph or the embedder refused the write.
    Refused(LamboError),
}

/// The message of a write that was given up on.
pub open spec fn lease_lost_text(session: Seq<char>) -> Seq<char> {
    "this handle lost its single-writer lease before the write was applied; this process wrote nothing for session "@
        + session
        + " — if the write's durable intent reached the store first, the session's current holder will apply it"@
}

/// The answer that a write's receipt settles on.
pub open spec fn end_answer(session: Seq<char>, end: JobEnd) -> AnswerModel {
    match end {
        JobEnd::LeaseLost => AnswerModel::Failed(lease_lost_text(session)),
        JobEnd::Applied(s) => AnswerModel::Applied(s@),
        JobEnd::Refused(e) => AnswerModel::Failed(lambo_error_text(e)),
    }
}

/// The counts with one write more that ended so.
pub open spec fn count_end(c: WriteQueueCounters, end: JobEnd) -> WriteQueueCounters {
    match end {
        JobEnd::LeaseLost => WriteQueueCounters {
            failed: (c.failed + 1) as u64,
            abandoned: (c.abandoned + 1) as u64,
            ..c
        },
        JobEnd::Applied(_) => WriteQueueCounters { applied: (c.applied + 1) as u64, ..c },
        JobEnd::Refused(_) => WriteQueueCounters { failed: (c.failed + 1) as u64, ..c },
    }
}

/// What is recorded on a write's intent when the work on it ended: a refusal here; an application is
/// recorded by the step that applied it, and a write that was given up on keeps its intent as it is.
pub open spec fn end_outcome(end: JobEnd, now: Timestamp) -> Option<OutcomeModel> {
    match end {
        JobEnd::Refused(e) => Some(
            OutcomeModel { tag: "failed"@, summary: lambo_error_text(e), consumed_at: now },
        ),
        _ => None,
    }
}

/// What is recorded on an earlier process's intent when the work on it ended.
pub open spec fn replay_outcome(
    end: Result<AppliedSummary, LamboError>,
    now: Timestamp,
) -> Option<OutcomeModel> {
    match end {
        Ok(_) => None,
        Err(LamboError::EmbedUnavailable(_)) => None,
        Err(e) => Some(
            OutcomeModel { tag: "failed"@, summary: replay_refused_text(e), consumed_at: now },
        ),
    }
}

/// The pipeline after the work on a write ended.
pub open spec fn finish(m: PipelineModel, job: JobModel, end: JobEnd, now: Timestamp) -> PipelineModel {
    PipelineModel {
        lanes: done(m.lanes, job.agent),
        receipts: expire(
            settle(m.receipts, job.receipt, end_answer(m.session, end), now),
            now,
        ),
        counters: count_end(m.counters, end),
        ..m
    }
}

/// The pipeline after its workers were stopped: nothing waits or runs, nothing more is admitted,
/// and every pending receipt says that its write is left to a durable intent.
pub open spec fn aborted(m: PipelineModel, now: Timestamp) -> PipelineModel {
    PipelineModel {
        lanes: LanesModel { lanes: Seq::empty(), sealed: true },
        receipts: defer(m.receipts, now),
        counters: WriteQueueCounters {
            deferred: (m.counters.deferred + pending_count(m.receipts.entries)) as u64,
            ..m.counters
        },
        ..m
    }
}

/// What a receipt answers: its entry's answer, or what a previous process left of it, to the
/// agent that it belongs to and to no other; and where nothing is held, why.
pub open spec fn lookup_answer(m: PipelineModel, agent: Seq<char>, id: ReceiptId) -> AnswerModel {
    if has_id(m.receipts.entries, id) {
        let e = entry_of(m.receipts.entries, id);
        if e.agent != agent {
            AnswerModel::Forbidden
        } else {
            e.answer
        }
    } else if m.restart.dom().contains(id) {
        if m.restart[id].0 != agent {
            AnswerModel::Forbidden
        } else {
            m.restart[id].1
        }
    } else if id.epoch != m.epoch {
        AnswerModel::RestartLost
    } else if id.seq > m.seq {
        AnswerModel::NeverIssued
    } else {
        AnswerModel::Expired
    }
}

/// The ids of these entries were issued by this pipeline.
pub open spec fn issued_here(entries: Seq<EntryModel>, epoch: u64, seq: u64) -> bool {
    forall|i: int|
        0 <= i < entries.len() ==> {
            let id = (#[trigger] entries[i]).id;
            id.epoch == epoch && id.seq <= seq
        }
}

proof fn lemma_issued_taken(sub: Seq<EntryModel>, entries: Seq<EntryModel>, epoch: u64, seq: u64)
    requires
        taken_from(sub, entries),
        issued_here(entries, epoch, seq),
    ensures
        issued_here(sub, epoch, seq),
{
    assert forall|i: int| 0 <= i < sub.len() implies {
        let id = (#[trigger] sub[i]).id;
        id.epoch == epoch && id.seq <= seq
    } by {
        assert(entries.contains(sub[i]));
    }
}

/// Everything in flight was issued before the next write.
proof fn lemma_flights_are_older(m: PipelineModel)
    requires
        m.wf(),
    ensures
        forall|id: ReceiptId| in_flight(m.lanes, id) ==> id.seq <= m.seq,
{
    assert forall|id: ReceiptId| in_flight(m.lanes, id) implies id.seq <= m.seq by {
        assert(pending_in(m.receipts.entries, id));
        lemma_pending_held(m.receipts.entries, id);
        let j = choose|j: int|
            0 <= j < m.receipts.entries.len() && (#[trigger] m.receipts.entries[j]).id == id;
        assert(m.receipts.entries[j].id == id);
    }
}

/// The pipeline stays in order when a write is submitted.
pub proof fn lemma_submitted_wf(m: PipelineModel, job: JobModel, now: Timestamp)
    requires
        m.wf(),
        job.receipt.epoch == m.epoch,
        job.receipt.seq == m.seq + 1,
    ensures
        submitted(m, job, now).wf(),
{
    let r = submitted(m, job, now);
    let held = expire(m.receipts, now);
    lemma_expire_wf(m.receipts, now);
    lemma_issued_taken(held.entries, m.receipts.entries, m.epoch, m.seq);
    lemma_unexpired_pending(m.receipts.entries, now);
    if has_id(held.entries, job.receipt) {
        let j = choose|j: int|
            0 <= j < held.entries.len() && (#[trigger] held.entries[j]).id == job.receipt;
        assert(held.entries[j].id.seq <= m.seq);
    }
    match refusal(m.lanes, job.agent, job.bytes as nat) {
        Some(reason) => {
            let why = drop_text(reason, refusal_bound(reason) as nat);
            let more = with_dropped(held, job.receipt, job.agent, why, now);
            lemma_with_dropped_wf(held, job.receipt, job.agent, why, now);
            lemma_with_dropped_pending(held, job.receipt, job.agent, why, now);
            lemma_evict_wf(more);
            lemma_evicted_pending(more.entries, excess(more.entries));
            assert(issued_here(more.entries, m.epoch, r.seq));
            lemma_issued_taken(r.receipts.entries, more.entries, m.epoch, r.seq);
            assert(pending_notices(r.receipts.entries) == pending_notices(m.receipts.entries));
        },
        None => {
            let more = with_pending(held, job.receipt, job.agent);
            lemma_flights_are_older(m);
            lemma_enqueue(m.lanes, job);
            lemma_with_pending_wf(held, job.receipt, job.agent);
            lemma_with_pending_pending(held, job.receipt, job.agent);
            lemma_evict_wf(more);
            lemma_evicted_pending(more.entries, excess(more.entries));
            assert(issued_here(more.entries, m.epoch, r.seq));
            lemma_issued_taken(r.receipts.entries, more.entries, m.epoch, r.seq);
            assert(pending_notices(r.receipts.entries) == pending_notices(more.entries));
            assert(pending_notices(held.entries) == pending_notices(m.receipts.entries));
            assert forall|id: ReceiptId| #[trigger] in_flight(r.lanes, id) <==> pending_in(
                r.receipts.entries,
                id,
            ) by {
                assert(in_flight(m.lanes, id) <==> pending_in(m.receipts.entries, id));
                assert(pending_in(held.entries, id) <==> pending_in(m.receipts.entries, id));
                assert(pending_in(more.entries, id) <==> pending_in(held.entries, id) || id
                    == job.receipt);
                assert(pending_in(r.receipts.entries, id) <==> pending_in(more.entries, id));
            }
        },
    }
}

/// The pipeline after an agent's worker took its next write.
pub open spec fn job_taken(m: PipelineModel, agent: Seq<char>) -> PipelineModel {
    PipelineModel { lanes: taken(m.lanes, agent), ..m }
}

/// The pipeline stays in order when a worker takes a write.
pub proof fn lemma_job_taken_wf(m: PipelineModel, agent: Seq<char>)
    requires
        m.wf(),
        idle(m.lanes, agent),
    ensures
        job_taken(m, agent).wf(),
{
    lemma_taken(m.lanes, agent);
    let r = job_taken(m, agent);
    assert forall|id: ReceiptId| #[trigger] in_flight(r.lanes, id) <==> pending_in(
        r.receipts.entries,
        id,
    ) by {
        assert(in_flight(m.lanes, id) <==> pending_in(m.receipts.entries, id));
    }
}

/// A write that runs is pending.
pub proof fn lemma_running_is_pending(m: PipelineModel, agent: Seq<char>, id: ReceiptId)
    requires
        m.wf(),
        runs(m.lanes, agent, id),
    ensures
        pending_in(m.receipts.entries, id),
        m.lanes.running() >= 1,
{
    let i = crate::lanes::lane_index(m.lanes.lanes, agent);
    assert(crate::lanes::in_lane(m.lanes.lanes[i], id));
    assert(in_flight(m.lanes, id));
    crate::lanes::lemma_sum_update(
        m.lanes.lanes,
        crate::lanes::running_in(),
        i,
        m.lanes.lanes[i],
    );
}

/// The pipeline stays in order when the work on a write ends.
pub proof fn lemma_finish_wf(m: PipelineModel, job: JobModel, end: JobEnd, now: Timestamp)
    requires
        m.wf(),
        runs(m.lanes, job.agent, job.receipt),
    ensures
        finish(m, job, end, now).wf(),
{
    let r = finish(m, job, end, now);
    let answer = end_answer(m.session, end);
    let told = settle(m.receipts, job.receipt, answer, now);
    lemma_running_is_pending(m, job.agent, job.receipt);
    lemma_done(m.lanes, job.agent, job.receipt);
    lemma_settle_wf(m.receipts, job.receipt, answer, now);
    lemma_settle_pending(m.receipts, job.receipt, answer, now);
    lemma_expire_wf(told, now);
    lemma_unexpired_pending(told.entries, now);
    assert forall|i: int| 0 <= i < told.entries.len() implies {
        let id = (#[trigger] told.entries[i]).id;
        id.epoch == m.epoch && id.seq <= m.seq
    } by {
        assert(told.entries[i].id == m.receipts.entries[i].id);
    }
    lemma_issued_taken(r.receipts.entries, told.entries, m.epoch, m.seq);
    assert(pending_notices(r.receipts.entries) == pending_notices(told.entries));
    assert forall|id: ReceiptId| #[trigger] in_flight(r.lanes, id) <==> pending_in(
        r.receipts.entries,
        id,
    ) by {
        assert(in_flight(m.lanes, id) <==> pending_in(m.receipts.entries, id));
        assert(pending_in(told.entries, id) <==> pending_in(m.receipts.entries, id) && id
            != job.receipt);
        assert(pending_in(r.receipts.entries, id) <==> pending_in(told.entries, id));
    }
}

/// The pipeline stays in order when its workers are stopped.
pub proof fn lemma_aborted_wf(m: PipelineModel, now: Timestamp)
    requires
        m.wf(),
    ensures
        aborted(m, now).wf(),
{
    let r = aborted(m, now);
    lemma_defer_wf(m.receipts, now);
    assert forall|i: int| 0 <= i < r.receipts.entries.len() implies {
        let id = (#[trigger] r.receipts.entries[i]).id;
        id.epoch == r.epoch && id.seq <= r.seq
    } by {
        assert(r.receipts.entries[i].id == m.receipts.entries[i].id);
    }
    assert forall|id: ReceiptId| #[trigger] in_flight(r.lanes, id) <==> pending_in(
        r.receipts.entries,
        id,
    ) by {
    }
}

/// The pipeline after the receipts past their retention are let go.
pub open spec fn aged(m: PipelineModel, now: Timestamp) -> PipelineModel {
    PipelineModel { receipts: expire(m.receipts, now), ..m }
}

/// The pipeline stays in order when receipts expire.
pub proof fn lemma_aged_wf(m: PipelineModel, now: Timestamp)
    requires
        m.wf(),
    ensures
        aged(m, now).wf(),
{
    let r = aged(m, now);
    lemma_expire_wf(m.receipts, now);
    lemma_unexpired_pending(m.receipts.entries, now);
    lemma_issued_taken(r.receipts.entries, m.receipts.entries, m.epoch, m.seq);
    assert forall|id: ReceiptId| #[trigger] in_flight(r.lanes, id) <==> pending_in(
        r.receipts.entries,
        id,
    ) by {
        assert(in_flight(m.lanes, id) <==> pending_in(m.receipts.entries, id));
        assert(pending_in(r.receipts.entries, id) <==> pending_in(m.receipts.entries, id));
    }
}

/// What is known of a write of an earlier process.
#[derive(Debug)]
pub struct RestartEntry {
    pub id: ReceiptId,
    pub agent: AgentId,
    pub answer: ReceiptAnswer,
}

/// What is known of earlier processes' writes, the latest word on each.
pub open spec fn restart_map(v: Seq<RestartEntry>) -> Map<ReceiptId, (Seq<char>, AnswerModel)>
    decreases v.len(),
{
    if v.len() == 0 {
        Map::empty()
    } else {
        restart_map(v.drop_last()).insert(v.last().id, (v.last().agent@, v.last().answer@))
    }
}

/// What became of a submitted write: what its submitter is told, the intent to record where it
/// was admitted, and whether a worker has to be started for its agent.
#[derive(Debug)]
pub struct Admission {
    pub submitted: Submitted,
    pub intent: Option<WriteIntent>,
    pub start_worker: bool,
}

/// What is left to do when the work on a write ended: the record on its intent, where it was
/// refused, and whether the time that it took is a sample of the embedder's rate.
#[derive(Debug)]
pub struct Finished {
    pub consumed: Option<(String, WriteIntentOutcome)>,
    pub sample: bool,
}

/// The write pipeline of one session in one process.
#[derive(Debug)]
pub struct WritePipeline {
    session: SessionId,
    epoch: u64,
    seq: u64,
    lanes: Lanes,
    receipts: Receipts,
    counters: WriteQueueCounters,
    restart: Vec<RestartEntry>,
}

impl View for WritePipeline {
    type V = PipelineModel;

    closed spec fn view(&self) -> PipelineModel {
        PipelineModel {
            session: self.session@,
            epoch: self.epoch,
            seq: self.seq,
            lanes: self.lanes@,
            receipts: self.receipts@,
            counters: self.counters,
            restart: restart_map(self.restart@),
        }
    }
}

/// The epoch that the bits of a UUID give: its two halves, combined.
pub open spec fn epoch_bits(n: u128) -> u64 {
    (n as u64) ^ ((n >> 64) as u64)
}

/// The epoch that the bits of a UUID give.
pub fn epoch_of(n: u128) -> (r: u64)
    ensures
        r == epoch_bits(n),
{
    #[verifier::truncate]
    let low: u64 = n as u64;
    let high: u64 = (n >> 64) as u64;
    low ^ high
}

impl WritePipeline {
    /// What holds of the pipeline at all times.
    pub closed spec fn wf(&self) -> bool {
        self@.wf() && self.lanes.wf()
    }

    /// What a pipeline keeps is what its view says.
    pub proof fn lemma_wf(&self)
        requires
            self.wf(),
        ensures
            self@.wf(),
    {
    }

    /// A pipeline for a session, in the process with this epoch.
    pub fn new(session: SessionId, epoch: u64) -> (r: WritePipeline)
        ensures
            r.wf(),
            r@ == (PipelineModel {
                session: session@,
                epoch,
                seq: 0,
                lanes: LanesModel { lanes: Seq::empty(), sealed: false },
                receipts: ReceiptsModel { entries: Seq::empty(), undelivered: Seq::empty() },
                counters: WriteQueueCounters::zero(),
                restart: Map::empty(),
            }),
    {
        let r = WritePipeline {
            session,
            epoch,
            seq: 0,
            lanes: Lanes::new(),
            receipts: Receipts::new(),
            counters: WriteQueueCounters::default(),
            restart: Vec::new(),
        };
        proof {
            r.lanes.lemma_wf();
            assert forall|id: ReceiptId| #[trigger] in_flight(r@.lanes, id) <==> pending_in(
                r@.receipts.entries,
                id,
            ) by {
            }
        }
        r
    }

    /// A pipeline for a session, in a process with an epoch of its own.
    pub fn spawn(session: SessionId) -> (r: WritePipeline)
        ensures
            r.wf(),
            r@.session == session@,
            r@.seq == 0,
            r@.lanes == (LanesModel { lanes: Seq::empty(), sealed: false }),
            r@.receipts == (ReceiptsModel { entries: Seq::empty(), undelivered: Seq::empty() }),
            r@.counters == WriteQueueCounters::zero(),
            r@.restart == Map::<ReceiptId, (Seq<char>, AnswerModel)>::empty(),
            exists|n: u128|
                #![trigger epoch_bits(n)]
                boundary::is_random_uuid(n as nat) && r@.epoch == epoch_bits(n),
    {
        let n: u128 = boundary::random_uuid();
        let epoch: u64 = epoch_of(n);
        assert(boundary::is_random_uuid(n as nat) && epoch == epoch_bits(n));
        WritePipeline::new(session, epoch)
    }

    /// The counts.
    pub fn counters(&self) -> (c: &WriteQueueCounters)
        ensures
            *c == self@.counters,
    {
        &self.counters
    }

    /// The epoch of the process.
    pub fn epoch(&self) -> (r: u64)
        ensures
            r == self@.epoch,
    {
        self.epoch
    }

    /// Writes that wait or run.
    pub fn outstanding(&self) -> (n: usize)
        requires
            self.wf(),
        ensures
            n == self@.lanes.outstanding(),
    {
        self.lanes.outstanding()
    }

    /// Receipts that are held.
    pub fn receipts_retained(&self) -> (n: usize)
        ensures
            n == self@.receipts.entries.len(),
    {
        self.receipts.len()
    }

    /// Whether nothing more is admitted.
    pub fn is_sealed(&self) -> (r: bool)
        ensures
            r == self@.lanes.sealed,
    {
        self.lanes.is_sealed()
    }

    /// Submits a write. It is refused where the session is closing or a bound is reached, and
    /// otherwise put behind its agent's other writes, with an intent to be recorded before
    /// anything else is.
    pub fn submit(
        &mut self,
        agent: AgentId,
        interaction: NodeId,
        payload: JobPayload,
        issued: &Timestamp,
        now: &Timestamp,
    ) -> (r: Admission)
        requires
            old(self).wf(),
            old(self)@.seq < u64::MAX,
        ensures
            final(self).wf(),
            final(self)@ == submitted(
                old(self)@,
                next_write(old(self)@, agent@, interaction, payload@, *issued),
                *now,
            ),
            r.submitted.receipt == next_id(old(self)@, *issued),
            r.submitted.kind == payload_kind(payload@),
            r.submitted.answer@ == submit_answer(
                old(self)@,
                next_write(old(self)@, agent@, interaction, payload@, *issued),
            ),
            r.intent is Some <==> r.submitted.answer@ is Pending,
            r.intent matches Some(i) ==> i@ == intent_for(
                old(self)@.session,
                next_write(old(self)@, agent@, interaction, payload@, *issued),
                *now,
            ),
            r.start_worker <==> r.submitted.answer@ is Pending && !has_lane(
                old(self)@.lanes.lanes,
                agent@,
            ),
    {
        let ghost start = self@;
        let ghost model = next_write(start, agent@, interaction, payload@, *issued);
        let bytes: usize = payload.bytes();
        let kind = payload.kind();
        self.seq = self.seq + 1;
        let receipt = ReceiptId::new(self.epoch, issued, self.seq);
        let refused = self.lanes.refusal(&agent, bytes);
        proof {
            lemma_submitted_wf(start, model, *now);
            lemma_flights_are_older(start);
            lemma_expire_wf(start.receipts, *now);
            let held = expire(start.receipts, *now).entries;
            lemma_issued_taken(held, start.receipts.entries, start.epoch, start.seq);
            if has_id(held, receipt) {
                let j = choose|j: int| 0 <= j < held.len() && (#[trigger] held[j]).id == receipt;
                assert(held[j].id.seq <= start.seq);
            }
        }
        self.receipts.expire(now);
        match refused {
            Some(reason) => {
                let bound: usize = match reason {
                    DropReason::Closed => crate::limits::WRITE_QUEUE_LANE_MAX,
                    DropReason::LaneFull => crate::limits::WRITE_QUEUE_LANE_MAX,
                    DropReason::QueueFull => crate::limits::WRITE_QUEUE_MAX,
                    DropReason::QueueBytes => crate::limits::WRITE_QUEUE_MAX,
                };
                match reason {
                    DropReason::QueueBytes => {
                        self.counters.dropped_queue_bytes = self.counters.dropped_queue_bytes + 1;
                    },
                    DropReason::Closed => {
                        self.counters.dropped_closed = self.counters.dropped_closed + 1;
                    },
                    DropReason::LaneFull => {
                        self.counters.dropped_queue_full = self.counters.dropped_queue_full + 1;
                    },
                    DropReason::QueueFull => {
                        self.counters.dropped_queue_full = self.counters.dropped_queue_full + 1;
                    },
                }
                let why = reason.describe(bound);
                self.receipts.push_dropped(&receipt, agent, why.clone(), now);
                self.receipts.evict();
                Admission {
                    submitted: Submitted { receipt, kind, answer: ReceiptAnswer::Dropped(why) },
                    intent: None,
                    start_worker: false,
                }
            },
            None => {
                let job = Job { receipt, agent: agent.clone(), interaction, bytes, payload };
                let intent = job.intent(&self.session, now);
                let start_worker: bool = self.lanes.enqueue(job);
                self.counters.accepted = self.counters.accepted + 1;
                self.receipts.push_pending(&receipt, agent);
                self.receipts.evict();
                Admission {
                    submitted: Submitted { receipt, kind, answer: ReceiptAnswer::Pending },
                    intent: Some(intent),
                    start_worker,
                }
            },
        }
    }

    /// Submits a derive.
    pub fn submit_derive(
        &mut self,
        agent: AgentId,
        interaction: NodeId,
        concepts: Vec<(String, ConceptType)>,
        pairs: Vec<(String, String)>,
        issued: &Timestamp,
        now: &Timestamp,
    ) -> (r: Admission)
        requires
            old(self).wf(),
            old(self)@.seq < u64::MAX,
        ensures
            final(self).wf(),
            final(self)@ == submitted(
                old(self)@,
                next_write(
                    old(self)@,
                    agent@,
                    interaction,
                    (JobPayload::Derive { concepts, pairs })@,
                    *issued,
                ),
                *now,
            ),
            r.submitted.receipt == next_id(old(self)@, *issued),
            r.submitted.kind == WriteKind::Derive,
            r.submitted.answer@ == submit_answer(
                old(self)@,
                next_write(
                    old(self)@,
                    agent@,
                    interaction,
                    (JobPayload::Derive { concepts, pairs })@,
                    *issued,
                ),
            ),
            r.intent is Some <==> r.submitted.answer@ is Pending,
            r.intent matches Some(i) ==> i@ == intent_for(
                old(self)@.session,
                next_write(
                    old(self)@,
                    agent@,
                    interaction,
                    (JobPayload::Derive { concepts, pairs })@,
                    *issued,
                ),
                *now,
            ),
            r.start_worker <==> r.submitted.answer@ is Pending && !has_lane(
                old(self)@.lanes.lanes,
                agent@,
            ),
    {
        self.submit(agent, interaction, JobPayload::Derive { concepts, pairs }, issued, now)
    }

    /// Submits an action.
    pub fn submit_action(
        &mut self,
        agent: AgentId,
        interaction: NodeId,
        action: String,
        produces: Vec<String>,
        modifies: Vec<String>,
        depends_on: Vec<String>,
        issued: &Timestamp,
        now: &Timestamp,
    ) -> (r: Admission)
        requires
            old(self).wf(),
            old(self)@.seq < u64::MAX,
        ensures
            final(self).wf(),
            final(self)@ == submitted(
                old(self)@,
                next_write(
                    old(self)@,
                    agent@,
                    interaction,
                    (JobPayload::Action { action, produces, modifies, depends_on })@,
                    *issued,
                ),
                *now,
            ),
            r.submitted.receipt == next_id(old(self)@, *issued),
            r.submitted.kind == WriteKind::RecordAction,
            r.submitted.answer@ == submit_answer(
                old(self)@,
                next_write(
                    old(self)@,
                    agent@,
                    interaction,
                    (JobPayload::Action { action, produces, modifies, depends_on })@,
                    *issued,
                ),
            ),
            r.intent is Some <==> r.submitted.answer@ is Pending,
            r.intent matches Some(i) ==> i@ == intent_for(
                old(self)@.session,
                next_write(
                    old(self)@,
                    agent@,
                    interaction,
                    (JobPayload::Action { action, produces, modifies, depends_on })@,
                    *issued,
                ),
                *now,
            ),
            r.start_worker <==> r.submitted.answer@ is Pending && !has_lane(
                old(self)@.lanes.lanes,
                agent@,
            ),
    {
        self.submit(
            agent,
            interaction,
            JobPayload::Action { action, produces, modifies, depends_on },
            issued,
            now,
        )
    }

    /// Hands an agent's worker its next write. Where there is none the lane is closed, and the
    /// worker ends.
    pub fn take_job(&mut self, agent: &AgentId) -> (r: Option<Job>)
        requires
            old(self).wf(),
            idle(old(self)@.lanes, agent@),
        ensures
            final(self).wf(),
            final(self)@ == job_taken(old(self)@, agent@),
            match r {
                Some(job) => {
                    &&& next_job(old(self)@.lanes, agent@) == Some(job@)
                    &&& job.agent@ == agent@
                    &&& runs(final(self)@.lanes, agent@, job.receipt)
                },
                None => next_job(old(self)@.lanes, agent@) is None && !has_lane(
                    final(self)@.lanes.lanes,
                    agent@,
                ),
            },
    {
        proof {
            lemma_job_taken_wf(self@, agent@);
            lemma_taken(self@.lanes, agent@);
        }
        self.lanes.take(agent)
    }

    /// Notes how the work on a write ended: its receipt settles, and its lane is free. A write
    /// that was refused is recorded as failed on its intent; one that was given up on keeps its
    /// intent as it is, for the session's next holder.
    pub fn finish_job(&mut self, job: &Job, end: JobEnd, now: &Timestamp) -> (r: Finished)
        requires
            old(self).wf(),
            runs(old(self)@.lanes, job.agent@, job.receipt),
        ensures
            final(self).wf(),
            final(self)@ == finish(old(self)@, job@, end, *now),
            r.sample == (end is Applied),
            r.consumed is Some <==> end is Refused,
            r.consumed matches Some(c) ==> c.0@ == wire(job.receipt) && c.1@ == (OutcomeModel {
                tag: "failed"@,
                summary: lambo_error_text(end->Refused_0),
                consumed_at: *now,
            }),
            match r.consumed {
                Some(c) => end_outcome(end, *now) == Some(c.1@),
                None => end_outcome(end, *now) is None,
            },
    {
        let ghost start = self@;
        proof {
            lemma_finish_wf(start, job@, end, *now);
            lemma_running_is_pending(start, job.agent@, job.receipt);
        }
        self.lanes.finish(&job.agent, Ghost(job.receipt));
        let mut consumed: Option<(String, WriteIntentOutcome)> = None;
        let mut sample: bool = false;
        let answer: ReceiptAnswer = match end {
            JobEnd::LeaseLost => {
                self.counters.abandoned = self.counters.abandoned + 1;
                self.counters.failed = self.counters.failed + 1;
                ReceiptAnswer::Failed(
                    joined(
                        "this handle lost its single-writer lease before the write was applied; this process wrote nothing for session ",
                        self.session.as_str(),
                        " — if the write's durable intent reached the store first, the session's current holder will apply it",
                    ),
                )
            },
            JobEnd::Applied(summary) => {
                self.counters.applied = self.counters.applied + 1;
                sample = true;
                ReceiptAnswer::Applied(summary)
            },
            JobEnd::Refused(e) => {
                self.counters.failed = self.counters.failed + 1;
                let why = e.to_string();
                consumed = Some(
                    (
                        job.receipt.to_string(),
                        WriteIntentOutcome {
                            tag: "failed".to_owned(),
                            summary: why.clone(),
                            consumed_at: *now,
                        },
                    ),
                );
                ReceiptAnswer::Failed(why)
            },
        };
        self.receipts.settle(&job.receipt, answer, now);
        self.receipts.expire(now);
        Finished { consumed, sample }
    }

    fn restart_answer(&self, id: &ReceiptId) -> (r: Option<&RestartEntry>)
        ensures
            r is Some <==> self@.restart.dom().contains(*id),
            r matches Some(e) ==> self@.restart[*id] == (e.agent@, e.answer@),
    {
        let mut i: usize = self.restart.len();
        proof {
            assert(self.restart@.take(i as int) =~= self.restart@);
        }
        while i > 0
            invariant
                i <= self.restart@.len(),
                restart_map(self.restart@.take(i as int)).dom().contains(*id)
                    <==> self@.restart.dom().contains(*id),
                self@.restart.dom().contains(*id) ==> restart_map(
                    self.restart@.take(i as int),
                )[*id] == self@.restart[*id],
            decreases i,
        {
            i -= 1;
            proof {
                let prefix = self.restart@.take(i + 1);
                assert(prefix.drop_last() =~= self.restart@.take(i as int));
                assert(prefix.last() == self.restart@[i as int]);
            }
            if self.restart[i].id == *id {
                return Some(&self.restart[i]);
            }
        }
        None
    }

    /// What a receipt answers, to the agent that asks.
    pub fn lookup(&mut self, agent: &AgentId, id: ReceiptId, now: &Timestamp) -> (r: ReceiptAnswer)
        requires
            old(self).wf(),
        ensures
            final(self).wf(),
            final(self)@ == aged(old(self)@, *now),
            r@ == lookup_answer(aged(old(self)@, *now), agent@, id),
    {
        proof {
            lemma_aged_wf(self@, *now);
        }
        self.receipts.expire(now);
        match self.receipts.find(&id) {
            Some(entry) => {
                if entry.agent.same(agent) {
                    return entry.answer.clone();
                }
                return ReceiptAnswer::Forbidden;
            },
            None => {},
        }
        match self.restart_answer(&id) {
            Some(entry) => {
                if entry.agent.same(agent) {
                    return entry.answer.clone();
                }
                return ReceiptAnswer::Forbidden;
            },
            None => {},
        }
        if id.epoch != self.epoch {
            ReceiptAnswer::RestartLost
        } else if id.seq > self.seq {
            ReceiptAnswer::NeverIssued
        } else {
            ReceiptAnswer::Expired
        }
    }

    /// Notes that an agent was told of a receipt.
    pub fn mark_delivered(&mut self, agent: &AgentId, id: ReceiptId)
        requires
            old(self).wf(),
        ensures
            final(self).wf(),
            final(self)@ == (PipelineModel {
                receipts: crate::receipts::delivered(old(self)@.receipts, agent@, id),
                ..old(self)@
            }),
    {
        self.receipts.mark_delivered(agent, &id);
    }

    /// Hands out the first settled receipts that an agent was not told of, with their answers,
    /// and counts those that are left.
    pub fn take_piggyback(&mut self, agent: &AgentId, now: &Timestamp) -> (r: (
        Vec<(ReceiptId, ReceiptAnswer)>,
        usize,
    ))
        requires
            old(self).wf(),
        ensures
            final(self).wf(),
            final(self)@ == taken_notices(aged(old(self)@, *now), agent@),
            crate::receipts::answer_views(r.0@) == crate::receipts::answers_of(
                expire(old(self)@.receipts, *now).entries,
                crate::receipts::first_of(
                    expire(old(self)@.receipts, *now).undelivered,
                    agent@,
                    crate::limits::MAX_PIGGYBACK_RECEIPTS as nat,
                ),
            ),
            r.1 == crate::receipts::waiting(final(self)@.receipts.undelivered, agent@),
    {
        proof {
            lemma_aged_wf(self@, *now);
        }
        self.receipts.expire(now);
        self.receipts.take_piggyback(agent)
    }

    /// Admits nothing more. Tells whether that was so already.
    pub fn seal(&mut self) -> (before: bool)
        requires
            old(self).wf(),
        ensures
            final(self).wf(),
            final(self)@ == sealed(old(self)@),
            before == old(self)@.lanes.sealed,
    {
        proof {
            lemma_sealed_wf(self@.lanes);
            let r = sealed(self@);
            assert forall|id: ReceiptId| #[trigger] in_flight(r.lanes, id) <==> pending_in(
                r.receipts.entries,
                id,
            ) by {
                assert(in_flight(self@.lanes, id) <==> pending_in(self@.receipts.entries, id));
            }
        }
        self.lanes.seal()
    }

    /// Stops the work: nothing more is admitted, nothing waits or runs, and every pending
    /// receipt settles as left to its durable intent. Counts those.
    pub fn abort_workers(&mut self, now: &Timestamp) -> (n: usize)
        requires
            old(self).wf(),
        ensures
            final(self).wf(),
            final(self)@ == aborted(old(self)@, *now),
            n == pending_count(old(self)@.receipts.entries),
    {
        proof {
            lemma_aborted_wf(self@, *now);
        }
        self.lanes.clear();
        let n: usize = self.receipts.defer(now);
        self.counters.deferred = self.counters.deferred + n as u64;
        n
    }
}

/// The pipeline after it admits nothing more.
pub open spec fn sealed(m: PipelineModel) -> PipelineModel {
    PipelineModel { lanes: LanesModel { lanes: m.lanes.lanes, sealed: true }, ..m }
}

/// The pipeline after an agent took its first notices.
pub open spec fn taken_notices(m: PipelineModel, agent: Seq<char>) -> PipelineModel {
    PipelineModel {
        receipts: ReceiptsModel {
            entries: m.receipts.entries,
            undelivered: crate::receipts::without_first(
                m.receipts.undelivered,
                agent,
                crate::limits::MAX_PIGGYBACK_RECEIPTS as nat,
            ),
        },
        ..m
    }
}

/// The views of a list of intents.
pub open spec fn intent_models(v: Seq<WriteIntent>) -> Seq<IntentModel> {
    Seq::new(v.len(), |i: int| v[i]@)
}

/// What an earlier process's intent answers: pending while it is not consumed, and then what its
/// outcome says.
pub open spec fn seed_answer(i: IntentModel) -> AnswerModel {
    match i.outcome {
        None => AnswerModel::Pending,
        Some(o) => if o.tag == "failed"@ {
            AnswerModel::Failed(o.summary)
        } else {
            AnswerModel::AppliedAfterRestart(o.summary)
        },
    }
}

/// An intent answers for its receipt: the receipt can be read, and the intent was not consumed
/// longer ago than a receipt is kept.
pub open spec fn seeds(i: IntentModel, now: Timestamp) -> bool {
    &&& read_wire(i.receipt) is Some
    &&& !(i.outcome is Some && past_retention(i.outcome->0.consumed_at, now))
}

/// What is known of earlier processes' writes after their intents were read.
pub open spec fn seeded(
    restart: Map<ReceiptId, (Seq<char>, AnswerModel)>,
    intents: Seq<IntentModel>,
    now: Timestamp,
) -> Map<ReceiptId, (Seq<char>, AnswerModel)>
    decreases intents.len(),
{
    if intents.len() == 0 {
        restart
    } else {
        let before = seeded(restart, intents.drop_last(), now);
        let i = intents.last();
        if seeds(i, now) {
            before.insert(read_wire(i.receipt)->0, (i.agent, seed_answer(i)))
        } else {
            before
        }
    }
}

/// The intent was not consumed.
pub open spec fn unconsumed(i: IntentModel) -> bool {
    i.outcome is None
}

/// What to do with the next intent of the backlog.
#[derive(Debug)]
pub enum ReplayStep {
    /// The lease is lost or the session closes: what is left stays for the next process.
    Stop,
    /// The receipt cannot be read.
    Skip,
    /// Apply the write; the text is the receipt as the intent holds it.
    Run(Job, String),
}

/// The write that an intent asks for.
pub open spec fn replay_job(i: IntentModel) -> JobModel {
    JobModel {
        receipt: read_wire(i.receipt)->0,
        agent: i.agent,
        interaction: i.interaction,
        bytes: 0,
        payload: i.payload,
    }
}

/// The message of an intent whose write was refused.
pub open spec fn replay_refused_text(e: LamboError) -> Seq<char> {
    "replay after restart was refused ("@ + lambo_error_text(e) + "); nothing was written"@
}

/// The pipeline after an intent of an earlier process was worked on. One whose embedder could
/// not be reached stays as it was, for the next process.
pub open spec fn replayed(
    m: PipelineModel,
    job: JobModel,
    end: Result<AppliedSummary, LamboError>,
) -> PipelineModel {
    match end {
        Ok(s) => PipelineModel {
            restart: m.restart.insert(
                job.receipt,
                (job.agent, AnswerModel::AppliedAfterRestart(s.summary@)),
            ),
            counters: WriteQueueCounters {
                replayed: if m.counters.replayed == u64::MAX {
                    0
                } else {
                    (m.counters.replayed + 1) as u64
                },
                ..m.counters
            },
            ..m
        },
        Err(LamboError::EmbedUnavailable(_)) => m,
        Err(e) => PipelineModel {
            restart: m.restart.insert(
                job.receipt,
                (job.agent, AnswerModel::Failed(replay_refused_text(e))),
            ),
            ..m
        },
    }
}

/// The intents that an earlier process left unconsumed, in the order in which they came.
pub fn backlog(intents: Vec<WriteIntent>) -> (r: Vec<WriteIntent>)
    ensures
        intent_models(r@) == intent_models(intents@).filter(|i: IntentModel| unconsumed(i)),
{
    let ghost all = intent_models(intents@);
    let ghost open = |i: IntentModel| unconsumed(i);
    let mut r: Vec<WriteIntent> = Vec::new();
    proof {
        reveal(Seq::filter);
        assert(all.take(0).filter(open) =~= Seq::empty());
        assert(intent_models(r@) =~= Seq::empty());
    }
    for intent in iter: intents
        invariant
            iter.seq().len() == all.len(),
            forall|j: int| 0 <= j < all.len() ==> (#[trigger] iter.seq()[j])@ == all[j],
            open == (|i: IntentModel| unconsumed(i)),
            intent_models(r@) == all.take(iter.index() as int).filter(open),
    {
        let ghost at = iter.index() as int;
        let ghost before = r@;
        proof {
            reveal(Seq::filter);
            assert(all.take(at + 1).drop_last() =~= all.take(at));
            assert(all.take(at + 1).last() == all[at]);
            assert(intent@ == all[at]);
        }
        if intent.outcome.is_none() {
            r.push(intent);
            proof {
                assert(intent_models(r@) =~= intent_models(before).push(all[at]));
            }
        }
    }
    proof {
        assert(all.take(all.len() as int) =~= all);
    }
    r
}

/// Whether the replay of what earlier processes left stops here.
pub open spec fn replay_stops(m: PipelineModel, lease_lost: bool) -> bool {
    lease_lost || m.lanes.sealed
}

impl WritePipeline {
    /// Reads what earlier processes left: each intent answers for its receipt, unless it was
    /// consumed longer ago than a receipt is kept.
    pub fn seed_replay(&mut self, intents: &Vec<WriteIntent>, now: &Timestamp)
        requires
            old(self).wf(),
        ensures
            final(self).wf(),
            final(self)@ == (PipelineModel {
                restart: seeded(old(self)@.restart, intent_models(intents@), *now),
                ..old(self)@
            }),
    {
        let ghost start = self@;
        let ghost all = intent_models(intents@);
        let mut i: usize = 0;
        proof {
            assert(all.take(0) =~= Seq::empty());
        }
        while i < intents.len()
            invariant
                i <= intents@.len(),
                all == intent_models(intents@),
                self.wf(),
                self@ == (PipelineModel {
                    restart: seeded(start.restart, all.take(i as int), *now),
                    ..start
                }),
            decreases intents@.len() - i,
        {
            let ghost before = self.restart@;
            proof {
                assert(all.take(i + 1).drop_last() =~= all.take(i as int));
                assert(all.take(i + 1).last() == all[i as int]);
            }
            let intent = &intents[i];
            let stale: bool = match &intent.outcome {
                Some(o) => o.consumed_at.older_than(now, RECEIPT_RETENTION_SECS),
                None => false,
            };
            match <ReceiptId as std::str::FromStr>::from_str(intent.receipt.as_str()) {
                Ok(id) => {
                    if !stale {
                        let answer = match &intent.outcome {
                            None => ReceiptAnswer::Pending,
                            Some(o) => if is_failed(&o.tag) {
                                ReceiptAnswer::Failed(o.summary.clone())
                            } else {
                                ReceiptAnswer::AppliedAfterRestart(o.summary.clone())
                            },
                        };
                        self.restart.push(
                            RestartEntry { id, agent: intent.agent.clone(), answer },
                        );
                        proof {
                            assert(self.restart@.drop_last() =~= before);
                        }
                    }
                },
                Err(_) => {},
            }
            i += 1;
        }
        proof {
            assert(all.take(all.len() as int) =~= all);
        }
    }

    /// What to do with the next intent of the backlog.
    pub fn replay_step(&self, intent: WriteIntent, lease_lost: bool) -> (r: ReplayStep)
        ensures
            r is Stop <==> replay_stops(self@, lease_lost),
            match r {
                ReplayStep::Stop => lease_lost || self@.lanes.sealed,
                ReplayStep::Skip => !lease_lost && !self@.lanes.sealed && read_wire(
                    intent.receipt@,
                ) is None,
                ReplayStep::Run(job, receipt) => {
                    &&& !lease_lost && !self@.lanes.sealed
                    &&& read_wire(intent.receipt@) is Some
                    &&& job@ == replay_job(intent@)
                    &&& receipt@ == intent.receipt@
                },
            },
    {
        if lease_lost || self.lanes.is_sealed() {
            return ReplayStep::Stop;
        }
        match <ReceiptId as std::str::FromStr>::from_str(intent.receipt.as_str()) {
            Ok(receipt) => ReplayStep::Run(
                Job {
                    receipt,
                    agent: intent.agent,
                    interaction: intent.interaction,
                    bytes: 0,
                    payload: JobPayload::from_intent_payload(intent.payload),
                },
                intent.receipt,
            ),
            Err(_) => ReplayStep::Skip,
        }
    }

    /// Notes how the work on an intent of an earlier process ended, and says what is to be
    /// recorded on it. A write that was applied was recorded in the step that applied it; one
    /// that was refused is recorded as failed; one whose embedder could not be reached keeps
    /// its intent as it is.
    pub fn finish_replay(
        &mut self,
        job: &Job,
        receipt: &str,
        end: Result<AppliedSummary, LamboError>,
        now: &Timestamp,
    ) -> (r: Option<(String, WriteIntentOutcome)>)
        requires
            old(self).wf(),
        ensures
            final(self).wf(),
            final(self)@ == replayed(old(self)@, job@, end),
            r is Some <==> end is Err && !(end->Err_0 is EmbedUnavailable),
            r matches Some(c) ==> c.0@ == receipt@ && c.1@ == (OutcomeModel {
                tag: "failed"@,
                summary: replay_refused_text(end->Err_0),
                consumed_at: *now,
            }),
            match r {
                Some(c) => replay_outcome(end, *now) == Some(c.1@),
                None => replay_outcome(end, *now) is None,
            },
    {
        let ghost before = self.restart@;
        match end {
            Ok(summary) => {
                self.counters.replayed = self.counters.replayed.wrapping_add(1);
                self.restart.push(
                    RestartEntry {
                        id: job.receipt,
                        agent: job.agent.clone(),
                        answer: ReceiptAnswer::AppliedAfterRestart(summary.summary),
                    },
                );
                proof {
                    assert(self.restart@.drop_last() =~= before);
                }
                None
            },
            Err(e) => {
                match e {
                    LamboError::EmbedUnavailable(_) => None,
                    _ => {
                        let why = joined(
                            "replay after restart was refused (",
                            e.to_string().as_str(),
                            "); nothing was written",
                        );
                        self.restart.push(
                            RestartEntry {
                                id: job.receipt,
                                agent: job.agent.clone(),
                                answer: ReceiptAnswer::Failed(why.clone()),
                            },
                        );
                        proof {
                            assert(self.restart@.drop_last() =~= before);
                        }
                        Some(
                            (
                                receipt.to_owned(),
                                WriteIntentOutcome {
                                    tag: "failed".to_owned(),
                                    summary: why,
                                    consumed_at: *now,
                                },
                            ),
                        )
                    },
                }
            },
        }
    }
}

fn is_failed(tag: &String) -> (r: bool)
    ensures
        r == (tag@ == "failed"@),
{
    let failed: String = "failed".to_owned();
    *tag == failed
}

/// Whether a caller that waits on a receipt is answered now: the answer will stay, or the time is
/// up.
pub fn wait_is_over(answer: &ReceiptAnswer, time_is_up: bool) -> (r: bool)
    ensures
        r == (!(answer@ is Pending) || time_is_up),
{
    answer.is_settled() || time_is_up
}

/// How long a caller waits on a receipt that asks to wait this long, in milliseconds.
pub open spec fn wait_budget(asked_ms: u64) -> int {
    if asked_ms <= RECEIPT_WAIT_MAX_SECS * 1000 {
        asked_ms as int
    } else {
        RECEIPT_WAIT_MAX_SECS * 1000
    }
}

/// How long a caller may wait on a receipt that asks to wait this long, in milliseconds.
pub fn wait_budget_ms(asked_ms: u64) -> (r: u64)
    ensures
        r == wait_budget(asked_ms),
        r == if asked_ms <= RECEIPT_WAIT_MAX_SECS * 1000 {
            asked_ms as int
        } else {
            RECEIPT_WAIT_MAX_SECS * 1000
        },
{
    if asked_ms <= RECEIPT_WAIT_MAX_SECS * 1000 {
        asked_ms
    } else {
        RECEIPT_WAIT_MAX_SECS * 1000
    }
}

} // verus!
