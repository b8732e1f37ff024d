//! What a receipt answers at each point of its write's way, and after a restart.

use crate::job::{
    outcome_sentence, outcome_summary, IntentModel, JobModel, OutcomeModel, PayloadModel,
    WriteOutcome,
};
use crate::lanes::{refusal_bound, runs};
use crate::pipeline::{
    aborted, aged, end_outcome, finish, lemma_aborted_wf, lemma_running_is_pending, lookup_answer,
    replay_outcome, replayed, seeded, submitted, JobEnd, PipelineModel,
};
use crate::receipt::{
    answer_text, drop_text, read_wire, receipt_id_round_trips, wire, AnswerModel, AppliedSummary,
    DropReason, ReceiptId,
};
use crate::receipts::{
    answers_of, delivered, entry_of, evict, excess, expire,
    expiry_takes_only_what_is_past_retention, first_of, has_id, lemma_entry_of,
    lemma_entry_of_taken, lemma_evict_wf, lemma_evicted_pending, lemma_expire_wf,
    lemma_pending_held, lemma_pending_in, lemma_settle_wf, lemma_unexpired_pending,
    lemma_with_dropped_pending, lemma_with_dropped_wf, lemma_with_pending_pending,
    lemma_with_pending_wf, past_retention, pending_in, settle, unexpired, with_dropped,
    with_pending, without_oldest_settled, EntryModel, NoticeModel, ReceiptsModel,
};
use crate::text::{decimal, read_hex_i64, read_hex_u64, split};
use crate::time::{earlier_by, is_before, Timestamp};
use crate::types::{store_error_text, LamboError, MatchStrategy, StoreError, StoreErrorModel};
use vstd::prelude::*;

verus! {

/// A receipt is kept for three hundred seconds after it settled, and no longer: by the second, then
/// by the nanoseconds within it. Of a leap second the clock is the next second's.
pub proof fn retention_is_three_hundred_seconds(settled: Timestamp, now: Timestamp)
    requires
        now.valid(),
    ensures
        now.sub_nanos() < 1_000_000_000 ==> (past_retention(settled, now) <==> settled.secs()
            < now.secs() - 300 || (settled.secs() == now.secs() - 300 && settled.sub_nanos()
            < now.sub_nanos())),
        now.sub_nanos() >= 1_000_000_000 ==> (past_retention(settled, now) <==> settled.secs()
            < now.secs() - 299 || (settled.secs() == now.secs() - 299 && settled.sub_nanos()
            < now.sub_nanos() - 1_000_000_000)),
{
    let total = now.instant() - 300 * 1_000_000_000;
    if now.sub_nanos() < 1_000_000_000 {
        assert(total == (now.secs() - 300) * 1_000_000_000 + now.sub_nanos());
        assert(total / 1_000_000_000 == now.secs() - 300);
        assert(total % 1_000_000_000 == now.sub_nanos());
        Timestamp::parts_of_at(now.secs() - 300, now.sub_nanos());
    } else {
        assert(total == (now.secs() - 299) * 1_000_000_000 + (now.sub_nanos() - 1_000_000_000));
        assert(total / 1_000_000_000 == now.secs() - 299);
        assert(total % 1_000_000_000 == now.sub_nanos() - 1_000_000_000);
        Timestamp::parts_of_at(now.secs() - 299, now.sub_nanos() - 1_000_000_000);
    }
}

/// The pipeline after it read what earlier processes left.
pub open spec fn restarted(m: PipelineModel, intents: Seq<IntentModel>, now: Timestamp) -> PipelineModel {
    PipelineModel { restart: seeded(m.restart, intents, now), ..m }
}

proof fn lemma_last_word(
    restart: Map<ReceiptId, (Seq<char>, AnswerModel)>,
    intents: Seq<IntentModel>,
    now: Timestamp,
    k: int,
    id: ReceiptId,
)
    requires
        0 <= k < intents.len(),
        read_wire(intents[k].receipt) == Some(id),
        forall|j: int| k < j < intents.len() ==> read_wire((#[trigger] intents[j]).receipt) != Some(id),
        intents[k].outcome matches Some(o) ==> !past_retention(o.consumed_at, now),
    ensures
        seeded(restart, intents, now).dom().contains(id),
        seeded(restart, intents, now)[id].0 == intents[k].agent,
        seeded(restart, intents, now)[id].1 == match intents[k].outcome {
            None => AnswerModel::Pending,
            Some(o) => if o.tag == "failed"@ {
                AnswerModel::Failed(o.summary)
            } else {
                AnswerModel::AppliedAfterRestart(o.summary)
            },
        },
    decreases intents.len(),
{
    let less = intents.drop_last();
    if k < intents.len() - 1 {
        assert(less[k] == intents[k]);
        assert forall|j: int| k < j < less.len() implies read_wire((#[trigger] less[j]).receipt)
            != Some(id) by {
            assert(less[j] == intents[j]);
        }
        lemma_last_word(restart, less, now, k, id);
        assert(read_wire(intents[intents.len() - 1].receipt) != Some(id));
    }
}

/// After a restart the last intent that names a receipt answers for it, to its own agent and to no
/// other: pending while it has no outcome, failed where the outcome says so, with what was recorded,
/// and otherwise applied.
pub proof fn an_intent_answers_for_its_receipt(
    m: PipelineModel,
    intents: Seq<IntentModel>,
    now: Timestamp,
    k: int,
    id: ReceiptId,
    agent: Seq<char>,
)
    requires
        0 <= k < intents.len(),
        read_wire(intents[k].receipt) == Some(id),
        forall|j: int| k < j < intents.len() ==> read_wire((#[trigger] intents[j]).receipt) != Some(id),
        intents[k].outcome matches Some(o) ==> !is_before(
            o.consumed_at,
            earlier_by(now, 300_000_000_000),
        ),
        !has_id(m.receipts.entries, id),
    ensures
        ({
            let answer = lookup_answer(restarted(m, intents, now), agent, id);
            if agent != intents[k].agent {
                answer is Forbidden
            } else {
                &&& answer is Pending <==> intents[k].outcome is None
                &&& intents[k].outcome matches Some(o) ==> (o.tag == "failed"@ ==> answer
                    == AnswerModel::Failed(o.summary))
                &&& intents[k].outcome matches Some(o) ==> (o.tag != "failed"@ ==> answer
                    == AnswerModel::AppliedAfterRestart(o.summary))
            }
        }),
{
    lemma_last_word(m.restart, intents, now, k, id);
}

/// A receipt all of whose intents were consumed longer ago than three hundred seconds answers that
/// a restart lost it.
pub proof fn an_outcome_past_its_time_is_lost(
    m: PipelineModel,
    intents: Seq<IntentModel>,
    now: Timestamp,
    id: ReceiptId,
    agent: Seq<char>,
)
    requires
        forall|j: int|
            0 <= j < intents.len() && read_wire((#[trigger] intents[j]).receipt) == Some(id) ==> (
            intents[j].outcome matches Some(o) && is_before(
                o.consumed_at,
                earlier_by(now, 300_000_000_000),
            )),
        !has_id(m.receipts.entries, id),
        !m.restart.dom().contains(id),
        id.epoch != m.epoch,
    ensures
        lookup_answer(restarted(m, intents, now), agent, id) is RestartLost,
{
    crate::laws::a_stale_intent_gives_no_answer(m.restart, intents, now, id);
}

proof fn lemma_not_past_itself(now: Timestamp)
    requires
        now.valid(),
    ensures
        !past_retention(now, now),
{
    retention_is_three_hundred_seconds(now, now);
}

/// A write whose work ended answers with that end, to its own agent: what was applied with its
/// summary, what was refused with the refusal, and what was given up on as failed.
pub proof fn an_ended_write_answers_with_its_end(
    m: PipelineModel,
    job: JobModel,
    end: JobEnd,
    now: Timestamp,
)
    requires
        m.wf(),
        now.valid(),
        runs(m.lanes, job.agent, job.receipt),
    ensures
        ({
            let owner = entry_of(m.receipts.entries, job.receipt).agent;
            let answer = lookup_answer(finish(m, job, end, now), owner, job.receipt);
            &&& end matches JobEnd::Applied(s) ==> answer == AnswerModel::Applied(s@)
            &&& end matches JobEnd::Refused(e) ==> answer == AnswerModel::Failed(
                crate::types::lambo_error_text(e),
            )
            &&& end is LeaseLost ==> answer is Failed
        }),
{
    let e0 = m.receipts.entries;
    let answer = crate::pipeline::end_answer(m.session, end);
    let told = settle(m.receipts, job.receipt, answer, now);
    lemma_running_is_pending(m, job.agent, job.receipt);
    lemma_pending_held(e0, job.receipt);
    lemma_settle_wf(m.receipts, job.receipt, answer, now);
    lemma_expire_wf(told, now);
    let j = choose|j: int| 0 <= j < e0.len() && (#[trigger] e0[j]).id == job.receipt;
    lemma_entry_of(e0, j);
    let x = told.entries[j];
    assert(x == crate::receipts::settled_entry(e0[j], answer, now));
    lemma_entry_of(told.entries, j);
    lemma_not_past_itself(now);
    assert(told.entries.contains(x));
    expiry_takes_only_what_is_past_retention(told, now, x);
    let kept = expire(told, now).entries;
    let n = choose|n: int| 0 <= n < kept.len() && kept[n] == x;
    lemma_entry_of(kept, n);
}

/// A refused write answers the same after a restart as before it: the process that reads the intent
/// with what was recorded on it fails the receipt with the very words that the process gave that
/// refused the write.
pub proof fn a_refusal_reads_the_same_after_a_restart(
    m: PipelineModel,
    job: JobModel,
    end: JobEnd,
    now: Timestamp,
    next: PipelineModel,
    intents: Seq<IntentModel>,
    k: int,
    later: Timestamp,
)
    requires
        m.wf(),
        now.valid(),
        runs(m.lanes, job.agent, job.receipt),
        end is Refused,
        job.receipt.issued_ms >= 0,
        0 <= k < intents.len(),
        intents[k].receipt == wire(job.receipt),
        intents[k].agent == entry_of(m.receipts.entries, job.receipt).agent,
        intents[k].outcome == end_outcome(end, now),
        forall|j: int|
            k < j < intents.len() ==> read_wire((#[trigger] intents[j]).receipt) != Some(
                job.receipt,
            ),
        !is_before(now, earlier_by(later, 300_000_000_000)),
        !has_id(next.receipts.entries, job.receipt),
    ensures
        ({
            let owner = entry_of(m.receipts.entries, job.receipt).agent;
            let before = lookup_answer(finish(m, job, end, now), owner, job.receipt);
            let after = lookup_answer(restarted(next, intents, later), owner, job.receipt);
            before is Failed && after == before
        }),
{
    receipt_id_round_trips(job.receipt);
    an_ended_write_answers_with_its_end(m, job, end, now);
    an_intent_answers_for_its_receipt(next, intents, later, k, job.receipt, intents[k].agent);
}

/// A write that was replayed answers with what came of it, to its own agent: applied after a
/// restart with its summary, failed where it was refused, and still what it was before where the
/// embedder could not be reached. What is recorded of a refusal answers so again after a further
/// restart.
pub proof fn a_replayed_write_answers_with_its_end(
    m: PipelineModel,
    job: JobModel,
    end: Result<AppliedSummary, LamboError>,
    now: Timestamp,
)
    requires
        !has_id(m.receipts.entries, job.receipt),
    ensures
        ({
            let answer = lookup_answer(replayed(m, job, end), job.agent, job.receipt);
            &&& end matches Ok(s) ==> answer == AnswerModel::AppliedAfterRestart(s.summary@)
            &&& end matches Err(e) ==> (!(e is EmbedUnavailable) ==> answer is Failed
                && replay_outcome(end, now) == Some(
                OutcomeModel { tag: "failed"@, summary: answer->Failed_0, consumed_at: now },
            ))
            &&& end matches Err(e) ==> (e is EmbedUnavailable ==> replayed(m, job, end) == m
                && replay_outcome(end, now) is None)
            &&& !(end is Err && end->Err_0 is EmbedUnavailable) ==> forall|other: Seq<char>|
                other != job.agent ==> #[trigger] lookup_answer(
                    replayed(m, job, end),
                    other,
                    job.receipt,
                ) is Forbidden
            &&& forall|id: ReceiptId, agent: Seq<char>|
                id != job.receipt ==> #[trigger] lookup_answer(replayed(m, job, end), agent, id)
                    == lookup_answer(m, agent, id)
        }),
{
}

/// What an intent records of an applied write is the sentence that its caller is told.
pub proof fn the_intent_records_what_the_caller_is_told(
    p: PayloadModel,
    strategy: MatchStrategy,
    outcome: WriteOutcome,
)
    ensures
        outcome_summary(p, strategy, outcome).summary == outcome_sentence(p, strategy, outcome),
{
}

/// A write that was admitted answers that it is pending, to its agent alone.
pub proof fn an_admitted_write_is_pending(m: PipelineModel, job: JobModel, now: Timestamp)
    requires
        m.wf(),
        job.receipt.epoch == m.epoch,
        job.receipt.seq == m.seq + 1,
        crate::pipeline::submit_answer(m, job) is Pending,
    ensures
        lookup_answer(submitted(m, job, now), job.agent, job.receipt) is Pending,
        forall|other: Seq<char>|
            other != job.agent ==> #[trigger] lookup_answer(
                submitted(m, job, now),
                other,
                job.receipt,
            ) is Forbidden,
{
    let held = expire(m.receipts, now);
    let more = with_pending(held, job.receipt, job.agent);
    lemma_expire_wf(m.receipts, now);
    assert(!has_id(held.entries, job.receipt)) by {
        if has_id(held.entries, job.receipt) {
            let j = choose|j: int|
                0 <= j < held.entries.len() && (#[trigger] held.entries[j]).id == job.receipt;
            assert(m.receipts.entries.contains(held.entries[j]));
        }
    }
    lemma_with_pending_wf(held, job.receipt, job.agent);
    lemma_with_pending_pending(held, job.receipt, job.agent);
    lemma_evict_wf(more);
    lemma_evicted_pending(more.entries, excess(more.entries));
    let out = evict(more).entries;
    lemma_pending_in(more.entries, held.entries.len() as int);
    assert(pending_in(out, job.receipt));
    lemma_pending_held(out, job.receipt);
    lemma_entry_of(more.entries, held.entries.len() as int);
    lemma_entry_of_taken(out, more.entries, job.receipt);
}

/// Stopping the workers answers for every write that had not ended, to its own agent, that a durable
/// intent holds it; what had ended answers as before.
pub proof fn a_stopped_write_is_left_to_its_intent(
    m: PipelineModel,
    now: Timestamp,
    id: ReceiptId,
)
    requires
        m.wf(),
        has_id(m.receipts.entries, id),
    ensures
        ({
            let owner = entry_of(m.receipts.entries, id).agent;
            let before = lookup_answer(m, owner, id);
            let after = lookup_answer(aborted(m, now), owner, id);
            if before is Pending {
                after is IntentRecorded
            } else {
                after == before
            }
        }),
{
    let e = m.receipts.entries;
    let j = choose|j: int| 0 <= j < e.len() && (#[trigger] e[j]).id == id;
    lemma_entry_of(e, j);
    lemma_aborted_wf(m, now);
    let b = aborted(m, now).receipts.entries;
    assert(b[j].id == id);
    lemma_entry_of(b, j);
}

/// A write that was refused admission answers that it was dropped, with what its submitter was told,
/// to its agent alone.
pub proof fn a_refused_write_answers_why(m: PipelineModel, job: JobModel, now: Timestamp)
    requires
        m.wf(),
        job.receipt.epoch == m.epoch,
        job.receipt.seq == m.seq + 1,
        crate::pipeline::submit_answer(m, job) is Dropped,
    ensures
        lookup_answer(submitted(m, job, now), job.agent, job.receipt)
            == crate::pipeline::submit_answer(m, job),
        forall|other: Seq<char>|
            other != job.agent ==> #[trigger] lookup_answer(
                submitted(m, job, now),
                other,
                job.receipt,
            ) is Forbidden,
{
    lemma_dropped_is_held(m, job, now);
}

proof fn lemma_dropped_is_held(m: PipelineModel, job: JobModel, now: Timestamp)
    requires
        m.wf(),
        job.receipt.epoch == m.epoch,
        job.receipt.seq == m.seq + 1,
        crate::pipeline::submit_answer(m, job) is Dropped,
    ensures
        has_id(submitted(m, job, now).receipts.entries, job.receipt),
        ({
            let e = entry_of(submitted(m, job, now).receipts.entries, job.receipt);
            e.agent == job.agent && e.answer == crate::pipeline::submit_answer(m, job)
        }),
{
    let reason = crate::lanes::refusal(m.lanes, job.agent, job.bytes as nat)->0;
    let why = crate::receipt::drop_text(reason, crate::lanes::refusal_bound(reason) as nat);
    let held = expire(m.receipts, now);
    let more = with_dropped(held, job.receipt, job.agent, why, now);
    lemma_expire_wf(m.receipts, now);
    lemma_unexpired_pending(m.receipts.entries, now);
    assert(!has_id(held.entries, job.receipt)) by {
        if has_id(held.entries, job.receipt) {
            let j = choose|j: int|
                0 <= j < held.entries.len() && (#[trigger] held.entries[j]).id == job.receipt;
            assert(m.receipts.entries.contains(held.entries[j]));
        }
    }
    lemma_with_dropped_wf(held, job.receipt, job.agent, why, now);
    lemma_with_dropped_pending(held, job.receipt, job.agent, why, now);
    lemma_evict_wf(more);
    let n = held.entries.len() as int;
    let new = more.entries[n];
    let out = evict(more).entries;
    crate::laws::lemma_settled_and_pending(more.entries);
    crate::laws::lemma_settled_count_last(more.entries);
    assert(more.entries.drop_last() =~= held.entries);
    lemma_newest_stays(more.entries, excess(more.entries));
    let at = choose|i: int| 0 <= i < out.len() && out[i] == new;
    lemma_entry_of(out, at);
}

/// Letting the oldest settled entries go keeps the newest, where more are settled than go.
proof fn lemma_newest_stays(entries: Seq<EntryModel>, excess: nat)
    requires
        entries.len() > 0,
        excess == 0 || excess < crate::receipts::settled_count(entries),
    ensures
        without_oldest_settled(entries, excess).contains(entries.last()),
    decreases entries.len(),
{
    let last = entries.last();
    if excess == 0 {
        assert(entries[entries.len() - 1] == last);
    } else {
        let rest = entries.skip(1);
        let less = if entries[0].settled_at is None {
            excess
        } else {
            (excess - 1) as nat
        };
        if rest.len() == 0 {
            assert(crate::receipts::settled_count(rest) == 0);
        } else {
            assert(rest.last() == last);
            lemma_newest_stays(rest, less);
            let inner = without_oldest_settled(rest, less);
            let i = choose|i: int| 0 <= i < inner.len() && inner[i] == last;
            if entries[0].settled_at is None {
                assert((seq![entries[0]] + inner)[i + 1] == last);
            }
        }
    }
}

/// A write that ends has its agent told of it: a notice of it waits, for the agent that the receipt
/// is of.
pub proof fn an_ended_write_is_told_to_its_agent(
    m: PipelineModel,
    job: JobModel,
    end: JobEnd,
    now: Timestamp,
)
    requires
        m.wf(),
        now.valid(),
        runs(m.lanes, job.agent, job.receipt),
    ensures
        finish(m, job, end, now).receipts.undelivered.contains(
            NoticeModel {
                agent: entry_of(m.receipts.entries, job.receipt).agent,
                id: job.receipt,
            },
        ),
{
    an_ended_write_answers_with_its_end(m, job, end, now);
    let e0 = m.receipts.entries;
    let answer = crate::pipeline::end_answer(m.session, end);
    let told = settle(m.receipts, job.receipt, answer, now);
    lemma_running_is_pending(m, job.agent, job.receipt);
    lemma_pending_held(e0, job.receipt);
    let n = NoticeModel { agent: entry_of(e0, job.receipt).agent, id: job.receipt };
    let last = m.receipts.undelivered.len() as int;
    assert(told.undelivered[last] == n);
    let kept = unexpired(told.entries, now);
    lemma_settle_wf(m.receipts, job.receipt, answer, now);
    lemma_expire_wf(told, now);
    let j = choose|j: int| 0 <= j < e0.len() && (#[trigger] e0[j]).id == job.receipt;
    lemma_entry_of(e0, j);
    let x = told.entries[j];
    assert(x == crate::receipts::settled_entry(e0[j], answer, now));
    lemma_not_past_itself(now);
    assert(told.entries.contains(x));
    expiry_takes_only_what_is_past_retention(told, now, x);
    let i = choose|i: int| 0 <= i < kept.len() && kept[i] == x;
    assert(kept[i].id == job.receipt);
    assert(has_id(kept, job.receipt));
    told.undelivered.lemma_filter_contains(|n: NoticeModel| has_id(kept, n.id), last);
}

/// What an agent is handed of a receipt is what it answers when the agent asks for it.
pub proof fn what_is_handed_out_is_what_is_answered(
    m: PipelineModel,
    agent: Seq<char>,
    k: nat,
    i: int,
)
    requires
        m.wf(),
        0 <= i < first_of(m.receipts.undelivered, agent, k).len(),
    ensures
        ({
            let ids = first_of(m.receipts.undelivered, agent, k);
            let told = answers_of(m.receipts.entries, ids);
            told.len() == ids.len() && told[i].0 == ids[i] && told[i].1 == lookup_answer(
                m,
                agent,
                ids[i],
            ) && !(told[i].1 is Pending)
        }),
{
    crate::receipts::a_notice_goes_to_its_own_agent(m.receipts, agent, k, i);
}

/// An agent that was told of a receipt by asking for it is not told again, and nobody else's notices
/// change.
pub proof fn a_delivered_receipt_waits_no_longer(
    m: ReceiptsModel,
    agent: Seq<char>,
    id: ReceiptId,
    n: NoticeModel,
)
    ensures
        delivered(m, agent, id).entries == m.entries,
        delivered(m, agent, id).undelivered.contains(n) <==> m.undelivered.contains(n) && !(n.agent
            == agent && n.id == id),
{
    let p = |n: NoticeModel| !(n.agent == agent && n.id == id);
    let all = m.undelivered;
    let left = all.filter(p);
    if left.contains(n) {
        let j = choose|j: int| 0 <= j < left.len() && left[j] == n;
        crate::seqs::lemma_filter_index(all, p, j);
        all.lemma_filter_pred(p, j);
    }
    if all.contains(n) && p(n) {
        let i = choose|i: int| 0 <= i < all.len() && all[i] == n;
        all.lemma_filter_contains(p, i);
    }
}

/// Nothing is settled, and no notice waits, that was not before, by letting receipts expire; and
/// what was settled within the retention, or is pending, answers as before.
pub proof fn expiry_changes_no_kept_answer(
    m: PipelineModel,
    now: Timestamp,
    agent: Seq<char>,
    id: ReceiptId,
)
    requires
        m.wf(),
        now.valid(),
        has_id(m.receipts.entries, id),
        entry_of(m.receipts.entries, id).settled_at matches Some(t) ==> !is_before(
            t,
            earlier_by(now, 300_000_000_000),
        ),
    ensures
        lookup_answer(aged(m, now), agent, id) == lookup_answer(m, agent, id),
{
    let e = m.receipts.entries;
    let j = choose|j: int| 0 <= j < e.len() && (#[trigger] e[j]).id == id;
    lemma_entry_of(e, j);
    assert(e.contains(e[j]));
    expiry_takes_only_what_is_past_retention(m.receipts, now, e[j]);
    let kept = expire(m.receipts, now).entries;
    lemma_expire_wf(m.receipts, now);
    let n = choose|n: int| 0 <= n < kept.len() && kept[n] == e[j];
    lemma_entry_of(kept, n);
}

/// A settled receipt past its retention is let go where no receipt before it is kept settled: it
/// answers that it expired.
pub proof fn a_receipt_past_its_time_expires(
    m: PipelineModel,
    now: Timestamp,
    agent: Seq<char>,
    j: int,
)
    requires
        m.wf(),
        0 <= j < m.receipts.entries.len(),
        m.receipts.entries[j].settled_at matches Some(t) && is_before(
            t,
            earlier_by(now, 300_000_000_000),
        ),
        forall|i: int|
            0 <= i < j ==> ((#[trigger] m.receipts.entries[i]).settled_at matches Some(t) ==> is_before(
                t,
                earlier_by(now, 300_000_000_000),
            )),
        !m.restart.dom().contains(m.receipts.entries[j].id),
    ensures
        lookup_answer(aged(m, now), agent, m.receipts.entries[j].id) is Expired,
{
    let e = m.receipts.entries;
    lemma_swept(e, now, j);
    let kept = unexpired(e, now);
    if has_id(kept, e[j].id) {
        let i = choose|i: int| 0 <= i < kept.len() && (#[trigger] kept[i]).id == e[j].id;
        lemma_expire_wf(m.receipts, now);
        assert(e.contains(kept[i]));
        let x = choose|x: int| 0 <= x < e.len() && e[x] == kept[i];
        if x < j {
            assert(e[x].id != e[j].id);
        } else if j < x {
            assert(e[j].id != e[x].id);
        }
        assert(kept[i] == e[j]);
    }
    assert(e[j].id.epoch == m.epoch);
}

proof fn lemma_swept(entries: Seq<EntryModel>, now: Timestamp, j: int)
    requires
        crate::receipts::distinct_ids(entries),
        0 <= j < entries.len(),
        entries[j].settled_at matches Some(t) && past_retention(t, now),
        forall|i: int|
            0 <= i < j ==> ((#[trigger] entries[i]).settled_at matches Some(t) ==> past_retention(
                t,
                now,
            )),
    ensures
        !unexpired(entries, now).contains(entries[j]),
    decreases entries.len(),
{
    let rest = entries.skip(1);
    let inner = unexpired(rest, now);
    assert forall|a: int, b: int| 0 <= a < b < rest.len() implies (#[trigger] rest[a]).id != (
    #[trigger] rest[b]).id by {
        assert(rest[a] == entries[a + 1] && rest[b] == entries[b + 1]);
        assert(entries[a + 1].id != entries[b + 1].id);
    }
    if j > 0 {
        assert(rest[j - 1] == entries[j]);
        assert forall|i: int| 0 <= i < j - 1 implies ((#[trigger] rest[i]).settled_at matches Some(
            t,
        ) ==> past_retention(t, now)) by {
            assert(rest[i] == entries[i + 1]);
        }
        lemma_swept(rest, now, j - 1);
        assert(entries[0].id != entries[j].id);
        let out = unexpired(entries, now);
        if out.contains(entries[j]) {
            let x = choose|x: int| 0 <= x < out.len() && out[x] == entries[j];
            if entries[0].settled_at is None {
                assert(out == seq![entries[0]] + inner);
                assert(x > 0);
                assert(inner[x - 1] == entries[j]);
            }
        }
    } else {
        lemma_unexpired_from(rest, now);
        if inner.contains(entries[0]) {
            assert(rest.contains(entries[0]));
            let x = choose|x: int| 0 <= x < rest.len() && rest[x] == entries[0];
            assert(entries[x + 1] == rest[x]);
            assert(entries[0].id != entries[x + 1].id);
        }
    }
}

proof fn lemma_unexpired_from(entries: Seq<EntryModel>, now: Timestamp)
    ensures
        forall|e: EntryModel| #[trigger] unexpired(entries, now).contains(e) ==> entries.contains(e),
    decreases entries.len(),
{
    if entries.len() > 0 {
        let rest = entries.skip(1);
        lemma_unexpired_from(rest, now);
        let out = unexpired(entries, now);
        assert forall|e: EntryModel| #[trigger] out.contains(e) implies entries.contains(e) by {
            let x = choose|x: int| 0 <= x < out.len() && out[x] == e;
            let inner = unexpired(rest, now);
            match entries[0].settled_at {
                None => {
                    if x == 0 {
                        assert(entries[0] == e);
                    } else {
                        assert(inner[x - 1] == e);
                        assert(inner.contains(e));
                        let y = choose|y: int| 0 <= y < rest.len() && rest[y] == e;
                        assert(entries[y + 1] == e);
                    }
                },
                Some(t) => {
                    if past_retention(t, now) {
                        assert(inner.contains(e));
                        let y = choose|y: int| 0 <= y < rest.len() && rest[y] == e;
                        assert(entries[y + 1] == e);
                    }
                },
            }
        }
    }
}

/// The end of a write changes the answer of no other receipt that is still held.
pub proof fn an_end_changes_no_other_answer(
    m: PipelineModel,
    job: JobModel,
    end: JobEnd,
    now: Timestamp,
    id: ReceiptId,
    agent: Seq<char>,
)
    requires
        m.wf(),
        runs(m.lanes, job.agent, job.receipt),
        id != job.receipt,
        has_id(finish(m, job, end, now).receipts.entries, id),
    ensures
        lookup_answer(finish(m, job, end, now), agent, id) == lookup_answer(m, agent, id),
{
    let e0 = m.receipts.entries;
    let answer = crate::pipeline::end_answer(m.session, end);
    let told = settle(m.receipts, job.receipt, answer, now);
    let kept = expire(told, now).entries;
    lemma_settle_wf(m.receipts, job.receipt, answer, now);
    lemma_expire_wf(told, now);
    let n = choose|n: int| 0 <= n < kept.len() && (#[trigger] kept[n]).id == id;
    lemma_entry_of(kept, n);
    assert(told.entries.contains(kept[n]));
    let j = choose|j: int| 0 <= j < told.entries.len() && told.entries[j] == kept[n];
    assert(told.entries[j].id == e0[j].id);
    assert(told.entries[j] == e0[j]);
    lemma_entry_of(e0, j);
}

/// Submitting a write changes the answer of no other receipt that is still held.
pub proof fn a_submission_changes_no_other_answer(
    m: PipelineModel,
    job: JobModel,
    now: Timestamp,
    id: ReceiptId,
    agent: Seq<char>,
)
    requires
        m.wf(),
        job.receipt.epoch == m.epoch,
        job.receipt.seq == m.seq + 1,
        id != job.receipt,
        has_id(submitted(m, job, now).receipts.entries, id),
    ensures
        lookup_answer(submitted(m, job, now), agent, id) == lookup_answer(m, agent, id),
{
    let held = expire(m.receipts, now);
    lemma_expire_wf(m.receipts, now);
    if has_id(held.entries, job.receipt) {
        let j = choose|j: int|
            0 <= j < held.entries.len() && (#[trigger] held.entries[j]).id == job.receipt;
        assert(m.receipts.entries.contains(held.entries[j]));
    }
    let more = match crate::lanes::refusal(m.lanes, job.agent, job.bytes as nat) {
        Some(reason) => {
            let why = crate::receipt::drop_text(
                reason,
                crate::lanes::refusal_bound(reason) as nat,
            );
            lemma_with_dropped_wf(held, job.receipt, job.agent, why, now);
            with_dropped(held, job.receipt, job.agent, why, now)
        },
        None => {
            lemma_with_pending_wf(held, job.receipt, job.agent);
            with_pending(held, job.receipt, job.agent)
        },
    };
    lemma_evict_wf(more);
    let kept = evict(more).entries;
    let n = choose|n: int| 0 <= n < kept.len() && (#[trigger] kept[n]).id == id;
    lemma_entry_of(kept, n);
    assert(more.entries.contains(kept[n]));
    let j = choose|j: int| 0 <= j < more.entries.len() && more.entries[j] == kept[n];
    assert(j < held.entries.len());
    assert(more.entries[j] == held.entries[j]);
    assert(m.receipts.entries.contains(held.entries[j]));
    let i = choose|i: int|
        0 <= i < m.receipts.entries.len() && m.receipts.entries[i] == held.entries[j];
    lemma_entry_of(m.receipts.entries, i);
}

/// A notice waits for its agent for as long as its receipt is held: letting receipts go takes no
/// other notice, and brings none.
pub proof fn a_notice_waits_while_its_receipt_is_held(
    m: ReceiptsModel,
    now: Timestamp,
    n: NoticeModel,
)
    ensures
        expire(m, now).undelivered.contains(n) <==> m.undelivered.contains(n) && has_id(
            expire(m, now).entries,
            n.id,
        ),
        evict(m).undelivered.contains(n) <==> m.undelivered.contains(n) && has_id(
            evict(m).entries,
            n.id,
        ),
{
    lemma_notices_kept(m.undelivered, expire(m, now).entries, n);
    lemma_notices_kept(m.undelivered, evict(m).entries, n);
}

proof fn lemma_notices_kept(all: Seq<NoticeModel>, entries: Seq<EntryModel>, n: NoticeModel)
    ensures
        crate::receipts::notices_of(all, entries).contains(n) <==> all.contains(n) && has_id(
            entries,
            n.id,
        ),
{
    let p = |n: NoticeModel| has_id(entries, n.id);
    let left = all.filter(p);
    if left.contains(n) {
        let j = choose|j: int| 0 <= j < left.len() && left[j] == n;
        crate::seqs::lemma_filter_index(all, p, j);
        all.lemma_filter_pred(p, j);
    }
    if all.contains(n) && p(n) {
        let i = choose|i: int| 0 <= i < all.len() && all[i] == n;
        all.lemma_filter_contains(p, i);
    }
}

/// A write that was refused admission has its agent told of it, and so has one that was stopped.
pub proof fn a_refused_or_stopped_write_is_told_to_its_agent(
    m: PipelineModel,
    job: JobModel,
    now: Timestamp,
    id: ReceiptId,
)
    requires
        m.wf(),
        job.receipt.epoch == m.epoch,
        job.receipt.seq == m.seq + 1,
    ensures
        crate::pipeline::submit_answer(m, job) is Dropped ==> submitted(
            m,
            job,
            now,
        ).receipts.undelivered.contains(NoticeModel { agent: job.agent, id: job.receipt }),
        pending_in(m.receipts.entries, id) ==> aborted(m, now).receipts.undelivered.contains(
            NoticeModel { agent: entry_of(m.receipts.entries, id).agent, id },
        ),
{
    if crate::pipeline::submit_answer(m, job) is Dropped {
        let reason = crate::lanes::refusal(m.lanes, job.agent, job.bytes as nat)->0;
        let why = crate::receipt::drop_text(reason, crate::lanes::refusal_bound(reason) as nat);
        let held = expire(m.receipts, now);
        let more = with_dropped(held, job.receipt, job.agent, why, now);
        let n = NoticeModel { agent: job.agent, id: job.receipt };
        assert(more.undelivered[held.undelivered.len() as int] == n);
        assert(more.undelivered.contains(n));
        a_notice_waits_while_its_receipt_is_held(more, now, n);
        lemma_dropped_is_held(m, job, now);
    }
    if pending_in(m.receipts.entries, id) {
        let notices = crate::receipts::pending_notices(m.receipts.entries);
        let k = choose|k: int| 0 <= k < notices.len() && (#[trigger] notices[k]).id == id;
        lemma_pending_notice(m.receipts.entries, k);
        let all = aborted(m, now).receipts.undelivered;
        assert(all[m.receipts.undelivered.len() + k] == notices[k]);
        let j = choose|j: int|
            0 <= j < m.receipts.entries.len() && (#[trigger] m.receipts.entries[j]).id
                == notices[k].id && m.receipts.entries[j].agent == notices[k].agent;
        lemma_entry_of(m.receipts.entries, j);
    }
}

proof fn lemma_pending_notice(entries: Seq<EntryModel>, k: int)
    requires
        0 <= k < crate::receipts::pending_notices(entries).len(),
    ensures
        exists|j: int|
            0 <= j < entries.len() && (#[trigger] entries[j]).id
                == crate::receipts::pending_notices(entries)[k].id && entries[j].agent
                == crate::receipts::pending_notices(entries)[k].agent,
    decreases entries.len(),
{
    if entries.len() > 0 {
        let less = entries.drop_last();
        let notices = crate::receipts::pending_notices(entries);
        if k < crate::receipts::pending_notices(less).len() {
            lemma_pending_notice(less, k);
            let j = choose|j: int|
                0 <= j < less.len() && (#[trigger] less[j]).id
                    == crate::receipts::pending_notices(less)[k].id && less[j].agent
                    == crate::receipts::pending_notices(less)[k].agent;
            assert(entries[j].id == notices[k].id);
        } else {
            assert(entries[entries.len() - 1].id == notices[k].id);
        }
    }
}

/// No receipt is let go for room while there is room, and no more of them than make it.
pub proof fn eviction_only_makes_room(m: ReceiptsModel)
    ensures
        m.entries.len() <= 4_096 ==> evict(m).entries == m.entries,
        m.entries.len() > 4_096 ==> evict(m).entries.len() >= 4_096,
{
    crate::receipts::eviction_takes_the_excess(m.entries, excess(m.entries));
}

/// Room is made of the oldest: where a settled receipt is held still, so is every settled one that
/// was issued after it.
pub proof fn eviction_takes_the_oldest(m: ReceiptsModel, i: int, j: int)
    requires
        m.wf(),
        0 <= i < j < m.entries.len(),
        m.entries[i].settled_at is Some,
        m.entries[j].settled_at is Some,
        has_id(evict(m).entries, m.entries[i].id),
    ensures
        has_id(evict(m).entries, m.entries[j].id),
{
    lemma_oldest_go(m.entries, excess(m.entries), i, j);
}

proof fn lemma_kept_id(entries: Seq<EntryModel>, excess: nat, id: ReceiptId)
    requires
        has_id(without_oldest_settled(entries, excess), id),
    ensures
        has_id(entries, id),
    decreases entries.len(),
{
    if excess > 0 && entries.len() > 0 {
        let rest = entries.skip(1);
        let less = if entries[0].settled_at is None {
            excess
        } else {
            (excess - 1) as nat
        };
        let kept = without_oldest_settled(entries, excess);
        let n = choose|n: int| 0 <= n < kept.len() && (#[trigger] kept[n]).id == id;
        if entries[0].settled_at is None && n == 0 {
            assert(entries[0].id == id);
        } else {
            let left = without_oldest_settled(rest, less);
            let k = if entries[0].settled_at is None {
                n - 1
            } else {
                n
            };
            assert(left[k].id == id);
            lemma_kept_id(rest, less, id);
            let j = choose|j: int| 0 <= j < rest.len() && (#[trigger] rest[j]).id == id;
            assert(entries[j + 1].id == id);
        }
    }
}

proof fn lemma_oldest_go(entries: Seq<EntryModel>, excess: nat, i: int, j: int)
    requires
        crate::receipts::distinct_ids(entries),
        0 <= i < j < entries.len(),
        entries[i].settled_at is Some,
        entries[j].settled_at is Some,
        has_id(without_oldest_settled(entries, excess), entries[i].id),
    ensures
        has_id(without_oldest_settled(entries, excess), entries[j].id),
    decreases entries.len(),
{
    let kept = without_oldest_settled(entries, excess);
    if excess == 0 {
        assert(kept[j].id == entries[j].id);
    } else {
        let rest = entries.skip(1);
        let less = if entries[0].settled_at is None {
            excess
        } else {
            (excess - 1) as nat
        };
        let left = without_oldest_settled(rest, less);
        let n = choose|n: int| 0 <= n < kept.len() && (#[trigger] kept[n]).id == entries[i].id;
        assert forall|a: int, b: int|
            #![trigger rest[a], rest[b]]
            0 <= a < b < rest.len() implies rest[a].id != rest[b].id by {
            assert(entries[a + 1].id != entries[b + 1].id);
        }
        if i == 0 {
            lemma_kept_id(rest, less, entries[0].id);
            let k = choose|k: int| 0 <= k < rest.len() && (#[trigger] rest[k]).id == entries[0].id;
            assert(entries[k + 1].id == entries[0].id);
        } else {
            assert(entries[0].id != entries[i].id);
            let k = if entries[0].settled_at is None {
                n - 1
            } else {
                n
            };
            assert(left[k].id == rest[i - 1].id);
            lemma_oldest_go(rest, less, i - 1, j - 1);
            let p = choose|p: int| 0 <= p < left.len() && (#[trigger] left[p]).id
                == rest[j - 1].id;
            let q = if entries[0].settled_at is None {
                p + 1
            } else {
                p
            };
            assert(kept[q].id == entries[j].id);
        }
    }
}

/// Whoever is told that a lease was lost, or that a replay was refused, is told of which session
/// and why: no two sessions are told of in the same words, nor two reasons.
pub proof fn a_failure_names_its_session_and_its_reason(
    s1: Seq<char>,
    s2: Seq<char>,
    e1: LamboError,
    e2: LamboError,
)
    ensures
        crate::pipeline::lease_lost_text(s1) == crate::pipeline::lease_lost_text(s2) ==> s1 == s2,
        crate::pipeline::replay_refused_text(e1) == crate::pipeline::replay_refused_text(e2)
            ==> crate::types::lambo_error_text(e1) == crate::types::lambo_error_text(e2),
{
    let a = "this handle lost its single-writer lease before the write was applied; this process wrote nothing for session "@;
    let b = " — if the write's durable intent reached the store first, the session's current holder will apply it"@;
    let c = "replay after restart was refused ("@;
    let d = "); nothing was written"@;
    lemma_between(a, s1, s2, b);
    lemma_between(
        c,
        crate::types::lambo_error_text(e1),
        crate::types::lambo_error_text(e2),
        d,
    );
}

proof fn lemma_between(before: Seq<char>, x: Seq<char>, y: Seq<char>, behind: Seq<char>)
    ensures
        before + x + behind == before + y + behind ==> x == y,
{
    let (p, q) = (before + x + behind, before + y + behind);
    if p == q {
        assert(p.len() == q.len());
        assert(x =~= p.subrange(before.len() as int, (before.len() + x.len()) as int));
        assert(y =~= q.subrange(before.len() as int, (before.len() + y.len()) as int));
    }
}

proof fn lemma_behind(before: Seq<char>, x: Seq<char>, y: Seq<char>)
    ensures
        before + x == before + y ==> x == y,
{
    lemma_between(before, x, y, Seq::empty());
    assert(before + x + Seq::<char>::empty() =~= before + x);
    assert(before + y + Seq::<char>::empty() =~= before + y);
}

/// What an answer was given to say, its text says: two answers of a kind read the same only where
/// they were given the same.
pub proof fn an_answer_says_what_it_was_given(a: Seq<char>, b: Seq<char>)
    ensures
        answer_text(AnswerModel::Failed(a)) == answer_text(AnswerModel::Failed(b)) ==> a == b,
        answer_text(AnswerModel::Dropped(a)) == answer_text(AnswerModel::Dropped(b)) ==> a == b,
        answer_text(AnswerModel::AppliedAfterRestart(a)) == answer_text(
            AnswerModel::AppliedAfterRestart(b),
        ) ==> a == b,
{
    lemma_behind("FAILED, nothing was written — "@, a, b);
    lemma_behind("DROPPED before it was attempted, nothing was written — "@, a, b);
    lemma_between(
        "applied after a restart — "@,
        a,
        b,
        " (confirmed from the durable intent record; recall to see the concepts)"@,
    );
}

/// An applied write's answer says its summary.
pub proof fn an_applied_answer_says_its_summary(
    a: crate::receipt::SummaryModel,
    b: crate::receipt::SummaryModel,
)
    ensures
        answer_text(AnswerModel::Applied(a)) == answer_text(AnswerModel::Applied(b)) <==> a.summary
            == b.summary,
{
    lemma_behind("applied — "@, a.summary, b.summary);
}

/// A store's error says what it was given, whatever its kind, and so does one that passes it on.
pub proof fn an_error_says_what_it_was_given(a: Seq<char>, b: Seq<char>, e: StoreError)
    ensures
        store_error_text(StoreErrorModel::SessionNotFound(a)) == store_error_text(
            StoreErrorModel::SessionNotFound(b),
        ) ==> a == b,
        store_error_text(StoreErrorModel::NotFound(a)) == store_error_text(
            StoreErrorModel::NotFound(b),
        ) ==> a == b,
        store_error_text(StoreErrorModel::Capability(a)) == store_error_text(
            StoreErrorModel::Capability(b),
        ) ==> a == b,
        store_error_text(StoreErrorModel::Invariant(a)) == store_error_text(
            StoreErrorModel::Invariant(b),
        ) ==> a == b,
        store_error_text(StoreErrorModel::Backend(a)) == store_error_text(
            StoreErrorModel::Backend(b),
        ) ==> a == b,
        store_error_text(StoreErrorModel::Constraint(a)) == store_error_text(
            StoreErrorModel::Constraint(b),
        ) ==> a == b,
        store_error_text(StoreErrorModel::StaleWrite(a)) == store_error_text(
            StoreErrorModel::StaleWrite(b),
        ) ==> a == b,
        store_error_text(StoreErrorModel::Other(a)) == a,
        crate::types::lambo_error_text(LamboError::Store(e)) == store_error_text(e@),
{
    lemma_behind("session not found: "@, a, b);
    lemma_behind("not found: "@, a, b);
    lemma_behind("capability not supported: "@, a, b);
    lemma_behind("invariant violated: "@, a, b);
    lemma_behind("backend: "@, a, b);
    lemma_between("constraint violated ("@, a, b, ")"@);
    lemma_behind("stale write (fencing token): "@, a, b);
}

/// A refusal for want of room says how much room there is: sixty-four writes of an agent, a
/// thousand and twenty-four of all.
pub proof fn a_refusal_says_the_bound(a: nat, b: nat)
    ensures
        refusal_bound(DropReason::LaneFull) == 64,
        refusal_bound(DropReason::QueueFull) == 1_024,
        drop_text(DropReason::LaneFull, a) == drop_text(DropReason::LaneFull, b) ==> decimal(a)
            == decimal(b),
        drop_text(DropReason::QueueFull, a) == drop_text(DropReason::QueueFull, b) ==> decimal(a)
            == decimal(b),
{
    let share = " outstanding — the per-agent fair-share cap, 1/"@;
    let end = " of the queue; wait for receipts to settle and resubmit)"@;
    let of = decimal(crate::limits::MAX_CONCURRENT_RECEIPT_WAITS as nat);
    let lane = "this agent's background write lane is full ("@;
    lemma_between(lane, decimal(a), decimal(b), share + of + end);
    assert(drop_text(DropReason::LaneFull, a) =~= lane + decimal(a) + (share + of + end));
    assert(drop_text(DropReason::LaneFull, b) =~= lane + decimal(b) + (share + of + end));
    lemma_between(
        "the background write queue is full ("@,
        decimal(a),
        decimal(b),
        " outstanding — the whole-queue memory cap; wait for receipts to settle and resubmit)"@,
    );
}

/// Only a text of four parts, the first of which is the mark, reads as a receipt: that of the
/// epoch and the number that its parts are.
pub proof fn only_a_marked_text_is_a_receipt(s: Seq<char>)
    ensures
        read_wire(s) matches Some(id) ==> {
            let parts = split(s, '.');
            &&& parts.len() == 4
            &&& parts[0] == "lwr1"@
            &&& read_hex_u64(parts[1]) == Some(id.epoch)
            &&& read_hex_i64(parts[2]) == Some(id.issued_ms)
            &&& read_hex_u64(parts[3]) == Some(id.seq)
        },
{
}

} // verus!
