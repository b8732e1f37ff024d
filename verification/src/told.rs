//! What agents are told: each settled receipt once, whatever happens between.

use crate::job::JobModel;
use crate::lanes::{idle, in_flight, refusal, refusal_bound, runs};
use crate::limits::MAX_PIGGYBACK_RECEIPTS;
use crate::pipeline::{
    aborted, aged, end_answer, finish, job_taken, lemma_running_is_pending, sealed, submitted,
    taken_notices, JobEnd, PipelineModel,
};
use crate::receipt::{drop_text, ReceiptId};
use crate::receipts::{
    a_notice_is_taken_once, delivered, entry_of, evict, excess, expire, first_of, has_id,
    lemma_evicted_pending, lemma_expire_wf, lemma_first_of_taken, lemma_pending_held,
    lemma_settle_pending, lemma_settle_wf, lemma_unexpired_pending, lemma_with_dropped_pending,
    lemma_with_dropped_wf, lemma_with_pending_pending, lemma_with_pending_wf,
    lemma_without_first_taken, pending_in, pending_notices, restricted, settle, unexpired, waiting,
    with_dropped, with_pending, without_first, without_oldest_settled, EntryModel, NoticeModel,
    ReceiptsModel,
};
use crate::seqs::lemma_filter_index;
use crate::time::Timestamp;
use vstd::prelude::*;

verus! {

/// A notice tells of this receipt.
pub open spec fn has_notice(notices: Seq<NoticeModel>, id: ReceiptId) -> bool {
    exists|i: int| 0 <= i < notices.len() && (#[trigger] notices[i]).id == id
}

/// The receipt neither waits to be told nor can come to: it is not pending.
pub open spec fn is_past(m: ReceiptsModel, id: ReceiptId) -> bool {
    !has_notice(m.undelivered, id) && !pending_in(m.entries, id)
}

/// The receipt was issued by this pipeline, and no agent will be told of it.
pub open spec fn is_told(m: PipelineModel, id: ReceiptId) -> bool {
    id.epoch == m.epoch && id.seq <= m.seq && is_past(m.receipts, id)
}

/// What one call can make of a pipeline: a write is submitted, begun or ended, receipts expire, an
/// agent takes notices or is told of one receipt, the queue is sealed or stopped, or something is
/// learnt of an earlier process's writes.
pub open spec fn follows(a: PipelineModel, b: PipelineModel) -> bool {
    ||| exists|job: JobModel, now: Timestamp|
        job.receipt.epoch == a.epoch && job.receipt.seq == a.seq + 1 && b == #[trigger] submitted(
            a,
            job,
            now,
        )
    ||| exists|agent: Seq<char>| idle(a.lanes, agent) && b == #[trigger] job_taken(a, agent)
    ||| exists|job: JobModel, end: JobEnd, now: Timestamp|
        runs(a.lanes, job.agent, job.receipt) && b == #[trigger] finish(a, job, end, now)
    ||| exists|now: Timestamp| b == #[trigger] aged(a, now)
    ||| exists|agent: Seq<char>| b == #[trigger] taken_notices(a, agent)
    ||| exists|agent: Seq<char>, id: ReceiptId|
        b == (PipelineModel { receipts: #[trigger] delivered(a.receipts, agent, id), ..a })
    ||| exists|now: Timestamp| b == #[trigger] aborted(a, now)
    ||| b == sealed(a)
    ||| b == (PipelineModel { restart: b.restart, counters: b.counters, ..a })
}

/// Pipelines of which each follows from the one before, in order at all times.
pub open spec fn is_history(h: Seq<PipelineModel>) -> bool {
    &&& forall|i: int| 0 <= i < h.len() ==> (#[trigger] h[i]).wf()
    &&& forall|i: int, j: int|
        #![trigger h[i], h[j]]
        0 <= i && j == i + 1 && j < h.len() ==> follows(h[i], h[j])
}

proof fn lemma_fewer_notices(
    all: Seq<NoticeModel>,
    p: spec_fn(NoticeModel) -> bool,
    id: ReceiptId,
)
    requires
        !has_notice(all, id),
    ensures
        !has_notice(all.filter(p), id),
{
    let kept = all.filter(p);
    if has_notice(kept, id) {
        let j = choose|j: int| 0 <= j < kept.len() && (#[trigger] kept[j]).id == id;
        lemma_filter_index(all, p, j);
        let i = choose|i: int| 0 <= i < all.len() && all[i] == kept[j];
        assert(all[i].id == id);
    }
}

proof fn lemma_restricted_past(m: ReceiptsModel, entries: Seq<EntryModel>, id: ReceiptId)
    requires
        is_past(m, id),
        pending_notices(entries) == pending_notices(m.entries),
    ensures
        is_past(restricted(m, entries), id),
{
    lemma_fewer_notices(
        m.undelivered,
        |n: NoticeModel| has_id(entries, n.id),
        id,
    );
    assert(pending_in(entries, id) == pending_in(m.entries, id));
}

proof fn lemma_expired_past(m: ReceiptsModel, now: Timestamp, id: ReceiptId)
    requires
        m.wf(),
        is_past(m, id),
    ensures
        is_past(expire(m, now), id),
{
    lemma_unexpired_pending(m.entries, now);
    lemma_restricted_past(m, unexpired(m.entries, now), id);
}

proof fn lemma_evicted_past(m: ReceiptsModel, id: ReceiptId)
    requires
        m.wf(),
        is_past(m, id),
    ensures
        is_past(evict(m), id),
{
    let n = excess(m.entries);
    lemma_evicted_pending(m.entries, n);
    lemma_restricted_past(m, without_oldest_settled(m.entries, n), id);
}

proof fn lemma_one_more_notice(notices: Seq<NoticeModel>, n: NoticeModel, id: ReceiptId)
    requires
        !has_notice(notices, id),
        n.id != id,
    ensures
        !has_notice(notices.push(n), id),
{
    let more = notices.push(n);
    if has_notice(more, id) {
        let j = choose|j: int| 0 <= j < more.len() && (#[trigger] more[j]).id == id;
        assert(j < notices.len());
        assert(notices[j].id == id);
    }
}

proof fn lemma_submitted_told(a: PipelineModel, job: JobModel, now: Timestamp, id: ReceiptId)
    requires
        a.wf(),
        job.receipt.epoch == a.epoch,
        job.receipt.seq == a.seq + 1,
        is_told(a, id),
    ensures
        is_told(submitted(a, job, now), id),
{
    let held = expire(a.receipts, now);
    lemma_expire_wf(a.receipts, now);
    lemma_expired_past(a.receipts, now, id);
    assert(!has_id(held.entries, job.receipt)) by {
        if has_id(held.entries, job.receipt) {
            let j = choose|j: int|
                0 <= j < held.entries.len() && (#[trigger] held.entries[j]).id == job.receipt;
            assert(a.receipts.entries.contains(held.entries[j]));
            let i = choose|i: int|
                0 <= i < a.receipts.entries.len() && a.receipts.entries[i] == held.entries[j];
            assert(a.receipts.entries[i].id.seq <= a.seq);
        }
    }
    match refusal(a.lanes, job.agent, job.bytes as nat) {
        Some(reason) => {
            let why = drop_text(reason, refusal_bound(reason) as nat);
            let more = with_dropped(held, job.receipt, job.agent, why, now);
            lemma_with_dropped_wf(held, job.receipt, job.agent, why, now);
            lemma_with_dropped_pending(held, job.receipt, job.agent, why, now);
            lemma_one_more_notice(
                held.undelivered,
                NoticeModel { agent: job.agent, id: job.receipt },
                id,
            );
            assert(pending_in(more.entries, id) == pending_in(held.entries, id));
            lemma_evicted_past(more, id);
        },
        None => {
            let more = with_pending(held, job.receipt, job.agent);
            lemma_with_pending_wf(held, job.receipt, job.agent);
            lemma_with_pending_pending(held, job.receipt, job.agent);
            assert(pending_in(more.entries, id) <==> pending_in(held.entries, id) || id
                == job.receipt);
            lemma_evicted_past(more, id);
        },
    }
}

proof fn lemma_finished_told(
    a: PipelineModel,
    job: JobModel,
    end: JobEnd,
    now: Timestamp,
    id: ReceiptId,
)
    requires
        a.wf(),
        runs(a.lanes, job.agent, job.receipt),
        is_told(a, id),
    ensures
        is_told(finish(a, job, end, now), id),
{
    let m = a.receipts;
    let answer = end_answer(a.session, end);
    let told = settle(m, job.receipt, answer, now);
    lemma_running_is_pending(a, job.agent, job.receipt);
    lemma_settle_wf(m, job.receipt, answer, now);
    lemma_settle_pending(m, job.receipt, answer, now);
    lemma_pending_held(m.entries, job.receipt);
    assert(pending_in(told.entries, id) <==> pending_in(m.entries, id) && id != job.receipt);
    lemma_one_more_notice(
        m.undelivered,
        NoticeModel {
            agent: entry_of(m.entries, job.receipt).agent,
            id: job.receipt,
        },
        id,
    );
    lemma_expired_past(told, now, id);
}

proof fn lemma_aborted_told(a: PipelineModel, now: Timestamp, id: ReceiptId)
    requires
        a.wf(),
        aborted(a, now).wf(),
        is_told(a, id),
    ensures
        is_told(aborted(a, now), id),
{
    let b = aborted(a, now);
    let new = pending_notices(a.receipts.entries);
    let all = a.receipts.undelivered + new;
    if has_notice(all, id) {
        let j = choose|j: int| 0 <= j < all.len() && (#[trigger] all[j]).id == id;
        let n = a.receipts.undelivered.len();
        if j < n {
            assert(a.receipts.undelivered[j].id == id);
        } else {
            assert(new[j - n].id == id);
            assert(pending_in(a.receipts.entries, id));
        }
    }
    assert(b.lanes.lanes.len() == 0);
    assert(!in_flight(b.lanes, id));
}

/// Once no agent will be told of a receipt, that stays so whatever is called.
pub proof fn a_told_receipt_stays_told(a: PipelineModel, b: PipelineModel, id: ReceiptId)
    requires
        a.wf(),
        b.wf(),
        follows(a, b),
        is_told(a, id),
    ensures
        is_told(b, id),
{
    if exists|job: JobModel, now: Timestamp|
        job.receipt.epoch == a.epoch && job.receipt.seq == a.seq + 1 && b == #[trigger] submitted(
            a,
            job,
            now,
        ) {
        let (job, now) = choose|job: JobModel, now: Timestamp|
            job.receipt.epoch == a.epoch && job.receipt.seq == a.seq + 1 && b
                == #[trigger] submitted(a, job, now);
        lemma_submitted_told(a, job, now, id);
    } else if exists|agent: Seq<char>| idle(a.lanes, agent) && b == #[trigger] job_taken(a, agent) {
    } else if exists|job: JobModel, end: JobEnd, now: Timestamp|
        runs(a.lanes, job.agent, job.receipt) && b == #[trigger] finish(a, job, end, now) {
        let (job, end, now) = choose|job: JobModel, end: JobEnd, now: Timestamp|
            runs(a.lanes, job.agent, job.receipt) && b == #[trigger] finish(a, job, end, now);
        lemma_finished_told(a, job, end, now, id);
    } else if exists|now: Timestamp| b == #[trigger] aged(a, now) {
        let now = choose|now: Timestamp| b == #[trigger] aged(a, now);
        lemma_expired_past(a.receipts, now, id);
    } else if exists|agent: Seq<char>| b == #[trigger] taken_notices(a, agent) {
        let agent = choose|agent: Seq<char>| b == #[trigger] taken_notices(a, agent);
        let all = a.receipts.undelivered;
        lemma_without_first_taken(all, agent, MAX_PIGGYBACK_RECEIPTS as nat);
        let left = b.receipts.undelivered;
        if has_notice(left, id) {
            let j = choose|j: int| 0 <= j < left.len() && (#[trigger] left[j]).id == id;
            assert(all.contains(left[j]));
            let i = choose|i: int| 0 <= i < all.len() && all[i] == left[j];
            assert(all[i].id == id);
        }
    } else if exists|agent: Seq<char>, x: ReceiptId|
        b == (PipelineModel { receipts: #[trigger] delivered(a.receipts, agent, x), ..a }) {
        let (agent, x) = choose|agent: Seq<char>, x: ReceiptId|
            b == (PipelineModel { receipts: #[trigger] delivered(a.receipts, agent, x), ..a });
        lemma_fewer_notices(
            a.receipts.undelivered,
            |n: NoticeModel| !(n.agent == agent && n.id == x),
            id,
        );
    } else if exists|now: Timestamp| b == #[trigger] aborted(a, now) {
        let now = choose|now: Timestamp| b == #[trigger] aborted(a, now);
        lemma_aborted_told(a, now, id);
    }
}

/// A receipt that an agent takes is told: it waits no longer, and it is settled.
pub proof fn a_taken_receipt_is_told(m: PipelineModel, agent: Seq<char>, i: int)
    requires
        m.wf(),
        0 <= i < first_of(m.receipts.undelivered, agent, MAX_PIGGYBACK_RECEIPTS as nat).len(),
    ensures
        is_told(
            taken_notices(m, agent),
            first_of(m.receipts.undelivered, agent, MAX_PIGGYBACK_RECEIPTS as nat)[i],
        ),
{
    let k = MAX_PIGGYBACK_RECEIPTS as nat;
    let all = m.receipts.undelivered;
    let id = first_of(all, agent, k)[i];
    let b = taken_notices(m, agent);
    let left = b.receipts.undelivered;
    if has_notice(left, id) {
        let j = choose|j: int| 0 <= j < left.len() && (#[trigger] left[j]).id == id;
        a_notice_is_taken_once(all, agent, k, i, j);
    }
    lemma_first_of_taken(all, agent, k, i);
    let j = choose|j: int|
        0 <= j < all.len() && (#[trigger] all[j]).id == id && all[j].agent == agent;
    let entries = m.receipts.entries;
    assert(has_id(entries, all[j].id));
    lemma_pending_held(entries, id);
    let e = choose|e: int| 0 <= e < entries.len() && (#[trigger] entries[e]).id == id;
    assert(entries[e].id.epoch == m.epoch);
}

/// A receipt that was handed out is never handed out again: not by any call that takes notices,
/// for any agent, after any further calls.
pub proof fn a_receipt_is_handed_out_once(
    h: Seq<PipelineModel>,
    from: int,
    to: int,
    agent: Seq<char>,
    other: Seq<char>,
    i: int,
    j: int,
)
    requires
        is_history(h),
        0 <= from < to < h.len(),
        h[from + 1] == taken_notices(h[from], agent),
        0 <= i < first_of(
            h[from].receipts.undelivered,
            agent,
            MAX_PIGGYBACK_RECEIPTS as nat,
        ).len(),
        0 <= j < first_of(h[to].receipts.undelivered, other, MAX_PIGGYBACK_RECEIPTS as nat).len(),
    ensures
        first_of(h[to].receipts.undelivered, other, MAX_PIGGYBACK_RECEIPTS as nat)[j] != first_of(
            h[from].receipts.undelivered,
            agent,
            MAX_PIGGYBACK_RECEIPTS as nat,
        )[i],
{
    let k = MAX_PIGGYBACK_RECEIPTS as nat;
    let id = first_of(h[from].receipts.undelivered, agent, k)[i];
    assert(h[from].wf());
    a_taken_receipt_is_told(h[from], agent, i);
    lemma_told_throughout(h, from + 1, to, id);
    let all = h[to].receipts.undelivered;
    lemma_first_of_taken(all, other, k, j);
    let n = choose|n: int|
        0 <= n < all.len() && (#[trigger] all[n]).id == first_of(all, other, k)[j] && all[n].agent
            == other;
    assert(all[n].id != id);
}

proof fn lemma_told_throughout(h: Seq<PipelineModel>, from: int, to: int, id: ReceiptId)
    requires
        is_history(h),
        0 <= from <= to < h.len(),
        is_told(h[from], id),
    ensures
        is_told(h[to], id),
    decreases to - from,
{
    if from < to {
        lemma_told_throughout(h, from, to - 1, id);
        assert(h[to - 1].wf() && h[to].wf());
        assert(follows(h[to - 1], h[to]));
        a_told_receipt_stays_told(h[to - 1], h[to], id);
    }
}

/// The notices of an agent, in the order in which its receipts settled.
pub open spec fn notices_for(notices: Seq<NoticeModel>, agent: Seq<char>) -> Seq<NoticeModel> {
    notices.filter(|n: NoticeModel| n.agent == agent)
}

proof fn lemma_front(notices: Seq<NoticeModel>, p: spec_fn(NoticeModel) -> bool)
    requires
        notices.len() > 0,
    ensures
        notices.filter(p) == if p(notices[0]) {
            seq![notices[0]] + notices.skip(1).filter(p)
        } else {
            notices.skip(1).filter(p)
        },
{
    let one = seq![notices[0]];
    let rest = notices.skip(1);
    assert(one + rest =~= notices);
    Seq::filter_distributes_over_add(one, rest, p);
    reveal(Seq::filter);
    assert(one.drop_last() =~= Seq::empty());
    assert(one.drop_last().filter(p) =~= Seq::empty());
    assert(one.last() == notices[0]);
    if p(notices[0]) {
        assert(one.filter(p) =~= one);
    } else {
        assert(one.filter(p) =~= Seq::empty());
        assert(Seq::empty() + rest.filter(p) =~= rest.filter(p));
    }
}

/// An agent takes its oldest notices, as many as there are up to the bound, in the order in which
/// they came, and leaves the rest; those of other agents stay as they are.
pub proof fn taking_is_oldest_first(
    notices: Seq<NoticeModel>,
    agent: Seq<char>,
    other: Seq<char>,
    k: nat,
)
    ensures
        ({
            let mine = notices_for(notices, agent);
            let n = if mine.len() < k { mine.len() } else { k };
            &&& first_of(notices, agent, k) == Seq::new(n, |i: int| mine[i].id)
            &&& notices_for(without_first(notices, agent, k), agent) == mine.skip(n as int)
        }),
        other != agent ==> notices_for(without_first(notices, agent, k), other) == notices_for(
            notices,
            other,
        ),
    decreases notices.len(),
{
    let p = |n: NoticeModel| n.agent == agent;
    let q = |n: NoticeModel| n.agent == other;
    let mine = notices_for(notices, agent);
    let n = if mine.len() < k {
        mine.len()
    } else {
        k
    };
    reveal(Seq::filter);
    if k == 0 || notices.len() == 0 {
        assert(first_of(notices, agent, k) =~= Seq::new(n, |i: int| mine[i].id));
        assert(mine.skip(n as int) =~= notices_for(without_first(notices, agent, k), agent));
    } else {
        let rest = notices.skip(1);
        lemma_front(notices, p);
        lemma_front(notices, q);
        if notices[0].agent == agent {
            taking_is_oldest_first(rest, agent, other, (k - 1) as nat);
            assert(first_of(notices, agent, k) =~= Seq::new(n, |i: int| mine[i].id));
            assert(mine.skip(n as int) =~= notices_for(rest, agent).skip(n - 1));
        } else {
            taking_is_oldest_first(rest, agent, other, k);
            let inner = without_first(rest, agent, k);
            let left = without_first(notices, agent, k);
            assert(left.skip(1) =~= inner);
            lemma_front(left, p);
            lemma_front(left, q);
        }
    }
}

/// An agent that is told how many of its notices are left is told how many there are.
pub proof fn the_rest_is_counted(notices: Seq<NoticeModel>, agent: Seq<char>)
    ensures
        waiting(notices, agent) == notices_for(notices, agent).len(),
    decreases notices.len(),
{
    reveal(Seq::filter);
    if notices.len() > 0 {
        the_rest_is_counted(notices.drop_last(), agent);
    }
}

} // verus!
