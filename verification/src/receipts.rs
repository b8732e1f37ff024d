//! The receipts that a process holds: one entry for each write it admitted or refused, kept in
//! order of issue, and the settled ones that their agents have not been told of yet.

use crate::limits::{MAX_PIGGYBACK_RECEIPTS, MAX_RETAINED_RECEIPTS, RECEIPT_RETENTION_SECS};
use crate::receipt::{AnswerModel, ReceiptAnswer, ReceiptId};
use crate::seqs::{lemma_filter_all, lemma_filter_index, lemma_filter_same, lemma_filter_twice};
use crate::time::{earlier_by, is_before, Timestamp};
use crate::types::AgentId;
use vstd::prelude::*;

verus! {

/// What is held of one write.
#[derive(Debug)]
pub struct Entry {
    pub id: ReceiptId,
    pub agent: AgentId,
    pub settled_at: Option<Timestamp>,
    pub answer: ReceiptAnswer,
}

/// What is held of one write, as values.
pub struct EntryModel {
    pub id: ReceiptId,
    pub agent: Seq<char>,
    pub settled_at: Option<Timestamp>,
    pub answer: AnswerModel,
}

impl View for Entry {
    type V = EntryModel;

    open spec fn view(&self) -> EntryModel {
        EntryModel {
            id: self.id,
            agent: self.agent@,
            settled_at: self.settled_at,
            answer: self.answer@,
        }
    }
}

/// A settled receipt that its agent has not been told of.
#[derive(Debug)]
pub struct Notice {
    pub agent: AgentId,
    pub id: ReceiptId,
}

/// A notice, as values.
pub struct NoticeModel {
    pub agent: Seq<char>,
    pub id: ReceiptId,
}

impl View for Notice {
    type V = NoticeModel;

    open spec fn view(&self) -> NoticeModel {
        NoticeModel { agent: self.agent@, id: self.id }
    }
}

/// The receipts that a process holds, as values.
#[verifier::ext_equal]
pub struct ReceiptsModel {
    pub entries: Seq<EntryModel>,
    pub undelivered: Seq<NoticeModel>,
}

/// The entry settled.
pub open spec fn settled_entry(e: EntryModel, answer: AnswerModel, now: Timestamp) -> EntryModel {
    EntryModel { settled_at: Some(now), answer, ..e }
}

impl Entry {
    /// Settles the entry, unless it is settled already: an answer that has been given stays.
    pub fn settle(&mut self, answer: ReceiptAnswer, now: &Timestamp) -> (r: bool)
        ensures
            r == (old(self)@.answer is Pending),
            final(self)@ == if r {
                settled_entry(old(self)@, answer@, *now)
            } else {
                old(self)@
            },
    {
        if self.answer.is_settled() {
            return false;
        }
        self.answer = answer;
        self.settled_at = Some(*now);
        true
    }
}

/// Some entry has this id.
pub open spec fn has_id(entries: Seq<EntryModel>, id: ReceiptId) -> bool {
    exists|i: int| 0 <= i < entries.len() && (#[trigger] entries[i]).id == id
}

/// The entry with this id.
pub open spec fn entry_of(entries: Seq<EntryModel>, id: ReceiptId) -> EntryModel {
    entries[choose|i: int| 0 <= i < entries.len() && (#[trigger] entries[i]).id == id]
}

/// No two entries share an id.
pub open spec fn distinct_ids(entries: Seq<EntryModel>) -> bool {
    forall|i: int, j: int|
        #![trigger entries[i], entries[j]]
        0 <= i < j < entries.len() ==> entries[i].id != entries[j].id
}

/// An entry is stamped exactly when it is settled.
pub open spec fn stamped(entries: Seq<EntryModel>) -> bool {
    forall|i: int|
        0 <= i < entries.len() ==> ((#[trigger] entries[i]).settled_at is Some
            <==> !(entries[i].answer is Pending))
}

/// Each notice tells of a settled entry, to the agent that made it.
pub open spec fn notices_hold(m: ReceiptsModel) -> bool {
    forall|i: int|
        0 <= i < m.undelivered.len() ==> {
            let n = #[trigger] m.undelivered[i];
            &&& has_id(m.entries, n.id)
            &&& !(entry_of(m.entries, n.id).answer is Pending)
            &&& entry_of(m.entries, n.id).agent == n.agent
        }
}

/// No receipt has two notices.
pub open spec fn distinct_notices(notices: Seq<NoticeModel>) -> bool {
    forall|i: int, j: int|
        #![trigger notices[i], notices[j]]
        0 <= i < j < notices.len() ==> notices[i].id != notices[j].id
}

impl ReceiptsModel {
    /// What holds of the receipts at all times.
    pub open spec fn wf(self) -> bool {
        &&& distinct_ids(self.entries)
        &&& stamped(self.entries)
        &&& notices_hold(self)
        &&& distinct_notices(self.undelivered)
    }
}

/// The entry with an id is any entry that has it.
pub proof fn lemma_entry_of(entries: Seq<EntryModel>, i: int)
    requires
        distinct_ids(entries),
        0 <= i < entries.len(),
    ensures
        has_id(entries, entries[i].id),
        entry_of(entries, entries[i].id) == entries[i],
{
    let id = entries[i].id;
    let j = choose|j: int| 0 <= j < entries.len() && (#[trigger] entries[j]).id == id;
    assert(entries[j].id == id);
    if i < j {
        assert(entries[i].id != entries[j].id);
    } else if j < i {
        assert(entries[j].id != entries[i].id);
    }
}

/// The first instant comes before the one that lies the retention before `now`.
pub open spec fn past_retention(settled: Timestamp, now: Timestamp) -> bool {
    is_before(settled, earlier_by(now, RECEIPT_RETENTION_SECS * 1_000_000_000))
}

/// The entries that stay when the expired ones are let go: from the oldest on, those settled
/// past the retention leave, up to the first that is settled within it.
pub open spec fn unexpired(entries: Seq<EntryModel>, now: Timestamp) -> Seq<EntryModel>
    decreases entries.len(),
{
    if entries.len() == 0 {
        entries
    } else {
        let rest = entries.skip(1);
        match entries[0].settled_at {
            None => seq![entries[0]] + unexpired(rest, now),
            Some(t) => if past_retention(t, now) {
                unexpired(rest, now)
            } else {
                entries
            },
        }
    }
}

/// The entries that stay when the `excess` oldest settled ones are let go.
pub open spec fn without_oldest_settled(entries: Seq<EntryModel>, excess: nat) -> Seq<EntryModel>
    decreases entries.len(),
{
    if excess == 0 || entries.len() == 0 {
        entries
    } else {
        let rest = entries.skip(1);
        match entries[0].settled_at {
            None => seq![entries[0]] + without_oldest_settled(rest, excess),
            Some(_) => without_oldest_settled(rest, (excess - 1) as nat),
        }
    }
}

/// How many entries lie above the bound.
pub open spec fn excess(entries: Seq<EntryModel>) -> nat {
    if entries.len() > MAX_RETAINED_RECEIPTS {
        (entries.len() - MAX_RETAINED_RECEIPTS) as nat
    } else {
        0
    }
}

/// The notices of entries that are held.
pub open spec fn notices_of(notices: Seq<NoticeModel>, entries: Seq<EntryModel>) -> Seq<
    NoticeModel,
> {
    notices.filter(|n: NoticeModel| has_id(entries, n.id))
}

/// The receipts with other entries, and only their notices.
pub open spec fn restricted(m: ReceiptsModel, entries: Seq<EntryModel>) -> ReceiptsModel {
    ReceiptsModel { entries, undelivered: notices_of(m.undelivered, entries) }
}

/// The receipts after the expired ones are let go.
pub open spec fn expire(m: ReceiptsModel, now: Timestamp) -> ReceiptsModel {
    restricted(m, unexpired(m.entries, now))
}

/// The receipts after those above the bound are let go.
pub open spec fn evict(m: ReceiptsModel) -> ReceiptsModel {
    restricted(m, without_oldest_settled(m.entries, excess(m.entries)))
}

/// The receipts after one of them is settled, where it is there and pending.
pub open spec fn settle(
    m: ReceiptsModel,
    id: ReceiptId,
    answer: AnswerModel,
    now: Timestamp,
) -> ReceiptsModel {
    if has_id(m.entries, id) && entry_of(m.entries, id).answer is Pending {
        ReceiptsModel {
            entries: m.entries.map_values(
                |e: EntryModel|
                    if e.id == id {
                        settled_entry(e, answer, now)
                    } else {
                        e
                    },
            ),
            undelivered: m.undelivered.push(
                NoticeModel { agent: entry_of(m.entries, id).agent, id },
            ),
        }
    } else {
        m
    }
}

/// The receipts after a pending entry is put behind the others.
pub open spec fn with_pending(m: ReceiptsModel, id: ReceiptId, agent: Seq<char>) -> ReceiptsModel {
    ReceiptsModel {
        entries: m.entries.push(
            EntryModel { id, agent, settled_at: None, answer: AnswerModel::Pending },
        ),
        undelivered: m.undelivered,
    }
}

/// The receipts after a refused write's entry, and its notice, are put behind the others.
pub open spec fn with_dropped(
    m: ReceiptsModel,
    id: ReceiptId,
    agent: Seq<char>,
    why: Seq<char>,
    now: Timestamp,
) -> ReceiptsModel {
    ReceiptsModel {
        entries: m.entries.push(
            EntryModel { id, agent, settled_at: Some(now), answer: AnswerModel::Dropped(why) },
        ),
        undelivered: m.undelivered.push(NoticeModel { agent, id }),
    }
}

/// The entry is pending.
pub open spec fn is_pending(e: EntryModel) -> bool {
    e.answer is Pending
}

/// The receipts after every pending one is settled as recorded in a durable intent.
pub open spec fn defer(m: ReceiptsModel, now: Timestamp) -> ReceiptsModel {
    ReceiptsModel {
        entries: m.entries.map_values(
            |e: EntryModel|
                if is_pending(e) {
                    settled_entry(e, AnswerModel::IntentRecorded, now)
                } else {
                    e
                },
        ),
        undelivered: m.undelivered + pending_notices(m.entries),
    }
}

/// One notice for each pending entry, in order of issue.
pub open spec fn pending_notices(entries: Seq<EntryModel>) -> Seq<NoticeModel>
    decreases entries.len(),
{
    if entries.len() == 0 {
        Seq::empty()
    } else {
        let before = pending_notices(entries.drop_last());
        let e = entries.last();
        if is_pending(e) {
            before.push(NoticeModel { agent: e.agent, id: e.id })
        } else {
            before
        }
    }
}

/// How many entries are pending.
pub open spec fn pending_count(entries: Seq<EntryModel>) -> nat {
    pending_notices(entries).len()
}

/// A pending entry has this id.
pub open spec fn pending_in(entries: Seq<EntryModel>, id: ReceiptId) -> bool {
    exists|k: int|
        0 <= k < pending_notices(entries).len() && (#[trigger] pending_notices(entries)[k]).id == id
}

/// The first `k` receipts that an agent has not been told of.
pub open spec fn first_of(notices: Seq<NoticeModel>, agent: Seq<char>, k: nat) -> Seq<ReceiptId>
    decreases notices.len(),
{
    if k == 0 || notices.len() == 0 {
        Seq::empty()
    } else if notices[0].agent == agent {
        seq![notices[0].id] + first_of(notices.skip(1), agent, (k - 1) as nat)
    } else {
        first_of(notices.skip(1), agent, k)
    }
}

/// The notices without the first `k` of an agent.
pub open spec fn without_first(notices: Seq<NoticeModel>, agent: Seq<char>, k: nat) -> Seq<
    NoticeModel,
>
    decreases notices.len(),
{
    if k == 0 || notices.len() == 0 {
        notices
    } else if notices[0].agent == agent {
        without_first(notices.skip(1), agent, (k - 1) as nat)
    } else {
        seq![notices[0]] + without_first(notices.skip(1), agent, k)
    }
}

/// How many receipts an agent has not been told of.
pub open spec fn waiting(notices: Seq<NoticeModel>, agent: Seq<char>) -> nat
    decreases notices.len(),
{
    if notices.len() == 0 {
        0
    } else {
        waiting(notices.drop_last(), agent) + if notices.last().agent == agent {
            1nat
        } else {
            0nat
        }
    }
}

/// The answers of the receipts with these ids.
pub open spec fn answers_of(entries: Seq<EntryModel>, ids: Seq<ReceiptId>) -> Seq<
    (ReceiptId, AnswerModel),
> {
    Seq::new(ids.len(), |i: int| (ids[i], entry_of(entries, ids[i]).answer))
}

/// The views of a list of answers.
pub open spec fn answer_views(v: Seq<(ReceiptId, ReceiptAnswer)>) -> Seq<(ReceiptId, AnswerModel)> {
    Seq::new(v.len(), |i: int| (v[i].0, v[i].1@))
}

/// The receipts after an agent has been told of one.
pub open spec fn delivered(m: ReceiptsModel, agent: Seq<char>, id: ReceiptId) -> ReceiptsModel {
    ReceiptsModel {
        entries: m.entries,
        undelivered: m.undelivered.filter(|n: NoticeModel| !(n.agent == agent && n.id == id)),
    }
}

/// Every entry of `sub` is one of `entries`.
pub open spec fn taken_from(sub: Seq<EntryModel>, entries: Seq<EntryModel>) -> bool {
    forall|i: int| 0 <= i < sub.len() ==> entries.contains(#[trigger] sub[i])
}

proof fn lemma_front_and_rest(first: EntryModel, out: Seq<EntryModel>, entries: Seq<EntryModel>)
    requires
        entries.len() > 0,
        first == entries[0],
        distinct_ids(entries),
        distinct_ids(out),
        taken_from(out, entries.skip(1)),
    ensures
        distinct_ids(seq![first] + out),
        taken_from(seq![first] + out, entries),
        taken_from(out, entries),
{
    let all = seq![first] + out;
    let rest = entries.skip(1);
    assert forall|i: int| 0 <= i < out.len() implies entries.contains(#[trigger] out[i]) by {
        let j = choose|j: int| 0 <= j < rest.len() && rest[j] == out[i];
        assert(entries[j + 1] == out[i]);
    }
    assert forall|i: int| 0 <= i < all.len() implies entries.contains(#[trigger] all[i]) by {
        if i == 0 {
            assert(entries[0] == all[0]);
        } else {
            assert(all[i] == out[i - 1]);
        }
    }
    assert forall|a: int, b: int|
        #![trigger all[a], all[b]]
        0 <= a < b < all.len() implies all[a].id != all[b].id by {
        assert(all[b] == out[b - 1]);
        if a == 0 {
            let j = choose|j: int| 0 <= j < rest.len() && rest[j] == out[b - 1];
            assert(entries[j + 1] == all[b]);
            assert(entries[0].id != entries[j + 1].id);
        } else {
            assert(all[a] == out[a - 1]);
        }
    }
}

proof fn lemma_distinct_rest(entries: Seq<EntryModel>)
    requires
        distinct_ids(entries),
        entries.len() > 0,
    ensures
        distinct_ids(entries.skip(1)),
{
    let rest = entries.skip(1);
    assert forall|a: int, b: int|
        #![trigger rest[a], rest[b]]
        0 <= a < b < rest.len() implies rest[a].id != rest[b].id by {
        assert(rest[a] == entries[a + 1]);
        assert(rest[b] == entries[b + 1]);
    }
}

proof fn lemma_taken_from_self(entries: Seq<EntryModel>)
    ensures
        taken_from(entries, entries),
{
    assert forall|i: int| 0 <= i < entries.len() implies entries.contains(#[trigger] entries[i]) by {
        assert(entries[i] == entries[i]);
    }
}

proof fn lemma_unexpired_taken(entries: Seq<EntryModel>, now: Timestamp)
    requires
        distinct_ids(entries),
    ensures
        distinct_ids(unexpired(entries, now)),
        taken_from(unexpired(entries, now), entries),
    decreases entries.len(),
{
    if entries.len() > 0 {
        lemma_distinct_rest(entries);
        lemma_unexpired_taken(entries.skip(1), now);
        lemma_front_and_rest(entries[0], unexpired(entries.skip(1), now), entries);
    }
    lemma_taken_from_self(entries);
}

proof fn lemma_evicted_taken(entries: Seq<EntryModel>, excess: nat)
    requires
        distinct_ids(entries),
    ensures
        distinct_ids(without_oldest_settled(entries, excess)),
        taken_from(without_oldest_settled(entries, excess), entries),
    decreases entries.len(),
{
    if entries.len() > 0 && excess > 0 {
        let less = if entries[0].settled_at is None {
            excess
        } else {
            (excess - 1) as nat
        };
        lemma_distinct_rest(entries);
        lemma_evicted_taken(entries.skip(1), less);
        lemma_front_and_rest(entries[0], without_oldest_settled(entries.skip(1), less), entries);
    }
    lemma_taken_from_self(entries);
}

/// An entry keeps its place under its id when others leave.
pub proof fn lemma_entry_of_taken(sub: Seq<EntryModel>, entries: Seq<EntryModel>, id: ReceiptId)
    requires
        distinct_ids(sub),
        distinct_ids(entries),
        taken_from(sub, entries),
        has_id(sub, id),
    ensures
        has_id(entries, id),
        entry_of(entries, id) == entry_of(sub, id),
{
    let i = choose|i: int| 0 <= i < sub.len() && (#[trigger] sub[i]).id == id;
    lemma_entry_of(sub, i);
    assert(entries.contains(sub[i]));
    let j = choose|j: int| 0 <= j < entries.len() && entries[j] == sub[i];
    lemma_entry_of(entries, j);
}

proof fn lemma_filter_distinct(notices: Seq<NoticeModel>, p: spec_fn(NoticeModel) -> bool)
    requires
        distinct_notices(notices),
    ensures
        distinct_notices(notices.filter(p)),
    decreases notices.len(),
{
    reveal(Seq::filter);
    if notices.len() > 0 {
        let front = notices.drop_last();
        assert forall|i: int, j: int|
            #![trigger front[i], front[j]]
            0 <= i < j < front.len() implies front[i].id != front[j].id by {
            assert(front[i] == notices[i]);
            assert(front[j] == notices[j]);
        }
        lemma_filter_distinct(front, p);
        let kept = front.filter(p);
        let out = notices.filter(p);
        assert forall|i: int, j: int|
            #![trigger out[i], out[j]]
            0 <= i < j < out.len() implies out[i].id != out[j].id by {
            assert(out[i] == kept[i]);
            if j < kept.len() {
                assert(out[j] == kept[j]);
            } else {
                lemma_filter_index(front, p, i);
                let x = choose|x: int| 0 <= x < front.len() && front[x] == kept[i];
                assert(notices[x] == kept[i]);
                assert(notices[x].id != notices[notices.len() - 1].id);
            }
        }
    }
}

proof fn lemma_pushed_notice_distinct(notices: Seq<NoticeModel>, n: NoticeModel)
    requires
        distinct_notices(notices),
        forall|i: int| 0 <= i < notices.len() ==> (#[trigger] notices[i]).id != n.id,
    ensures
        distinct_notices(notices.push(n)),
{
    let more = notices.push(n);
    assert forall|i: int, j: int|
        #![trigger more[i], more[j]]
        0 <= i < j < more.len() implies more[i].id != more[j].id by {
        assert(more[i] == notices[i]);
        if j < notices.len() {
            assert(more[j] == notices[j]);
        }
    }
}

/// Letting entries go, with their notices, keeps the receipts in order.
proof fn lemma_restricted_wf(m: ReceiptsModel, sub: Seq<EntryModel>)
    requires
        m.wf(),
        distinct_ids(sub),
        taken_from(sub, m.entries),
    ensures
        restricted(m, sub).wf(),
{
    let r = restricted(m, sub);
    assert forall|i: int| 0 <= i < sub.len() implies ((#[trigger] sub[i]).settled_at is Some
        <==> !(sub[i].answer is Pending)) by {
        assert(m.entries.contains(sub[i]));
    }
    assert forall|i: int| 0 <= i < r.undelivered.len() implies {
        let n = #[trigger] r.undelivered[i];
        &&& has_id(sub, n.id)
        &&& !(entry_of(sub, n.id).answer is Pending)
        &&& entry_of(sub, n.id).agent == n.agent
    } by {
        let held = |n: NoticeModel| has_id(sub, n.id);
        lemma_filter_index(m.undelivered, held, i);
        let n = r.undelivered[i];
        let j = choose|j: int| 0 <= j < m.undelivered.len() && m.undelivered[j] == n;
        assert(m.undelivered[j] == n);
        lemma_entry_of_taken(sub, m.entries, n.id);
    }
    lemma_filter_distinct(m.undelivered, |n: NoticeModel| has_id(sub, n.id));
}

/// The receipts stay in order when the expired ones are let go.
pub proof fn lemma_expire_wf(m: ReceiptsModel, now: Timestamp)
    requires
        m.wf(),
    ensures
        expire(m, now).wf(),
        taken_from(expire(m, now).entries, m.entries),
{
    lemma_unexpired_taken(m.entries, now);
    lemma_restricted_wf(m, unexpired(m.entries, now));
}

/// The receipts stay in order when those above the bound are let go.
pub proof fn lemma_evict_wf(m: ReceiptsModel)
    requires
        m.wf(),
    ensures
        evict(m).wf(),
        taken_from(evict(m).entries, m.entries),
{
    lemma_evicted_taken(m.entries, excess(m.entries));
    lemma_restricted_wf(m, without_oldest_settled(m.entries, excess(m.entries)));
}

/// The receipts stay in order when one of them is settled.
pub proof fn lemma_settle_wf(m: ReceiptsModel, id: ReceiptId, answer: AnswerModel, now: Timestamp)
    requires
        m.wf(),
        !(answer is Pending),
    ensures
        settle(m, id, answer, now).wf(),
{
    let r = settle(m, id, answer, now);
    if has_id(m.entries, id) && entry_of(m.entries, id).answer is Pending {
        assert forall|a: int, b: int|
            #![trigger r.entries[a], r.entries[b]]
            0 <= a < b < r.entries.len() implies r.entries[a].id != r.entries[b].id by {
            assert(m.entries[a].id != m.entries[b].id);
        }
        assert forall|i: int| 0 <= i < r.undelivered.len() implies {
            let n = #[trigger] r.undelivered[i];
            &&& has_id(r.entries, n.id)
            &&& !(entry_of(r.entries, n.id).answer is Pending)
            &&& entry_of(r.entries, n.id).agent == n.agent
        } by {
            let n = r.undelivered[i];
            if i < m.undelivered.len() {
                assert(n == m.undelivered[i]);
            }
            let j = choose|j: int| 0 <= j < m.entries.len() && (#[trigger] m.entries[j]).id == n.id;
            lemma_entry_of(m.entries, j);
            assert(r.entries[j].id == n.id);
            lemma_entry_of(r.entries, j);
        }
        lemma_pushed_notice_distinct(m.undelivered, r.undelivered.last());
    }
}

/// A new entry behind the others keeps their places.
proof fn lemma_entry_of_pushed(entries: Seq<EntryModel>, e: EntryModel, id: ReceiptId)
    requires
        distinct_ids(entries),
        !has_id(entries, e.id),
    ensures
        distinct_ids(entries.push(e)),
        has_id(entries.push(e), id) <==> has_id(entries, id) || id == e.id,
        has_id(entries, id) ==> entry_of(entries.push(e), id) == entry_of(entries, id),
        entry_of(entries.push(e), e.id) == e,
{
    let more = entries.push(e);
    assert forall|a: int, b: int|
        #![trigger more[a], more[b]]
        0 <= a < b < more.len() implies more[a].id != more[b].id by {
        assert(more[a] == entries[a]);
        if b < entries.len() {
            assert(more[b] == entries[b]);
        }
    }
    assert(more[entries.len() as int] == e);
    lemma_entry_of(more, entries.len() as int);
    if has_id(entries, id) {
        let j = choose|j: int| 0 <= j < entries.len() && (#[trigger] entries[j]).id == id;
        lemma_entry_of(entries, j);
        assert(more[j] == entries[j]);
        lemma_entry_of(more, j);
    }
    if has_id(more, id) && id != e.id {
        let j = choose|j: int| 0 <= j < more.len() && (#[trigger] more[j]).id == id;
        assert(more[j] == entries[j]);
    }
}

/// The receipts stay in order when a pending one is put behind the others.
pub proof fn lemma_with_pending_wf(m: ReceiptsModel, id: ReceiptId, agent: Seq<char>)
    requires
        m.wf(),
        !has_id(m.entries, id),
    ensures
        with_pending(m, id, agent).wf(),
{
    let r = with_pending(m, id, agent);
    let e = r.entries.last();
    lemma_entry_of_pushed(m.entries, e, id);
    assert forall|i: int| 0 <= i < r.undelivered.len() implies {
        let n = #[trigger] r.undelivered[i];
        &&& has_id(r.entries, n.id)
        &&& !(entry_of(r.entries, n.id).answer is Pending)
        &&& entry_of(r.entries, n.id).agent == n.agent
    } by {
        lemma_entry_of_pushed(m.entries, e, m.undelivered[i].id);
    }
}

/// The receipts stay in order when a refused one is put behind the others.
pub proof fn lemma_with_dropped_wf(
    m: ReceiptsModel,
    id: ReceiptId,
    agent: Seq<char>,
    why: Seq<char>,
    now: Timestamp,
)
    requires
        m.wf(),
        !has_id(m.entries, id),
    ensures
        with_dropped(m, id, agent, why, now).wf(),
{
    let r = with_dropped(m, id, agent, why, now);
    let e = r.entries.last();
    lemma_entry_of_pushed(m.entries, e, id);
    assert forall|i: int| 0 <= i < r.undelivered.len() implies {
        let n = #[trigger] r.undelivered[i];
        &&& has_id(r.entries, n.id)
        &&& !(entry_of(r.entries, n.id).answer is Pending)
        &&& entry_of(r.entries, n.id).agent == n.agent
    } by {
        if i < m.undelivered.len() {
            assert(r.undelivered[i] == m.undelivered[i]);
            lemma_entry_of_pushed(m.entries, e, m.undelivered[i].id);
        }
    }
    lemma_pushed_notice_distinct(m.undelivered, r.undelivered.last());
}

proof fn lemma_pending_notices(entries: Seq<EntryModel>, i: int)
    requires
        0 <= i < pending_notices(entries).len(),
    ensures
        exists|j: int|
            0 <= j < entries.len() && is_pending(#[trigger] entries[j]) && pending_notices(
                entries,
            )[i] == (NoticeModel { agent: entries[j].agent, id: entries[j].id }),
    decreases entries.len(),
{
    if entries.len() > 0 {
        let front = entries.drop_last();
        let before = pending_notices(front);
        if i < before.len() {
            lemma_pending_notices(front, i);
            let j = choose|j: int|
                0 <= j < front.len() && is_pending(#[trigger] front[j]) && before[i] == (
                NoticeModel { agent: front[j].agent, id: front[j].id });
            assert(entries[j] == front[j]);
        } else {
            assert(is_pending(entries[entries.len() - 1]));
        }
    }
}

proof fn lemma_pending_notices_distinct(entries: Seq<EntryModel>)
    requires
        distinct_ids(entries),
    ensures
        distinct_notices(pending_notices(entries)),
    decreases entries.len(),
{
    if entries.len() > 0 {
        let front = entries.drop_last();
        assert forall|i: int, j: int|
            #![trigger front[i], front[j]]
            0 <= i < j < front.len() implies front[i].id != front[j].id by {
            assert(front[i] == entries[i]);
            assert(front[j] == entries[j]);
        }
        lemma_pending_notices_distinct(front);
        let before = pending_notices(front);
        let e = entries.last();
        if is_pending(e) {
            let n = NoticeModel { agent: e.agent, id: e.id };
            assert forall|i: int| 0 <= i < before.len() implies (#[trigger] before[i]).id
                != n.id by {
                lemma_pending_notices(front, i);
                let j = choose|j: int|
                    0 <= j < front.len() && is_pending(#[trigger] front[j]) && before[i] == (
                    NoticeModel { agent: front[j].agent, id: front[j].id });
                assert(entries[j] == front[j]);
                assert(entries[j].id != entries[entries.len() - 1].id);
            }
            lemma_pushed_notice_distinct(before, n);
        }
    }
}

/// The receipts stay in order when every pending one is deferred, and none is left pending.
pub proof fn lemma_defer_wf(m: ReceiptsModel, now: Timestamp)
    requires
        m.wf(),
    ensures
        defer(m, now).wf(),
        pending_count(defer(m, now).entries) == 0,
{
    let r = defer(m, now);
    assert forall|a: int, b: int|
        #![trigger r.entries[a], r.entries[b]]
        0 <= a < b < r.entries.len() implies r.entries[a].id != r.entries[b].id by {
        assert(m.entries[a].id != m.entries[b].id);
    }
    assert forall|i: int| 0 <= i < r.undelivered.len() implies {
        let n = #[trigger] r.undelivered[i];
        &&& has_id(r.entries, n.id)
        &&& !(entry_of(r.entries, n.id).answer is Pending)
        &&& entry_of(r.entries, n.id).agent == n.agent
    } by {
        let n = r.undelivered[i];
        if i < m.undelivered.len() {
            assert(n == m.undelivered[i]);
            let j = choose|j: int| 0 <= j < m.entries.len() && (#[trigger] m.entries[j]).id == n.id;
            lemma_entry_of(m.entries, j);
            assert(r.entries[j].id == n.id);
            lemma_entry_of(r.entries, j);
        } else {
            let k = i - m.undelivered.len();
            lemma_pending_notices(m.entries, k);
            let j = choose|j: int|
                0 <= j < m.entries.len() && is_pending(#[trigger] m.entries[j])
                    && pending_notices(m.entries)[k] == (NoticeModel {
                    agent: m.entries[j].agent,
                    id: m.entries[j].id,
                });
            assert(r.entries[j].id == n.id);
            lemma_entry_of(r.entries, j);
        }
    }
    lemma_pending_notices_distinct(m.entries);
    let fresh = pending_notices(m.entries);
    assert forall|a: int, b: int|
        #![trigger r.undelivered[a], r.undelivered[b]]
        0 <= a < b < r.undelivered.len() implies r.undelivered[a].id != r.undelivered[b].id by {
        let n = m.undelivered.len();
        if b < n {
            assert(m.undelivered[a].id != m.undelivered[b].id);
        } else if a >= n {
            assert(fresh[a - n].id != fresh[b - n].id);
        } else {
            lemma_pending_notices(m.entries, b - n);
            let j = choose|j: int|
                0 <= j < m.entries.len() && is_pending(#[trigger] m.entries[j]) && fresh[b - n] == (
                NoticeModel { agent: m.entries[j].agent, id: m.entries[j].id });
            lemma_entry_of(m.entries, j);
            assert(m.undelivered[a] == r.undelivered[a]);
        }
    }
    if pending_count(r.entries) > 0 {
        lemma_pending_notices(r.entries, 0);
        let j = choose|j: int|
            0 <= j < r.entries.len() && is_pending(#[trigger] r.entries[j]) && pending_notices(
                r.entries,
            )[0] == (NoticeModel { agent: r.entries[j].agent, id: r.entries[j].id });
        assert(!is_pending(r.entries[j]));
    }
}

/// The receipts stay in order when only notices leave.
proof fn lemma_fewer_notices_wf(m: ReceiptsModel, notices: Seq<NoticeModel>)
    requires
        m.wf(),
        forall|i: int| 0 <= i < notices.len() ==> m.undelivered.contains(#[trigger] notices[i]),
        distinct_notices(notices),
    ensures
        (ReceiptsModel { entries: m.entries, undelivered: notices }).wf(),
{
    let r = ReceiptsModel { entries: m.entries, undelivered: notices };
    assert forall|i: int| 0 <= i < r.undelivered.len() implies {
        let n = #[trigger] r.undelivered[i];
        &&& has_id(r.entries, n.id)
        &&& !(entry_of(r.entries, n.id).answer is Pending)
        &&& entry_of(r.entries, n.id).agent == n.agent
    } by {
        assert(m.undelivered.contains(notices[i]));
        let j = choose|j: int| 0 <= j < m.undelivered.len() && m.undelivered[j] == notices[i];
        assert(m.undelivered[j] == notices[i]);
    }
}

/// The receipts stay in order when an agent has been told of one.
pub proof fn lemma_delivered_wf(m: ReceiptsModel, agent: Seq<char>, id: ReceiptId)
    requires
        m.wf(),
    ensures
        delivered(m, agent, id).wf(),
{
    let keep = |n: NoticeModel| !(n.agent == agent && n.id == id);
    let kept = m.undelivered.filter(keep);
    assert forall|i: int| 0 <= i < kept.len() implies m.undelivered.contains(#[trigger] kept[i]) by {
        lemma_filter_index(m.undelivered, keep, i);
    }
    lemma_filter_distinct(m.undelivered, keep);
    lemma_fewer_notices_wf(m, kept);
}

/// What an agent leaves behind was there.
pub proof fn lemma_without_first_taken(notices: Seq<NoticeModel>, agent: Seq<char>, k: nat)
    ensures
        forall|i: int|
            0 <= i < without_first(notices, agent, k).len() ==> notices.contains(
                #[trigger] without_first(notices, agent, k)[i],
            ),
    decreases notices.len(),
{
    let out = without_first(notices, agent, k);
    assert forall|i: int| 0 <= i < out.len() implies notices.contains(#[trigger] out[i]) by {
        if k == 0 || notices.len() == 0 {
            assert(notices[i] == out[i]);
        } else {
            let rest = notices.skip(1);
            let less = if notices[0].agent == agent {
                (k - 1) as nat
            } else {
                k
            };
            lemma_without_first_taken(rest, agent, less);
            let inner = without_first(rest, agent, less);
            if notices[0].agent == agent {
                let j = choose|j: int| 0 <= j < rest.len() && rest[j] == inner[i];
                assert(notices[j + 1] == out[i]);
            } else if i == 0 {
                assert(notices[0] == out[0]);
            } else {
                assert(out[i] == inner[i - 1]);
                let j = choose|j: int| 0 <= j < rest.len() && rest[j] == inner[i - 1];
                assert(notices[j + 1] == out[i]);
            }
        }
    }
}

proof fn lemma_distinct_notices_rest(notices: Seq<NoticeModel>)
    requires
        distinct_notices(notices),
        notices.len() > 0,
    ensures
        distinct_notices(notices.skip(1)),
{
    let rest = notices.skip(1);
    assert forall|i: int, j: int|
        #![trigger rest[i], rest[j]]
        0 <= i < j < rest.len() implies rest[i].id != rest[j].id by {
        assert(rest[i] == notices[i + 1]);
        assert(rest[j] == notices[j + 1]);
    }
}

proof fn lemma_without_first_distinct(notices: Seq<NoticeModel>, agent: Seq<char>, k: nat)
    requires
        distinct_notices(notices),
    ensures
        distinct_notices(without_first(notices, agent, k)),
    decreases notices.len(),
{
    if k > 0 && notices.len() > 0 {
        let rest = notices.skip(1);
        let less = if notices[0].agent == agent {
            (k - 1) as nat
        } else {
            k
        };
        lemma_distinct_notices_rest(notices);
        lemma_without_first_distinct(rest, agent, less);
        if notices[0].agent != agent {
            let inner = without_first(rest, agent, less);
            let out = without_first(notices, agent, k);
            lemma_without_first_taken(rest, agent, less);
            assert forall|i: int, j: int|
                #![trigger out[i], out[j]]
                0 <= i < j < out.len() implies out[i].id != out[j].id by {
                assert(out[j] == inner[j - 1]);
                if i == 0 {
                    let x = choose|x: int| 0 <= x < rest.len() && rest[x] == inner[j - 1];
                    assert(notices[x + 1] == out[j]);
                    assert(notices[0].id != notices[x + 1].id);
                } else {
                    assert(out[i] == inner[i - 1]);
                }
            }
        }
    }
}

/// What an agent takes was there, for that agent.
pub proof fn lemma_first_of_taken(notices: Seq<NoticeModel>, agent: Seq<char>, k: nat, i: int)
    requires
        0 <= i < first_of(notices, agent, k).len(),
    ensures
        exists|j: int|
            0 <= j < notices.len() && (#[trigger] notices[j]).id == first_of(notices, agent, k)[i]
                && notices[j].agent == agent,
    decreases notices.len(),
{
    let rest = notices.skip(1);
    if notices[0].agent == agent {
        if i == 0 {
            assert(notices[0].id == first_of(notices, agent, k)[0]);
        } else {
            lemma_first_of_taken(rest, agent, (k - 1) as nat, i - 1);
            let j = choose|j: int|
                0 <= j < rest.len() && (#[trigger] rest[j]).id == first_of(
                    rest,
                    agent,
                    (k - 1) as nat,
                )[i - 1] && rest[j].agent == agent;
            assert(notices[j + 1] == rest[j]);
        }
    } else {
        lemma_first_of_taken(rest, agent, k, i);
        let j = choose|j: int|
            0 <= j < rest.len() && (#[trigger] rest[j]).id == first_of(rest, agent, k)[i]
                && rest[j].agent == agent;
        assert(notices[j + 1] == rest[j]);
    }
}

/// The receipts stay in order when an agent takes its first notices.
pub proof fn lemma_taken_wf(m: ReceiptsModel, agent: Seq<char>, k: nat)
    requires
        m.wf(),
    ensures
        (ReceiptsModel {
            entries: m.entries,
            undelivered: without_first(m.undelivered, agent, k),
        }).wf(),
{
    lemma_without_first_taken(m.undelivered, agent, k);
    lemma_without_first_distinct(m.undelivered, agent, k);
    lemma_fewer_notices_wf(m, without_first(m.undelivered, agent, k));
}

/// What leaves when receipts expire was settled, and longer ago than the retention. So a receipt
/// that is not settled never expires, nor one that was settled within the retention.
pub proof fn expiry_takes_only_what_is_past_retention(m: ReceiptsModel, now: Timestamp, e: EntryModel)
    requires
        m.entries.contains(e),
        !(e.settled_at is Some && past_retention(e.settled_at->0, now)),
    ensures
        expire(m, now).entries.contains(e),
    decreases m.entries.len(),
{
    let entries = m.entries;
    let out = unexpired(entries, now);
    let i = choose|i: int| 0 <= i < entries.len() && entries[i] == e;
    let rest = entries.skip(1);
    let inner = unexpired(rest, now);
    let first = entries[0];
    if first.settled_at is Some && !past_retention(first.settled_at->0, now) {
        assert(out[i] == e);
    } else if i == 0 {
        assert(out[0] == e);
    } else {
        assert(rest[i - 1] == e);
        expiry_takes_only_what_is_past_retention(
            ReceiptsModel { entries: rest, undelivered: m.undelivered },
            now,
            e,
        );
        let j = choose|j: int| 0 <= j < inner.len() && inner[j] == e;
        if first.settled_at is None {
            assert(out[j + 1] == e);
        } else {
            assert(out[j] == e);
        }
    }
}

/// The receipts that stay when some are evicted: every one that is not settled, and every one
/// behind a settled one that stays. So the oldest settled receipts go first, and a receipt whose
/// write still runs is never taken.
pub proof fn eviction_is_oldest_settled_first(entries: Seq<EntryModel>, excess: nat, i: int)
    requires
        distinct_ids(entries),
        0 <= i < entries.len(),
    ensures
        entries[i].settled_at is None ==> without_oldest_settled(entries, excess).contains(
            entries[i],
        ),
        entries[i].settled_at is Some && without_oldest_settled(entries, excess).contains(
            entries[i],
        ) ==> forall|j: int|
            i <= j < entries.len() ==> without_oldest_settled(entries, excess).contains(
                #[trigger] entries[j],
            ),
    decreases entries.len(),
{
    let out = without_oldest_settled(entries, excess);
    if excess == 0 {
        assert forall|j: int| 0 <= j < entries.len() implies out.contains(
            #[trigger] entries[j],
        ) by {
            assert(out[j] == entries[j]);
        }
    } else {
        let rest = entries.skip(1);
        let less = if entries[0].settled_at is None {
            excess
        } else {
            (excess - 1) as nat
        };
        let inner = without_oldest_settled(rest, less);
        lemma_distinct_rest(entries);
        lemma_evicted_taken(rest, less);
        assert forall|e: EntryModel| inner.contains(e) implies out.contains(e) by {
            let k = choose|k: int| 0 <= k < inner.len() && inner[k] == e;
            if entries[0].settled_at is None {
                assert(out[k + 1] == e);
            } else {
                assert(out[k] == e);
            }
        }
        if i == 0 {
            if entries[0].settled_at is None {
                assert(out[0] == entries[0]);
            } else if out.contains(entries[0]) {
                let k = choose|k: int| 0 <= k < out.len() && out[k] == entries[0];
                assert(rest.contains(inner[k]));
                let x = choose|x: int| 0 <= x < rest.len() && rest[x] == entries[0];
                assert(entries[x + 1] == entries[0]);
                assert(entries[0].id != entries[x + 1].id);
            }
        } else {
            eviction_is_oldest_settled_first(rest, less, i - 1);
            assert(rest[i - 1] == entries[i]);
            if entries[i].settled_at is Some && out.contains(entries[i]) {
                let k = choose|k: int| 0 <= k < out.len() && out[k] == entries[i];
                if entries[0].settled_at is None {
                    assert(k > 0);
                    assert(inner[k - 1] == entries[i]);
                } else {
                    assert(inner[k] == entries[i]);
                }
                assert forall|j: int| i <= j < entries.len() implies out.contains(
                    #[trigger] entries[j],
                ) by {
                    assert(rest[j - 1] == entries[j]);
                    assert(inner.contains(rest[j - 1]));
                }
            }
        }
    }
}

/// How many of the entries are settled.
pub open spec fn settled_count(entries: Seq<EntryModel>) -> nat
    decreases entries.len(),
{
    if entries.len() == 0 {
        0
    } else {
        settled_count(entries.skip(1)) + if entries[0].settled_at is Some {
            1nat
        } else {
            0nat
        }
    }
}

/// Eviction takes as many entries as it is asked for, as far as there are settled ones.
pub proof fn eviction_takes_the_excess(entries: Seq<EntryModel>, excess: nat)
    ensures
        without_oldest_settled(entries, excess).len() == entries.len() - if excess
            <= settled_count(entries) {
            excess
        } else {
            settled_count(entries)
        },
    decreases entries.len(),
{
    if excess > 0 && entries.len() > 0 {
        let less = if entries[0].settled_at is None {
            excess
        } else {
            (excess - 1) as nat
        };
        eviction_takes_the_excess(entries.skip(1), less);
    }
}

/// An answer that was given stays: settling a receipt, deferring the pending ones, or handing
/// out notices leaves every settled entry as it is.
pub proof fn a_settled_answer_stays(
    m: ReceiptsModel,
    id: ReceiptId,
    answer: AnswerModel,
    now: Timestamp,
    e: EntryModel,
)
    requires
        m.wf(),
        m.entries.contains(e),
        !(e.answer is Pending),
    ensures
        settle(m, id, answer, now).entries.contains(e),
        defer(m, now).entries.contains(e),
        delivered(m, e.agent, id).entries.contains(e),
{
    let i = choose|i: int| 0 <= i < m.entries.len() && m.entries[i] == e;
    lemma_entry_of(m.entries, i);
    assert(defer(m, now).entries[i] == e);
    assert(settle(m, id, answer, now).entries[i] == e);
}

/// A receipt that an agent took is not handed out again.
pub proof fn a_notice_is_taken_once(
    notices: Seq<NoticeModel>,
    agent: Seq<char>,
    k: nat,
    i: int,
    j: int,
)
    requires
        distinct_notices(notices),
        0 <= i < first_of(notices, agent, k).len(),
        0 <= j < without_first(notices, agent, k).len(),
    ensures
        without_first(notices, agent, k)[j].id != first_of(notices, agent, k)[i],
    decreases notices.len(),
{
    let rest = notices.skip(1);
    let mine = notices[0].agent == agent;
    let less = if mine {
        (k - 1) as nat
    } else {
        k
    };
    lemma_distinct_notices_rest(notices);
    let inner = without_first(rest, agent, less);
    let out = without_first(notices, agent, k);
    let firsts = first_of(notices, agent, k);
    if mine {
        if i == 0 {
            lemma_without_first_taken(rest, agent, less);
            let x = choose|x: int| 0 <= x < rest.len() && rest[x] == inner[j];
            assert(notices[x + 1] == out[j]);
            assert(notices[0].id != notices[x + 1].id);
        } else {
            a_notice_is_taken_once(rest, agent, less, i - 1, j);
        }
    } else {
        if j == 0 {
            lemma_first_of_taken(rest, agent, less, i);
            let x = choose|x: int|
                0 <= x < rest.len() && (#[trigger] rest[x]).id == first_of(rest, agent, less)[i]
                    && rest[x].agent == agent;
            assert(notices[x + 1] == rest[x]);
            assert(notices[0].id != notices[x + 1].id);
        } else {
            a_notice_is_taken_once(rest, agent, less, i, j - 1);
        }
    }
}

/// What an agent takes is told to that agent alone.
pub proof fn a_notice_goes_to_its_own_agent(m: ReceiptsModel, agent: Seq<char>, k: nat, i: int)
    requires
        m.wf(),
        0 <= i < first_of(m.undelivered, agent, k).len(),
    ensures
        has_id(m.entries, first_of(m.undelivered, agent, k)[i]),
        entry_of(m.entries, first_of(m.undelivered, agent, k)[i]).agent == agent,
        !(entry_of(m.entries, first_of(m.undelivered, agent, k)[i]).answer is Pending),
{
    lemma_first_of_taken(m.undelivered, agent, k, i);
    let j = choose|j: int|
        0 <= j < m.undelivered.len() && (#[trigger] m.undelivered[j]).id == first_of(
            m.undelivered,
            agent,
            k,
        )[i] && m.undelivered[j].agent == agent;
    assert(m.undelivered[j].agent == agent);
}

proof fn lemma_pending_front(x: EntryModel, rest: Seq<EntryModel>)
    ensures
        pending_notices(seq![x] + rest) == (if is_pending(x) {
            seq![NoticeModel { agent: x.agent, id: x.id }]
        } else {
            Seq::<NoticeModel>::empty()
        }) + pending_notices(rest),
    decreases rest.len(),
{
    let all = seq![x] + rest;
    if rest.len() == 0 {
        assert(all.drop_last() =~= Seq::<EntryModel>::empty());
        assert(pending_notices(all.drop_last()) =~= Seq::<NoticeModel>::empty());
        assert(pending_notices(all) =~= (if is_pending(x) {
            seq![NoticeModel { agent: x.agent, id: x.id }]
        } else {
            Seq::<NoticeModel>::empty()
        }) + pending_notices(rest));
    } else {
        lemma_pending_front(x, rest.drop_last());
        assert(all.drop_last() =~= seq![x] + rest.drop_last());
        assert(all.last() == rest.last());
        assert(pending_notices(all) =~= (if is_pending(x) {
            seq![NoticeModel { agent: x.agent, id: x.id }]
        } else {
            Seq::<NoticeModel>::empty()
        }) + pending_notices(rest));
    }
}

proof fn lemma_stamped_rest(entries: Seq<EntryModel>)
    requires
        stamped(entries),
        entries.len() > 0,
    ensures
        stamped(entries.skip(1)),
        entries[0].settled_at is Some <==> !is_pending(entries[0]),
        entries =~= seq![entries[0]] + entries.skip(1),
{
    let rest = entries.skip(1);
    assert forall|i: int| 0 <= i < rest.len() implies ((#[trigger] rest[i]).settled_at is Some
        <==> !(rest[i].answer is Pending)) by {
        assert(rest[i] == entries[i + 1]);
    }
}

/// Letting expired entries go takes no pending one.
pub proof fn lemma_unexpired_pending(entries: Seq<EntryModel>, now: Timestamp)
    requires
        stamped(entries),
    ensures
        pending_notices(unexpired(entries, now)) == pending_notices(entries),
    decreases entries.len(),
{
    if entries.len() > 0 {
        let rest = entries.skip(1);
        lemma_stamped_rest(entries);
        lemma_unexpired_pending(rest, now);
        lemma_pending_front(entries[0], rest);
        lemma_pending_front(entries[0], unexpired(rest, now));
        assert(Seq::<NoticeModel>::empty() + pending_notices(rest) =~= pending_notices(rest));
    }
}

/// Letting entries above the bound go takes no pending one.
pub proof fn lemma_evicted_pending(entries: Seq<EntryModel>, excess: nat)
    requires
        stamped(entries),
    ensures
        pending_notices(without_oldest_settled(entries, excess)) == pending_notices(entries),
    decreases entries.len(),
{
    if entries.len() > 0 && excess > 0 {
        let less = if entries[0].settled_at is None {
            excess
        } else {
            (excess - 1) as nat
        };
        let rest = entries.skip(1);
        lemma_stamped_rest(entries);
        lemma_evicted_pending(rest, less);
        lemma_pending_front(entries[0], rest);
        lemma_pending_front(entries[0], without_oldest_settled(rest, less));
        assert(Seq::<NoticeModel>::empty() + pending_notices(rest) =~= pending_notices(rest));
    }
}

/// A pending entry is among those pending.
pub proof fn lemma_pending_in(entries: Seq<EntryModel>, i: int)
    requires
        0 <= i < entries.len(),
        is_pending(entries[i]),
    ensures
        pending_in(entries, entries[i].id),
    decreases entries.len(),
{
    let front = entries.drop_last();
    let before = pending_notices(front);
    let all = pending_notices(entries);
    if i == entries.len() - 1 {
        assert(all[all.len() - 1].id == entries[i].id);
    } else {
        lemma_pending_in(front, i);
        assert(front[i] == entries[i]);
        let k = choose|k: int|
            0 <= k < before.len() && (#[trigger] before[k]).id == entries[i].id;
        assert(all[k] == before[k]);
    }
}

/// Those pending are entries that are held.
pub proof fn lemma_pending_held(entries: Seq<EntryModel>, id: ReceiptId)
    requires
        distinct_ids(entries),
    ensures
        pending_in(entries, id) <==> has_id(entries, id) && is_pending(entry_of(entries, id)),
{
    if pending_in(entries, id) {
        let k = choose|k: int|
            0 <= k < pending_notices(entries).len() && (#[trigger] pending_notices(entries)[k]).id
                == id;
        lemma_pending_notices(entries, k);
        let j = choose|j: int|
            0 <= j < entries.len() && is_pending(#[trigger] entries[j]) && pending_notices(
                entries,
            )[k] == (NoticeModel { agent: entries[j].agent, id: entries[j].id });
        lemma_entry_of(entries, j);
    }
    if has_id(entries, id) && is_pending(entry_of(entries, id)) {
        let j = choose|j: int| 0 <= j < entries.len() && (#[trigger] entries[j]).id == id;
        lemma_entry_of(entries, j);
        lemma_pending_in(entries, j);
    }
}

proof fn lemma_settled_pending(
    entries: Seq<EntryModel>,
    id: ReceiptId,
    answer: AnswerModel,
    now: Timestamp,
)
    requires
        !(answer is Pending),
    ensures
        pending_notices(
            entries.map_values(
                |e: EntryModel|
                    if e.id == id {
                        settled_entry(e, answer, now)
                    } else {
                        e
                    },
            ),
        ) == pending_notices(entries).filter(|n: NoticeModel| n.id != id),
    decreases entries.len(),
{
    reveal(Seq::filter);
    let f = |e: EntryModel|
        if e.id == id {
            settled_entry(e, answer, now)
        } else {
            e
        };
    let other = |n: NoticeModel| n.id != id;
    if entries.len() > 0 {
        let front = entries.drop_last();
        lemma_settled_pending(front, id, answer, now);
        assert(entries.map_values(f).drop_last() =~= front.map_values(f));
        let before = pending_notices(front);
        let e = entries.last();
        if is_pending(e) {
            assert(before.push(NoticeModel { agent: e.agent, id: e.id }).drop_last() =~= before);
        }
    }
}

proof fn lemma_filter_one_out(notices: Seq<NoticeModel>, k: int)
    requires
        distinct_notices(notices),
        0 <= k < notices.len(),
    ensures
        notices.filter(|n: NoticeModel| n.id != notices[k].id).len() == notices.len() - 1,
    decreases notices.len(),
{
    reveal(Seq::filter);
    let id = notices[k].id;
    let other = |n: NoticeModel| n.id != id;
    let front = notices.drop_last();
    assert forall|i: int, j: int|
        #![trigger front[i], front[j]]
        0 <= i < j < front.len() implies front[i].id != front[j].id by {
        assert(front[i] == notices[i]);
        assert(front[j] == notices[j]);
    }
    if k == notices.len() - 1 {
        assert forall|i: int| 0 <= i < front.len() implies other(#[trigger] front[i]) by {
            assert(front[i] == notices[i]);
            assert(notices[i].id != notices[k].id);
        }
        lemma_filter_all(front, other);
    } else {
        assert(front[k] == notices[k]);
        lemma_filter_one_out(front, k);
        assert(notices[k].id != notices[notices.len() - 1].id);
    }
}

/// Settling a receipt takes it, and no other, from those pending.
pub proof fn lemma_settle_pending(
    m: ReceiptsModel,
    id: ReceiptId,
    answer: AnswerModel,
    now: Timestamp,
)
    requires
        m.wf(),
        !(answer is Pending),
        pending_in(m.entries, id),
    ensures
        pending_count(settle(m, id, answer, now).entries) == pending_count(m.entries) - 1,
        forall|x: ReceiptId|
            pending_in(settle(m, id, answer, now).entries, x) <==> pending_in(m.entries, x) && x
                != id,
{
    lemma_pending_held(m.entries, id);
    lemma_settled_pending(m.entries, id, answer, now);
    lemma_pending_notices_distinct(m.entries);
    let before = pending_notices(m.entries);
    let other = |n: NoticeModel| n.id != id;
    let after = before.filter(other);
    let k = choose|k: int| 0 <= k < before.len() && (#[trigger] before[k]).id == id;
    lemma_filter_one_out(before, k);
    let out = settle(m, id, answer, now).entries;
    assert(pending_notices(out) == after);
    assert forall|x: ReceiptId| pending_in(out, x) <==> pending_in(m.entries, x) && x != id by {
        if pending_in(out, x) {
            let j = choose|j: int|
                0 <= j < pending_notices(out).len() && (#[trigger] pending_notices(out)[j]).id == x;
            lemma_filter_index(before, other, j);
            let y = choose|y: int| 0 <= y < before.len() && before[y] == after[j];
            assert(before[y].id == x);
        }
        if pending_in(m.entries, x) && x != id {
            let y = choose|y: int| 0 <= y < before.len() && (#[trigger] before[y]).id == x;
            before.lemma_filter_contains(other, y);
            let j = choose|j: int| 0 <= j < after.len() && after[j] == before[y];
            assert(pending_notices(out)[j].id == x);
        }
    }
}

/// A pending receipt behind the others is one more pending.
pub proof fn lemma_with_pending_pending(m: ReceiptsModel, id: ReceiptId, agent: Seq<char>)
    ensures
        pending_count(with_pending(m, id, agent).entries) == pending_count(m.entries) + 1,
        forall|x: ReceiptId|
            pending_in(with_pending(m, id, agent).entries, x) <==> pending_in(m.entries, x) || x
                == id,
{
    let r = with_pending(m, id, agent);
    assert(r.entries.drop_last() =~= m.entries);
    let before = pending_notices(m.entries);
    let after = pending_notices(r.entries);
    assert(after == before.push(NoticeModel { agent, id }));
    assert forall|x: ReceiptId| pending_in(r.entries, x) <==> pending_in(m.entries, x) || x
        == id by {
        if pending_in(r.entries, x) && x != id {
            let k = choose|k: int| 0 <= k < after.len() && (#[trigger] after[k]).id == x;
            assert(before[k].id == x);
        }
        if pending_in(m.entries, x) {
            let k = choose|k: int| 0 <= k < before.len() && (#[trigger] before[k]).id == x;
            assert(after[k].id == x);
        }
        if x == id {
            assert(after[before.len() as int].id == id);
        }
    }
}

/// A refused receipt behind the others changes nothing about those pending.
pub proof fn lemma_with_dropped_pending(
    m: ReceiptsModel,
    id: ReceiptId,
    agent: Seq<char>,
    why: Seq<char>,
    now: Timestamp,
)
    ensures
        pending_notices(with_dropped(m, id, agent, why, now).entries) == pending_notices(m.entries),
{
    let r = with_dropped(m, id, agent, why, now);
    assert(r.entries.drop_last() =~= m.entries);
}

/// The views of a list of entries.
pub open spec fn entry_models(v: Seq<Entry>) -> Seq<EntryModel> {
    Seq::new(v.len(), |i: int| v[i]@)
}

/// The views of a list of notices.
pub open spec fn notice_models(v: Seq<Notice>) -> Seq<NoticeModel> {
    Seq::new(v.len(), |i: int| v[i]@)
}

proof fn lemma_has_id_removed(entries: Seq<EntryModel>, i: int, id: ReceiptId)
    requires
        distinct_ids(entries),
        0 <= i < entries.len(),
    ensures
        has_id(entries.remove(i), id) <==> has_id(entries, id) && id != entries[i].id,
{
    let less = entries.remove(i);
    if has_id(less, id) {
        let j = choose|j: int| 0 <= j < less.len() && (#[trigger] less[j]).id == id;
        let k = if j < i {
            j
        } else {
            j + 1
        };
        assert(less[j] == entries[k]);
        assert(entries[k].id == id);
        if k < i {
            assert(entries[k].id != entries[i].id);
        } else {
            assert(entries[i].id != entries[k].id);
        }
    }
    if has_id(entries, id) && id != entries[i].id {
        let k = choose|k: int| 0 <= k < entries.len() && (#[trigger] entries[k]).id == id;
        let j = if k < i {
            k
        } else {
            k - 1
        };
        assert(less[j] == entries[k]);
    }
}

/// Letting one entry go takes its notices along, and no others.
proof fn lemma_notices_after_removal(notices: Seq<NoticeModel>, entries: Seq<EntryModel>, i: int)
    requires
        distinct_ids(entries),
        0 <= i < entries.len(),
    ensures
        notices_of(notices, entries).filter(|n: NoticeModel| n.id != entries[i].id) == notices_of(
            notices,
            entries.remove(i),
        ),
{
    let held = |n: NoticeModel| has_id(entries, n.id);
    let other = |n: NoticeModel| n.id != entries[i].id;
    let both = |n: NoticeModel| held(n) && other(n);
    let less = |n: NoticeModel| has_id(entries.remove(i), n.id);
    lemma_filter_twice(notices, held, other);
    assert forall|j: int| 0 <= j < notices.len() implies both(#[trigger] notices[j]) == less(
        notices[j],
    ) by {
        lemma_has_id_removed(entries, i, notices[j].id);
    }
    lemma_filter_same(notices, both, less);
}

proof fn lemma_distinct_after_removal(entries: Seq<EntryModel>, i: int)
    requires
        distinct_ids(entries),
        0 <= i < entries.len(),
    ensures
        distinct_ids(entries.remove(i)),
{
    let less = entries.remove(i);
    assert forall|a: int, b: int|
        #![trigger less[a], less[b]]
        0 <= a < b < less.len() implies less[a].id != less[b].id by {
        let x = if a < i {
            a
        } else {
            a + 1
        };
        let y = if b < i {
            b
        } else {
            b + 1
        };
        assert(less[a] == entries[x]);
        assert(less[b] == entries[y]);
    }
}

/// Drops the notices of one receipt.
fn drop_notices(v: &mut Vec<Notice>, id: &ReceiptId)
    ensures
        notice_models(final(v)@) == notice_models(old(v)@).filter(|n: NoticeModel| n.id != *id),
{
    let ghost before = notice_models(v@);
    let ghost other = |n: NoticeModel| n.id != *id;
    let ghost mut done: int = 0;
    let mut i: usize = 0;
    proof {
        reveal(Seq::filter);
        assert(before.take(0).filter(other) =~= Seq::empty());
        assert(notice_models(v@).take(0) =~= Seq::empty());
        assert(notice_models(v@).skip(0) =~= before.skip(0));
    }
    while i < v.len()
        invariant
            i <= v@.len(),
            other == (|n: NoticeModel| n.id != *id),
            0 <= done <= before.len(),
            v@.len() - i == before.len() - done,
            notice_models(v@).take(i as int) == before.take(done).filter(other),
            notice_models(v@).skip(i as int) == before.skip(done),
        decreases v@.len() - i,
    {
        let ghost now = notice_models(v@);
        proof {
            reveal(Seq::filter);
            assert(before.take(done + 1).drop_last() =~= before.take(done));
            assert(now.skip(i as int)[0] == now[i as int]);
            assert(before.skip(done)[0] == before[done]);
            assert(before.take(done + 1).last() == before[done]);
        }
        if v[i].id == *id {
            v.remove(i);
            proof {
                assert(notice_models(v@) =~= now.remove(i as int));
                assert(notice_models(v@).take(i as int) =~= now.take(i as int));
                assert(notice_models(v@).skip(i as int) =~= before.skip(done + 1)) by {
                    assert(notice_models(v@).skip(i as int) =~= now.skip(i as int).skip(1));
                    assert(before.skip(done).skip(1) =~= before.skip(done + 1));
                }
            }
        } else {
            i += 1;
            proof {
                assert(now.take(i as int) =~= now.take(i - 1).push(now[i - 1]));
                assert(now.skip(i as int) =~= now.skip(i - 1).skip(1));
                assert(before.skip(done).skip(1) =~= before.skip(done + 1));
            }
        }
        proof {
            done = done + 1;
        }
    }
    proof {
        assert(before.take(before.len() as int) =~= before);
        assert(notice_models(v@).take(i as int) =~= notice_models(v@));
    }
}

/// The receipts that a process holds.
#[derive(Debug)]
pub struct Receipts {
    entries: Vec<Entry>,
    undelivered: Vec<Notice>,
}

impl View for Receipts {
    type V = ReceiptsModel;

    closed spec fn view(&self) -> ReceiptsModel {
        ReceiptsModel {
            entries: entry_models(self.entries@),
            undelivered: notice_models(self.undelivered@),
        }
    }
}

impl Receipts {
    /// No receipts.
    pub fn new() -> (r: Receipts)
        ensures
            r@ == (ReceiptsModel { entries: Seq::empty(), undelivered: Seq::empty() }),
            r@.wf(),
    {
        let r = Receipts { entries: Vec::new(), undelivered: Vec::new() };
        proof {
            assert(r@.entries =~= Seq::empty());
            assert(r@.undelivered =~= Seq::empty());
        }
        r
    }

    /// How many receipts are held.
    pub fn len(&self) -> (n: usize)
        ensures
            n == self@.entries.len(),
    {
        self.entries.len()
    }

    /// Lets the receipts go that were settled before the retention.
    pub fn expire(&mut self, now: &Timestamp)
        requires
            old(self)@.wf(),
        ensures
            final(self)@ == expire(old(self)@, *now),
            final(self)@.wf(),
    {
        let ghost start = self@;
        let mut i: usize = 0;
        proof {
            lemma_expire_wf(start, *now);
            let held = |n: NoticeModel| has_id(start.entries, n.id);
            lemma_filter_all(start.undelivered, held);
            assert(start.entries.take(0) =~= Seq::empty());
            assert(start.entries.skip(0) =~= start.entries);
            assert(start.entries.take(0) + unexpired(start.entries.skip(0), *now) =~= unexpired(
                start.entries,
                *now,
            ));
        }
        while i < self.entries.len()
            invariant_except_break
                i <= self.entries@.len(),
                self@.entries.take(i as int) + unexpired(self@.entries.skip(i as int), *now)
                    == unexpired(start.entries, *now),
                distinct_ids(self@.entries),
                self@.undelivered == notices_of(start.undelivered, self@.entries),
            ensures
                self@.entries == unexpired(start.entries, *now),
                self@.undelivered == notices_of(start.undelivered, self@.entries),
            decreases self.entries@.len() - i,
        {
            let ghost seen = self@.entries;
            let ghost tail = seen.skip(i as int);
            proof {
                assert(tail[0] == seen[i as int]);
                assert(tail.skip(1) =~= seen.skip(i + 1));
            }
            match self.entries[i].settled_at {
                None => {
                    i += 1;
                    proof {
                        assert(seen.take(i as int) + unexpired(seen.skip(i as int), *now)
                            =~= seen.take(i - 1) + unexpired(tail, *now));
                    }
                },
                Some(t) => {
                    if t.older_than(now, RECEIPT_RETENTION_SECS) {
                        let gone = self.entries.remove(i);
                        drop_notices(&mut self.undelivered, &gone.id);
                        proof {
                            assert(self@.entries =~= seen.remove(i as int));
                            lemma_notices_after_removal(start.undelivered, seen, i as int);
                            lemma_distinct_after_removal(seen, i as int);
                            assert(self@.entries.take(i as int) =~= seen.take(i as int));
                            assert(self@.entries.skip(i as int) =~= tail.skip(1));
                        }
                    } else {
                        proof {
                            assert(seen.take(i as int) + tail =~= seen);
                        }
                        break;
                    }
                },
            }
            proof {
                if i == self.entries@.len() {
                    assert(self@.entries.take(i as int) + unexpired(
                        self@.entries.skip(i as int),
                        *now,
                    ) =~= self@.entries);
                }
            }
        }
    }

    /// Lets the oldest settled receipts go, as many as there are above the bound.
    pub fn evict(&mut self)
        requires
            old(self)@.wf(),
        ensures
            final(self)@ == evict(old(self)@),
            final(self)@.wf(),
    {
        let ghost start = self@;
        let ghost goal = without_oldest_settled(start.entries, excess(start.entries));
        let mut left: usize = if self.entries.len() > MAX_RETAINED_RECEIPTS {
            self.entries.len() - MAX_RETAINED_RECEIPTS
        } else {
            0
        };
        let mut i: usize = 0;
        proof {
            lemma_evict_wf(start);
            let held = |n: NoticeModel| has_id(start.entries, n.id);
            lemma_filter_all(start.undelivered, held);
            assert(start.entries.take(0) =~= Seq::empty());
            assert(start.entries.skip(0) =~= start.entries);
            assert(start.entries.take(0) + goal =~= goal);
        }
        while left > 0 && i < self.entries.len()
            invariant
                i <= self.entries@.len(),
                self@.entries.take(i as int) + without_oldest_settled(
                    self@.entries.skip(i as int),
                    left as nat,
                ) == goal,
                distinct_ids(self@.entries),
                self@.undelivered == notices_of(start.undelivered, self@.entries),
            decreases self.entries@.len() - i,
        {
            let ghost seen = self@.entries;
            let ghost tail = seen.skip(i as int);
            proof {
                assert(tail[0] == seen[i as int]);
                assert(tail.skip(1) =~= seen.skip(i + 1));
            }
            match self.entries[i].settled_at {
                None => {
                    i += 1;
                    proof {
                        assert(seen.take(i as int) + without_oldest_settled(
                            seen.skip(i as int),
                            left as nat,
                        ) =~= seen.take(i - 1) + without_oldest_settled(tail, left as nat));
                    }
                },
                Some(_) => {
                    let gone = self.entries.remove(i);
                    drop_notices(&mut self.undelivered, &gone.id);
                    left -= 1;
                    proof {
                        assert(self@.entries =~= seen.remove(i as int));
                        lemma_notices_after_removal(start.undelivered, seen, i as int);
                        lemma_distinct_after_removal(seen, i as int);
                        assert(self@.entries.take(i as int) =~= seen.take(i as int));
                        assert(self@.entries.skip(i as int) =~= tail.skip(1));
                    }
                },
            }
        }
        proof {
            assert(self@.entries.take(i as int) + without_oldest_settled(
                self@.entries.skip(i as int),
                left as nat,
            ) =~= self@.entries);
        }
    }

    fn index_of(&self, id: &ReceiptId) -> (r: Option<usize>)
        ensures
            match r {
                Some(i) => i < self@.entries.len() && self@.entries[i as int].id == *id,
                None => !has_id(self@.entries, *id),
            },
    {
        let mut i: usize = 0;
        while i < self.entries.len()
            invariant
                i <= self.entries@.len(),
                forall|j: int| 0 <= j < i ==> (#[trigger] self@.entries[j]).id != *id,
            decreases self.entries@.len() - i,
        {
            if self.entries[i].id == *id {
                return Some(i);
            }
            i += 1;
        }
        None
    }

    /// Settles a receipt, where it is held and pending.
    pub fn settle(&mut self, id: &ReceiptId, answer: ReceiptAnswer, now: &Timestamp)
        requires
            old(self)@.wf(),
            !(answer@ is Pending),
        ensures
            final(self)@ == settle(old(self)@, *id, answer@, *now),
            final(self)@.wf(),
    {
        let ghost start = self@;
        let ghost word = answer@;
        proof {
            lemma_settle_wf(start, *id, word, *now);
        }
        match self.index_of(id) {
            Some(i) => {
                proof {
                    lemma_entry_of(start.entries, i as int);
                }
                let mut entry = self.entries.remove(i);
                let agent = entry.agent.clone();
                let changed = entry.settle(answer, now);
                self.entries.insert(i, entry);
                if changed {
                    self.undelivered.push(Notice { agent, id: *id });
                    proof {
                        assert forall|j: int| 0 <= j < start.entries.len() implies (
                        #[trigger] self@.entries[j]) == settle(
                            start,
                            *id,
                            word,
                            *now,
                        ).entries[j] by {
                            if j != i {
                                if j < i {
                                    assert(start.entries[j].id != start.entries[i as int].id);
                                } else {
                                    assert(start.entries[i as int].id != start.entries[j].id);
                                }
                            }
                        }
                        assert(self@.entries =~= settle(start, *id, word, *now).entries);
                        assert(self@.undelivered =~= settle(start, *id, word, *now).undelivered);
                    }
                } else {
                    proof {
                        assert(self@.entries =~= start.entries);
                        assert(self@.undelivered =~= start.undelivered);
                    }
                }
            },
            None => {},
        }
    }

    /// Puts a pending receipt behind the others.
    pub fn push_pending(&mut self, id: &ReceiptId, agent: AgentId)
        requires
            old(self)@.wf(),
            !has_id(old(self)@.entries, *id),
        ensures
            final(self)@ == with_pending(old(self)@, *id, agent@),
            final(self)@.wf(),
    {
        let ghost start = self@;
        let ghost name = agent@;
        self.entries.push(
            Entry { id: *id, agent, settled_at: None, answer: ReceiptAnswer::Pending },
        );
        proof {
            lemma_with_pending_wf(start, *id, name);
            assert(self@.entries =~= with_pending(start, *id, name).entries);
            assert(self@.undelivered =~= start.undelivered);
        }
    }

    /// Puts a refused write's receipt, and its notice, behind the others.
    pub fn push_dropped(&mut self, id: &ReceiptId, agent: AgentId, why: String, now: &Timestamp)
        requires
            old(self)@.wf(),
            !has_id(old(self)@.entries, *id),
        ensures
            final(self)@ == with_dropped(old(self)@, *id, agent@, why@, *now),
            final(self)@.wf(),
    {
        let ghost start = self@;
        let ghost name = agent@;
        let ghost text = why@;
        self.undelivered.push(Notice { agent: agent.clone(), id: *id });
        self.entries.push(
            Entry { id: *id, agent, settled_at: Some(*now), answer: ReceiptAnswer::Dropped(why) },
        );
        proof {
            lemma_with_dropped_wf(start, *id, name, text, *now);
            assert(self@.entries =~= with_dropped(start, *id, name, text, *now).entries);
            assert(self@.undelivered =~= with_dropped(start, *id, name, text, *now).undelivered);
        }
    }

    /// Settles every pending receipt as recorded in a durable intent, and counts them.
    pub fn defer(&mut self, now: &Timestamp) -> (n: usize)
        requires
            old(self)@.wf(),
        ensures
            final(self)@ == defer(old(self)@, *now),
            final(self)@.wf(),
            n == pending_count(old(self)@.entries),
    {
        let ghost start = self@;
        let ghost goal = defer(start, *now);
        let mut n: usize = 0;
        let mut i: usize = 0;
        proof {
            lemma_defer_wf(start, *now);
            assert(start.entries.take(0) =~= Seq::empty());
            assert(start.undelivered + pending_notices(start.entries.take(0))
                =~= start.undelivered);
        }
        while i < self.entries.len()
            invariant
                i <= self.entries@.len(),
                start.wf(),
                goal == defer(start, *now),
                self@.entries.len() == start.entries.len(),
                forall|j: int| 0 <= j < i ==> #[trigger] self@.entries[j] == goal.entries[j],
                forall|j: int|
                    i <= j < start.entries.len() ==> #[trigger] self@.entries[j]
                        == start.entries[j],
                n == pending_notices(start.entries.take(i as int)).len(),
                n <= i,
                self@.undelivered == start.undelivered + pending_notices(
                    start.entries.take(i as int),
                ),
            decreases self.entries@.len() - i,
        {
            let ghost before = self@;
            proof {
                assert(start.entries.take(i + 1).drop_last() =~= start.entries.take(i as int));
                assert(start.entries.take(i + 1).last() == start.entries[i as int]);
                assert(before.entries[i as int] == start.entries[i as int]);
            }
            let mut entry = self.entries.remove(i);
            let agent = entry.agent.clone();
            let id = entry.id;
            let changed = entry.settle(ReceiptAnswer::IntentRecorded, now);
            self.entries.insert(i, entry);
            if changed {
                self.undelivered.push(Notice { agent, id });
                n += 1;
                proof {
                    let e = start.entries[i as int];
                    assert(self@.undelivered =~= before.undelivered.push(
                        NoticeModel { agent: e.agent, id: e.id },
                    ));
                }
            } else {
                proof {
                    assert(self@.undelivered =~= before.undelivered);
                }
            }
            proof {
                assert(self@.entries =~= before.entries.update(
                    i as int,
                    goal.entries[i as int],
                ));
                assert(self@.undelivered =~= start.undelivered + pending_notices(
                    start.entries.take(i + 1),
                ));
            }
            i += 1;
        }
        proof {
            assert(start.entries.take(start.entries.len() as int) =~= start.entries);
            assert(self@.entries =~= goal.entries);
        }
        n
    }

    /// The answer of the receipt with this id, and the agent that it belongs to.
    pub fn find(&self, id: &ReceiptId) -> (r: Option<&Entry>)
        requires
            self@.wf(),
        ensures
            r is Some <==> has_id(self@.entries, *id),
            r matches Some(e) ==> e@ == entry_of(self@.entries, *id),
    {
        match self.index_of(id) {
            Some(i) => {
                proof {
                    lemma_entry_of(self@.entries, i as int);
                }
                Some(&self.entries[i])
            },
            None => None,
        }
    }

    /// Forgets the notice that tells an agent of one receipt.
    pub fn mark_delivered(&mut self, agent: &AgentId, id: &ReceiptId)
        requires
            old(self)@.wf(),
        ensures
            final(self)@ == delivered(old(self)@, agent@, *id),
            final(self)@.wf(),
    {
        let ghost start = self@;
        let ghost keep = |n: NoticeModel| !(n.agent == agent@ && n.id == *id);
        let ghost mut done: int = 0;
        let mut i: usize = 0;
        proof {
            lemma_delivered_wf(start, agent@, *id);
            reveal(Seq::filter);
            assert(start.undelivered.take(0).filter(keep) =~= Seq::empty());
            assert(self@.undelivered.take(0) =~= Seq::empty());
        }
        while i < self.undelivered.len()
            invariant
                i <= self.undelivered@.len(),
                keep == (|n: NoticeModel| !(n.agent == agent@ && n.id == *id)),
                0 <= done <= start.undelivered.len(),
                self.undelivered@.len() - i == start.undelivered.len() - done,
                self@.undelivered.take(i as int) == start.undelivered.take(done).filter(keep),
                self@.undelivered.skip(i as int) == start.undelivered.skip(done),
                self@.entries == start.entries,
            decreases self.undelivered@.len() - i,
        {
            let ghost now = self@.undelivered;
            let ghost all = start.undelivered;
            proof {
                reveal(Seq::filter);
                assert(all.take(done + 1).drop_last() =~= all.take(done));
                assert(now.skip(i as int)[0] == now[i as int]);
                assert(all.skip(done)[0] == all[done]);
                assert(all.take(done + 1).last() == all[done]);
                assert(all.skip(done).skip(1) =~= all.skip(done + 1));
            }
            if self.undelivered[i].agent.same(agent) && self.undelivered[i].id == *id {
                self.undelivered.remove(i);
                proof {
                    assert(self@.undelivered =~= now.remove(i as int));
                    assert(self@.undelivered.take(i as int) =~= now.take(i as int));
                    assert(self@.undelivered.skip(i as int) =~= now.skip(i as int).skip(1));
                }
            } else {
                i += 1;
                proof {
                    assert(now.take(i as int) =~= now.take(i - 1).push(now[i - 1]));
                    assert(now.skip(i as int) =~= now.skip(i - 1).skip(1));
                }
            }
            proof {
                done = done + 1;
            }
        }
        proof {
            assert(start.undelivered.take(start.undelivered.len() as int) =~= start.undelivered);
            assert(self@.undelivered.take(i as int) =~= self@.undelivered);
        }
    }

    fn waiting(&self, agent: &AgentId) -> (n: usize)
        ensures
            n == waiting(self@.undelivered, agent@),
    {
        let mut n: usize = 0;
        let mut i: usize = 0;
        proof {
            assert(self@.undelivered.take(0) =~= Seq::empty());
        }
        while i < self.undelivered.len()
            invariant
                i <= self.undelivered@.len(),
                n <= i,
                n == waiting(self@.undelivered.take(i as int), agent@),
            decreases self.undelivered@.len() - i,
        {
            proof {
                let all = self@.undelivered;
                assert(all.take(i + 1).drop_last() =~= all.take(i as int));
                assert(all.take(i + 1).last() == all[i as int]);
            }
            if self.undelivered[i].agent.same(agent) {
                n += 1;
            }
            i += 1;
        }
        proof {
            assert(self@.undelivered.take(self@.undelivered.len() as int) =~= self@.undelivered);
        }
        n
    }

    /// Takes the first settled receipts that an agent has not been told of, with their answers,
    /// and counts those that are left.
    pub fn take_piggyback(&mut self, agent: &AgentId) -> (r: (
        Vec<(ReceiptId, ReceiptAnswer)>,
        usize,
    ))
        requires
            old(self)@.wf(),
        ensures
            answer_views(r.0@) == answers_of(
                old(self)@.entries,
                first_of(old(self)@.undelivered, agent@, MAX_PIGGYBACK_RECEIPTS as nat),
            ),
            final(self)@.entries == old(self)@.entries,
            final(self)@.undelivered == without_first(
                old(self)@.undelivered,
                agent@,
                MAX_PIGGYBACK_RECEIPTS as nat,
            ),
            r.1 == waiting(final(self)@.undelivered, agent@),
            final(self)@.wf(),
    {
        let ghost start = self@;
        let ghost k = MAX_PIGGYBACK_RECEIPTS as nat;
        let ghost goal = without_first(start.undelivered, agent@, k);
        let ghost firsts = first_of(start.undelivered, agent@, k);
        let mut ids: Vec<ReceiptId> = Vec::new();
        let mut i: usize = 0;
        proof {
            lemma_taken_wf(start, agent@, k);
            assert(start.undelivered.take(0) + goal =~= goal);
            assert(start.undelivered.skip(0) =~= start.undelivered);
            assert(ids@ + firsts =~= firsts);
        }
        while i < self.undelivered.len() && ids.len() < MAX_PIGGYBACK_RECEIPTS
            invariant
                i <= self.undelivered@.len(),
                ids@.len() <= MAX_PIGGYBACK_RECEIPTS,
                self@.entries == start.entries,
                self@.undelivered.take(i as int) + without_first(
                    self@.undelivered.skip(i as int),
                    agent@,
                    (MAX_PIGGYBACK_RECEIPTS - ids@.len()) as nat,
                ) == goal,
                ids@ + first_of(
                    self@.undelivered.skip(i as int),
                    agent@,
                    (MAX_PIGGYBACK_RECEIPTS - ids@.len()) as nat,
                ) == firsts,
            decreases self.undelivered@.len() - i,
        {
            let ghost now = self@.undelivered;
            let ghost tail = now.skip(i as int);
            let ghost room = (MAX_PIGGYBACK_RECEIPTS - ids@.len()) as nat;
            let ghost so_far = ids@;
            proof {
                assert(tail[0] == now[i as int]);
                assert(tail.skip(1) =~= now.skip(i + 1));
            }
            if self.undelivered[i].agent.same(agent) {
                let gone = self.undelivered.remove(i);
                ids.push(gone.id);
                proof {
                    assert(self@.undelivered =~= now.remove(i as int));
                    assert(self@.undelivered.take(i as int) =~= now.take(i as int));
                    assert(self@.undelivered.skip(i as int) =~= tail.skip(1));
                    assert(ids@ + first_of(tail.skip(1), agent@, (room - 1) as nat) =~= so_far
                        + first_of(tail, agent@, room));
                }
            } else {
                i += 1;
                proof {
                    assert(now.take(i as int) + without_first(
                        now.skip(i as int),
                        agent@,
                        room,
                    ) =~= now.take(i - 1) + without_first(tail, agent@, room));
                }
            }
        }
        proof {
            assert(self@.undelivered.take(i as int) + self@.undelivered.skip(i as int)
                =~= self@.undelivered);
            assert(self@.undelivered =~= goal);
            assert(ids@ =~= firsts);
            assert forall|x: int| 0 <= x < ids@.len() implies has_id(
                start.entries,
                #[trigger] ids@[x],
            ) by {
                lemma_first_of_taken(start.undelivered, agent@, k, x);
                let j = choose|j: int|
                    0 <= j < start.undelivered.len() && (#[trigger] start.undelivered[j]).id
                        == firsts[x] && start.undelivered[j].agent == agent@;
                assert(start.undelivered[j].id == ids@[x]);
            }
        }
        let mut taken: Vec<(ReceiptId, ReceiptAnswer)> = Vec::new();
        let mut j: usize = 0;
        while j < ids.len()
            invariant
                j <= ids@.len(),
                taken@.len() == j,
                self@.wf(),
                self@.entries == start.entries,
                forall|x: int| 0 <= x < ids@.len() ==> has_id(start.entries, #[trigger] ids@[x]),
                forall|x: int|
                    0 <= x < j ==> (#[trigger] taken@[x]).0 == ids@[x] && taken@[x].1@ == entry_of(
                        start.entries,
                        ids@[x],
                    ).answer,
            decreases ids@.len() - j,
        {
            assert(has_id(start.entries, ids@[j as int]));
            match self.find(&ids[j]) {
                Some(e) => {
                    taken.push((ids[j], e.answer.clone()));
                },
                None => {},
            }
            j += 1;
        }
        proof {
            assert(answer_views(taken@) =~= answers_of(start.entries, firsts));
        }
        let left: usize = self.waiting(agent);
        (taken, left)
    }
}

} // verus!
