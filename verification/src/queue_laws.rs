//! What the queue does with each agent's writes, what is counted, and what an intent holds.

use crate::boundary::hyphenated;
use crate::counters::WriteQueueCounters;
use crate::job::{
    byte_len, intent_for, outcome_summary, outcome_touched, payload_bytes, JobModel, PayloadModel,
    WriteOutcome,
};
use crate::lanes::{
    done, enqueue, has_lane, idle, lane_index, lemma_done, lemma_enqueue, lemma_lane_index,
    lemma_taken, next_job, refusal, runs, taken, LaneModel, LanesModel,
};
use crate::pipeline::{
    aborted, finish, lemma_running_is_pending, lookup_answer, next_id, next_write, replay_job,
    replay_stops, replayed, sealed, submitted, unconsumed, wait_budget, JobEnd, PipelineModel,
};
use crate::receipt::{
    read_wire, receipt_id_round_trips, wire, AppliedSummary, DropReason, ReceiptId, WriteKind,
};
use crate::time::Timestamp;
use crate::types::{ConceptType, LamboError, MatchStrategy, NodeId};
use vstd::prelude::*;

verus! {

/// The writes of an agent that wait, in their order.
pub open spec fn waiting_of(m: LanesModel, agent: Seq<char>) -> Seq<JobModel> {
    if exists|i: int| 0 <= i < m.lanes.len() && (#[trigger] m.lanes[i]).agent == agent {
        m.lanes[choose|i: int| 0 <= i < m.lanes.len() && (#[trigger] m.lanes[i]).agent
            == agent].queue
    } else {
        Seq::empty()
    }
}

/// The write of an agent that runs.
pub open spec fn running_of(m: LanesModel, agent: Seq<char>) -> Option<ReceiptId> {
    if exists|i: int| 0 <= i < m.lanes.len() && (#[trigger] m.lanes[i]).agent == agent {
        m.lanes[choose|i: int| 0 <= i < m.lanes.len() && (#[trigger] m.lanes[i]).agent
            == agent].running
    } else {
        None
    }
}

proof fn lemma_of_lane(m: LanesModel, i: int)
    requires
        m.wf(),
        0 <= i < m.lanes.len(),
    ensures
        waiting_of(m, m.lanes[i].agent) == m.lanes[i].queue,
        running_of(m, m.lanes[i].agent) == m.lanes[i].running,
{
    lemma_lane_index(m.lanes, i);
}

proof fn lemma_no_lane(m: LanesModel, agent: Seq<char>)
    requires
        forall|i: int| 0 <= i < m.lanes.len() ==> (#[trigger] m.lanes[i]).agent != agent,
    ensures
        waiting_of(m, agent) == Seq::<JobModel>::empty(),
        running_of(m, agent) is None,
{
}

proof fn lemma_same_lane(m: LanesModel, r: LanesModel, a: int, b: int)
    requires
        m.wf(),
        r.wf(),
        0 <= a < m.lanes.len(),
        0 <= b < r.lanes.len(),
        m.lanes[a] == r.lanes[b],
    ensures
        waiting_of(r, m.lanes[a].agent) == waiting_of(m, m.lanes[a].agent),
        running_of(r, m.lanes[a].agent) == running_of(m, m.lanes[a].agent),
{
    lemma_of_lane(m, a);
    lemma_of_lane(r, b);
}

/// A write that is admitted waits behind all others of its agent; nobody else's writes move, and
/// what runs goes on.
pub proof fn an_admitted_write_waits_last(m: LanesModel, job: JobModel, other: Seq<char>)
    requires
        m.wf(),
        refusal(m, job.agent, job.bytes as nat) is None,
        forall|id: ReceiptId| crate::lanes::in_flight(m, id) ==> id.seq < job.receipt.seq,
    ensures
        waiting_of(enqueue(m, job), job.agent) == waiting_of(m, job.agent).push(job),
        other != job.agent ==> waiting_of(enqueue(m, job), other) == waiting_of(m, other),
        running_of(enqueue(m, job), other) == running_of(m, other),
        enqueue(m, job).sealed == m.sealed,
        enqueue(m, job).outstanding() == m.outstanding() + 1,
        enqueue(m, job).bytes() == m.bytes() + job.bytes,
{
    let r = enqueue(m, job);
    lemma_enqueue(m, job);
    if has_lane(m.lanes, job.agent) {
        let i = lane_index(m.lanes, job.agent);
        lemma_of_lane(m, i);
        lemma_of_lane(r, i);
        if other != job.agent && has_lane(m.lanes, other) {
            let k = lane_index(m.lanes, other);
            lemma_same_lane(m, r, k, k);
        } else if other != job.agent {
            assert forall|k: int| 0 <= k < r.lanes.len() implies (#[trigger] r.lanes[k]).agent
                != other by {
                assert(m.lanes[k].agent != other);
            }
            lemma_no_lane(r, other);
            lemma_no_lane(m, other);
        }
    } else {
        let n = m.lanes.len() as int;
        lemma_of_lane(r, n);
        lemma_no_lane(m, job.agent);
        assert(waiting_of(m, job.agent).push(job) =~= seq![job]);
        if other != job.agent && has_lane(m.lanes, other) {
            let k = lane_index(m.lanes, other);
            lemma_same_lane(m, r, k, k);
        } else if other != job.agent {
            assert forall|k: int| 0 <= k < r.lanes.len() implies (#[trigger] r.lanes[k]).agent
                != other by {
                if k < n {
                    assert(m.lanes[k].agent != other);
                }
            }
            lemma_no_lane(r, other);
            lemma_no_lane(m, other);
        }
    }
}

/// A worker takes the write of its agent that has waited longest, which runs from then on; those
/// behind it stay in their order, and nobody else's writes move.
pub proof fn the_oldest_write_is_taken(m: LanesModel, agent: Seq<char>, other: Seq<char>)
    requires
        m.wf(),
        idle(m, agent),
    ensures
        next_job(m, agent) is Some <==> waiting_of(m, agent).len() > 0,
        next_job(m, agent) is Some ==> next_job(m, agent)->0 == waiting_of(m, agent)[0]
            && waiting_of(taken(m, agent), agent) == waiting_of(m, agent).skip(1) && running_of(
            taken(m, agent),
            agent,
        ) == Some(waiting_of(m, agent)[0].receipt) && taken(m, agent).bytes() == m.bytes()
            - waiting_of(m, agent)[0].bytes,
        next_job(m, agent) is None ==> waiting_of(taken(m, agent), agent).len() == 0 && running_of(
            taken(m, agent),
            agent,
        ) is None,
        other != agent ==> waiting_of(taken(m, agent), other) == waiting_of(m, other)
            && running_of(taken(m, agent), other) == running_of(m, other),
        taken(m, agent).outstanding() == m.outstanding(),
        taken(m, agent).sealed == m.sealed,
{
    let r = taken(m, agent);
    lemma_taken(m, agent);
    if has_lane(m.lanes, agent) {
        let i = lane_index(m.lanes, agent);
        lemma_of_lane(m, i);
        if m.lanes[i].queue.len() > 0 {
            lemma_of_lane(r, i);
            if other != agent && has_lane(m.lanes, other) {
                let k = lane_index(m.lanes, other);
                lemma_same_lane(m, r, k, k);
            } else if other != agent {
                assert forall|k: int| 0 <= k < r.lanes.len() implies (#[trigger] r.lanes[k]).agent
                    != other by {
                    assert(m.lanes[k].agent != other);
                }
                lemma_no_lane(r, other);
                lemma_no_lane(m, other);
            }
        } else {
            assert forall|k: int| 0 <= k < r.lanes.len() implies (#[trigger] r.lanes[k]).agent
                != agent by {
                assert(!has_lane(r.lanes, agent));
            }
            lemma_no_lane(r, agent);
            if other != agent && has_lane(m.lanes, other) {
                let k = lane_index(m.lanes, other);
                let at = if k < i {
                    k
                } else {
                    k - 1
                };
                assert(r.lanes[at] == m.lanes[k]);
                lemma_same_lane(m, r, k, at);
            } else if other != agent {
                assert forall|k: int| 0 <= k < r.lanes.len() implies (#[trigger] r.lanes[k]).agent
                    != other by {
                    let at = if k < i {
                        k
                    } else {
                        k + 1
                    };
                    assert(r.lanes[k] == m.lanes[at]);
                }
                lemma_no_lane(r, other);
                lemma_no_lane(m, other);
            }
        }
    } else {
        lemma_no_lane(m, agent);
    }
}

/// A write that is done no longer runs; what waits stays as it is, and nobody else's writes move.
pub proof fn a_done_write_frees_its_lane(
    m: LanesModel,
    agent: Seq<char>,
    id: ReceiptId,
    other: Seq<char>,
)
    requires
        m.wf(),
        runs(m, agent, id),
    ensures
        running_of(m, agent) == Some(id),
        running_of(done(m, agent), agent) is None,
        waiting_of(done(m, agent), other) == waiting_of(m, other),
        other != agent ==> running_of(done(m, agent), other) == running_of(m, other),
        done(m, agent).outstanding() == m.outstanding() - 1,
        done(m, agent).bytes() == m.bytes(),
        done(m, agent).sealed == m.sealed,
{
    let r = done(m, agent);
    lemma_done(m, agent, id);
    let i = lane_index(m.lanes, agent);
    lemma_of_lane(m, i);
    lemma_of_lane(r, i);
    if other != agent && has_lane(m.lanes, other) {
        let k = lane_index(m.lanes, other);
        lemma_same_lane(m, r, k, k);
    } else if other != agent {
        assert forall|k: int| 0 <= k < r.lanes.len() implies (#[trigger] r.lanes[k]).agent
            != other by {
            assert(m.lanes[k].agent != other);
        }
        lemma_no_lane(r, other);
        lemma_no_lane(m, other);
    }
}

/// A write is admitted exactly where the session is open, its agent has fewer than 64 writes, all
/// have fewer than 1024, and what waits leaves room for its payload within 16 MiB. Otherwise the
/// first of these that fails is the reason.
pub proof fn a_write_is_admitted_where_there_is_room(m: LanesModel, agent: Seq<char>, bytes: nat)
    requires
        m.wf(),
    ensures
        ({
            let own = waiting_of(m, agent).len() + if running_of(m, agent) is Some {
                1int
            } else {
                0
            };
            let why = refusal(m, agent, bytes);
            &&& why is None <==> !m.sealed && own < 64 && m.outstanding() < 1024 && m.bytes()
                + bytes <= 16_777_216
            &&& m.sealed ==> why == Some(DropReason::Closed)
            &&& !m.sealed && own >= 64 ==> why == Some(DropReason::LaneFull)
            &&& !m.sealed && own < 64 && m.outstanding() >= 1024 ==> why == Some(
                DropReason::QueueFull,
            )
            &&& !m.sealed && own < 64 && m.outstanding() < 1024 && m.bytes() + bytes > 16_777_216
                ==> why == Some(DropReason::QueueBytes)
        }),
{
    if has_lane(m.lanes, agent) {
        lemma_of_lane(m, lane_index(m.lanes, agent));
    } else {
        lemma_no_lane(m, agent);
    }
}

/// A queue to which nothing was submitted holds nothing.
pub proof fn an_empty_queue_holds_nothing(agent: Seq<char>, closed: bool)
    ensures
        ({
            let m = LanesModel { lanes: Seq::<LaneModel>::empty(), sealed: closed };
            m.outstanding() == 0 && m.bytes() == 0 && waiting_of(m, agent).len() == 0
                && running_of(m, agent) is None
        }),
{
    let m = LanesModel { lanes: Seq::<LaneModel>::empty(), sealed: closed };
    lemma_no_lane(m, agent);
}

/// The next write has the process's epoch, the millisecond it was issued in and the next number,
/// and is otherwise as it was submitted, with the bytes of its payload.
pub proof fn a_write_is_numbered(
    m: PipelineModel,
    agent: Seq<char>,
    interaction: NodeId,
    payload: PayloadModel,
    issued: Timestamp,
    now: Timestamp,
)
    requires
        m.seq < u64::MAX,
        i64::MIN <= issued.millis() <= i64::MAX,
    ensures
        ({
            let job = next_write(m, agent, interaction, payload, issued);
            let r = submitted(m, job, now);
            &&& job.receipt.epoch == m.epoch
            &&& job.receipt.issued_ms == issued.millis()
            &&& job.receipt.seq == m.seq + 1
            &&& job.receipt == next_id(m, issued)
            &&& job.agent == agent
            &&& job.interaction == interaction
            &&& job.payload == payload
            &&& payload_bytes(payload) <= usize::MAX ==> job.bytes == payload_bytes(payload)
            &&& payload_bytes(payload) > usize::MAX ==> job.bytes == usize::MAX
            &&& r.seq == m.seq + 1 && r.epoch == m.epoch && r.session == m.session && r.restart
                == m.restart
        }),
{
}

/// Each refusal is counted under its own reason, and nothing else is; an admission is counted as
/// accepted.
pub proof fn each_refusal_is_counted_by_its_reason(m: PipelineModel, job: JobModel, now: Timestamp)
    requires
        m.wf(),
        m.seq < u64::MAX,
    ensures
        ({
            let (a, b) = (m.counters, submitted(m, job, now).counters);
            let why = refusal(m.lanes, job.agent, job.bytes as nat);
            &&& b.accepted == a.accepted + if why is None {
                1int
            } else {
                0
            }
            &&& b.dropped_closed == a.dropped_closed + if why == Some(DropReason::Closed) {
                1int
            } else {
                0
            }
            &&& b.dropped_queue_bytes == a.dropped_queue_bytes + if why == Some(
                DropReason::QueueBytes,
            ) {
                1int
            } else {
                0
            }
            &&& b.dropped_queue_full == a.dropped_queue_full + if why == Some(DropReason::LaneFull)
                || why == Some(DropReason::QueueFull) {
                1int
            } else {
                0
            }
            &&& b.applied == a.applied && b.failed == a.failed && b.abandoned == a.abandoned
                && b.deferred == a.deferred && b.replayed == a.replayed
        }),
{
}

/// Each end of a write is counted as what it was: applied, failed, or failed and abandoned. What is
/// stopped is counted as deferred.
pub proof fn each_end_is_counted_as_what_it_was(
    m: PipelineModel,
    job: JobModel,
    end: JobEnd,
    now: Timestamp,
)
    requires
        m.wf(),
        runs(m.lanes, job.agent, job.receipt),
    ensures
        ({
            let (a, b) = (m.counters, finish(m, job, end, now).counters);
            &&& b.applied == a.applied + if end is Applied {
                1int
            } else {
                0
            }
            &&& b.failed == a.failed + if end is Applied {
                0int
            } else {
                1
            }
            &&& b.abandoned == a.abandoned + if end is LeaseLost {
                1int
            } else {
                0
            }
            &&& b.accepted == a.accepted && b.dropped_closed == a.dropped_closed
                && b.dropped_queue_bytes == a.dropped_queue_bytes && b.dropped_queue_full
                == a.dropped_queue_full && b.deferred == a.deferred && b.replayed == a.replayed
        }),
        ({
            let (a, b) = (m.counters, aborted(m, now).counters);
            &&& b.deferred == a.deferred + m.lanes.outstanding()
            &&& b.accepted == a.accepted && b.applied == a.applied && b.failed == a.failed
                && b.abandoned == a.abandoned && b.dropped_closed == a.dropped_closed
                && b.dropped_queue_bytes == a.dropped_queue_bytes && b.dropped_queue_full
                == a.dropped_queue_full && b.replayed == a.replayed
        }),
{
    lemma_running_is_pending(m, job.agent, job.receipt);
}

/// A write that was replayed and applied is counted as replayed, and nothing else is; one that was
/// not applied is not counted.
pub proof fn a_replay_is_counted_where_it_was_applied(
    m: PipelineModel,
    job: JobModel,
    end: Result<AppliedSummary, LamboError>,
)
    requires
        m.counters.replayed < u64::MAX,
    ensures
        ({
            let (a, b) = (m.counters, replayed(m, job, end).counters);
            &&& b.replayed == a.replayed + if end is Ok {
                1int
            } else {
                0
            }
            &&& b == WriteQueueCounters { replayed: b.replayed, ..a }
        }),
        replayed(m, job, end).lanes == m.lanes,
        replayed(m, job, end).receipts == m.receipts,
        replayed(m, job, end).seq == m.seq,
{
}

/// Sealing closes the queue and changes nothing else: what waits is still worked on.
pub proof fn a_seal_changes_nothing_else(m: PipelineModel, agent: Seq<char>, id: ReceiptId)
    ensures
        sealed(m).lanes.sealed,
        waiting_of(sealed(m).lanes, agent) == waiting_of(m.lanes, agent),
        running_of(sealed(m).lanes, agent) == running_of(m.lanes, agent),
        sealed(m).counters == m.counters,
        lookup_answer(sealed(m), agent, id) == lookup_answer(m, agent, id),
{
}

/// The intent of a write names its session, its receipt and its agent, is numbered as its receipt,
/// holds its payload, and has no outcome.
pub proof fn an_intent_holds_its_write(session: Seq<char>, job: JobModel, now: Timestamp)
    requires
        job.receipt.issued_ms >= 0,
    ensures
        ({
            let i = intent_for(session, job, now);
            &&& i.session == session
            &&& i.receipt == wire(job.receipt)
            &&& read_wire(i.receipt) == Some(job.receipt)
            &&& i.agent == job.agent
            &&& i.interaction == job.interaction
            &&& i.lane_seq == job.receipt.seq
            &&& i.issued_ms == job.receipt.issued_ms
            &&& i.payload == job.payload
            &&& i.created_at == now
            &&& i.outcome is None && unconsumed(i)
            &&& replay_job(i).receipt == job.receipt && replay_job(i).agent == job.agent
                && replay_job(i).interaction == job.interaction && replay_job(i).payload
                == job.payload
        }),
{
    receipt_id_round_trips(job.receipt);
}

/// Every text of a payload counts with its bytes, and nothing else does.
pub proof fn every_text_of_a_payload_counts(
    p: PayloadModel,
    text: Seq<char>,
    of: ConceptType,
    pair: (Seq<char>, Seq<char>),
)
    ensures
        match p {
            PayloadModel::Derive { concepts, pairs } => {
                &&& payload_bytes(
                    PayloadModel::Derive { concepts: concepts.push((text, of)), pairs },
                ) == payload_bytes(p) + byte_len(text)
                &&& payload_bytes(PayloadModel::Derive { concepts, pairs: pairs.push(pair) })
                    == payload_bytes(p) + byte_len(pair.0) + byte_len(pair.1)
                &&& concepts.len() == 0 && pairs.len() == 0 ==> payload_bytes(p) == 0
            },
            PayloadModel::Action { action, produces, modifies, depends_on } => {
                &&& payload_bytes(
                    PayloadModel::Action {
                        action,
                        produces: produces.push(text),
                        modifies,
                        depends_on,
                    },
                ) == payload_bytes(p) + byte_len(text)
                &&& payload_bytes(
                    PayloadModel::Action {
                        action,
                        produces,
                        modifies: modifies.push(text),
                        depends_on,
                    },
                ) == payload_bytes(p) + byte_len(text)
                &&& payload_bytes(
                    PayloadModel::Action {
                        action,
                        produces,
                        modifies,
                        depends_on: depends_on.push(text),
                    },
                ) == payload_bytes(p) + byte_len(text)
                &&& produces.len() == 0 && modifies.len() == 0 && depends_on.len() == 0
                    ==> payload_bytes(p) == byte_len(action)
            },
        },
{
    match p {
        PayloadModel::Derive { concepts, pairs } => {
            assert(concepts.push((text, of)).drop_last() =~= concepts);
            assert(pairs.push(pair).drop_last() =~= pairs);
        },
        PayloadModel::Action { action, produces, modifies, depends_on } => {
            assert(produces.push(text).drop_last() =~= produces);
            assert(modifies.push(text).drop_last() =~= modifies);
            assert(depends_on.push(text).drop_last() =~= depends_on);
        },
    }
}

/// What the caller of an applied write is told: how many nodes were created and matched, the first
/// of them by their identifiers, no more than 64, and for a derive by the hybrid strategy how many
/// were embedded.
pub proof fn an_applied_write_is_told_by_its_counts(
    p: PayloadModel,
    strategy: MatchStrategy,
    outcome: WriteOutcome,
)
    ensures
        ({
            let s = outcome_summary(p, strategy, outcome);
            match outcome {
                WriteOutcome::Derive(o) => {
                    &&& s.kind == WriteKind::Derive
                    &&& s.created_count == o.created@.len() as usize && s.matched_count
                        == o.matched@.len() as usize
                    &&& s.created.len() == if o.created@.len() < 64 {
                        o.created@.len()
                    } else {
                        64
                    }
                    &&& s.matched.len() == if o.matched@.len() < 64 {
                        o.matched@.len()
                    } else {
                        64
                    }
                    &&& forall|i: int|
                        0 <= i < s.created.len() ==> #[trigger] s.created[i] == hyphenated(
                            o.created@[i].0 as nat,
                        )
                    &&& forall|i: int|
                        0 <= i < s.matched.len() ==> #[trigger] s.matched[i] == hyphenated(
                            o.matched@[i].0 as nat,
                        )
                    &&& s.semantic_merged == Some(o.semantic_merged) && s.reinforced == Some(
                        o.reinforced,
                    ) && s.edges is None
                    &&& strategy is Hybrid ==> s.embedded == Some(o.embedded)
                    &&& !(strategy is Hybrid) ==> s.embedded is None
                    &&& forall|id: NodeId| #[trigger]
                        outcome_touched(outcome).contains(id) <==> o.created@.contains(id)
                            || o.matched@.contains(id)
                },
                WriteOutcome::Action(o) => {
                    &&& s.kind == WriteKind::RecordAction
                    &&& s.created_count == o.created@.len() as usize && s.matched_count == 0
                    &&& s.created.len() == if o.created@.len() < 64 {
                        o.created@.len()
                    } else {
                        64
                    }
                    &&& forall|i: int|
                        0 <= i < s.created.len() ==> #[trigger] s.created[i] == hyphenated(
                            o.created@[i].0 as nat,
                        )
                    &&& s.matched.len() == 0 && s.semantic_merged is None && s.reinforced is None
                        && s.embedded is None && s.edges == Some(o.edges)
                    &&& forall|id: NodeId| #[trigger]
                        outcome_touched(outcome).contains(id) <==> o.created@.contains(id) || id
                            == o.action_node
                },
            }
        }),
{
    match outcome {
        WriteOutcome::Derive(o) => {
            let all = o.created@ + o.matched@;
            assert forall|id: NodeId| #[trigger] all.contains(id) <==> o.created@.contains(id)
                || o.matched@.contains(id) by {
                if o.created@.contains(id) {
                    let i = choose|i: int| 0 <= i < o.created@.len() && o.created@[i] == id;
                    assert(all[i] == id);
                }
                if o.matched@.contains(id) {
                    let i = choose|i: int| 0 <= i < o.matched@.len() && o.matched@[i] == id;
                    assert(all[o.created@.len() + i] == id);
                }
            }
        },
        WriteOutcome::Action(o) => {
            let all = o.created@.push(o.action_node);
            assert forall|id: NodeId| #[trigger] all.contains(id) <==> o.created@.contains(id) || id
                == o.action_node by {
                if o.created@.contains(id) {
                    let i = choose|i: int| 0 <= i < o.created@.len() && o.created@[i] == id;
                    assert(all[i] == id);
                }
                assert(all[o.created@.len() as int] == o.action_node);
            }
        },
    }
}

/// A session that closes, or whose lease is lost, replays nothing more of what an earlier process
/// left; any other one does.
pub proof fn a_closing_session_replays_no_more(m: PipelineModel, now: Timestamp, lease_lost: bool)
    ensures
        replay_stops(sealed(m), lease_lost),
        replay_stops(aborted(m, now), lease_lost),
        replay_stops(m, true),
        !m.lanes.sealed ==> !replay_stops(m, false),
{
}

/// A caller waits on a receipt as long as it asks to, but four seconds at most.
pub proof fn a_wait_is_as_asked_up_to_four_seconds(asked_ms: u64, longer_ms: u64)
    requires
        asked_ms <= longer_ms,
    ensures
        asked_ms <= 4_000 ==> wait_budget(asked_ms) == asked_ms,
        asked_ms >= 4_000 ==> wait_budget(asked_ms) == 4_000,
        wait_budget(asked_ms) <= wait_budget(longer_ms),
{
}

} // verus!
