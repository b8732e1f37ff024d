//! The queue of writes: one lane for each agent, drained in order, within bounds.

use crate::job::{Job, JobModel};
use crate::limits::{WRITE_QUEUE_LANE_MAX, WRITE_QUEUE_MAX, WRITE_QUEUE_MAX_BYTES};
use crate::receipt::{DropReason, ReceiptId};
use crate::types::AgentId;
use std::collections::VecDeque;
use vstd::prelude::*;

verus! {

/// The writes of one agent: those that wait, and the one that runs. A lane is there as long as
/// a worker drains it.
#[derive(Debug)]
pub struct Lane {
    pub agent: AgentId,
    pub queue: VecDeque<Job>,
    pub running: Option<ReceiptId>,
}

/// A lane, as values.
pub struct LaneModel {
    pub agent: Seq<char>,
    pub queue: Seq<JobModel>,
    pub running: Option<ReceiptId>,
}

/// The views of a list of jobs.
pub open spec fn job_models(v: Seq<Job>) -> Seq<JobModel> {
    Seq::new(v.len(), |i: int| v[i]@)
}

impl View for Lane {
    type V = LaneModel;

    open spec fn view(&self) -> LaneModel {
        LaneModel {
            agent: self.agent@,
            queue: job_models(self.queue@),
            running: self.running,
        }
    }
}

/// The queue, as values.
#[verifier::ext_equal]
pub struct LanesModel {
    pub lanes: Seq<LaneModel>,
    pub sealed: bool,
}

/// The sum of a measure over lanes.
pub open spec fn lane_sum(lanes: Seq<LaneModel>, f: spec_fn(LaneModel) -> nat) -> nat
    decreases lanes.len(),
{
    if lanes.len() == 0 {
        0
    } else {
        lane_sum(lanes.drop_last(), f) + f(lanes.last())
    }
}

/// The bytes of a run of jobs.
pub open spec fn queue_bytes(queue: Seq<JobModel>) -> nat
    decreases queue.len(),
{
    if queue.len() == 0 {
        0
    } else {
        queue_bytes(queue.skip(1)) + queue[0].bytes as nat
    }
}

/// The writes that wait in a lane.
pub open spec fn waiting_in() -> spec_fn(LaneModel) -> nat {
    |l: LaneModel| l.queue.len()
}

/// The writes that run in a lane: one or none.
pub open spec fn running_in() -> spec_fn(LaneModel) -> nat {
    |l: LaneModel|
        if l.running is Some {
            1nat
        } else {
            0nat
        }
}

/// The bytes that wait in a lane.
pub open spec fn bytes_in() -> spec_fn(LaneModel) -> nat {
    |l: LaneModel| queue_bytes(l.queue)
}

/// An agent has a lane.
pub open spec fn has_lane(lanes: Seq<LaneModel>, agent: Seq<char>) -> bool {
    exists|i: int| 0 <= i < lanes.len() && (#[trigger] lanes[i]).agent == agent
}

/// Where an agent's lane stands.
pub open spec fn lane_index(lanes: Seq<LaneModel>, agent: Seq<char>) -> int {
    choose|i: int| 0 <= i < lanes.len() && (#[trigger] lanes[i]).agent == agent
}

/// No agent has two lanes.
pub open spec fn distinct_agents(lanes: Seq<LaneModel>) -> bool {
    forall|i: int, j: int|
        #![trigger lanes[i], lanes[j]]
        0 <= i < j < lanes.len() ==> lanes[i].agent != lanes[j].agent
}

/// The writes of a lane stand in the order in which they were submitted, and are its agent's;
/// the one that runs was submitted before them.
pub open spec fn lane_in_order(l: LaneModel) -> bool {
    &&& forall|i: int, j: int|
        #![trigger l.queue[i], l.queue[j]]
        0 <= i < j < l.queue.len() ==> l.queue[i].receipt.seq < l.queue[j].receipt.seq
    &&& forall|i: int| 0 <= i < l.queue.len() ==> (#[trigger] l.queue[i]).agent == l.agent
    &&& l.running matches Some(r) ==> forall|i: int|
        0 <= i < l.queue.len() ==> r.seq < (#[trigger] l.queue[i]).receipt.seq
}

/// No write is in two lanes.
pub open spec fn distinct_flights(m: LanesModel) -> bool {
    forall|a: int, b: int, x: ReceiptId|
        #![trigger in_lane(m.lanes[a], x), in_lane(m.lanes[b], x)]
        0 <= a < m.lanes.len() && 0 <= b < m.lanes.len() && in_lane(m.lanes[a], x) && in_lane(
            m.lanes[b],
            x,
        ) ==> a == b
}

/// What a lane holds, waiting and running.
pub open spec fn held_in(l: LaneModel) -> nat {
    l.queue.len() + running_in()(l)
}

impl LanesModel {
    /// Writes that wait.
    pub open spec fn queued(self) -> nat {
        lane_sum(self.lanes, waiting_in())
    }

    /// Writes that run.
    pub open spec fn running(self) -> nat {
        lane_sum(self.lanes, running_in())
    }

    /// Bytes that wait.
    pub open spec fn bytes(self) -> nat {
        lane_sum(self.lanes, bytes_in())
    }

    /// Writes that wait or run.
    pub open spec fn outstanding(self) -> nat {
        self.queued() + self.running()
    }

    /// Writes of one agent that wait or run.
    pub open spec fn lane_outstanding(self, agent: Seq<char>) -> nat {
        if has_lane(self.lanes, agent) {
            held_in(self.lanes[lane_index(self.lanes, agent)])
        } else {
            0
        }
    }

    /// What holds of the queue at all times: lanes in order, and every bound kept.
    pub open spec fn wf(self) -> bool {
        &&& distinct_agents(self.lanes)
        &&& distinct_flights(self)
        &&& forall|i: int| 0 <= i < self.lanes.len() ==> lane_in_order(#[trigger] self.lanes[i])
        &&& forall|i: int|
            0 <= i < self.lanes.len() ==> held_in(#[trigger] self.lanes[i]) <= WRITE_QUEUE_LANE_MAX
        &&& self.outstanding() <= WRITE_QUEUE_MAX
        &&& self.bytes() <= WRITE_QUEUE_MAX_BYTES
    }
}

/// Why a write is refused, where it is: the session is closing, the agent's lane is full, the
/// queue is full, or its payload would not fit; the first of these that holds.
pub open spec fn refusal(m: LanesModel, agent: Seq<char>, bytes: nat) -> Option<DropReason> {
    if m.sealed {
        Some(DropReason::Closed)
    } else if m.lane_outstanding(agent) >= WRITE_QUEUE_LANE_MAX {
        Some(DropReason::LaneFull)
    } else if m.outstanding() >= WRITE_QUEUE_MAX {
        Some(DropReason::QueueFull)
    } else if m.bytes() + bytes > WRITE_QUEUE_MAX_BYTES {
        Some(DropReason::QueueBytes)
    } else {
        None
    }
}

/// The bound that a refusal names.
pub open spec fn refusal_bound(reason: DropReason) -> usize {
    match reason {
        DropReason::Closed => WRITE_QUEUE_LANE_MAX,
        DropReason::LaneFull => WRITE_QUEUE_LANE_MAX,
        DropReason::QueueFull => WRITE_QUEUE_MAX,
        DropReason::QueueBytes => WRITE_QUEUE_MAX,
    }
}

/// The queue with a write behind those of its agent.
pub open spec fn enqueue(m: LanesModel, job: JobModel) -> LanesModel {
    if has_lane(m.lanes, job.agent) {
        let i = lane_index(m.lanes, job.agent);
        LanesModel {
            lanes: m.lanes.update(
                i,
                LaneModel { queue: m.lanes[i].queue.push(job), ..m.lanes[i] },
            ),
            sealed: m.sealed,
        }
    } else {
        LanesModel {
            lanes: m.lanes.push(
                LaneModel { agent: job.agent, queue: seq![job], running: None },
            ),
            sealed: m.sealed,
        }
    }
}

/// The write that an agent's worker takes next: the oldest that waits.
pub open spec fn next_job(m: LanesModel, agent: Seq<char>) -> Option<JobModel> {
    if has_lane(m.lanes, agent) && m.lanes[lane_index(m.lanes, agent)].queue.len() > 0 {
        Some(m.lanes[lane_index(m.lanes, agent)].queue[0])
    } else {
        None
    }
}

/// The queue after an agent's worker took its next write; where there is none the lane is
/// closed.
pub open spec fn taken(m: LanesModel, agent: Seq<char>) -> LanesModel {
    if has_lane(m.lanes, agent) {
        let i = lane_index(m.lanes, agent);
        let l = m.lanes[i];
        if l.queue.len() > 0 {
            LanesModel {
                lanes: m.lanes.update(
                    i,
                    LaneModel {
                        agent: l.agent,
                        queue: l.queue.skip(1),
                        running: Some(l.queue[0].receipt),
                    },
                ),
                sealed: m.sealed,
            }
        } else {
            LanesModel { lanes: m.lanes.remove(i), sealed: m.sealed }
        }
    } else {
        m
    }
}

/// An agent's worker runs the write with this receipt.
pub open spec fn runs(m: LanesModel, agent: Seq<char>, id: ReceiptId) -> bool {
    has_lane(m.lanes, agent) && m.lanes[lane_index(m.lanes, agent)].running == Some(id)
}

/// An agent's worker runs nothing.
pub open spec fn idle(m: LanesModel, agent: Seq<char>) -> bool {
    has_lane(m.lanes, agent) ==> m.lanes[lane_index(m.lanes, agent)].running is None
}

/// The queue after an agent's worker is done with the write it ran.
pub open spec fn done(m: LanesModel, agent: Seq<char>) -> LanesModel {
    if has_lane(m.lanes, agent) {
        let i = lane_index(m.lanes, agent);
        LanesModel {
            lanes: m.lanes.update(i, LaneModel { running: None, ..m.lanes[i] }),
            sealed: m.sealed,
        }
    } else {
        m
    }
}

/// A write waits or runs.
pub open spec fn in_flight(m: LanesModel, id: ReceiptId) -> bool {
    exists|i: int| 0 <= i < m.lanes.len() && in_lane(#[trigger] m.lanes[i], id)
}

/// A write waits or runs in this lane.
pub open spec fn in_lane(l: LaneModel, id: ReceiptId) -> bool {
    l.running == Some(id) || exists|j: int|
        0 <= j < l.queue.len() && (#[trigger] l.queue[j]).receipt == id
}

/// The lane of an agent is any lane that is the agent's.
pub proof fn lemma_lane_index(lanes: Seq<LaneModel>, i: int)
    requires
        distinct_agents(lanes),
        0 <= i < lanes.len(),
    ensures
        has_lane(lanes, lanes[i].agent),
        lane_index(lanes, lanes[i].agent) == i,
{
    let agent = lanes[i].agent;
    let j = lane_index(lanes, agent);
    assert(lanes[i].agent == agent);
    assert(0 <= j < lanes.len() && lanes[j].agent == agent);
    if i < j {
        assert(lanes[i].agent != lanes[j].agent);
    } else if j < i {
        assert(lanes[j].agent != lanes[i].agent);
    }
}

/// One lane's change is the sum's change.
pub proof fn lemma_sum_update(
    lanes: Seq<LaneModel>,
    f: spec_fn(LaneModel) -> nat,
    i: int,
    l: LaneModel,
)
    requires
        0 <= i < lanes.len(),
    ensures
        lane_sum(lanes.update(i, l), f) == lane_sum(lanes, f) - f(lanes[i]) + f(l),
        f(lanes[i]) <= lane_sum(lanes, f),
    decreases lanes.len(),
{
    let new = lanes.update(i, l);
    if i == lanes.len() - 1 {
        assert(new.drop_last() =~= lanes.drop_last());
    } else {
        lemma_sum_update(lanes.drop_last(), f, i, l);
        assert(new.drop_last() =~= lanes.drop_last().update(i, l));
    }
}

/// A lane more is its measure more.
pub proof fn lemma_sum_push(lanes: Seq<LaneModel>, f: spec_fn(LaneModel) -> nat, l: LaneModel)
    ensures
        lane_sum(lanes.push(l), f) == lane_sum(lanes, f) + f(l),
{
    assert(lanes.push(l).drop_last() =~= lanes);
}

/// A lane less is its measure less.
pub proof fn lemma_sum_remove(lanes: Seq<LaneModel>, f: spec_fn(LaneModel) -> nat, i: int)
    requires
        0 <= i < lanes.len(),
    ensures
        lane_sum(lanes.remove(i), f) == lane_sum(lanes, f) - f(lanes[i]),
        f(lanes[i]) <= lane_sum(lanes, f),
    decreases lanes.len(),
{
    let less = lanes.remove(i);
    if i == lanes.len() - 1 {
        assert(less =~= lanes.drop_last());
    } else {
        lemma_sum_remove(lanes.drop_last(), f, i);
        assert(less.drop_last() =~= lanes.drop_last().remove(i));
    }
}

proof fn lemma_queue_bytes_push(queue: Seq<JobModel>, job: JobModel)
    ensures
        queue_bytes(queue.push(job)) == queue_bytes(queue) + job.bytes,
    decreases queue.len(),
{
    let more = queue.push(job);
    if queue.len() == 0 {
        assert(more.skip(1) =~= Seq::<JobModel>::empty());
        assert(queue_bytes(more.skip(1)) == 0);
    } else {
        lemma_queue_bytes_push(queue.skip(1), job);
        assert(more.skip(1) =~= queue.skip(1).push(job));
    }
}

proof fn lemma_distinct_update(lanes: Seq<LaneModel>, i: int, l: LaneModel)
    requires
        distinct_agents(lanes),
        0 <= i < lanes.len(),
        l.agent == lanes[i].agent,
    ensures
        distinct_agents(lanes.update(i, l)),
{
    let new = lanes.update(i, l);
    assert forall|a: int, b: int|
        #![trigger new[a], new[b]]
        0 <= a < b < new.len() implies new[a].agent != new[b].agent by {
        assert(lanes[a].agent != lanes[b].agent);
    }
}

/// What is in a lane after a write was put into one of them.
proof fn lemma_pushed_lane(m: LanesModel, job: JobModel, i: int, a: int, x: ReceiptId)
    requires
        has_lane(m.lanes, job.agent),
        i == lane_index(m.lanes, job.agent),
        0 <= a < m.lanes.len(),
        in_lane(enqueue(m, job).lanes[a], x),
        forall|id: ReceiptId| in_flight(m, id) ==> id.seq < job.receipt.seq,
    ensures
        x == job.receipt ==> a == i,
        x != job.receipt ==> in_lane(m.lanes[a], x),
{
    let l = m.lanes[a];
    let more = enqueue(m, job).lanes[a];
    if a == i {
        if x != job.receipt && more.running != Some(x) {
            let j = choose|j: int|
                0 <= j < more.queue.len() && (#[trigger] more.queue[j]).receipt == x;
            assert(l.queue[j].receipt == x);
        }
    } else {
        assert(in_lane(l, x));
        assert(in_flight(m, x));
    }
}

/// Admitting a write within the bounds keeps the queue in order and within them, and adds one
/// write and its bytes.
pub proof fn lemma_enqueue(m: LanesModel, job: JobModel)
    requires
        m.wf(),
        refusal(m, job.agent, job.bytes as nat) is None,
        forall|id: ReceiptId| in_flight(m, id) ==> id.seq < job.receipt.seq,
    ensures
        enqueue(m, job).wf(),
        enqueue(m, job).queued() == m.queued() + 1,
        enqueue(m, job).running() == m.running(),
        enqueue(m, job).bytes() == m.bytes() + job.bytes,
        forall|id: ReceiptId|
            in_flight(enqueue(m, job), id) <==> in_flight(m, id) || id == job.receipt,
{
    let r = enqueue(m, job);
    if has_lane(m.lanes, job.agent) {
        let i = lane_index(m.lanes, job.agent);
        let l = m.lanes[i];
        let more = r.lanes[i];
        assert(m.lanes[i].agent == job.agent);
        lemma_sum_update(m.lanes, waiting_in(), i, more);
        lemma_sum_update(m.lanes, running_in(), i, more);
        lemma_sum_update(m.lanes, bytes_in(), i, more);
        lemma_queue_bytes_push(l.queue, job);
        lemma_distinct_update(m.lanes, i, more);
        assert(lane_in_order(l));
        assert forall|j: int| 0 <= j < l.queue.len() implies (#[trigger] l.queue[j]).receipt.seq
            < job.receipt.seq by {
            assert(in_lane(l, l.queue[j].receipt));
            assert(in_flight(m, l.queue[j].receipt));
        }
        if l.running is Some {
            assert(in_lane(l, l.running->0));
            assert(in_flight(m, l.running->0));
        }
        assert(lane_in_order(more));
        assert forall|k: int| 0 <= k < r.lanes.len() implies lane_in_order(
            #[trigger] r.lanes[k],
        ) by {
            assert(lane_in_order(m.lanes[k]));
        }
        assert forall|k: int| 0 <= k < r.lanes.len() implies held_in(#[trigger] r.lanes[k])
            <= WRITE_QUEUE_LANE_MAX by {
            assert(held_in(m.lanes[k]) <= WRITE_QUEUE_LANE_MAX);
        }
        assert forall|id: ReceiptId| in_flight(r, id) <==> in_flight(m, id) || id
            == job.receipt by {
            if in_flight(r, id) {
                let k = choose|k: int| 0 <= k < r.lanes.len() && in_lane(#[trigger] r.lanes[k], id);
                if k == i {
                    if more.running == Some(id) {
                        assert(in_lane(m.lanes[i], id));
                    } else {
                        let j = choose|j: int|
                            0 <= j < more.queue.len() && (#[trigger] more.queue[j]).receipt == id;
                        if j < l.queue.len() {
                            assert(l.queue[j].receipt == id);
                            assert(in_lane(m.lanes[i], id));
                        }
                    }
                } else {
                    assert(in_lane(m.lanes[k], id));
                }
            }
            if in_flight(m, id) {
                let k = choose|k: int| 0 <= k < m.lanes.len() && in_lane(#[trigger] m.lanes[k], id);
                if k == i && l.running != Some(id) {
                    let j = choose|j: int|
                        0 <= j < l.queue.len() && (#[trigger] l.queue[j]).receipt == id;
                    assert(more.queue[j].receipt == id);
                }
                assert(in_lane(r.lanes[k], id));
            }
            if id == job.receipt {
                assert(more.queue[l.queue.len() as int].receipt == id);
                assert(in_lane(r.lanes[i], id));
            }
        }
        assert forall|a: int, b: int, x: ReceiptId|
            #![trigger in_lane(r.lanes[a], x), in_lane(r.lanes[b], x)]
            0 <= a < r.lanes.len() && 0 <= b < r.lanes.len() && in_lane(r.lanes[a], x) && in_lane(
                r.lanes[b],
                x,
            ) implies a == b by {
            lemma_pushed_lane(m, job, i, a, x);
            lemma_pushed_lane(m, job, i, b, x);
        }
    } else {
        let fresh = LaneModel { agent: job.agent, queue: seq![job], running: None };
        lemma_sum_push(m.lanes, waiting_in(), fresh);
        lemma_sum_push(m.lanes, running_in(), fresh);
        lemma_sum_push(m.lanes, bytes_in(), fresh);
        assert(fresh.queue.skip(1) =~= Seq::<JobModel>::empty());
        assert(queue_bytes(fresh.queue.skip(1)) == 0);
        assert(queue_bytes(fresh.queue) == job.bytes);
        assert forall|a: int, b: int|
            #![trigger r.lanes[a], r.lanes[b]]
            0 <= a < b < r.lanes.len() implies r.lanes[a].agent != r.lanes[b].agent by {
            assert(r.lanes[a] == m.lanes[a]);
            if b < m.lanes.len() {
                assert(r.lanes[b] == m.lanes[b]);
            }
        }
        assert forall|k: int| 0 <= k < r.lanes.len() implies lane_in_order(
            #[trigger] r.lanes[k],
        ) by {
            if k < m.lanes.len() {
                assert(lane_in_order(m.lanes[k]));
            }
        }
        assert forall|k: int| 0 <= k < r.lanes.len() implies held_in(#[trigger] r.lanes[k])
            <= WRITE_QUEUE_LANE_MAX by {
            if k < m.lanes.len() {
                assert(held_in(m.lanes[k]) <= WRITE_QUEUE_LANE_MAX);
            }
        }
        assert forall|id: ReceiptId| in_flight(r, id) <==> in_flight(m, id) || id
            == job.receipt by {
            if in_flight(r, id) {
                let k = choose|k: int| 0 <= k < r.lanes.len() && in_lane(#[trigger] r.lanes[k], id);
                if k < m.lanes.len() {
                    assert(in_lane(m.lanes[k], id));
                }
            }
            if in_flight(m, id) {
                let k = choose|k: int| 0 <= k < m.lanes.len() && in_lane(#[trigger] m.lanes[k], id);
                assert(in_lane(r.lanes[k], id));
            }
            if id == job.receipt {
                assert(fresh.queue[0].receipt == id);
                assert(in_lane(r.lanes[m.lanes.len() as int], id));
            }
        }
        assert forall|a: int, b: int, x: ReceiptId|
            #![trigger in_lane(r.lanes[a], x), in_lane(r.lanes[b], x)]
            0 <= a < r.lanes.len() && 0 <= b < r.lanes.len() && in_lane(r.lanes[a], x) && in_lane(
                r.lanes[b],
                x,
            ) implies a == b by {
            let n = m.lanes.len() as int;
            if a < n {
                assert(in_lane(m.lanes[a], x));
                assert(in_flight(m, x));
            }
            if b < n {
                assert(in_lane(m.lanes[b], x));
                assert(in_flight(m, x));
            }
        }
    }
}

/// Taking the next write keeps the queue in order and within its bounds. The write goes from
/// waiting to running; nothing else moves.
pub proof fn lemma_taken(m: LanesModel, agent: Seq<char>)
    requires
        m.wf(),
        idle(m, agent),
    ensures
        taken(m, agent).wf(),
        taken(m, agent).outstanding() == m.outstanding(),
        next_job(m, agent) is Some ==> {
            &&& taken(m, agent).queued() == m.queued() - 1
            &&& taken(m, agent).running() == m.running() + 1
            &&& taken(m, agent).bytes() == m.bytes() - next_job(m, agent)->0.bytes
            &&& runs(taken(m, agent), agent, next_job(m, agent)->0.receipt)
            &&& next_job(m, agent)->0.agent == agent
        },
        next_job(m, agent) is None ==> {
            &&& taken(m, agent).queued() == m.queued()
            &&& taken(m, agent).running() == m.running()
            &&& taken(m, agent).bytes() == m.bytes()
            &&& !has_lane(taken(m, agent).lanes, agent)
        },
        forall|id: ReceiptId| in_flight(taken(m, agent), id) <==> in_flight(m, id),
{
    let r = taken(m, agent);
    if has_lane(m.lanes, agent) {
        let i = lane_index(m.lanes, agent);
        let l = m.lanes[i];
        assert(l.agent == agent);
        assert(lane_in_order(l));
        if l.queue.len() > 0 {
            let new = r.lanes[i];
            lemma_sum_update(m.lanes, waiting_in(), i, new);
            lemma_sum_update(m.lanes, running_in(), i, new);
            lemma_sum_update(m.lanes, bytes_in(), i, new);
            lemma_distinct_update(m.lanes, i, new);
            assert forall|j: int| 0 <= j < new.queue.len() implies (#[trigger] new.queue[j])
                == l.queue[j + 1] by {
            }
            assert(lane_in_order(new));
            assert forall|k: int| 0 <= k < r.lanes.len() implies lane_in_order(
                #[trigger] r.lanes[k],
            ) by {
                assert(lane_in_order(m.lanes[k]));
            }
            assert forall|k: int| 0 <= k < r.lanes.len() implies held_in(#[trigger] r.lanes[k])
                <= WRITE_QUEUE_LANE_MAX by {
                assert(held_in(m.lanes[k]) <= WRITE_QUEUE_LANE_MAX);
            }
            lemma_lane_index(r.lanes, i);
            assert(l.queue[0].agent == agent);
            assert forall|id: ReceiptId| in_flight(r, id) <==> in_flight(m, id) by {
                if in_flight(r, id) {
                    let k = choose|k: int|
                        0 <= k < r.lanes.len() && in_lane(#[trigger] r.lanes[k], id);
                    if k == i {
                        if new.running == Some(id) {
                            assert(l.queue[0].receipt == id);
                        } else {
                            let j = choose|j: int|
                                0 <= j < new.queue.len() && (#[trigger] new.queue[j]).receipt
                                    == id;
                            assert(l.queue[j + 1].receipt == id);
                        }
                    }
                    assert(in_lane(m.lanes[k], id));
                }
                if in_flight(m, id) {
                    let k = choose|k: int|
                        0 <= k < m.lanes.len() && in_lane(#[trigger] m.lanes[k], id);
                    if k == i {
                        let j = choose|j: int|
                            0 <= j < l.queue.len() && (#[trigger] l.queue[j]).receipt == id;
                        if j > 0 {
                            assert(new.queue[j - 1].receipt == id);
                        }
                    }
                    assert(in_lane(r.lanes[k], id));
                }
            }
            assert forall|a: int, b: int, x: ReceiptId|
                #![trigger in_lane(r.lanes[a], x), in_lane(r.lanes[b], x)]
                0 <= a < r.lanes.len() && 0 <= b < r.lanes.len() && in_lane(r.lanes[a], x)
                    && in_lane(r.lanes[b], x) implies a == b by {
                assert forall|k: int| 0 <= k < r.lanes.len() && in_lane(
                    #[trigger] r.lanes[k],
                    x,
                ) implies in_lane(m.lanes[k], x) by {
                    if k == i {
                        if new.running == Some(x) {
                            assert(l.queue[0].receipt == x);
                        } else {
                            let j = choose|j: int|
                                0 <= j < new.queue.len() && (#[trigger] new.queue[j]).receipt
                                    == x;
                            assert(l.queue[j + 1].receipt == x);
                        }
                    }
                }
                assert(in_lane(m.lanes[a], x));
                assert(in_lane(m.lanes[b], x));
            }
        } else {
            lemma_sum_remove(m.lanes, waiting_in(), i);
            lemma_sum_remove(m.lanes, running_in(), i);
            lemma_sum_remove(m.lanes, bytes_in(), i);
            assert forall|a: int, b: int|
                #![trigger r.lanes[a], r.lanes[b]]
                0 <= a < b < r.lanes.len() implies r.lanes[a].agent != r.lanes[b].agent by {
                let x = if a < i {
                    a
                } else {
                    a + 1
                };
                let y = if b < i {
                    b
                } else {
                    b + 1
                };
                assert(m.lanes[x].agent != m.lanes[y].agent);
            }
            assert forall|k: int| 0 <= k < r.lanes.len() implies lane_in_order(
                #[trigger] r.lanes[k],
            ) && held_in(r.lanes[k]) <= WRITE_QUEUE_LANE_MAX by {
                let x = if k < i {
                    k
                } else {
                    k + 1
                };
                assert(r.lanes[k] == m.lanes[x]);
                assert(lane_in_order(m.lanes[x]));
                assert(held_in(m.lanes[x]) <= WRITE_QUEUE_LANE_MAX);
            }
            if has_lane(r.lanes, agent) {
                let k = choose|k: int| 0 <= k < r.lanes.len() && (#[trigger] r.lanes[k]).agent
                    == agent;
                let x = if k < i {
                    k
                } else {
                    k + 1
                };
                assert(m.lanes[x].agent == agent);
                if x < i {
                    assert(m.lanes[x].agent != m.lanes[i].agent);
                } else {
                    assert(m.lanes[i].agent != m.lanes[x].agent);
                }
            }
            assert forall|a: int, b: int, y: ReceiptId|
                #![trigger in_lane(r.lanes[a], y), in_lane(r.lanes[b], y)]
                0 <= a < r.lanes.len() && 0 <= b < r.lanes.len() && in_lane(r.lanes[a], y)
                    && in_lane(r.lanes[b], y) implies a == b by {
                let p = if a < i {
                    a
                } else {
                    a + 1
                };
                let q = if b < i {
                    b
                } else {
                    b + 1
                };
                assert(in_lane(m.lanes[p], y));
                assert(in_lane(m.lanes[q], y));
            }
            assert forall|id: ReceiptId| in_flight(r, id) <==> in_flight(m, id) by {
                if in_flight(r, id) {
                    let k = choose|k: int|
                        0 <= k < r.lanes.len() && in_lane(#[trigger] r.lanes[k], id);
                    let x = if k < i {
                        k
                    } else {
                        k + 1
                    };
                    assert(in_lane(m.lanes[x], id));
                }
                if in_flight(m, id) {
                    let k = choose|k: int|
                        0 <= k < m.lanes.len() && in_lane(#[trigger] m.lanes[k], id);
                    let x = if k < i {
                        k
                    } else {
                        k - 1
                    };
                    assert(in_lane(r.lanes[x], id));
                }
            }
        }
    }
}

/// Being done with a write keeps the queue in order and within its bounds, and takes that one
/// write out of flight.
pub proof fn lemma_done(m: LanesModel, agent: Seq<char>, id: ReceiptId)
    requires
        m.wf(),
        runs(m, agent, id),
    ensures
        done(m, agent).wf(),
        done(m, agent).queued() == m.queued(),
        done(m, agent).running() == m.running() - 1,
        done(m, agent).bytes() == m.bytes(),
        idle(done(m, agent), agent),
        forall|x: ReceiptId| in_flight(done(m, agent), x) <==> in_flight(m, x) && x != id,
{
    let r = done(m, agent);
    let i = lane_index(m.lanes, agent);
    let l = m.lanes[i];
    let new = r.lanes[i];
    assert(l.agent == agent);
    lemma_sum_update(m.lanes, waiting_in(), i, new);
    lemma_sum_update(m.lanes, running_in(), i, new);
    lemma_sum_update(m.lanes, bytes_in(), i, new);
    lemma_distinct_update(m.lanes, i, new);
    assert(lane_in_order(l));
    assert(lane_in_order(new));
    assert forall|k: int| 0 <= k < r.lanes.len() implies lane_in_order(#[trigger] r.lanes[k])
        && held_in(r.lanes[k]) <= WRITE_QUEUE_LANE_MAX by {
        assert(lane_in_order(m.lanes[k]));
        assert(held_in(m.lanes[k]) <= WRITE_QUEUE_LANE_MAX);
    }
    lemma_lane_index(r.lanes, i);
    assert forall|x: ReceiptId| in_flight(r, x) <==> in_flight(m, x) && x != id by {
        assert(in_lane(m.lanes[i], id));
        if in_flight(r, x) {
            let k = choose|k: int| 0 <= k < r.lanes.len() && in_lane(#[trigger] r.lanes[k], x);
            assert(in_lane(m.lanes[k], x));
            if x == id {
                if k == i {
                    let j = choose|j: int|
                        0 <= j < new.queue.len() && (#[trigger] new.queue[j]).receipt == id;
                    assert(l.queue[j].receipt.seq > id.seq);
                } else {
                    assert(in_lane(m.lanes[i], id) && in_lane(m.lanes[k], id));
                }
            }
        }
        if in_flight(m, x) && x != id {
            let k = choose|k: int| 0 <= k < m.lanes.len() && in_lane(#[trigger] m.lanes[k], x);
            if k == i {
                let j = choose|j: int|
                    0 <= j < l.queue.len() && (#[trigger] l.queue[j]).receipt == x;
                assert(new.queue[j].receipt == x);
            }
            assert(in_lane(r.lanes[k], x));
        }
    }
    assert forall|a: int, b: int, x: ReceiptId|
        #![trigger in_lane(r.lanes[a], x), in_lane(r.lanes[b], x)]
        0 <= a < r.lanes.len() && 0 <= b < r.lanes.len() && in_lane(r.lanes[a], x) && in_lane(
            r.lanes[b],
            x,
        ) implies a == b by {
        assert(in_lane(m.lanes[a], x));
        assert(in_lane(m.lanes[b], x));
    }
}

/// The views of a list of lanes.
pub open spec fn lane_models(v: Seq<Lane>) -> Seq<LaneModel> {
    Seq::new(v.len(), |i: int| v[i]@)
}

/// The queue of writes.
#[derive(Debug)]
pub struct Lanes {
    lanes: Vec<Lane>,
    queued: usize,
    bytes: usize,
    running: usize,
    sealed: bool,
}

impl View for Lanes {
    type V = LanesModel;

    closed spec fn view(&self) -> LanesModel {
        LanesModel { lanes: lane_models(self.lanes@), sealed: self.sealed }
    }
}

impl Lanes {
    /// What holds of the queue at all times; its counts are those of its lanes.
    pub closed spec fn wf(&self) -> bool {
        &&& self@.wf()
        &&& self.queued == self@.queued()
        &&& self.bytes == self@.bytes()
        &&& self.running == self@.running()
    }

    /// What a queue keeps is what its view says.
    pub proof fn lemma_wf(&self)
        requires
            self.wf(),
        ensures
            self@.wf(),
    {
    }

    /// An empty queue.
    pub fn new() -> (r: Lanes)
        ensures
            r.wf(),
            r@ == (LanesModel { lanes: Seq::empty(), sealed: false }),
    {
        let r = Lanes { lanes: Vec::new(), queued: 0, bytes: 0, running: 0, sealed: false };
        proof {
            assert(r@.lanes =~= Seq::empty());
        }
        r
    }

    /// Writes that wait or run.
    pub fn outstanding(&self) -> (n: usize)
        requires
            self.wf(),
        ensures
            n == self@.outstanding(),
    {
        self.queued + self.running
    }

    /// Whether the queue admits nothing more.
    pub fn is_sealed(&self) -> (r: bool)
        ensures
            r == self@.sealed,
    {
        self.sealed
    }

    fn index_of(&self, agent: &AgentId) -> (r: Option<usize>)
        requires
            self.wf(),
        ensures
            match r {
                Some(i) => {
                    &&& i < self.lanes@.len()
                    &&& has_lane(self@.lanes, agent@)
                    &&& lane_index(self@.lanes, agent@) == i
                    &&& self@.lanes[i as int].agent == agent@
                },
                None => !has_lane(self@.lanes, agent@),
            },
    {
        let mut i: usize = 0;
        while i < self.lanes.len()
            invariant
                i <= self.lanes@.len(),
                self.wf(),
                forall|j: int| 0 <= j < i ==> (#[trigger] self@.lanes[j]).agent != agent@,
            decreases self.lanes@.len() - i,
        {
            if self.lanes[i].agent.same(agent) {
                proof {
                    assert(self@.lanes[i as int].agent == agent@);
                    lemma_lane_index(self@.lanes, i as int);
                }
                return Some(i);
            }
            i += 1;
        }
        None
    }

    /// Writes of one agent that wait or run.
    pub fn lane_outstanding(&self, agent: &AgentId) -> (n: usize)
        requires
            self.wf(),
        ensures
            n == self@.lane_outstanding(agent@),
    {
        match self.index_of(agent) {
            Some(i) => {
                let lane = &self.lanes[i];
                proof {
                    assert(held_in(self@.lanes[i as int]) <= WRITE_QUEUE_LANE_MAX);
                }
                let waiting: usize = lane.queue.len();
                match lane.running {
                    Some(_) => waiting + 1,
                    None => waiting,
                }
            },
            None => 0,
        }
    }

    /// Why a write of this agent and of this many bytes is refused, where it is.
    pub fn refusal(&self, agent: &AgentId, bytes: usize) -> (r: Option<DropReason>)
        requires
            self.wf(),
        ensures
            r == refusal(self@, agent@, bytes as nat),
    {
        if self.sealed {
            Some(DropReason::Closed)
        } else if self.lane_outstanding(agent) >= WRITE_QUEUE_LANE_MAX {
            Some(DropReason::LaneFull)
        } else if self.outstanding() >= WRITE_QUEUE_MAX {
            Some(DropReason::QueueFull)
        } else if self.bytes.saturating_add(bytes) > WRITE_QUEUE_MAX_BYTES {
            Some(DropReason::QueueBytes)
        } else {
            None
        }
    }

    /// Puts an admitted write behind those of its agent. Tells whether the agent had no lane, so
    /// that a worker has to be started.
    pub fn enqueue(&mut self, job: Job) -> (fresh: bool)
        requires
            old(self).wf(),
            refusal(old(self)@, job.agent@, job.bytes as nat) is None,
            forall|id: ReceiptId| in_flight(old(self)@, id) ==> id.seq < job.receipt.seq,
        ensures
            final(self).wf(),
            final(self)@ == enqueue(old(self)@, job@),
            fresh == !has_lane(old(self)@.lanes, job.agent@),
    {
        let ghost start = self@;
        let ghost model = job@;
        proof {
            lemma_enqueue(start, model);
        }
        let bytes: usize = job.bytes;
        let at = self.index_of(&job.agent);
        self.queued = self.queued + 1;
        self.bytes = self.bytes + bytes;
        match at {
            Some(i) => {
                let mut lane = self.lanes.remove(i);
                let ghost before = lane@;
                lane.queue.push_back(job);
                proof {
                    assert(lane@.queue =~= before.queue.push(model));
                }
                self.lanes.insert(i, lane);
                proof {
                    assert(self@.lanes =~= enqueue(start, model).lanes);
                }
                false
            },
            None => {
                let agent = job.agent.clone();
                let mut queue: VecDeque<Job> = VecDeque::new();
                queue.push_back(job);
                let lane = Lane { agent, queue, running: None };
                proof {
                    assert(lane@.queue =~= seq![model]);
                }
                self.lanes.push(lane);
                proof {
                    assert(self@.lanes =~= enqueue(start, model).lanes);
                }
                true
            },
        }
    }

    /// Hands an agent's worker the oldest write that waits. Where there is none the lane is
    /// closed, and the worker ends.
    pub fn take(&mut self, agent: &AgentId) -> (r: Option<Job>)
        requires
            old(self).wf(),
            idle(old(self)@, agent@),
        ensures
            final(self).wf(),
            final(self)@ == taken(old(self)@, agent@),
            match r {
                Some(job) => next_job(old(self)@, agent@) == Some(job@),
                None => next_job(old(self)@, agent@) is None,
            },
    {
        let ghost start = self@;
        proof {
            lemma_taken(start, agent@);
        }
        match self.index_of(agent) {
            Some(i) => {
                let mut lane = self.lanes.remove(i);
                let ghost before = lane@;
                match lane.queue.pop_front() {
                    Some(job) => {
                        lane.running = Some(job.receipt);
                        proof {
                            assert(job@ == before.queue[0]);
                            assert(lane@.queue =~= before.queue.skip(1));
                            lemma_first_job_fits(start, i as int);
                        }
                        self.queued = self.queued - 1;
                        self.bytes = self.bytes - job.bytes;
                        self.running = self.running + 1;
                        self.lanes.insert(i, lane);
                        proof {
                            assert(self@.lanes =~= taken(start, agent@).lanes);
                        }
                        Some(job)
                    },
                    None => {
                        proof {
                            assert(before.queue.len() == 0);
                            assert(self@.lanes =~= taken(start, agent@).lanes);
                        }
                        None
                    },
                }
            },
            None => None,
        }
    }

    /// Notes that an agent's worker is done with the write that it ran.
    pub(crate) fn finish(&mut self, agent: &AgentId, Ghost(id): Ghost<ReceiptId>)
        requires
            old(self).wf(),
            runs(old(self)@, agent@, id),
        ensures
            final(self).wf(),
            final(self)@ == done(old(self)@, agent@),
    {
        let ghost start = self@;
        proof {
            lemma_done(start, agent@, id);
        }
        match self.index_of(agent) {
            Some(i) => {
                let mut lane = self.lanes.remove(i);
                let ghost before = lane@;
                lane.running = None;
                self.running = self.running - 1;
                self.lanes.insert(i, lane);
                proof {
                    assert(self@.lanes =~= done(start, agent@).lanes);
                }
            },
            None => {},
        }
    }

    /// Admits nothing more. Tells whether that was so already.
    pub fn seal(&mut self) -> (before: bool)
        requires
            old(self).wf(),
        ensures
            final(self).wf(),
            final(self)@ == (LanesModel { lanes: old(self)@.lanes, sealed: true }),
            before == old(self)@.sealed,
    {
        let before: bool = self.sealed;
        self.sealed = true;
        proof {
            lemma_sealed_wf(old(self)@);
        }
        before
    }

    /// Empties the queue, and admits nothing more.
    pub fn clear(&mut self)
        ensures
            final(self).wf(),
            final(self)@ == (LanesModel { lanes: Seq::empty(), sealed: true }),
    {
        self.lanes = Vec::new();
        self.queued = 0;
        self.bytes = 0;
        self.running = 0;
        self.sealed = true;
        proof {
            assert(self@.lanes =~= Seq::empty());
        }
    }
}

/// The first job of a lane is part of what the queue holds.
proof fn lemma_first_job_fits(m: LanesModel, i: int)
    requires
        0 <= i < m.lanes.len(),
        m.lanes[i].queue.len() > 0,
    ensures
        m.lanes[i].queue[0].bytes <= m.bytes(),
        1 <= m.queued(),
{
    lemma_sum_update(m.lanes, bytes_in(), i, m.lanes[i]);
    lemma_sum_update(m.lanes, waiting_in(), i, m.lanes[i]);
}

/// Sealing a queue leaves its lanes as they are.
pub proof fn lemma_sealed_wf(m: LanesModel)
    requires
        m.wf(),
    ensures
        (LanesModel { lanes: m.lanes, sealed: true }).wf(),
        forall|id: ReceiptId|
            in_flight(LanesModel { lanes: m.lanes, sealed: true }, id) <==> in_flight(m, id),
{
    let r = LanesModel { lanes: m.lanes, sealed: true };
    assert forall|id: ReceiptId| in_flight(r, id) <==> in_flight(m, id) by {
        if in_flight(r, id) {
            let k = choose|k: int| 0 <= k < r.lanes.len() && in_lane(#[trigger] r.lanes[k], id);
            assert(in_lane(m.lanes[k], id));
        }
        if in_flight(m, id) {
            let k = choose|k: int| 0 <= k < m.lanes.len() && in_lane(#[trigger] m.lanes[k], id);
            assert(in_lane(r.lanes[k], id));
        }
    }
}

} // verus!
