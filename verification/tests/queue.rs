use lambo::calibration::{combined, slower_wall, Calibration, CalibrationSource, ObservedSamples, SampleUse};
use lambo::counters::WriteQueueCounters;
use lambo::job::{ActionOutcome, ConsumeStamp, DeriveOutcome, Job, JobPayload, WriteOutcome};
use lambo::limits::{
    CLOSE_FLUSH_GRACE_SECS, INFLIGHT_DEPTH_WARN, MAX_CONCEPTS_PER_DERIVE,
    MAX_CONCURRENT_RECEIPT_WAITS, MAX_PIGGYBACK_RECEIPTS, MAX_RECEIPT_IDS, MAX_RETAINED_RECEIPTS,
    MEASURED_WORST_FLUSH_LAG_SECS, OBSERVED_EWMA_WEIGHT, OBSERVED_MIN_SAMPLES, PROBE_BUDGET_SECS,
    PROBE_CLAMP_RPS, PROBE_CONCURRENCY, PROBE_EMBEDS, PROBE_TEXT_BYTES, PROBE_WARMUP_EMBEDS,
    RECEIPT_RETENTION_SECS, RECEIPT_WAIT_MAX_SECS, WRITE_QUEUE_DRAIN_BUDGET_SECS,
    WRITE_QUEUE_LANE_MAX, WRITE_QUEUE_MAX, WRITE_QUEUE_MAX_BYTES,
};
use lambo::pipeline::{
    backlog, epoch_of, wait_budget_ms, wait_is_over, Admission, JobEnd, ReplayStep, WritePipeline,
};
use lambo::probe::{is_ascii, probe_text_at, ProbeLeg, ProbeNext, PROBE_TEXT};
use lambo::receipt::{AppliedSummary, ReceiptAnswer, ReceiptId, WriteKind};
use lambo::receipts::Receipts;
use lambo::store::flush::flush;
use lambo::store::load::load_session;
use lambo::store::tables::Tables;
use lambo::time::Timestamp;
use lambo::types::{
    AgentId, ConceptType, LamboError, MatchStrategy, Mutation, MutationBatch, NodeId, SessionId,
    StoreError, WriteIntent, WriteIntentOutcome,
};

const BASE: i64 = 1_752_000_000;

fn at(secs: i64) -> Timestamp {
    Timestamp::from_parts(BASE + secs, 0).unwrap()
}

fn at_ms(ms: i64) -> Timestamp {
    Timestamp::from_parts(BASE + ms / 1000, (ms % 1000) as u32 * 1_000_000).unwrap()
}

fn pipeline(session: &str) -> WritePipeline {
    WritePipeline::spawn(SessionId::new(session))
}

fn derive(p: &mut WritePipeline, agent: &str, content: &str, now: &Timestamp) -> Admission {
    p.submit_derive(
        AgentId::new(agent),
        NodeId::new(),
        vec![(content.to_string(), ConceptType::Entity)],
        Vec::new(),
        now,
        now,
    )
}

fn summary(created: usize, matched: usize) -> AppliedSummary {
    AppliedSummary {
        kind: WriteKind::Derive,
        summary: "done".to_string(),
        created: Vec::new(),
        matched: Vec::new(),
        created_count: created,
        matched_count: matched,
        semantic_merged: Some(0),
        reinforced: Some(0),
        edges: None,
        embedded: None,
    }
}

#[test]
fn no_rate_can_move_the_bounds() {
    let cases: [Calibration<f64>; 7] = [
        Calibration::from_probe(1.0e9, 4.0e9),
        Calibration::from_probe(PROBE_CLAMP_RPS as f64, PROBE_CLAMP_RPS as f64),
        Calibration::from_probe(1.0 / 600.0, 4.0 / 600.0),
        Calibration::from_probe(1000.0 / 95.0, 4000.0 / 64.0),
        Calibration::unmeasured(),
        Calibration::unmeasured().with_observed_serial(1_000_000.0),
        Calibration::unmeasured().with_observed_serial(0.001),
    ];
    for c in cases {
        assert_eq!(c.lane_bound, WRITE_QUEUE_LANE_MAX, "{c:?}");
        assert_eq!(c.bound, WRITE_QUEUE_MAX, "{c:?}");
    }

    let fast: Calibration<f64> = Calibration::from_probe(1.0e9, 4.0e9);
    assert!(fast.measured());
    assert_eq!(fast.source, CalibrationSource::Probe);
    assert!(fast.items_per_sec.expect("measured") > 0.0);
    assert!(fast.serial_items_per_sec.expect("measured") > 0.0);

    let none: Calibration<f64> = Calibration::unmeasured();
    assert!(!none.measured());
    assert_eq!(none.source.tag(), "unmeasured");
    assert!(none.items_per_sec.is_none() && none.serial_items_per_sec.is_none());
    assert!(none.probe_serial_items_per_sec.is_none());
    assert!(none.probe_and_observed().is_none());
}

#[test]
fn an_observed_rate_replaces_the_probes_serial_figure_after_enough_samples() {
    let mut observed = ObservedSamples::default();
    for i in 0..(OBSERVED_MIN_SAMPLES - 1) {
        let used = observed.sample(true);
        assert_eq!(used, if i == 0 { SampleUse::First } else { SampleUse::Averaged });
        assert!(!observed.enough());
    }
    assert_eq!(observed.sample(false), SampleUse::Ignored);
    assert!(!observed.enough(), "a time that cannot be averaged is no sample");
    observed.sample(true);
    assert!(observed.enough());

    let hot: Calibration<f64> = Calibration::from_probe(1000.0 / 7.0, 4000.0 / 7.0);
    let corrected = hot.with_observed_serial(10.0);
    assert_eq!(corrected.source, CalibrationSource::Observed);
    assert_eq!(corrected.source.tag(), "observed");
    assert!(corrected.measured());
    assert_eq!(corrected.serial_items_per_sec, Some(10.0));
    assert_eq!(corrected.probe_serial_items_per_sec, hot.serial_items_per_sec);
    assert_eq!(corrected.items_per_sec, hot.items_per_sec);
    assert_eq!(corrected.probe_and_observed(), Some((1000.0 / 7.0, 10.0)));

    let recovered: Calibration<f64> = Calibration::unmeasured().with_observed_serial(10.0);
    assert!(recovered.measured());
    assert!(recovered.probe_and_observed().is_none());
}

#[test]
fn what_is_known_of_the_rate_is_the_probe_until_there_is_an_observed_one() {
    let probe: Calibration<f64> = Calibration::from_probe(100.0, 400.0);
    assert_eq!(combined(Some(probe), None), Some(probe));
    assert_eq!(combined(Some(probe), Some(8.0)), Some(probe.with_observed_serial(8.0)));
    assert_eq!(combined::<f64>(None, None), None);
    assert_eq!(slower_wall(35, Some(1024)), 1024);
    assert_eq!(slower_wall(35, Some(20)), 35);
    assert_eq!(slower_wall(35, None), 35);
}

#[test]
fn outstanding_excludes_refusals_because_they_never_reached_accepted() {
    let c = WriteQueueCounters {
        accepted: 10,
        applied: 4,
        failed: 1,
        abandoned: 1,
        dropped_queue_full: 7,
        dropped_queue_bytes: 3,
        ..WriteQueueCounters::default()
    };
    assert_eq!(c.outstanding(), 5, "10 accepted - 4 applied - 1 failed");
    assert_eq!(c.dropped(), 10, "refusals are counted, just not subtracted");
    assert_ne!(
        c.accepted().saturating_sub(c.applied()).saturating_sub(c.failed()).saturating_sub(c.dropped()),
        c.outstanding(),
    );
    assert_ne!(
        c.accepted()
            .saturating_sub(c.applied())
            .saturating_sub(c.failed())
            .saturating_sub(c.abandoned()),
        c.outstanding(),
    );
}

#[test]
fn abandoned_is_always_a_subset_of_failed() {
    let c = WriteQueueCounters { failed: 3, abandoned: 3, ..WriteQueueCounters::default() };
    assert!(c.abandoned() <= c.failed());

    let mut p = pipeline("wq-subset");
    let agent = AgentId::new("agent-a");
    derive(&mut p, "agent-a", "x", &at(0));
    let job = p.take_job(&agent).unwrap();
    p.finish_job(&job, JobEnd::LeaseLost, &at(1));
    assert_eq!(p.counters().abandoned(), 1);
    assert_eq!(p.counters().failed(), 1);
}

#[test]
fn the_constants_say_what_their_docs_say() {
    assert_eq!(WRITE_QUEUE_MAX, MAX_RETAINED_RECEIPTS / 4);
    assert_eq!(WRITE_QUEUE_MAX, 1024);
    assert_eq!(MAX_RETAINED_RECEIPTS, 4096);
    assert_eq!(WRITE_QUEUE_LANE_MAX, WRITE_QUEUE_MAX / MAX_CONCURRENT_RECEIPT_WAITS);
    assert_eq!(WRITE_QUEUE_LANE_MAX, 64);
    assert_eq!(PROBE_CLAMP_RPS, WRITE_QUEUE_MAX as u64);
    assert_eq!(PROBE_CLAMP_RPS, 1024);
    assert_eq!(PROBE_EMBEDS, 7);
    assert_eq!(PROBE_EMBEDS, PROBE_WARMUP_EMBEDS + 2 + PROBE_CONCURRENCY);
    assert_eq!(PROBE_TEXT_BYTES, 1024);
    assert_eq!(PROBE_TEXT.len(), 35);
    assert_eq!(probe_text_at(PROBE_TEXT_BYTES).len(), PROBE_TEXT_BYTES);
    assert!(probe_text_at(PROBE_TEXT_BYTES).starts_with(PROBE_TEXT));
    assert!(is_ascii(PROBE_TEXT));
    assert!(!is_ascii("é"));
    assert_eq!(OBSERVED_MIN_SAMPLES, PROBE_CONCURRENCY as u64);
    assert_eq!(OBSERVED_EWMA_WEIGHT, PROBE_CONCURRENCY as u32);
    assert_eq!(MEASURED_WORST_FLUSH_LAG_SECS, 227);
    assert_eq!(WRITE_QUEUE_MAX_BYTES, 16 * 1024 * 1024);
    assert_eq!(MAX_RECEIPT_IDS, MAX_CONCEPTS_PER_DERIVE);
    assert!(RECEIPT_RETENTION_SECS > MEASURED_WORST_FLUSH_LAG_SECS);
    assert_eq!(WRITE_QUEUE_DRAIN_BUDGET_SECS, 2);
    assert_eq!(CLOSE_FLUSH_GRACE_SECS, 8);
    assert_eq!(RECEIPT_WAIT_MAX_SECS, 4);
    assert_eq!(MAX_CONCURRENT_RECEIPT_WAITS * 2, 32);
    assert_eq!(INFLIGHT_DEPTH_WARN, 64);
}

#[test]
fn eviction_is_oldest_settled_first_and_never_takes_a_running_writes_receipt() {
    let id_at = |seq: u64| ReceiptId {
        epoch: 7,
        issued_ms: BASE * 1000 + seq as i64,
        seq,
    };
    let settled = |r: &mut Receipts, seq: u64| {
        r.push_pending(&id_at(seq), AgentId::new("agent-a"));
        r.settle(&id_at(seq), ReceiptAnswer::Failed("settled".into()), &at_ms(seq as i64));
        r.evict();
    };

    let mut r = Receipts::new();
    for seq in 1..=(MAX_RETAINED_RECEIPTS as u64 + 8) {
        settled(&mut r, seq);
    }
    assert_eq!(r.len(), MAX_RETAINED_RECEIPTS);
    for seq in 1..=8 {
        assert!(r.find(&id_at(seq)).is_none(), "{seq} survived");
    }
    for seq in 9..=(MAX_RETAINED_RECEIPTS as u64 + 8) {
        assert!(r.find(&id_at(seq)).is_some(), "{seq} was evicted early");
    }

    let mut r = Receipts::new();
    let running = id_at(1);
    r.push_pending(&running, AgentId::new("agent-a"));
    for seq in 2..=(MAX_RETAINED_RECEIPTS as u64 + 8) {
        settled(&mut r, seq);
    }
    assert!(r.find(&running).is_some(), "the receipt of a running write is never evicted");
    assert_eq!(r.len(), MAX_RETAINED_RECEIPTS);
    assert!(r.find(&id_at(2)).is_none(), "the oldest settled entry goes instead");
}

#[test]
fn an_applied_receipt_reports_what_the_write_did() {
    let mut p = pipeline("wq-applied");
    let agent = AgentId::new("agent-a");
    let first = derive(&mut p, "agent-a", "user schema", &at(0));
    assert_eq!(first.submitted.answer.tag(), "pending", "the ack precedes the write");
    assert!(first.start_worker);

    let job = p.take_job(&agent).unwrap();
    let outcome = WriteOutcome::Derive(DeriveOutcome {
        created: vec![NodeId(7)],
        matched: Vec::new(),
        semantic_merged: 0,
        reinforced: 2,
        embedded: 1,
    });
    let applied = job.applied(
        MatchStrategy::Hybrid,
        &outcome,
        Some(ConsumeStamp { tag: "applied", at: at(1) }),
    );
    assert_eq!(
        applied.summary.summary,
        "derived 1 concept(s): 1 created (1 embedded), 0 matched existing"
    );
    assert_eq!(applied.summary.created, vec!["00000000-0000-0000-0000-000000000007".to_string()]);
    assert_eq!(applied.summary.embedded, Some(1));
    assert_eq!(applied.summary.reinforced, Some(2));
    assert_eq!(applied.touched, vec![NodeId(7)]);
    let (receipt, stamped) = applied.consumed.unwrap();
    assert_eq!(receipt, first.submitted.receipt.to_string());
    assert_eq!(stamped.tag, "applied");
    assert_eq!(stamped.summary, applied.summary.summary);

    let done = p.finish_job(&job, JobEnd::Applied(applied.summary), &at(1));
    assert!(done.sample);
    assert!(done.consumed.is_none(), "the intent was consumed in the step that applied it");
    let ReceiptAnswer::Applied(s) = p.lookup(&agent, first.submitted.receipt, &at(2)) else {
        panic!("expected applied");
    };
    assert_eq!(s.created_count, 1);
    assert_eq!(s.matched_count, 0);
    assert_eq!(s.kind, WriteKind::Derive);
    assert_eq!(p.counters().applied(), 1);
    assert_eq!(p.outstanding(), 0);
}

#[test]
fn an_action_sums_up_what_it_recorded() {
    let job = Job {
        receipt: ReceiptId { epoch: 1, issued_ms: 2, seq: 3 },
        agent: AgentId::new("a"),
        interaction: NodeId(1),
        bytes: 0,
        payload: JobPayload::Action {
            action: "deploy".to_string(),
            produces: vec!["image".to_string()],
            modifies: Vec::new(),
            depends_on: Vec::new(),
        },
    };
    let outcome = WriteOutcome::Action(ActionOutcome {
        action_node: NodeId(9),
        created: vec![NodeId(8), NodeId(9)],
        edges: 3,
    });
    let applied = job.applied(MatchStrategy::Canonical, &outcome, None);
    assert_eq!(applied.summary.summary, "recorded action: 2 concept(s) created, 3 edge(s)");
    assert_eq!(applied.summary.edges, Some(3));
    assert_eq!(applied.summary.kind, WriteKind::RecordAction);
    assert_eq!(applied.touched, vec![NodeId(8), NodeId(9), NodeId(9)]);
    assert!(applied.consumed.is_none());
    assert_eq!(job.payload.kind(), WriteKind::RecordAction);
    assert_eq!(job.payload.bytes(), "deploy".len() + "image".len());
}

#[test]
fn the_four_non_answers_are_distinguishable() {
    let mut p = pipeline("wq-answers");
    let agent = AgentId::new("agent-a");
    let mine = derive(&mut p, "agent-a", "held concept", &at(0)).submitted;
    let job = p.take_job(&agent).unwrap();
    p.finish_job(&job, JobEnd::Applied(summary(1, 0)), &at(0));

    let foreign = ReceiptId { epoch: mine.receipt.epoch ^ u64::MAX, ..mine.receipt };
    assert_eq!(p.lookup(&agent, foreign, &at(0)).tag(), "restart_lost");

    let unissued = ReceiptId { seq: mine.receipt.seq + 1_000, ..mine.receipt };
    assert_eq!(p.lookup(&agent, unissued, &at(0)).tag(), "never_issued");

    assert_eq!(
        p.lookup(&agent, mine.receipt, &at(RECEIPT_RETENTION_SECS as i64)).tag(),
        "applied",
        "a receipt is held for its whole retention"
    );
    let later = at(RECEIPT_RETENTION_SECS as i64 + 1);
    assert_eq!(p.lookup(&agent, mine.receipt, &later).tag(), "expired");

    let held = derive(&mut p, "agent-a", "second concept", &later).submitted;
    assert_eq!(p.lookup(&AgentId::new("agent-b"), held.receipt, &later).tag(), "forbidden");
    assert_eq!(p.lookup(&agent, held.receipt, &later).tag(), "pending");
}

#[test]
fn each_agents_writes_drain_in_that_agents_submission_order() {
    let mut p = pipeline("wq-fifo");
    let mut sent: Vec<(String, ReceiptId)> = Vec::new();
    for i in 0..3 {
        for agent in ["agent-a", "agent-b"] {
            let a = derive(&mut p, agent, &format!("{agent}-{i}"), &at(i));
            assert_eq!(a.start_worker, i == 0, "one worker per agent");
            sent.push((agent.to_string(), a.submitted.receipt));
        }
    }
    for agent in ["agent-b", "agent-a"] {
        let id = AgentId::new(agent);
        for (_, want) in sent.iter().filter(|(a, _)| a == agent) {
            let job = p.take_job(&id).unwrap();
            assert_eq!(job.receipt, *want, "a lane drains in submission order");
            p.finish_job(&job, JobEnd::Applied(summary(1, 0)), &at(10));
        }
        assert!(p.take_job(&id).is_none(), "the lane closes when it is empty");
    }
    assert_eq!(p.outstanding(), 0);
}

#[test]
fn a_sealed_queue_refuses_and_counts_it() {
    let mut p = pipeline("wq-sealed");
    assert!(!p.is_sealed());
    assert!(!p.seal());
    assert!(p.seal(), "it was sealed before");
    let agent = AgentId::new("agent-a");
    let refused = derive(&mut p, "agent-a", "dropped concept", &at(0));
    assert!(refused.submitted.dropped());
    assert!(refused.intent.is_none());
    assert!(!refused.start_worker);
    assert_eq!(refused.submitted.answer.tag(), "dropped");
    let told = refused.submitted.answer.describe();
    assert!(told.contains("nothing was written"), "{told}");
    assert!(told.contains("session is closing"), "{told}");
    let c = *p.counters();
    assert_eq!(c.dropped(), 1);
    assert_eq!(c.dropped_closed(), 1);
    assert_eq!(c.dropped_queue_full(), 0);
    assert_eq!(c.dropped_queue_bytes(), 0);
    assert_eq!(c.accepted(), 0);
    assert_eq!(c.outstanding(), 0);
    assert_eq!(p.lookup(&agent, refused.submitted.receipt, &at(0)).tag(), "dropped");
}

#[test]
fn a_burst_past_the_lane_bound_drops_and_counts_it() {
    let mut p = pipeline("wq-lane-full");
    let mut refusals = 0;
    for i in 0..(WRITE_QUEUE_LANE_MAX + 4) {
        let a = derive(&mut p, "agent-a", &format!("lane concept {i}"), &at(0));
        if a.submitted.dropped() {
            let told = a.submitted.answer.describe();
            assert!(
                told.contains("lane is full")
                    && told.contains("fair-share")
                    && told.contains("nothing was written"),
                "{told}"
            );
            refusals += 1;
        }
    }
    assert_eq!(refusals, 4);
    assert_eq!(p.counters().dropped_queue_full(), 4);
    assert_eq!(p.counters().dropped_closed(), 0);
    assert_eq!(p.counters().dropped_queue_bytes(), 0);
    assert_eq!(p.counters().accepted(), WRITE_QUEUE_LANE_MAX as u64);
    assert!(!derive(&mut p, "agent-b", "x", &at(0)).submitted.dropped(), "other lanes are open");

    let deferred = p.abort_workers(&at(1));
    assert_eq!(p.counters().abandoned(), 0);
    assert_eq!(p.counters().failed(), 0);
    assert_eq!(p.counters().applied() + deferred as u64, p.counters().accepted());
}

#[test]
fn enough_lanes_together_reach_the_aggregate_bound_and_it_counts_them() {
    let mut p = pipeline("wq-aggregate-full");
    let lanes = WRITE_QUEUE_MAX / WRITE_QUEUE_LANE_MAX + 2;
    let mut refusals = 0;
    for lane in 0..lanes {
        for i in 0..WRITE_QUEUE_LANE_MAX {
            let a = derive(&mut p, &format!("agent-{lane}"), &format!("{lane} {i}"), &at(0));
            if a.submitted.dropped() {
                let told = a.submitted.answer.describe();
                assert!(told.contains("write queue is full"), "{told}");
                refusals += 1;
            }
        }
    }
    assert_eq!(refusals, 2 * WRITE_QUEUE_LANE_MAX);
    assert_eq!(p.counters().dropped_queue_full() as usize, refusals);
    assert_eq!(p.counters().accepted(), WRITE_QUEUE_MAX as u64);
    assert_eq!(p.counters().dropped_closed(), 0);
}

#[test]
fn a_burst_past_the_byte_cap_drops_and_counts_it() {
    let mut p = pipeline("wq-byte-cap");
    let payload = "x".repeat(WRITE_QUEUE_MAX_BYTES / 2 + 1);
    let mut refusals = 0;
    for _ in 0..4 {
        let a = derive(&mut p, "agent-a", &payload, &at(0));
        if a.submitted.dropped() {
            let told = a.submitted.answer.describe();
            assert!(told.contains("payload cap") && told.contains("nothing was written"), "{told}");
            refusals += 1;
        }
    }
    assert_eq!(refusals, 3);
    assert_eq!(p.counters().dropped_queue_bytes(), 3);
    assert_eq!(p.counters().dropped_queue_full(), 0);
    assert_eq!(p.counters().dropped_closed(), 0);

    let agent = AgentId::new("agent-a");
    let job = p.take_job(&agent).unwrap();
    p.finish_job(&job, JobEnd::Applied(summary(1, 0)), &at(1));
    assert_eq!(p.outstanding(), 0);
    assert!(!derive(&mut p, "agent-a", &payload, &at(1)).submitted.dropped());
}

#[test]
fn a_fenced_pipeline_refuses_every_queued_write() {
    let mut p = pipeline("wq-fenced");
    let agent = AgentId::new("agent-a");
    let sent = derive(&mut p, "agent-a", "post-fence concept", &at(0));
    let job = p.take_job(&agent).unwrap();
    let done = p.finish_job(&job, JobEnd::LeaseLost, &at(1));
    assert!(done.consumed.is_none(), "the intent stays for the session's next holder");
    assert!(!done.sample);
    let answer = p.lookup(&agent, sent.submitted.receipt, &at(1));
    assert_eq!(answer.tag(), "failed");
    assert!(answer.describe().contains("lost its single-writer lease"));
    assert!(answer.describe().contains("wq-fenced"));
    assert_eq!(p.counters().abandoned(), 1);
    assert!(p.counters().abandoned() <= p.counters().failed());
}

#[test]
fn quiesce_settles_everything_it_could_not_apply() {
    let mut p = pipeline("wq-quiesce");
    let agent = AgentId::new("agent-a");
    let first = derive(&mut p, "agent-a", "one", &at(0)).submitted.receipt;
    let second = derive(&mut p, "agent-a", "two", &at(0)).submitted.receipt;
    let job = p.take_job(&agent).unwrap();
    assert_eq!(job.receipt, first);
    p.seal();
    assert_eq!(p.abort_workers(&at(1)), 2);
    for id in [first, second] {
        let answer = p.lookup(&agent, id, &at(1));
        assert_eq!(answer.tag(), "intent_durable", "{answer:?}");
        assert!(answer.is_settled());
    }
    assert_eq!(p.counters().deferred(), 2);
    assert_eq!(p.outstanding(), 0);
    assert!(p.is_sealed());
}

#[test]
fn a_failed_write_is_never_sampled_into_the_observed_rate() {
    let mut p = pipeline("wq-failed");
    let agent = AgentId::new("agent-a");
    let sent = derive(&mut p, "agent-a", "x", &at(0));
    let job = p.take_job(&agent).unwrap();
    let done = p.finish_job(
        &job,
        JobEnd::Refused(LamboError::Store(StoreError::Backend("disk full".into()))),
        &at(1),
    );
    assert!(!done.sample);
    let (receipt, outcome) = done.consumed.expect("a refused write is recorded as failed");
    assert_eq!(receipt, sent.submitted.receipt.to_string());
    assert_eq!(outcome.tag, "failed");
    assert_eq!(outcome.summary, "backend: disk full");
    assert_eq!(outcome.consumed_at, at(1));
    assert_eq!(p.lookup(&agent, sent.submitted.receipt, &at(1)).tag(), "failed");
    assert_eq!(p.counters().failed(), 1);
    assert_eq!(p.counters().abandoned(), 0);
}

#[test]
fn an_embedder_refusal_fails_the_write_and_is_never_sampled() {
    let mut p = pipeline("wq-embed");
    let agent = AgentId::new("agent-a");
    derive(&mut p, "agent-a", "x", &at(0));
    let job = p.take_job(&agent).unwrap();
    let done = p.finish_job(&job, JobEnd::Refused(LamboError::Embed("too long".into())), &at(1));
    assert!(!done.sample);
    assert_eq!(done.consumed.unwrap().1.summary, "embed: too long");
}

#[test]
fn an_accepted_write_puts_a_durable_intent_and_applying_consumes_it() {
    let mut p = pipeline("wq-intent");
    let a = derive(&mut p, "agent-a", "durable", &at_ms(1_234));
    let intent = a.intent.expect("an accepted write has an intent");
    assert_eq!(intent.session_id, SessionId::new("wq-intent"));
    assert_eq!(intent.receipt, a.submitted.receipt.to_string());
    assert_eq!(intent.agent, AgentId::new("agent-a"));
    assert_eq!(intent.issued_ms, a.submitted.receipt.issued_ms());
    assert_eq!(intent.lane_seq, a.submitted.receipt.seq());
    assert_eq!(intent.created_at, at_ms(1_234));
    assert!(intent.outcome.is_none());
    assert_eq!(intent.receipt.parse::<ReceiptId>().unwrap(), a.submitted.receipt);
}

#[test]
fn a_close_that_cannot_drain_defers_acked_writes_as_durable_intents() {
    let mut p = pipeline("wq-close");
    let mut intents: Vec<WriteIntent> = Vec::new();
    for i in 0..3 {
        intents.push(derive(&mut p, "agent-a", &format!("w{i}"), &at(i)).intent.unwrap());
    }
    p.seal();
    assert_eq!(p.abort_workers(&at(5)), 3);
    assert_eq!(p.counters().deferred(), 3);

    let mut next = WritePipeline::new(SessionId::new("wq-close"), p.epoch().wrapping_add(1));
    next.seed_replay(&intents, &at(6));
    let agent = AgentId::new("agent-a");
    let first: ReceiptId = intents[0].receipt.parse().unwrap();
    assert_eq!(next.lookup(&agent, first, &at(6)).tag(), "pending");
    assert_eq!(next.lookup(&AgentId::new("other"), first, &at(6)).tag(), "forbidden");

    let mut ran = 0;
    for intent in backlog(intents) {
        let ReplayStep::Run(job, receipt) = next.replay_step(intent, false) else {
            panic!("a readable receipt is run");
        };
        assert!(next.finish_replay(&job, &receipt, Ok(summary(1, 0)), &at(7)).is_none());
        assert_eq!(next.lookup(&agent, job.receipt, &at(7)).tag(), "applied_after_restart");
        ran += 1;
    }
    assert_eq!(ran, 3);
    assert_eq!(next.counters().replayed(), 3);
}

#[test]
fn an_acknowledged_write_is_found_and_replayed_by_the_next_process() {
    let mut p = pipeline("wq-durable");
    let first = derive(&mut p, "agent-a", "one", &at_ms(1));
    let second = derive(&mut p, "agent-b", "two", &at_ms(2));
    let receipts = [first.submitted.receipt, second.submitted.receipt];
    let mutations = vec![
        Mutation::PutWriteIntent { intent: second.intent.unwrap() },
        Mutation::PutWriteIntent { intent: first.intent.unwrap() },
    ];
    let t = flush(Tables::new(), &MutationBatch { mutations }, None).unwrap();
    p.abort_workers(&at(1));

    let loaded = load_session(&t, &SessionId::new("wq-durable")).unwrap().write_intents;
    let mut next = pipeline("wq-durable");
    next.seed_replay(&loaded, &at(2));
    let mut replayed = Vec::new();
    for intent in backlog(loaded) {
        let ReplayStep::Run(job, _) = next.replay_step(intent, false) else {
            panic!("a readable receipt is run");
        };
        assert_eq!(next.lookup(&job.agent, job.receipt, &at(2)).tag(), "pending");
        assert_eq!(job.bytes, 0);
        replayed.push((job.receipt, job.payload));
    }
    assert_eq!(replayed[0].0, receipts[0], "in the order of admission");
    assert_eq!(replayed[1].0, receipts[1]);
    assert!(matches!(&replayed[0].1, JobPayload::Derive { concepts, .. } if concepts[0].0 == "one"));
}

#[test]
fn each_kind_of_write_has_its_tool() {
    assert_eq!(WriteKind::Derive.tool(), "lambo_derive");
    assert_eq!(WriteKind::RecordAction.tool(), "lambo_record_action");
}

#[test]
fn a_replay_says_what_is_recorded_on_the_intent() {
    let mut p = pipeline("wq-replay");
    let intent = derive(&mut p, "agent-a", "x", &at(0)).intent.unwrap();
    let agent = AgentId::new("agent-a");
    let mut next = WritePipeline::new(SessionId::new("wq-replay"), p.epoch().wrapping_add(1));
    let intents = vec![intent];
    next.seed_replay(&intents, &at(1));
    let intent = backlog(intents).remove(0);
    let ReplayStep::Run(job, receipt) = next.replay_step(intent, false) else {
        panic!("a readable receipt is run");
    };

    let unavailable = Err(LamboError::EmbedUnavailable("down".into()));
    assert!(next.finish_replay(&job, &receipt, unavailable, &at(2)).is_none());
    assert_eq!(next.lookup(&agent, job.receipt, &at(2)).tag(), "pending", "it stays durable");

    let refused = Err(LamboError::Conflict("reserved".into()));
    let (named, outcome) = next.finish_replay(&job, &receipt, refused, &at(3)).unwrap();
    assert_eq!(named, receipt);
    assert_eq!(outcome.tag, "failed");
    assert_eq!(
        outcome.summary,
        "replay after restart was refused (conflict: reserved); nothing was written"
    );
    assert_eq!(next.lookup(&agent, job.receipt, &at(3)).tag(), "failed");
}

#[test]
fn a_replay_stops_without_the_lease_and_skips_what_it_cannot_read() {
    let mut p = pipeline("wq-stop");
    let mut intent = derive(&mut p, "agent-a", "x", &at(0)).intent.unwrap();
    let other = derive(&mut p, "agent-a", "y", &at(0)).intent.unwrap();
    assert!(matches!(p.replay_step(other, true), ReplayStep::Stop));
    intent.receipt = "not a receipt".to_string();
    assert!(matches!(p.replay_step(intent, false), ReplayStep::Skip));
}

#[test]
fn an_outcome_past_its_retention_gives_no_answer() {
    let mut p = pipeline("wq-stale");
    let mut fresh = derive(&mut p, "agent-a", "x", &at(0)).intent.unwrap();
    let mut stale = derive(&mut p, "agent-a", "y", &at(0)).intent.unwrap();
    let outcome = |secs: i64| WriteIntentOutcome {
        tag: "applied".to_string(),
        summary: "done".to_string(),
        consumed_at: at(secs),
    };
    fresh.outcome = Some(outcome(100));
    stale.outcome = Some(outcome(99));
    let agent = AgentId::new("agent-a");
    let (a, b): (ReceiptId, ReceiptId) = (fresh.receipt.parse().unwrap(), stale.receipt.parse().unwrap());
    let mut next = WritePipeline::new(SessionId::new("wq-stale"), p.epoch().wrapping_add(1));
    next.seed_replay(&vec![fresh, stale], &at(100 + RECEIPT_RETENTION_SECS as i64));
    let now = at(100 + RECEIPT_RETENTION_SECS as i64);
    assert_eq!(next.lookup(&agent, a, &now).tag(), "applied_after_restart");
    assert_eq!(next.lookup(&agent, b, &now).tag(), "restart_lost");
}

#[test]
fn retention_goes_by_the_second_before_the_leap() {
    let leap = Timestamp::from_parts(59, 1_500_000_000).unwrap();
    let now = Timestamp::from_parts(360, 200_000_000).unwrap();
    assert!(leap.older_than(&now, RECEIPT_RETENTION_SECS));
    assert!(!Timestamp::from_parts(60, 200_000_000).unwrap().older_than(&now, RECEIPT_RETENTION_SECS));
    assert!(Timestamp::from_parts(60, 199_999_999).unwrap().older_than(&now, RECEIPT_RETENTION_SECS));
    let from_leap = Timestamp::from_parts(359, 1_500_000_000).unwrap();
    assert!(Timestamp::from_parts(60, 499_999_999).unwrap().older_than(&from_leap, 300));
    assert!(!Timestamp::from_parts(60, 500_000_000).unwrap().older_than(&from_leap, 300));
    assert!(leap.older_than(&Timestamp::from_parts(60, 0).unwrap(), 0));
    assert!(!leap.older_than(&leap, 0));

    let mut p = pipeline("wq-leap");
    let agent = AgentId::new("agent-a");
    let mut admitted = derive(&mut p, "agent-a", "x", &leap);
    let id = admitted.submitted.receipt;
    let job = p.take_job(&agent).unwrap();
    p.finish_job(&job, JobEnd::Applied(summary(1, 0)), &leap);
    assert_eq!(p.lookup(&agent, id, &leap).tag(), "applied");
    assert_eq!(p.lookup(&agent, id, &now).tag(), "expired");

    let mut intent = admitted.intent.take().unwrap();
    intent.outcome = Some(WriteIntentOutcome {
        tag: "applied".to_string(),
        summary: "done".to_string(),
        consumed_at: leap,
    });
    let mut next = WritePipeline::new(SessionId::new("wq-leap"), p.epoch().wrapping_add(1));
    next.seed_replay(&vec![intent], &now);
    assert_eq!(next.lookup(&agent, id, &now).tag(), "restart_lost");
}

#[test]
fn a_receipt_that_was_handed_out_is_never_handed_out_again() {
    let mut p = pipeline("wq-told");
    let agent = AgentId::new("agent-a");
    let other = AgentId::new("agent-b");
    let first = derive(&mut p, "agent-a", "one", &at(0)).submitted.receipt;
    let job = p.take_job(&agent).unwrap();
    p.finish_job(&job, JobEnd::Applied(summary(1, 0)), &at(0));
    let (told, _) = p.take_piggyback(&agent, &at(0));
    assert_eq!(told.iter().map(|t| t.0).collect::<Vec<_>>(), vec![first]);
    let second = derive(&mut p, "agent-a", "two", &at(1)).submitted.receipt;
    let theirs = derive(&mut p, "agent-b", "three", &at(1)).submitted.receipt;
    let job = p.take_job(&agent).unwrap();
    p.finish_job(&job, JobEnd::LeaseLost, &at(1));
    p.abort_workers(&at(2));
    let (told, left) = p.take_piggyback(&agent, &at(2));
    assert_eq!(told.iter().map(|t| t.0).collect::<Vec<_>>(), vec![second]);
    assert_eq!(left, 0);
    let (told, _) = p.take_piggyback(&other, &at(2));
    assert_eq!(told.iter().map(|t| t.0).collect::<Vec<_>>(), vec![theirs]);
    assert!(p.take_piggyback(&agent, &at(3)).0.is_empty());
    assert_eq!(p.lookup(&agent, first, &at(3)).tag(), "applied", "what was told is still held");
}

#[test]
fn a_running_jobs_receipt_neither_expires_nor_loses_its_outcome() {
    let mut p = pipeline("wq-running");
    let agent = AgentId::new("agent-a");
    let id = derive(&mut p, "agent-a", "slow", &at(0)).submitted.receipt;
    let job = p.take_job(&agent).unwrap();
    let late = at(10 * RECEIPT_RETENTION_SECS as i64);
    assert_eq!(p.lookup(&agent, id, &late).tag(), "pending");
    p.finish_job(&job, JobEnd::Applied(summary(0, 1)), &late);
    assert_eq!(p.lookup(&agent, id, &late).tag(), "applied");
    let after = at(11 * RECEIPT_RETENTION_SECS as i64 + 1);
    assert_eq!(p.lookup(&agent, id, &after).tag(), "expired");
}

#[test]
fn a_notice_goes_to_its_own_agent_and_is_given_once() {
    let mut p = pipeline("wq-notices");
    let agent = AgentId::new("agent-a");
    let mut ids = Vec::new();
    for i in 0..(MAX_PIGGYBACK_RECEIPTS + 2) {
        ids.push(derive(&mut p, "agent-a", &format!("n{i}"), &at(0)).submitted.receipt);
        let job = p.take_job(&agent).unwrap();
        p.finish_job(&job, JobEnd::Applied(summary(1, 0)), &at(0));
    }
    assert_eq!(p.take_piggyback(&AgentId::new("agent-b"), &at(1)).0.len(), 0);
    p.mark_delivered(&agent, ids[0]);
    let (first, left) = p.take_piggyback(&agent, &at(1));
    assert_eq!(first.len(), MAX_PIGGYBACK_RECEIPTS);
    assert_eq!(left, 1);
    assert_eq!(first[0].0, ids[1], "the one that was fetched is not told again");
    let (second, left) = p.take_piggyback(&agent, &at(1));
    assert_eq!(second.len(), 1);
    assert_eq!(left, 0);
    assert_eq!(p.take_piggyback(&agent, &at(1)).0.len(), 0);
    assert_eq!(p.receipts_retained(), MAX_PIGGYBACK_RECEIPTS + 2);
}

#[test]
fn waits_are_bounded_and_end_with_the_answer() {
    assert_eq!(wait_budget_ms(1_500), 1_500);
    assert_eq!(wait_budget_ms(60_000), 4_000);
    assert!(wait_is_over(&ReceiptAnswer::Expired, false));
    assert!(!wait_is_over(&ReceiptAnswer::Pending, false));
    assert!(wait_is_over(&ReceiptAnswer::Pending, true));
}

#[test]
fn an_epoch_is_the_halves_of_a_uuid_combined() {
    assert_eq!(epoch_of(0x0123_4567_89ab_cdef_0000_0000_0000_ffff), 0x0123_4567_89ab_3210);
    let a = pipeline("e").epoch();
    let b = pipeline("e").epoch();
    assert_ne!(a, b, "two processes have two epochs");
}

#[test]
fn the_probes_serial_figure_is_the_slower_of_its_two_input_sizes() {
    assert_eq!(slower_wall(35_000_000, Some(1_024_000_000)), 1_024_000_000);
}

#[test]
fn a_refused_representative_leg_falls_back_to_the_short_one() {
    assert!(matches!(
        ProbeLeg::Representative.next(false),
        ProbeNext::Run(ProbeLeg::Concurrent)
    ));
    assert_eq!(slower_wall(35, None), 35);
    assert_eq!(ProbeLeg::Concurrent.text(false), PROBE_TEXT);
    assert_eq!(ProbeLeg::Concurrent.text(true).len(), PROBE_TEXT_BYTES);
}

#[test]
fn a_hanging_representative_leg_leaves_the_concurrent_leg_its_budget() {
    let budget = PROBE_BUDGET_SECS * 1_000_000_000;
    assert_eq!(ProbeLeg::Representative.deadline(0, budget), budget / 2);
    assert_eq!(ProbeLeg::Concurrent.deadline(budget / 2, budget), budget);
}

#[test]
fn a_probe_that_cannot_finish_inside_its_budget_reports_no_measurement() {
    for leg in [ProbeLeg::WarmUp, ProbeLeg::Serial, ProbeLeg::Concurrent] {
        assert!(matches!(leg.next(false), ProbeNext::Unmeasured), "{leg:?}");
    }
    assert!(matches!(ProbeLeg::Concurrent.next(true), ProbeNext::Measured));
    let embeds: usize = [
        ProbeLeg::WarmUp,
        ProbeLeg::Serial,
        ProbeLeg::Representative,
        ProbeLeg::Concurrent,
    ]
    .iter()
    .map(|l| l.embeds())
    .sum();
    assert_eq!(embeds, PROBE_EMBEDS);
}
