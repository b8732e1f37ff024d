use lambo::receipt::{AppliedSummary, ReceiptAnswer, ReceiptId, WriteKind};
use lambo::time::Timestamp;
use lambo::types::EdgeType;

#[test]
fn edge_type_decay_table() {
    assert!(!EdgeType::Temporal.decays());
    assert!(!EdgeType::Derives.decays());
    assert!(EdgeType::CoOccurrence.decays());
    assert!(!EdgeType::Causal.decays());
    assert!(!EdgeType::Dependency.decays());
    assert!(!EdgeType::Hierarchical.decays());
    assert!(EdgeType::Semantic.decays());
}

#[test]
fn a_receipt_id_round_trips_through_its_wire_form() {
    let id = ReceiptId {
        epoch: 0x0123_4567_89ab_cdef,
        issued_ms: 1_755_000_000_123,
        seq: 42,
    };
    let text = id.to_string();
    assert!(text.starts_with("lwr1."), "{text}");
    assert_eq!(text.parse::<ReceiptId>().unwrap(), id);
}

#[test]
fn a_malformed_receipt_id_is_a_parse_error_not_an_answer() {
    for bad in [
        "",
        "lwr1",
        "lwr2.0.0.0",
        "lwr1.0.0",
        "lwr1.0.0.0.0",
        "lwr1.zz.0.0",
        "not-a-receipt",
    ] {
        assert!(
            bad.parse::<ReceiptId>().is_err(),
            "{bad:?} parsed as a receipt id"
        );
    }
}

#[test]
fn only_pending_is_unsettled() {
    assert!(!ReceiptAnswer::Pending.is_settled());
    for a in [
        ReceiptAnswer::Failed("x".into()),
        ReceiptAnswer::AppliedAfterRestart("x".into()),
        ReceiptAnswer::IntentRecorded,
        ReceiptAnswer::Dropped("x".into()),
        ReceiptAnswer::Expired,
        ReceiptAnswer::RestartLost,
        ReceiptAnswer::NeverIssued,
        ReceiptAnswer::Forbidden,
    ] {
        assert!(a.is_settled(), "{} should be terminal", a.tag());
    }
}

#[test]
fn every_answer_has_a_distinct_tag_and_none_of_them_is_unknown() {
    let answers = [
        ReceiptAnswer::Pending,
        ReceiptAnswer::Applied(AppliedSummary {
            kind: WriteKind::Derive,
            summary: "x".into(),
            created: Vec::new(),
            matched: Vec::new(),
            created_count: 0,
            matched_count: 0,
            semantic_merged: Some(0),
            reinforced: Some(0),
            edges: None,
            embedded: Some(0),
        }),
        ReceiptAnswer::Failed("x".into()),
        ReceiptAnswer::AppliedAfterRestart("x".into()),
        ReceiptAnswer::IntentRecorded,
        ReceiptAnswer::Dropped("x".into()),
        ReceiptAnswer::Expired,
        ReceiptAnswer::RestartLost,
        ReceiptAnswer::NeverIssued,
        ReceiptAnswer::Forbidden,
    ];
    let mut tags: Vec<&str> = answers.iter().map(ReceiptAnswer::tag).collect();
    tags.sort_unstable();
    let mut deduped = tags.clone();
    deduped.dedup();
    assert_eq!(tags, deduped, "two answers share a tag: {tags:?}");
    for a in &answers {
        assert_ne!(a.tag(), "unknown");
        assert!(!a.describe().is_empty());
    }
    assert!(ReceiptAnswer::Expired.describe().contains("expired"));
    assert!(ReceiptAnswer::RestartLost
        .describe()
        .contains("different serve process"));
    assert!(ReceiptAnswer::RestartLost.describe().contains("UNKNOWN"));
    assert!(ReceiptAnswer::RestartLost
        .describe()
        .contains("Recall before re-deriving"));
}

#[test]
fn the_text_of_a_receipt_is_that_of_no_other() {
    let early = Timestamp::from_parts(-1, 0).unwrap();
    let late = Timestamp::from_parts(1, 0).unwrap();
    let ids = [
        ReceiptId::new(1, &late, 1),
        ReceiptId::new(1, &late, 16),
        ReceiptId::new(16, &late, 1),
        ReceiptId::new(1, &early, 1),
    ];
    for (i, a) in ids.iter().enumerate() {
        for (j, b) in ids.iter().enumerate() {
            assert_eq!(a.to_string() == b.to_string(), i == j);
        }
    }
    assert_eq!(ids[3].to_string(), "lwr1.0000000000000001.fffffffffffffc18.1");
    assert!(ids[3].to_string().parse::<ReceiptId>().is_err(), "issued before the epoch");
    assert_eq!(ids[1].to_string().parse::<ReceiptId>().unwrap(), ids[1]);
}
