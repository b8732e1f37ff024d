use lambo::store::codec::{
    concept_type_to_text, cutoff_text, edge_type_to_text, node_id, opt_node_id, opt_text_to_ts,
    status_to_text, text_to_concept_type, text_to_edge_type, text_to_status, text_to_ts, write_ts,
};
use lambo::store::order::{earlier, list_is_no_later, no_later};
use lambo::store::vector::{
    decode_vector, encode_vector, ensure_is_an_embedding, vector_elements,
};
use lambo::time::{ts_to_text, Timestamp};
use lambo::types::{
    AgentId, CanonizationStatus, ConceptType, EdgeType, EmbeddingContract, LamboError,
    MatchStrategy, Mutation, MutationBatch, NodeId, SessionId, StoreError,
};

fn encode(v: &[f32]) -> Result<String, StoreError> {
    let bits: Vec<u32> = v.iter().map(|x| x.to_bits()).collect();
    let numerals: Vec<String> = v.iter().map(|x| format!("{x}")).collect();
    encode_vector(&bits, &numerals)
}

fn decode(s: &str) -> Result<Vec<f32>, StoreError> {
    let elements = vector_elements(s);
    let read: Vec<Result<u32, String>> = elements
        .iter()
        .map(|e| match e.numeral.parse::<f32>() {
            Ok(x) => Ok(x.to_bits()),
            Err(e) => Err(e.to_string()),
        })
        .collect();
    decode_vector(s, &elements, &read)
        .map(|v| v.iter().map(|b| f32::from_bits(*b)).collect())
}

fn sample_vec(dim: usize, seed: f32) -> Vec<f32> {
    (0..dim)
        .map(|i| ((i as f32 + 1.0) * seed).sin() * 0.5)
        .collect()
}

#[test]
fn vector_encode_decode_roundtrip_exact() {
    for dim in [0usize, 1, 8, 1024] {
        let v = sample_vec(dim, 0.17);
        let text = encode(&v).unwrap();
        assert!(text.starts_with('[') && text.ends_with(']'));
        let back = decode(&text).unwrap();
        assert_eq!(v, back, "dim {dim}: encode -> decode must be exact (shortest f32 repr)");
    }
}

#[test]
fn encode_refuses_a_zero_norm_embedding() {
    let err = encode(&[0.0; 8])
        .expect_err("a zero vector is not an embedding")
        .to_string();
    assert!(err.contains("zero norm"), "{err}");
    assert!(err.contains("unit-norm"), "{err}");
    assert!(err.contains("NaN"), "{err}");
    assert!(
        encode(&[1e-30_f32; 8]).is_err(),
        "a norm that underflows to zero is the same defect one step further away"
    );
    assert!(encode(&[1e-6_f32, 0.0, 0.0]).is_ok());
    assert_eq!(encode(&[]).unwrap(), "[]");
}

#[test]
fn vector_decode_accepts_cockroach_renderings() {
    assert_eq!(decode("[0.5,-0.25,1e2]").unwrap(), vec![0.5, -0.25, 100.0]);
    assert_eq!(decode("[]").unwrap(), Vec::<f32>::new());
    assert_eq!(decode(" [ 1 , 2 ] ").unwrap(), vec![1.0, 2.0]);
    assert!(decode("[1,oops]").is_err());
}

#[test]
fn vector_encode_rejects_non_finite() {
    let mut v = sample_vec(4, 1.0);
    v[2] = f32::NAN;
    assert!(encode(&v).is_err());
    v[2] = f32::INFINITY;
    assert!(encode(&v).is_err());
}

#[test]
fn the_bits_decide_as_the_numbers_do() {
    let edge = f32::from_bits(0x1a00_0000);
    let samples = [
        0.0,
        -0.0,
        edge,
        -edge,
        f32::from_bits(0x1a00_0001),
        -f32::from_bits(0x1a00_0001),
        f32::from_bits(1),
        f32::MIN_POSITIVE,
        1.0,
        -3.5,
        f32::MAX,
        f32::MIN,
        f32::INFINITY,
        f32::NEG_INFINITY,
        f32::NAN,
        -f32::NAN,
    ];
    for a in samples {
        for b in samples {
            let v = [a, b];
            let bits = vec![a.to_bits(), b.to_bits()];
            let norm_sq: f32 = v.iter().map(|x| x * x).sum();
            let finite = v.iter().all(|x| x.is_finite());
            let kept = finite && !(norm_sq <= 0.0 || norm_sq.is_nan());
            assert_eq!(ensure_is_an_embedding(&bits).is_ok(), kept, "{a} {b}");
            if let Some(bad) = v.iter().find(|x| !x.is_finite()) {
                let at = v.iter().position(|x| !x.is_finite());
                assert_eq!(
                    ensure_is_an_embedding(&bits).unwrap_err().to_string(),
                    format!("backend: embedding contains non-finite value {bad} (at index {at:?})")
                );
            }
        }
    }
}

#[test]
fn a_piece_that_is_no_number_is_named() {
    let err = decode("[1, oops ,2]").unwrap_err();
    assert_eq!(
        err.to_string(),
        "backend: decode VECTOR element \" oops \" from \"[1, oops ,2]\": invalid float literal"
    );
    assert_eq!(vector_elements("[[1,2]]").len(), 2);
    assert_eq!(vector_elements("1,2").len(), 2);
    assert_eq!(vector_elements("[,]")[1].piece, "");
}

#[test]
fn white_space_is_what_unicode_says_it_is() {
    for n in 0..=0x10ffffu32 {
        let Some(c) = char::from_u32(n) else { continue };
        if c == ',' || c == '[' || c == ']' {
            continue;
        }
        let found = vector_elements(&format!("[1,{c}2{c},3]"));
        let white = matches!(
            n,
            0x09..=0x0d | 0x20 | 0x85 | 0xa0 | 0x1680 | 0x2000..=0x200a | 0x2028 | 0x2029 | 0x202f
                | 0x205f | 0x3000
        );
        let want = if white { "2".to_string() } else { format!("{c}2{c}") };
        assert_eq!(found[1].numeral, want, "U+{n:04X}");
    }
}

#[test]
fn node_id_default_is_nil_not_random() {
    assert!(NodeId::default().is_nil());
    assert_ne!(NodeId::new(), NodeId::new());
}

#[test]
fn a_fresh_identifier_is_a_random_uuid() {
    for _ in 0..50 {
        let text = NodeId::new().to_string();
        assert_eq!(text.len(), 36);
        assert_eq!(&text[14..15], "4");
        assert!(matches!(&text[19..20], "8" | "9" | "a" | "b"));
    }
}

#[test]
fn an_identifier_reads_back_from_its_text() {
    let id = NodeId(0x0123_4567_89ab_cdef_0123_4567_89ab_cdef);
    assert_eq!(id.to_string(), "01234567-89ab-cdef-0123-456789abcdef");
    assert_eq!(node_id(&id.to_string(), "node id").unwrap(), id);
    assert_eq!(opt_node_id(&None, "node id").unwrap(), None);
    assert_eq!(opt_node_id(&Some(id.to_string()), "node id").unwrap(), Some(id));
    let err = node_id("nope", "concept id").unwrap_err().to_string();
    assert!(err.starts_with("backend: invalid stored concept id \"nope\": "), "{err}");
    assert_eq!(NodeId::from(7u128), NodeId(7));
}

#[test]
fn names_are_made_from_texts() {
    assert_eq!(SessionId::from("s"), SessionId::new("s"));
    assert_eq!(SessionId::from("s".to_string()).as_str(), "s");
    assert_eq!(AgentId::from("a").as_str(), "a");
    assert!(AgentId::new("a").same(&AgentId::from("a")));
    assert!(!SessionId::new("a").same(&SessionId::new("b")));
}

#[test]
fn an_instant_is_written_at_milliseconds() {
    let t = Timestamp::from_parts(1_767_268_800, 123_999_999).unwrap();
    assert_eq!(ts_to_text(&t), "2026-01-01T12:00:00.123Z");
    assert_eq!(
        text_to_ts("2026-01-01T12:00:00.123Z").unwrap(),
        Timestamp::from_parts(1_767_268_800, 123_000_000).unwrap()
    );
    let texts = [
        (0, 0, "1970-01-01T00:00:00.000Z"),
        (-1, 0, "1969-12-31T23:59:59.000Z"),
        (951_782_400, 0, "2000-02-29T00:00:00.000Z"),
        (253_402_300_799, 999_000_000, "9999-12-31T23:59:59.999Z"),
        (-62_167_219_200, 0, "0000-01-01T00:00:00.000Z"),
        (1_483_228_799, 1_500_000_000, "2016-12-31T23:59:60.500Z"),
    ];
    for (secs, nanos, text) in texts {
        let t = Timestamp::from_parts(secs, nanos).unwrap();
        assert_eq!(write_ts(&t), text);
        assert_eq!(text_to_ts(text).unwrap(), t, "{text}");
    }
    let far = Timestamp::from_parts(253_402_300_800, 0).unwrap();
    assert_eq!(write_ts(&far), "+10000-01-01T00:00:00.000Z");
    assert!(text_to_ts(&write_ts(&far)).is_err(), "a year of five digits is not read back");
    assert_eq!(opt_text_to_ts(&None).unwrap(), None);
    let err = text_to_ts("yesterday").unwrap_err().to_string();
    assert!(err.starts_with("backend: invalid stored timestamp \"yesterday\": "), "{err}");
}

#[test]
fn an_instant_lies_in_its_range() {
    assert!(Timestamp::from_parts(i64::MAX, 0).is_none());
    assert!(Timestamp::from_parts(i64::MIN, 0).is_none());
    assert!(Timestamp::from_parts(0, 2_000_000_000).is_none());
    assert!(Timestamp::from_parts(0, 1_000_000_000).is_none(), "no leap second within a minute");
    assert!(Timestamp::from_parts(59, 1_000_000_000).is_some());
    let t = Timestamp::from_parts(-1, 1_000_000).unwrap();
    assert_eq!(t.timestamp_millis(), -999);
    assert_eq!(t.parts(), (-1, 1_000_000));
    assert_eq!(t.total_nanos(), -999_000_000);
}

#[test]
fn stored_texts_sort_by_time() {
    let instants = [
        (-62_167_219_200, 0),
        (-1, 999_000_000),
        (0, 0),
        (0, 1_000_000),
        (86_399, 0),
        (86_400, 0),
        (951_782_399, 0),
        (951_782_400, 0),
        (253_402_300_799, 999_000_000),
    ];
    let texts: Vec<String> = instants
        .iter()
        .map(|&(s, n)| ts_to_text(&Timestamp::from_parts(s, n).unwrap()))
        .collect();
    for i in 0..texts.len() {
        for j in 0..texts.len() {
            assert_eq!(earlier(&texts[i], &texts[j]), i < j);
            assert_eq!(no_later(&texts[i], &texts[j]), i <= j);
        }
    }
    let key = |parts: &[&str]| -> Vec<String> { parts.iter().map(|s| s.to_string()).collect() };
    assert!(list_is_no_later(&key(&["a", "z"]), &key(&["b", "a"])));
    assert!(!list_is_no_later(&key(&["b", "a"]), &key(&["a", "z"])));
}

#[test]
fn the_time_between_two_instants_is_signed() {
    let a = Timestamp::from_parts(10, 250_000_000).unwrap();
    let b = Timestamp::from_parts(8, 750_000_000).unwrap();
    assert_eq!(a.since(&b), 1_500_000_000);
    assert_eq!(b.since(&a), -1_500_000_000);
    assert_eq!(a.minus(1, 500_000_000), b);
}

#[test]
fn a_cutoff_lies_an_age_before_now() {
    let now = Timestamp::from_parts(1_767_268_800, 0).unwrap();
    assert_eq!(cutoff_text(&now, 60, 500_000_000).unwrap(), "2026-01-01T11:58:59.500Z");
    let err = cutoff_text(&now, u64::MAX, 0).unwrap_err();
    assert!(matches!(err, StoreError::Backend(ref m) if m.contains("age duration out of range")));
}

#[test]
fn every_stored_word_reads_back() {
    for t in [
        ConceptType::Entity,
        ConceptType::Logic,
        ConceptType::Constraint,
        ConceptType::Resource,
        ConceptType::Observation,
    ] {
        assert_eq!(text_to_concept_type(&concept_type_to_text(t)).unwrap(), t);
    }
    for t in [
        EdgeType::Temporal,
        EdgeType::Derives,
        EdgeType::CoOccurrence,
        EdgeType::Causal,
        EdgeType::Dependency,
        EdgeType::Hierarchical,
        EdgeType::Semantic,
    ] {
        assert_eq!(text_to_edge_type(&edge_type_to_text(t)).unwrap(), t);
    }
    for t in [
        CanonizationStatus::Uncanonized,
        CanonizationStatus::Candidate,
        CanonizationStatus::Venerable,
        CanonizationStatus::Canonical,
    ] {
        assert_eq!(text_to_status(&status_to_text(t), "to_status").unwrap(), t);
    }
    assert_eq!(status_to_text(CanonizationStatus::default()), "None");
    let err = text_to_edge_type("Magic").unwrap_err().to_string();
    assert!(
        err.starts_with("backend: invalid stored edge_type \"Magic\": unknown variant `Magic`"),
        "{err}"
    );
    assert!(text_to_concept_type("entity").is_err());
    let err = text_to_status("", "from_status").unwrap_err().to_string();
    assert!(err.contains("invalid stored from_status \"\""), "{err}");
    assert_eq!(MatchStrategy::default(), MatchStrategy::Canonical);
}

#[test]
fn contracts_are_compatible_only_where_all_agrees() {
    let c = |kind: &str, model: Option<&str>, dim| EmbeddingContract {
        kind: kind.to_string(),
        model: model.map(|m| m.to_string()),
        dim,
    };
    let ours = c("bge_m3", None, 1024);
    assert!(ours.ensure_compatible(&ours.clone()).is_ok());
    for other in [c("fixture", None, 1024), c("bge_m3", Some("x"), 1024), c("bge_m3", None, 8)] {
        assert!(ours.ensure_compatible(&other).is_err());
    }
    let err = ours.ensure_compatible(&c("fixture", Some("m\"1"), 8)).unwrap_err();
    assert_eq!(
        err.to_string(),
        "config: embedding contract is incompatible: this session's vectors were written by \
         kind=bge_m3 model=\"(default)\" dim=1024, but the live/attached embedder is kind=fixture \
         model=\"m\\\"1\" dim=8 — re-embed or start a new session before writing or reading"
    );
}

#[test]
fn every_error_has_its_message() {
    let m = || "x".to_string();
    let store = [
        (StoreError::SessionNotFound(m()), "session not found: x", true),
        (StoreError::NotFound(m()), "not found: x", true),
        (StoreError::Capability(m()), "capability not supported: x", true),
        (StoreError::Invariant(m()), "invariant violated: x", true),
        (StoreError::Backend(m()), "backend: x", true),
        (StoreError::Constraint(m()), "constraint violated (x)", false),
        (StoreError::StaleWrite(m()), "stale write (fencing token): x", false),
        (StoreError::Other(m()), "x", true),
    ];
    for (e, text, retryable) in store {
        assert_eq!(e.to_string(), text);
        assert_eq!(e.is_retryable(), retryable, "{text}");
        assert_eq!(LamboError::from(e).to_string(), text);
    }
    let api = [
        (LamboError::Embed(m()), "embed: x"),
        (LamboError::EmbedUnavailable(m()), "embed: x"),
        (LamboError::Config(m()), "config: x"),
        (LamboError::Conflict(m()), "conflict: x"),
        (LamboError::SoftLock(m()), "conflict: x"),
        (LamboError::Other(m()), "x"),
    ];
    for (e, text) in api {
        assert_eq!(e.to_string(), text);
    }
}

#[test]
fn a_batch_counts_its_mutations() {
    let mut b = MutationBatch::new();
    assert!(b.is_empty());
    b.push(Mutation::DeleteNode { id: NodeId(1) });
    b.push(Mutation::DeleteEdge { id: NodeId(2) });
    assert_eq!(b.len(), 2);
    assert!(!b.is_empty());
}
