use lambo::store::bulk::CONCEPTS_TOGETHER;
use lambo::store::flush::{flush, record_canonization, seed};
use lambo::store::keyword::keyword_candidates;
use lambo::store::lease::{
    acquire_or_refresh, lease_permits_write, read_lease, release_lease, LeaseOutcome, LeaseRequest,
    LeaseRow,
};
use lambo::store::load::load_session;
use lambo::store::rows::{ConceptRow, IntentRow};
use lambo::store::schema::{
    column_migrations, pending_migrations, preflight_schema, required_schema, TableShape,
};
use lambo::store::session::SessionRow;
use lambo::store::stats::{read_flush_stats, stat_from_column, stat_to_column, SessionFlushStats};
use lambo::store::structure::{blast_radius, interaction_span, SpanMeasure};
use lambo::store::table::Table;
use lambo::store::tables::Tables;
use lambo::store::uri::is_in_memory_uri;
use lambo::store::vectors::{
    check_vector_dim, rank_by_score, validate_vector_candidate_limit, vector_candidates,
    vector_candidates_checked, Ranked,
};
use lambo::time::Timestamp;
use lambo::types::{
    AgentId, CanonizationEvent, CanonizationStatus, Concept, ConceptType, Edge, EdgeType,
    EmbeddingContract, GraphSnapshot, Interaction, Mutation, MutationBatch, Node, NodeId,
    Reservation, SessionId, StoreError, Synonym, WriteIntent, WriteIntentOutcome,
    WriteIntentPayload,
};

const BASE: i64 = 1_752_000_000;

/// The most candidates that may be asked for.
const MOST: usize = 1000;

fn at(secs: i64) -> Timestamp {
    Timestamp::from_parts(BASE + secs, 0).unwrap()
}

fn session(name: &str) -> SessionId {
    SessionId::new(name)
}

fn contract(dim: usize) -> EmbeddingContract {
    EmbeddingContract {
        kind: "fixture".to_string(),
        model: Some("test-model".to_string()),
        dim,
    }
}

fn interaction(s: &str, id: NodeId, prev: Option<NodeId>, ts: Timestamp) -> Mutation {
    Mutation::UpsertNode {
        node: Node::Interaction(Interaction {
            id,
            session_id: session(s),
            agent_id: AgentId::new("a"),
            prompt_text: Some("prompt".to_string()),
            previous_id: prev,
            created_at: ts,
        }),
    }
}

fn plain_concept(s: &str, id: NodeId, origin: NodeId, content: &str, ts: Timestamp) -> Concept {
    Concept {
        id,
        session_id: session(s),
        content: content.to_string(),
        canonical_key: content.to_lowercase(),
        concept_type: ConceptType::Entity,
        origin_interaction: origin,
        origin_agent: AgentId::new("a"),
        created_at: ts,
        access_count: 0,
        last_accessed: None,
        gc_survived: 0,
        canonization_status: CanonizationStatus::Uncanonized,
        blast_radius: None,
        last_demotion_time: None,
        embedding: None,
        chunk_group_id: None,
    }
}

fn upsert(c: Concept) -> Mutation {
    Mutation::UpsertNode {
        node: Node::Concept(c),
    }
}

fn concept(s: &str, id: NodeId, origin: NodeId, content: &str, ts: Timestamp) -> Mutation {
    upsert(plain_concept(s, id, origin, content, ts))
}

fn typed(
    s: &str,
    id: NodeId,
    origin: NodeId,
    content: &str,
    concept_type: ConceptType,
    ts: Timestamp,
) -> Mutation {
    let mut c = plain_concept(s, id, origin, content, ts);
    c.concept_type = concept_type;
    upsert(c)
}

fn bits(v: &[f32]) -> Vec<u32> {
    v.iter().map(|x| x.to_bits()).collect()
}

fn probe(width: usize) -> Vec<u32> {
    let mut v = vec![0; width];
    v[0] = 1.0f32.to_bits();
    v
}

fn embedded(s: &str, id: NodeId, origin: NodeId, content: &str, v: &[f32]) -> Mutation {
    let mut c = plain_concept(s, id, origin, content, at(0));
    c.embedding = Some(bits(v));
    upsert(c)
}

fn edge(s: &str, source: NodeId, target: NodeId, edge_type: EdgeType, ts: Timestamp) -> Mutation {
    Mutation::UpsertEdge {
        edge: Edge {
            id: NodeId::new(),
            session_id: session(s),
            source,
            target,
            edge_type,
            weight: 1.0f64.to_bits(),
            reinforcements: 1,
            created_at: ts,
            last_reinforced: ts,
        },
    }
}

fn stamp(s: &str, c: Option<EmbeddingContract>) -> Mutation {
    Mutation::SetEmbedding {
        session_id: session(s),
        embedding: c,
    }
}

fn write(t: Tables, mutations: Vec<Mutation>) -> Result<Tables, StoreError> {
    flush(t, &MutationBatch { mutations }, None)
}

fn event(s: &str, id: NodeId, node: NodeId, to: CanonizationStatus) -> CanonizationEvent {
    CanonizationEvent {
        id,
        session_id: session(s),
        node_id: node,
        from_status: CanonizationStatus::Uncanonized,
        to_status: to,
        blast_radius: Some(3),
        last_demotion_time: None,
        occurred_at: at(5),
    }
}

fn ids(n: usize) -> Vec<NodeId> {
    (1..=n as u128).map(NodeId).collect()
}

#[test]
fn load_missing_session_errors() {
    let err = load_session(&Tables::new(), &session("ghost")).unwrap_err();
    assert!(matches!(err, StoreError::SessionNotFound(ref s) if s == "ghost"));
}

#[test]
fn flush_load_roundtrip_gives_back_what_was_written() {
    let id = ids(5);
    let mut c = plain_concept("rt", id[1], id[0], "Thing", at(1));
    c.access_count = 3;
    c.last_accessed = Some(Timestamp::from_parts(BASE, 123_456_789).unwrap());
    c.chunk_group_id = Some("g".to_string());
    c.canonization_status = CanonizationStatus::Candidate;
    c.embedding = Some(bits(&[0.5, -2.0]));
    let t = write(
        Tables::new(),
        vec![
            interaction("rt", id[0], None, at(0)),
            upsert(c),
            concept("rt", id[2], id[0], "Other", at(2)),
            edge("rt", id[1], id[2], EdgeType::Causal, at(3)),
        ],
    )
    .unwrap();
    let snap = load_session(&t, &session("rt")).unwrap();
    assert_eq!(snap.session_id, session("rt"));
    assert_eq!(snap.interactions.len(), 1);
    assert_eq!(snap.interactions[0].prompt_text.as_deref(), Some("prompt"));
    assert_eq!(snap.concepts.len(), 2);
    let got = &snap.concepts[0];
    assert_eq!(got.id, id[1]);
    assert_eq!(got.content, "Thing");
    assert_eq!(got.access_count, 3);
    assert_eq!(
        got.last_accessed,
        Timestamp::from_parts(BASE, 123_000_000),
        "instants are cut to the millisecond"
    );
    assert_eq!(got.chunk_group_id.as_deref(), Some("g"));
    assert_eq!(got.canonization_status, CanonizationStatus::Candidate);
    assert_eq!(got.embedding, Some(bits(&[0.5, -2.0])));
    assert_eq!(snap.edges.len(), 1);
    assert_eq!(snap.edges[0].edge_type, EdgeType::Causal);
    assert_eq!(snap.edges[0].weight, 1.0f64.to_bits());
    assert!(snap.created_at.is_none() && snap.closed_at.is_none());
}

#[test]
fn timestamps_fixed_format_and_lex_ordering() {
    let t1 = Timestamp::from_parts(1_767_268_800, 0).unwrap();
    let t2 = Timestamp::from_parts(1_767_268_800, 250_000_000).unwrap();
    let id = ids(2);
    let t = write(
        Tables::new(),
        vec![
            interaction("ts", id[1], None, t2),
            interaction("ts", id[0], None, t1),
        ],
    )
    .unwrap();
    let mut raw: Vec<String> = t.interactions.rows().iter().map(|r| r.created_at.clone()).collect();
    raw.sort();
    assert_eq!(raw, vec!["2026-01-01T12:00:00.000Z", "2026-01-01T12:00:00.250Z"]);
    assert_eq!(raw[0].len(), 24);
    let times: Vec<Timestamp> = load_session(&t, &session("ts"))
        .unwrap()
        .interactions
        .iter()
        .map(|i| i.created_at)
        .collect();
    assert_eq!(times, vec![t1, t2]);
}

#[test]
fn an_empty_batch_changes_nothing() {
    let t = write(Tables::new(), Vec::new()).unwrap();
    assert!(t.sessions.rows().is_empty());
}

#[test]
fn partial_unique_demote_duplicates_pass_but_entity_duplicates_fail() {
    let id = ids(6);
    let t = write(
        Tables::new(),
        vec![
            interaction("uniq", id[0], None, at(0)),
            typed("uniq", id[1], id[0], "duplicate sentence", ConceptType::Observation, at(0)),
            typed("uniq", id[2], id[0], "duplicate sentence", ConceptType::Observation, at(0)),
            typed("uniq", id[3], id[0], "duplicate sentence", ConceptType::Entity, at(0)),
        ],
    )
    .unwrap();
    assert_eq!(load_session(&t, &session("uniq")).unwrap().concepts.len(), 3);
    let err = write(
        t,
        vec![typed("uniq", id[4], id[0], "duplicate sentence", ConceptType::Entity, at(0))],
    )
    .unwrap_err();
    assert!(matches!(err, StoreError::Constraint(_)), "{err:?}");
    assert!(!err.is_retryable());
}

#[test]
fn a_row_that_names_a_missing_interaction_is_refused() {
    let id = ids(4);
    let err = write(Tables::new(), vec![interaction("fk", id[1], Some(id[0]), at(0))]).unwrap_err();
    assert!(matches!(err, StoreError::Constraint(ref m) if m.starts_with("upsert interaction")));
    let err = write(Tables::new(), vec![concept("fk", id[1], id[0], "x", at(0))]).unwrap_err();
    assert!(matches!(err, StoreError::Constraint(ref m) if m.contains("FOREIGN KEY")));
    let t = write(
        Tables::new(),
        vec![
            interaction("fk", id[0], None, at(0)),
            concept("fk", id[1], id[0], "x", at(0)),
        ],
    )
    .unwrap();
    let err = write(t, vec![Mutation::DeleteNode { id: id[0] }]).unwrap_err();
    assert!(matches!(err, StoreError::Constraint(ref m) if m.starts_with("delete interaction")));
}

#[test]
fn a_repeated_interaction_does_not_outrun_the_row_that_chains_onto_it() {
    let id = ids(2);
    for order in [[0, 0, 1], [0, 1, 0]] {
        let ms = order
            .iter()
            .map(|&i| {
                let prev = if i == 1 { Some(id[0]) } else { None };
                interaction("chain", id[i], prev, at(0))
            })
            .collect();
        let t = write(Tables::new(), ms).unwrap();
        let snap = load_session(&t, &session("chain")).unwrap();
        assert_eq!(snap.interactions.len(), 2, "one row per id");
        let chained = snap.interactions.iter().find(|i| i.id == id[1]).unwrap();
        assert_eq!(chained.previous_id, Some(id[0]));
        assert_eq!(t.interactions.rows()[0].id, id[0].to_string(), "a row keeps its place");
    }
}

#[test]
fn a_repeated_concept_in_one_batch_collapses_like_row_by_row_replay() {
    let id = ids(2);
    let mut born = plain_concept("rep", id[1], id[0], "pillar", at(0));
    born.canonization_status = CanonizationStatus::Canonical;
    born.blast_radius = Some(9);
    born.last_demotion_time = Some(at(0));
    let mut later = plain_concept("rep", id[1], id[0], "pillar", at(0));
    later.gc_survived = 4;
    later.content = "pillar (revised)".to_string();
    let t = write(
        Tables::new(),
        vec![interaction("rep", id[0], None, at(0)), upsert(born), upsert(later)],
    )
    .unwrap();
    let snap = load_session(&t, &session("rep")).unwrap();
    assert_eq!(snap.concepts.len(), 1, "one row, not two");
    let row = &snap.concepts[0];
    assert_eq!(row.content, "pillar (revised)");
    assert_eq!(row.gc_survived, 4);
    assert_eq!(row.canonization_status, CanonizationStatus::Canonical);
    assert_eq!(row.blast_radius, Some(9));
    assert_eq!(row.last_demotion_time, Some(at(0)));
}

#[test]
fn a_batch_larger_than_the_chunk_limit_round_trips_whole() {
    let origin = NodeId(1);
    let mut ms = vec![interaction("big", origin, None, at(0))];
    for i in 0..205u128 {
        ms.push(concept("big", NodeId(1000 + i), origin, &format!("c{i}"), at(0)));
    }
    for i in 0..204u128 {
        ms.push(edge("big", NodeId(1000 + i), NodeId(1001 + i), EdgeType::Semantic, at(0)));
    }
    let snap = load_session(&write(Tables::new(), ms).unwrap(), &session("big")).unwrap();
    assert_eq!(snap.concepts.len(), 205);
    assert_eq!(snap.edges.len(), 204);
}

#[test]
fn an_edge_of_a_kind_between_two_nodes_is_there_once() {
    let id = ids(3);
    let mut first = edge("e", id[1], id[2], EdgeType::Semantic, at(0));
    let t = write(Tables::new(), vec![first]).unwrap();
    first = edge("e", id[1], id[2], EdgeType::Semantic, at(9));
    let t = write(t, vec![first, edge("e", id[1], id[2], EdgeType::Causal, at(9))]).unwrap();
    let snap = load_session(&t, &session("e")).unwrap();
    assert_eq!(snap.edges.len(), 2);
    let again = snap.edges.iter().find(|e| e.edge_type == EdgeType::Semantic).unwrap();
    assert_eq!(again.created_at, at(9));
    let t = write(t, vec![Mutation::DeleteEdge { id: again.id }]).unwrap();
    assert_eq!(load_session(&t, &session("e")).unwrap().edges.len(), 1);
}

#[test]
fn a_deleted_node_takes_its_edges_along() {
    let id = ids(4);
    let t = write(
        Tables::new(),
        vec![
            interaction("del", id[0], None, at(0)),
            concept("del", id[1], id[0], "one", at(0)),
            concept("del", id[2], id[0], "two", at(0)),
            concept("del", id[3], id[0], "three", at(0)),
            edge("del", id[1], id[2], EdgeType::Causal, at(0)),
            edge("del", id[3], id[1], EdgeType::Causal, at(0)),
            edge("del", id[2], id[3], EdgeType::Causal, at(0)),
            Mutation::DeleteNode { id: id[1] },
        ],
    )
    .unwrap();
    let snap = load_session(&t, &session("del")).unwrap();
    assert_eq!(snap.concepts.len(), 2);
    assert_eq!(snap.edges.len(), 1);
    assert_eq!(snap.edges[0].source, id[2]);
}

#[test]
fn vector_write_gate_refuses_a_concept_of_the_wrong_width() {
    let id = ids(3);
    let err = write(
        Tables::new(),
        vec![
            interaction("gate", id[0], None, at(0)),
            stamp("gate", Some(contract(4))),
            embedded("gate", id[1], id[0], "good", &[1.0, 0.0, 0.0, 0.0]),
            embedded("gate", id[2], id[0], "bad", &[1.0, 0.0, 0.0]),
        ],
    )
    .unwrap_err();
    assert!(matches!(err, StoreError::Invariant(_)), "{err:?}");
    let msg = err.to_string();
    for needle in ["3-dimensional", "stores vectors of 4"] {
        assert!(msg.contains(needle), "{msg}");
    }
    assert!(msg.contains(&id[2].to_string()) && msg.contains("session gate"));
}

#[test]
fn vector_write_gate_reads_the_contract_each_step_sees() {
    let id = ids(2);
    let t = write(
        Tables::new(),
        vec![
            interaction("fresh", id[0], None, at(0)),
            stamp("fresh", Some(contract(4))),
            embedded("fresh", id[1], id[0], "after", &[1.0, 0.0, 0.0, 0.0]),
        ],
    )
    .unwrap();
    assert!(load_session(&t, &session("fresh")).unwrap().concepts[0].embedding.is_some());

    let t = write(
        Tables::new(),
        vec![
            interaction("pre", id[0], None, at(0)),
            embedded("pre", id[1], id[0], "before", &[1.0, 0.0, 0.0]),
            stamp("pre", Some(contract(4))),
        ],
    )
    .unwrap();
    let loaded = load_session(&t, &session("pre")).unwrap();
    assert_eq!(loaded.embedding, Some(contract(4)));
    assert_eq!(loaded.concepts[0].embedding, None);
    let pool = vector_candidates_checked(&t, &session("pre"), &probe(4), &contract(4), 5, MOST).unwrap();
    assert!(pool.is_empty());
}

fn assert_restamp_left_no_orphan(t: &Tables, s: &str, wide: NodeId, narrow: NodeId) {
    let loaded = load_session(t, &session(s)).unwrap();
    assert_eq!(loaded.embedding, Some(contract(3)));
    let find = |id: NodeId| {
        loaded.concepts.iter().find(|c| c.id == id).unwrap().embedding.clone()
    };
    assert_eq!(find(wide), None);
    assert_eq!(find(narrow), Some(bits(&[1.0, 0.0, 0.0])));
    let hits = vector_candidates_checked(t, &session(s), &probe(3), &contract(3), 5, MOST).unwrap();
    assert_eq!(hits.len(), 1);
    assert_eq!(hits[0].id, narrow);
    let frozen = vector_candidates(t, &session(s), &probe(3), 5, MOST).unwrap();
    assert_eq!(frozen.len(), 1);
    assert_eq!(frozen[0].id, narrow);
}

#[test]
fn vector_write_gate_restamp_inside_one_batch_cannot_orphan_earlier_vectors() {
    let id = ids(3);
    let t = write(
        Tables::new(),
        vec![
            interaction("re1", id[0], None, at(0)),
            stamp("re1", Some(contract(4))),
            embedded("re1", id[1], id[0], "written under dim 4", &[1.0, 0.0, 0.0, 0.0]),
            stamp("re1", Some(contract(3))),
            embedded("re1", id[2], id[0], "written under dim 3", &[1.0, 0.0, 0.0]),
        ],
    )
    .unwrap();
    assert_restamp_left_no_orphan(&t, "re1", id[1], id[2]);
}

#[test]
fn vector_write_gate_restamp_across_two_flushes_cannot_orphan_earlier_vectors() {
    let id = ids(3);
    let t = write(
        Tables::new(),
        vec![
            interaction("re2", id[0], None, at(0)),
            stamp("re2", Some(contract(4))),
            embedded("re2", id[1], id[0], "written under dim 4", &[1.0, 0.0, 0.0, 0.0]),
        ],
    )
    .unwrap();
    assert_eq!(
        vector_candidates_checked(&t, &session("re2"), &probe(4), &contract(4), 5, MOST).unwrap().len(),
        1
    );
    let t = write(
        t,
        vec![
            stamp("re2", Some(contract(3))),
            embedded("re2", id[2], id[0], "written under dim 3", &[1.0, 0.0, 0.0]),
        ],
    )
    .unwrap();
    assert_restamp_left_no_orphan(&t, "re2", id[1], id[2]);
}

#[test]
fn vector_write_gate_same_width_relabel_keeps_the_vectors() {
    let id = ids(2);
    let mut t = write(
        Tables::new(),
        vec![
            interaction("relabel", id[0], None, at(0)),
            stamp("relabel", Some(contract(4))),
            embedded("relabel", id[1], id[0], "kept", &[1.0, 0.0, 0.0, 0.0]),
        ],
    )
    .unwrap();
    for (kind, model) in [("fixture", "test-model-v2"), ("bge_m3", "test-model-v2")] {
        let renamed = EmbeddingContract {
            kind: kind.to_string(),
            model: Some(model.to_string()),
            dim: 4,
        };
        t = write(t, vec![stamp("relabel", Some(renamed.clone()))]).unwrap();
        let loaded = load_session(&t, &session("relabel")).unwrap();
        assert_eq!(loaded.embedding.as_ref(), Some(&renamed));
        assert_eq!(loaded.concepts[0].embedding, Some(bits(&[1.0, 0.0, 0.0, 0.0])));
        let hits = vector_candidates_checked(&t, &session("relabel"), &probe(4), &renamed, 5, MOST).unwrap();
        assert_eq!(hits.len(), 1);
        assert_eq!(hits[0].vector, bits(&[1.0, 0.0, 0.0, 0.0]));
    }
}

#[test]
fn vector_candidates_refuse_a_changed_embedding_contract() {
    let id = ids(2);
    let durable = contract(4);
    let t = write(
        Tables::new(),
        vec![
            interaction("vec-contract", id[0], None, at(0)),
            stamp("vec-contract", Some(durable.clone())),
            embedded("vec-contract", id[1], id[0], "stored", &[1.0, 0.0, 0.0, 0.0]),
        ],
    )
    .unwrap();
    let sid = session("vec-contract");
    let ask = |v: &[f32], c: &EmbeddingContract| {
        vector_candidates_checked(&t, &sid, &bits(v), c, 5, MOST)
    };
    let hits = ask(&[1.0, 0.0, 0.0, 0.0], &durable).unwrap();
    assert_eq!(hits.len(), 1);
    assert_eq!(hits[0].id, id[1]);

    let mismatches = [
        ("kind", EmbeddingContract { kind: "bge_m3".to_string(), ..durable.clone() }),
        ("model", EmbeddingContract { model: Some("other-model".to_string()), ..durable.clone() }),
        ("model cleared", EmbeddingContract { model: None, ..durable.clone() }),
    ];
    for (what, expected) in mismatches {
        let err = ask(&[1.0, 0.0, 0.0, 0.0], &expected).unwrap_err();
        assert!(
            matches!(err, StoreError::Invariant(_)),
            "{what} mismatch must be Invariant, got {err:?}"
        );
        assert!(err.to_string().contains("embedding contract changed"), "{what}: {err:?}");
    }

    let mut cleared = durable.clone();
    cleared.model = None;
    let msg = ask(&[1.0, 0.0, 0.0, 0.0], &cleared).unwrap_err().to_string();
    assert!(
        msg.contains("vector candidate lookup refused after embedding contract changed: config: "),
        "{msg}"
    );
    assert!(msg.contains("model=\"test-model\" dim=4"), "{msg}");
    assert!(msg.contains("model=\"(default)\" dim=4"), "{msg}");

    let err = ask(&[1.0, 0.0], &contract(2)).unwrap_err();
    assert!(matches!(err, StoreError::Invariant(_)), "{err:?}");
    assert!(err.to_string().contains("embedding contract changed"), "{err:?}");

    let err = ask(&[1.0, 0.0], &durable).unwrap_err();
    assert!(matches!(err, StoreError::Invariant(_)), "{err:?}");
    assert!(err.to_string().contains("dimensions"), "{err:?}");
    assert!(err
        .to_string()
        .contains("query embedding has 2 dimensions but session vec-contract stores vectors of 4"));
}

#[test]
fn a_vector_without_direction_is_neither_written_nor_asked_for() {
    let id = ids(2);
    let one = |v: &[f32]| {
        write(
            Tables::new(),
            vec![
                interaction("flat", id[0], None, at(0)),
                stamp("flat", Some(contract(2))),
                embedded("flat", id[1], id[0], "x", v),
            ],
        )
    };
    let err = one(&[0.0, 0.0]).unwrap_err();
    assert!(err.to_string().contains("embedding has zero norm over 2 dimensions"), "{err:?}");
    let err = one(&[1.0, f32::NAN]).unwrap_err();
    assert_eq!(
        err.to_string(),
        "backend: embedding contains non-finite value NaN (at index Some(1))"
    );
    let err = one(&[0.0]).unwrap_err();
    assert!(matches!(err, StoreError::Invariant(_)), "the width is tested first");
    let t = one(&[0.0, 1.0]).unwrap();
    let asked = |v: &[f32], limit| {
        vector_candidates_checked(&t, &session("flat"), &bits(v), &contract(2), limit, MOST)
    };
    assert_eq!(asked(&[1.0, 0.0], 5).unwrap().len(), 1);
    assert!(asked(&[0.0, 0.0], 5).unwrap_err().to_string().contains("zero norm"));
    assert!(asked(&[0.0, 0.0], 0).unwrap().is_empty());
    let err = vector_candidates(&t, &session("flat"), &bits(&[f32::INFINITY, 0.0]), 5, MOST).unwrap_err();
    assert!(err.to_string().contains("non-finite value inf (at index Some(0))"));
}

fn cosine(a: &[f32], b: &[f32]) -> f64 {
    let dot = |x: &[f32], y: &[f32]| -> f64 {
        x.iter().zip(y).map(|(p, q)| *p as f64 * *q as f64).sum()
    };
    dot(a, b) / (dot(a, a).sqrt() * dot(b, b).sqrt())
}

#[test]
fn vector_candidates_boundaries_top_k_and_zero() {
    let id = ids(4);
    let sid = session("vec-bounds");
    let mut mutations = vec![
        interaction("vec-bounds", id[3], None, at(0)),
        stamp("vec-bounds", Some(contract(4))),
    ];
    for (i, label) in ["c0", "c1", "c2"].iter().enumerate() {
        let v = [1.0, i as f32 * 0.25, 0.0, 0.0];
        mutations.push(embedded("vec-bounds", id[i], id[3], label, &v));
    }
    let t = write(Tables::new(), mutations).unwrap();
    let probe_at = [1.0f32, 0.0, 0.0, 0.0];
    let search = |k: usize| {
        let pool =
            vector_candidates_checked(&t, &sid, &bits(&probe_at), &contract(4), k, MOST).unwrap();
        let found = pool
            .iter()
            .map(|c| {
                let v: Vec<f32> = c.vector.iter().map(|b| f32::from_bits(*b)).collect();
                Ranked { score: (cosine(&probe_at, &v) * 1.0e9) as i64, id: c.id }
            })
            .collect();
        rank_by_score(found, k)
    };
    let all = search(100);
    assert_eq!(all.len(), 3, "top-k above the pool returns the whole pool");
    let order: Vec<NodeId> = all.iter().map(|r| r.id).collect();
    assert_eq!(order, vec![id[0], id[1], id[2]], "the nearest comes first");
    assert_eq!(search(1), all[..1].to_vec(), "k truncates the same ranking");
    assert!(search(0).is_empty());
    let changed = contract(999);
    assert!(vector_candidates_checked(&t, &sid, &bits(&probe_at), &changed, 0, MOST)
        .unwrap()
        .is_empty());
    assert!(vector_candidates(&t, &sid, &bits(&probe_at), 0, MOST).unwrap().is_empty());
    assert_eq!(vector_candidates(&t, &sid, &bits(&probe_at), 100, MOST).unwrap().len(), 3);

    let found: Vec<Ranked> = [(5, 3), (9, 2), (5, 1), (-1, 4)]
        .iter()
        .map(|&(score, id)| Ranked { score, id: NodeId(id) })
        .collect();
    let all = rank_by_score(found.clone(), 100);
    let order: Vec<u128> = all.iter().map(|r| r.id.0).collect();
    assert_eq!(order, vec![2, 1, 3, 4], "best first, ties by the smaller identifier");
    assert_eq!(rank_by_score(found.clone(), 1), all[..1].to_vec());
    assert!(rank_by_score(found, 0).is_empty());
}

#[test]
fn vector_candidates_are_empty_before_the_first_vector() {
    let id = ids(2);
    let empty = |t: &Tables, s: &str| {
        let checked = vector_candidates_checked(t, &session(s), &probe(4), &contract(4), 5, MOST);
        checked.unwrap().is_empty()
            && vector_candidates(t, &session(s), &probe(4), 5, MOST).unwrap().is_empty()
    };
    assert!(empty(&Tables::new(), "never-written"));
    let t = write(
        Tables::new(),
        vec![
            interaction("vec-unstamped", id[0], None, at(0)),
            concept("vec-unstamped", id[1], id[0], "unstamped", at(0)),
        ],
    )
    .unwrap();
    assert!(empty(&t, "vec-unstamped"));
    let t = write(
        Tables::new(),
        vec![
            interaction("vec-stamped-empty", id[0], None, at(0)),
            stamp("vec-stamped-empty", Some(contract(4))),
        ],
    )
    .unwrap();
    assert!(empty(&t, "vec-stamped-empty"));
}

#[test]
fn vector_search_capability_reports_a_configured_width() {
    assert_eq!(check_vector_dim(1536).unwrap(), 1536);
    let zero = check_vector_dim(0);
    assert!(matches!(zero, Err(StoreError::Invariant(_))), "{:?}", zero.err());
    let none = Tables::new();
    let x = session("x");
    let flat = bits(&[0.0; 8]);
    let over = vector_candidates_checked(&none, &x, &flat, &contract(8), MOST + 1, MOST);
    assert!(matches!(over.unwrap_err(), StoreError::Invariant(_)));
}

#[test]
fn a_lookup_asks_for_no_more_than_may_be() {
    assert!(validate_vector_candidate_limit(MOST, MOST).is_ok());
    assert!(validate_vector_candidate_limit(0, 0).is_ok());
    let err = validate_vector_candidate_limit(MOST + 1, MOST).unwrap_err();
    assert_eq!(
        err.to_string(),
        "invariant violated: vector candidate limit 1001 exceeds the maximum of 1000"
    );
    let t = write(
        Tables::new(),
        vec![interaction("most", NodeId(1), None, at(0)), stamp("most", Some(contract(4)))],
    )
    .unwrap();
    let sid = session("most");
    for asked in [MOST + 1, usize::MAX] {
        let err = vector_candidates_checked(&t, &sid, &probe(4), &contract(4), asked, MOST);
        assert!(matches!(err.unwrap_err(), StoreError::Invariant(_)));
        let err = vector_candidates(&t, &sid, &probe(4), asked, MOST);
        assert!(matches!(err.unwrap_err(), StoreError::Invariant(_)));
    }
    assert!(vector_candidates_checked(&t, &sid, &probe(4), &contract(4), MOST, MOST)
        .unwrap()
        .is_empty());
}

#[test]
fn a_run_of_concepts_is_tested_for_width_then_vector_then_key() {
    let id = ids(4);
    let with = |more: Vec<Mutation>| {
        let base = vec![
            interaction("run", id[0], None, at(0)),
            stamp("run", Some(contract(2))),
            concept("run", id[1], id[0], "held", at(0)),
        ];
        write(write(Tables::new(), base).unwrap(), more)
    };
    let flat = || embedded("run", id[2], id[0], "flat", &[0.0, 0.0]);
    let wide = || embedded("run", id[3], id[0], "wide", &[1.0, 0.0, 0.0]);
    let taken = || concept("run", id[2], id[0], "held", at(0));
    let lost = || concept("run", id[2], NodeId(77), "lost", at(0));
    assert!(matches!(with(vec![flat(), wide()]), Err(StoreError::Invariant(_))));
    assert!(matches!(with(vec![taken(), wide()]), Err(StoreError::Invariant(_))));
    let flat_after = embedded("run", id[3], id[0], "flat", &[0.0, 0.0]);
    assert!(matches!(with(vec![taken(), flat_after]), Err(StoreError::Backend(_))));
    let taken_after = concept("run", id[3], id[0], "held", at(0));
    let err = with(vec![lost(), taken_after]).unwrap_err();
    assert!(err.to_string().contains("UNIQUE"), "{err:?}");
    let err = with(vec![lost()]).unwrap_err();
    assert!(err.to_string().contains("FOREIGN KEY"), "{err:?}");

    let between = interaction("run", NodeId(78), None, at(0));
    let err = with(vec![taken(), between, wide()]).unwrap_err();
    assert!(err.to_string().contains("UNIQUE"), "another mutation ends the run: {err:?}");

    let mut long = vec![taken()];
    for n in 0..CONCEPTS_TOGETHER - 1 {
        let content = format!("filler {n}");
        long.push(concept("run", NodeId(1000 + n as u128), id[0], &content, at(0)));
    }
    long.push(wide());
    let err = with(long).unwrap_err();
    assert!(err.to_string().contains("UNIQUE"), "the next lot is tested later: {err:?}");

    let mut s = snapshot("run");
    s.embedding = Some(contract(2));
    s.interactions.push(Interaction {
        id: id[0],
        session_id: session("run"),
        agent_id: AgentId::new("a"),
        prompt_text: None,
        previous_id: None,
        created_at: at(0),
    });
    let mut zero = plain_concept("run", id[1], id[0], "zero", at(0));
    zero.embedding = Some(bits(&[0.0, 0.0]));
    let mut broad = plain_concept("run", id[2], id[0], "broad", at(0));
    broad.embedding = Some(bits(&[1.0, 0.0, 0.0]));
    s.concepts = vec![zero, broad];
    assert!(matches!(seed(Tables::new(), &s, &at(0)), Err(StoreError::Invariant(_))));
}

#[test]
fn a_flushed_batch_loads_back_exactly() {
    let id = ids(5);
    let second = || Interaction {
        id: id[1],
        session_id: session("whole"),
        agent_id: AgentId::new("a"),
        prompt_text: Some("prompt".to_string()),
        previous_id: Some(id[0]),
        created_at: at(5),
    };
    let schema = || {
        let mut c = plain_concept("whole", id[2], id[1], "user schema", at(6));
        c.embedding = Some(bits(&[1.0, 0.5]));
        c
    };
    let note = || {
        let mut c = plain_concept("whole", id[3], id[1], "drift note", at(7));
        c.concept_type = ConceptType::Observation;
        c.chunk_group_id = Some("chunk-1".to_string());
        c
    };
    let link = || Edge {
        id: id[4],
        session_id: session("whole"),
        source: id[2],
        target: id[3],
        edge_type: EdgeType::Causal,
        weight: 0.75f64.to_bits(),
        reinforcements: 3,
        created_at: at(8),
        last_reinforced: at(9),
    };
    let t = write(
        Tables::new(),
        vec![
            interaction("whole", id[0], None, at(9)),
            Mutation::UpsertNode { node: Node::Interaction(second()) },
            stamp("whole", Some(contract(2))),
            upsert(note()),
            upsert(schema()),
            Mutation::UpsertEdge { edge: link() },
        ],
    )
    .unwrap();
    let loaded = load_session(&t, &session("whole")).unwrap();
    let order: Vec<NodeId> = loaded.interactions.iter().map(|i| i.id).collect();
    assert_eq!(order, vec![id[1], id[0]], "by time");
    assert_eq!(loaded.interactions[0], second());
    let mut want = vec![schema(), note()];
    want.sort_by_key(|c| c.id.to_string());
    assert_eq!(loaded.concepts, want);
    assert_eq!(loaded.edges, vec![link()]);
    assert!(loaded.synonyms.is_empty() && loaded.reservations.is_empty());
    assert!(loaded.canonization_events.is_empty());
    assert!(loaded.created_at.is_none() && loaded.closed_at.is_none());
}

#[test]
fn vector_candidates_refuse_a_stored_vector_of_another_width() {
    let id = ids(2);
    let mut t = write(
        Tables::new(),
        vec![
            interaction("bad", id[0], None, at(0)),
            concept("bad", id[1], id[0], "x", at(0)),
            stamp("bad", Some(contract(4))),
        ],
    )
    .unwrap();
    let row = &t.concepts.rows()[0];
    let spoiled = ConceptRow {
        embedding: Some(vec![0; 3]),
        id: row.id.clone(),
        session_id: row.session_id.clone(),
        content: row.content.clone(),
        canonical_key: row.canonical_key.clone(),
        concept_type: row.concept_type.clone(),
        origin_interaction: row.origin_interaction.clone(),
        origin_agent: row.origin_agent.clone(),
        created_at: row.created_at.clone(),
        access_count: 0,
        last_accessed: None,
        gc_survived: 0,
        canonization_status: row.canonization_status.clone(),
        blast_radius: None,
        last_demotion_time: None,
        chunk_group_id: None,
    };
    t.concepts.put(spoiled);
    let err = vector_candidates_checked(&t, &session("bad"), &probe(4), &contract(4), 5, MOST).unwrap_err();
    assert!(
        err.to_string().contains("decodes to 3 dimensions but session bad declares 4"),
        "{err:?}"
    );
}

#[test]
fn a_store_has_a_width() {
    assert_eq!(check_vector_dim(1024).unwrap(), 1024);
    assert!(matches!(check_vector_dim(0).unwrap_err(), StoreError::Invariant(_)));
}

#[test]
fn root_goal_roundtrips_flush_and_load() {
    let set = |goal: Option<&str>| Mutation::SetRootGoal {
        session_id: session("goal"),
        goal: goal.map(|g| g.to_string()),
    };
    let mut t = Tables::new();
    for (given, want) in [
        (Some("\"ship it\""), Some("\"ship it\"")),
        (Some("[ \"a\",  \"b\" ]"), Some("[\"a\",\"b\"]")),
        (None, None),
    ] {
        t = write(t, vec![set(given)]).unwrap();
        let snap = load_session(&t, &session("goal")).unwrap();
        assert_eq!(snap.root_goal.as_deref(), want);
    }
    let t = write(t, vec![set(Some("not json"))]).unwrap();
    let err = load_session(&t, &session("goal")).unwrap_err();
    assert!(err.to_string().contains("parse root_goal JSON: "), "{err:?}");
}

#[test]
fn embedding_contract_roundtrips_flush_and_load() {
    let t = write(Tables::new(), vec![stamp("ec", Some(contract(8)))]).unwrap();
    assert_eq!(load_session(&t, &session("ec")).unwrap().embedding, Some(contract(8)));
    let t = write(t, vec![stamp("ec", None)]).unwrap();
    assert_eq!(load_session(&t, &session("ec")).unwrap().embedding, None);
    let err = write(t, vec![stamp("ec", Some(contract(usize::MAX)))]).unwrap_err();
    assert!(err.to_string().contains("embedding dimension does not fit i64 for ec"));
}

#[test]
fn a_contract_that_is_half_there_is_an_error() {
    let row = |kind: Option<&str>, dim: Option<i64>| SessionRow {
        session_id: "half".to_string(),
        root_goal: None,
        created_at: None,
        closed_at: None,
        embedding_kind: kind.map(|k| k.to_string()),
        embedding_model: None,
        embedding_dim: dim,
    };
    for (kind, dim, want) in [
        (Some("k"), None, "has embedding_kind without embedding_dim"),
        (None, Some(3), "has embedding_dim without embedding_kind"),
        (Some("k"), Some(-1), "has negative embedding_dim"),
    ] {
        let mut t = Tables::new();
        t.sessions.put(row(kind, dim));
        let err = load_session(&t, &session("half")).unwrap_err();
        assert!(err.to_string().contains(want), "{err:?}");
    }
}

fn snapshot(s: &str) -> GraphSnapshot {
    GraphSnapshot {
        session_id: session(s),
        root_goal: None,
        created_at: None,
        closed_at: None,
        interactions: Vec::new(),
        concepts: Vec::new(),
        edges: Vec::new(),
        synonyms: Vec::new(),
        reservations: Vec::new(),
        canonization_events: Vec::new(),
        embedding: None,
        write_intents: Vec::new(),
    }
}

#[test]
fn oversized_seed_embedding_dimension_fails_before_transaction() {
    let mut s = snapshot("seed");
    s.embedding = Some(contract(usize::MAX));
    let err = seed(Tables::new(), &s, &at(0)).unwrap_err();
    assert!(matches!(err, StoreError::Invariant(ref m) if m == "embedding dimension does not fit i64"));
}

#[test]
fn seed_load_preserves_embedding_contract() {
    let mut s = snapshot("seed");
    s.embedding = Some(contract(4));
    s.root_goal = Some("{\"a\":1}".to_string());
    s.synonyms = vec![Synonym {
        session_id: session("seed"),
        source_key: "k".to_string(),
        canonical_key: "c".to_string(),
    }];
    s.reservations = vec![Reservation {
        session_id: session("seed"),
        node_id: NodeId(5),
        agent_id: AgentId::new("a"),
        expires_at: at(60),
    }];
    s.interactions = vec![Interaction {
        id: NodeId(1),
        session_id: session("seed"),
        agent_id: AgentId::new("a"),
        prompt_text: None,
        previous_id: None,
        created_at: at(0),
    }];
    s.concepts = vec![plain_concept("seed", NodeId(2), NodeId(1), "x", at(0))];
    s.canonization_events = vec![event("seed", NodeId(3), NodeId(2), CanonizationStatus::Candidate)];
    s.write_intents = vec![intent("seed", "r", 1, 1)];
    let t = seed(Tables::new(), &s, &at(7)).unwrap();
    let got = load_session(&t, &session("seed")).unwrap();
    assert_eq!(got, s);
    assert_eq!(
        t.sessions.rows()[0].created_at.as_deref(),
        Some("2025-07-08T18:40:07.000Z"),
        "a session without a creation time is made now"
    );
}

#[test]
fn canonization_events_append_and_update_concept() {
    let id = ids(4);
    let t = write(
        Tables::new(),
        vec![
            interaction("can", id[0], None, at(0)),
            concept("can", id[1], id[0], "pillar", at(0)),
            Mutation::CanonizationTransition {
                event: event("can", id[2], id[1], CanonizationStatus::Candidate),
            },
        ],
    )
    .unwrap();
    let snap = load_session(&t, &session("can")).unwrap();
    assert_eq!(snap.canonization_events.len(), 1);
    assert_eq!(snap.concepts[0].canonization_status, CanonizationStatus::Candidate);
    assert_eq!(snap.concepts[0].blast_radius, Some(3));

    let again = event("can", id[2], id[1], CanonizationStatus::Canonical);
    let t = record_canonization(t, &again, None).unwrap();
    let snap = load_session(&t, &session("can")).unwrap();
    assert_eq!(snap.canonization_events.len(), 1, "a transition applies once");
    assert_eq!(snap.concepts[0].canonization_status, CanonizationStatus::Candidate);

    let missing = event("can", id[3], NodeId(99), CanonizationStatus::Canonical);
    let err = record_canonization(t, &missing, None).unwrap_err();
    assert!(matches!(err, StoreError::NotFound(ref m) if m.ends_with("for canonization")));
}

#[test]
fn demotion_event_sets_and_roundtrips_last_demotion_time() {
    let id = ids(5);
    let mut demote = event("dem", id[2], id[1], CanonizationStatus::Candidate);
    demote.last_demotion_time = Some(at(50));
    let promote = event("dem", id[3], id[1], CanonizationStatus::Venerable);
    let t = write(
        Tables::new(),
        vec![
            interaction("dem", id[0], None, at(0)),
            concept("dem", id[1], id[0], "pillar", at(0)),
            Mutation::CanonizationTransition { event: demote },
            Mutation::CanonizationTransition { event: promote },
        ],
    )
    .unwrap();
    let snap = load_session(&t, &session("dem")).unwrap();
    assert_eq!(snap.concepts[0].canonization_status, CanonizationStatus::Venerable);
    assert_eq!(snap.concepts[0].last_demotion_time, Some(at(50)), "the cooldown stays");
    assert_eq!(snap.canonization_events[0].last_demotion_time, Some(at(50)));
    assert_eq!(snap.canonization_events[1].last_demotion_time, None);
}

#[test]
fn stale_upsert_before_a_recorded_transition_does_not_regress_the_status() {
    let id = ids(3);
    let mut t = write(
        Tables::new(),
        vec![
            interaction("stale", id[0], None, at(0)),
            concept("stale", id[1], id[0], "pillar", at(0)),
        ],
    )
    .unwrap();
    t = record_canonization(t, &event("stale", id[2], id[1], CanonizationStatus::Canonical), None)
        .unwrap();
    t = write(t, vec![concept("stale", id[1], id[0], "pillar", at(0))]).unwrap();
    let snap = load_session(&t, &session("stale")).unwrap();
    assert_eq!(snap.concepts[0].canonization_status, CanonizationStatus::Canonical);
}

#[test]
fn stale_upsert_before_a_recorded_demotion_does_not_erase_the_cooldown() {
    let id = ids(3);
    let mut t = write(
        Tables::new(),
        vec![
            interaction("cool", id[0], None, at(0)),
            concept("cool", id[1], id[0], "pillar", at(0)),
        ],
    )
    .unwrap();
    let mut demote = event("cool", id[2], id[1], CanonizationStatus::Uncanonized);
    demote.from_status = CanonizationStatus::Canonical;
    demote.last_demotion_time = Some(at(40));
    t = record_canonization(t, &demote, None).unwrap();
    t = write(t, vec![concept("cool", id[1], id[0], "pillar", at(0))]).unwrap();
    let snap = load_session(&t, &session("cool")).unwrap();
    assert_eq!(snap.concepts[0].last_demotion_time, Some(at(40)));
    assert_eq!(snap.concepts[0].canonization_status, CanonizationStatus::Uncanonized);
}

#[test]
fn concept_embedding_roundtrips_flush_and_load() {
    let id = ids(2);
    let v = [0.1f32, -0.2, 3.4028235e38, 1e-10];
    let t = write(
        Tables::new(),
        vec![
            interaction("emb", id[0], None, at(0)),
            stamp("emb", Some(contract(4))),
            embedded("emb", id[1], id[0], "x", &v),
        ],
    )
    .unwrap();
    let snap = load_session(&t, &session("emb")).unwrap();
    assert_eq!(snap.concepts.len(), 1);
    assert_eq!(snap.concepts[0].embedding, Some(bits(&v)));
}

#[test]
fn legacy_vectors_without_contract_are_quarantined_on_materialization() {
    let id = ids(2);
    let t = write(
        Tables::new(),
        vec![
            interaction("legacy-vector-upgrade", id[0], None, at(0)),
            embedded("legacy-vector-upgrade", id[1], id[0], "legacy", &[0.1, 0.2, 0.3]),
            edge("legacy-vector-upgrade", id[0], id[1], EdgeType::Derives, at(0)),
        ],
    )
    .unwrap();
    let raw = load_session(&t, &session("legacy-vector-upgrade")).unwrap();
    assert!(raw.embedding.is_none());
    assert!(raw.concepts[0].embedding.is_some());
    let t = write(t, vec![stamp("legacy-vector-upgrade", Some(contract(3)))]).unwrap();
    let migrated = load_session(&t, &session("legacy-vector-upgrade")).unwrap();
    assert!(migrated.concepts[0].embedding.is_none());
    assert!(migrated.embedding.is_some());
}

#[test]
fn a_batch_that_is_flushed_again_changes_nothing() {
    let id = ids(6);
    let batch = || {
        vec![
            interaction("twice", id[0], None, at(0)),
            interaction("twice", id[1], Some(id[0]), at(1)),
            stamp("twice", Some(contract(2))),
            embedded("twice", id[2], id[0], "a", &[1.0, 0.0]),
            concept("twice", id[3], id[0], "b", at(2)),
            Mutation::UpsertEdge {
                edge: Edge {
                    id: id[4],
                    session_id: session("twice"),
                    source: id[2],
                    target: id[3],
                    edge_type: EdgeType::Causal,
                    weight: 0.5f64.to_bits(),
                    reinforcements: 2,
                    created_at: at(3),
                    last_reinforced: at(4),
                },
            },
            Mutation::CanonizationTransition {
                event: event("twice", id[5], id[2], CanonizationStatus::Canonical),
            },
            put(intent("twice", "r", 1, 1)),
            consume("twice", "r", 9),
            Mutation::SetRootGoal {
                session_id: session("twice"),
                goal: Some("\"g\"".to_string()),
            },
        ]
    };
    let t = write(Tables::new(), batch()).unwrap();
    let once = load_session(&t, &session("twice")).unwrap();
    let t = write(t, batch()).unwrap();
    assert_eq!(load_session(&t, &session("twice")).unwrap(), once);
    assert_eq!(once.canonization_events.len(), 1);
}

#[test]
fn keyword_candidates_match_words_and_guard_inputs() {
    let id = ids(4);
    let t = write(
        Tables::new(),
        vec![
            interaction("kw", id[0], None, at(0)),
            concept("kw", id[1], id[0], "user schema design", at(0)),
            concept("kw", id[2], id[0], "API rate limits", at(0)),
            concept("kw", id[3], id[0], "Register User", at(0)),
        ],
    )
    .unwrap();
    let ask = |tokens: &[&str], limit: usize| {
        let tokens: Vec<String> = tokens.iter().map(|s| s.to_string()).collect();
        keyword_candidates(&t, &session("kw"), &tokens, limit)
    };
    assert_eq!(ask(&["schema"], 10).unwrap(), vec![(id[1], 1)]);
    assert_eq!(ask(&["user", "schema"], 10).unwrap(), vec![(id[1], 2), (id[3], 1)]);
    assert_eq!(ask(&["rate"], 10).unwrap(), vec![(id[2], 1)]);
    assert_eq!(ask(&["api"], 10).unwrap(), vec![(id[2], 1)]);
    assert!(ask(&["nope"], 10).unwrap().is_empty());
    assert_eq!(ask(&["  USER  "], 10).unwrap(), vec![(id[1], 1), (id[3], 1)]);
    assert_eq!(ask(&["register"], 10).unwrap(), vec![(id[3], 1)]);
    assert_eq!(ask(&["user"], 1).unwrap(), vec![(id[1], 1)]);
    assert!(ask(&["", "  "], 5).unwrap().is_empty());
    assert!(ask(&["schema"], 0).unwrap().is_empty());
    let err = keyword_candidates(&t, &session("ghost"), &vec!["schema".to_string()], 5).unwrap_err();
    assert!(matches!(err, StoreError::SessionNotFound(_)));
    assert!(keyword_candidates(&t, &session("ghost"), &Vec::new(), 5).unwrap().is_empty());
}

#[test]
fn keyword_case_folding_is_ascii_only() {
    let shouted = Concept {
        canonical_key: "k".to_string(),
        ..plain_concept("fold", NodeId(2), NodeId(1), "ÄPFEL", at(0))
    };
    let t = write(
        Tables::new(),
        vec![
            interaction("fold", NodeId(1), None, at(0)),
            upsert(shouted),
            concept("fold", NodeId(3), NodeId(1), "rote äpfel", at(0)),
        ],
    )
    .unwrap();
    let ask = |w: &str| keyword_candidates(&t, &session("fold"), &vec![w.to_string()], 5).unwrap();
    assert_eq!(ask("äpfel"), vec![(NodeId(3), 1)], "a column is folded in ASCII only");
    assert_eq!(ask("ÄPFEL"), vec![(NodeId(3), 1)], "a token is folded whole");
    assert_eq!(ask("PFEL"), vec![(NodeId(2), 1), (NodeId(3), 1)]);
    assert_eq!(ask("\u{3000}Rote\u{a0}"), vec![(NodeId(3), 1)]);
}

#[test]
fn blast_radius_errata_derives_must_not_un_orphan() {
    let id = ids(4);
    let t = write(
        Tables::new(),
        vec![
            interaction("err", id[0], None, at(0)),
            concept("err", id[1], id[0], "pillar", at(0)),
            concept("err", id[2], id[0], "orphan", at(0)),
            concept("err", id[3], id[0], "alone", at(0)),
            edge("err", id[1], id[2], EdgeType::Dependency, at(0)),
            edge("err", id[0], id[2], EdgeType::Derives, at(0)),
            edge("err", id[0], id[3], EdgeType::Derives, at(0)),
        ],
    )
    .unwrap();
    for age in [0, 3600] {
        assert_eq!(blast_radius(&t, &session("err"), id[1], age, 0, &at(10_000)).unwrap(), 1);
    }
}

#[test]
fn blast_radius_ignores_cross_session_sources_like_memory() {
    let id = ids(5);
    let t = write(
        Tables::new(),
        vec![
            interaction("here", id[0], None, at(0)),
            concept("here", id[1], id[0], "hub", at(0)),
            concept("here", id[2], id[0], "dep", at(0)),
            edge("here", id[1], id[2], EdgeType::Dependency, at(0)),
            edge("here", id[3], id[2], EdgeType::Dependency, at(0)),
        ],
    )
    .unwrap();
    let t = write(
        t,
        vec![
            interaction("there", id[4], None, at(0)),
            concept("there", id[3], id[4], "foreign", at(0)),
        ],
    )
    .unwrap();
    assert_eq!(blast_radius(&t, &session("here"), id[1], 0, 0, &at(1)).unwrap(), 1);
}

#[test]
fn structural_queries_aged_vs_fresh_edge() {
    let id = ids(8);
    let now = at(100_000);
    let (i1, i2, i3) = (id[0], id[1], id[2]);
    let (pillar, orphan, other, probe_src, probe_victim) = (id[3], id[4], id[5], id[6], id[7]);
    let s = session("age");
    let t = write(
        Tables::new(),
        vec![
            interaction("age", i1, None, at(0)),
            interaction("age", i2, None, at(0)),
            interaction("age", i3, None, now),
            concept("age", pillar, i1, "pillar", at(0)),
            concept("age", orphan, i1, "orphan", at(0)),
            concept("age", other, i2, "other", at(0)),
            concept("age", probe_src, i3, "probe-src", at(0)),
            concept("age", probe_victim, i1, "probe-victim", at(0)),
            edge("age", pillar, orphan, EdgeType::Dependency, at(0)),
            edge("age", probe_src, probe_victim, EdgeType::Dependency, at(0)),
            edge("age", other, orphan, EdgeType::Dependency, now),
        ],
    )
    .unwrap();
    let distinct = |node: NodeId, age: u64| {
        interaction_span(&t, &s, node, age, 0, &now).unwrap().distinct
    };
    assert_eq!(distinct(orphan, 0), 2);
    assert_eq!(distinct(orphan, 3600), 1);
    assert_eq!(distinct(probe_victim, 0), 1);
    assert_eq!(distinct(probe_victim, 3600), 0);
    let blast = |node: NodeId, age: u64| blast_radius(&t, &s, node, age, 0, &now).unwrap();
    assert_eq!(blast(probe_src, 3600), 1);
    assert_eq!(blast(pillar, 0), 0);
    assert_eq!(blast(pillar, 3600), 1);
}

#[test]
fn interaction_span_ignores_cross_session_origin_interactions() {
    let id = ids(9);
    let (h0, h1, b0, b1, b2, target) = (id[0], id[1], id[2], id[3], id[4], id[5]);
    let mut ms = vec![
        interaction("here", h0, None, at(0)),
        interaction("here", h1, Some(h0), at(100)),
        interaction("there", b0, None, at(-10_000)),
        interaction("there", b1, Some(b0), at(0)),
        interaction("there", b2, Some(b1), at(10_000)),
        concept("here", target, h0, "target", at(0)),
    ];
    for (i, origin) in [b0, b1, b2].into_iter().enumerate() {
        ms.push(concept("here", id[6 + i], origin, &format!("s{i}"), at(0)));
        ms.push(edge("here", id[6 + i], target, EdgeType::Dependency, at(0)));
    }
    let t = write(Tables::new(), ms).unwrap();
    let got = interaction_span(&t, &session("here"), target, 0, 0, &at(20_000)).unwrap();
    assert_eq!(got, SpanMeasure { distinct: 0, covered_ms: 0, extent_ms: 1 });
}

#[test]
fn interaction_span_single_point_session_coverage_is_one() {
    let id = ids(3);
    let t = write(
        Tables::new(),
        vec![
            interaction("one", id[0], None, at(0)),
            concept("one", id[1], id[0], "pillar", at(0)),
            concept("one", id[2], id[0], "orphan", at(0)),
            edge("one", id[1], id[2], EdgeType::Dependency, at(0)),
        ],
    )
    .unwrap();
    let span = interaction_span(&t, &session("one"), id[2], 0, 0, &at(1)).unwrap();
    assert_eq!(span, SpanMeasure { distinct: 1, covered_ms: 1, extent_ms: 1 });
    let none = interaction_span(&t, &session("one"), id[1], 0, 0, &at(1)).unwrap();
    assert_eq!(none, SpanMeasure { distinct: 0, covered_ms: 0, extent_ms: 1 });
}

#[test]
fn a_span_is_measured_in_milliseconds_of_the_session() {
    let id = ids(6);
    let mut ms = vec![
        interaction("ms", id[0], None, at(0)),
        interaction("ms", id[1], None, at(25)),
        interaction("ms", id[2], None, at(55)),
        concept("ms", id[3], id[0], "a", at(0)),
        concept("ms", id[4], id[1], "b", at(0)),
        concept("ms", id[5], id[0], "hub", at(0)),
    ];
    ms.push(edge("ms", id[3], id[5], EdgeType::Causal, at(0)));
    ms.push(edge("ms", id[4], id[5], EdgeType::Hierarchical, at(0)));
    let t = write(Tables::new(), ms).unwrap();
    let span = interaction_span(&t, &session("ms"), id[5], 0, 0, &at(100)).unwrap();
    assert_eq!(span, SpanMeasure { distinct: 2, covered_ms: 25_000, extent_ms: 55_000 });
    let err = interaction_span(&t, &session("ghost"), id[5], 0, 0, &at(100)).unwrap_err();
    assert!(matches!(err, StoreError::SessionNotFound(_)));
    let err = blast_radius(&t, &session("ms"), id[5], u64::MAX, 0, &at(100)).unwrap_err();
    assert!(err.to_string().contains("age duration out of range"));
}

fn intent(s: &str, receipt: &str, lane_seq: u64, issued_ms: i64) -> WriteIntent {
    WriteIntent {
        session_id: session(s),
        receipt: receipt.to_string(),
        agent: AgentId::new("a"),
        interaction: NodeId(1),
        lane_seq,
        issued_ms,
        payload: WriteIntentPayload::Derive {
            concepts: vec![("x".to_string(), ConceptType::Logic)],
            pairs: vec![("x".to_string(), "y".to_string())],
        },
        created_at: at(0),
        outcome: None,
    }
}

fn put(i: WriteIntent) -> Mutation {
    Mutation::PutWriteIntent { intent: i }
}

fn consume(s: &str, receipt: &str, secs: i64) -> Mutation {
    Mutation::ConsumeWriteIntent {
        session_id: session(s),
        receipt: receipt.to_string(),
        outcome: WriteIntentOutcome {
            tag: "applied".to_string(),
            summary: "done".to_string(),
            consumed_at: at(secs),
        },
    }
}

#[test]
fn intents_load_in_the_order_in_which_they_were_issued() {
    let t = write(
        Tables::new(),
        vec![
            put(intent("in", "c", 1, 20)),
            put(intent("in", "b", 2, 10)),
            put(intent("in", "a", 1, 10)),
        ],
    )
    .unwrap();
    let got: Vec<String> = load_session(&t, &session("in"))
        .unwrap()
        .write_intents
        .into_iter()
        .map(|i| i.receipt)
        .collect();
    assert_eq!(got, vec!["a", "b", "c"]);
}

#[test]
fn a_consumed_intent_is_kept_for_its_time_and_then_purged() {
    let t = write(
        Tables::new(),
        vec![
            put(intent("pu", "old", 1, 1)),
            put(intent("pu", "edge", 2, 2)),
            put(intent("pu", "open", 3, 3)),
            put(intent("pu", "new", 4, 4)),
            consume("pu", "old", 0),
            consume("pu", "edge", 1),
            consume("pu", "new", 301),
            consume("pu", "unheard-of", 301),
        ],
    )
    .unwrap();
    let loaded = load_session(&t, &session("pu")).unwrap().write_intents;
    let left: Vec<&str> = loaded.iter().map(|i| i.receipt.as_str()).collect();
    assert_eq!(left, vec!["edge", "open", "new"]);
    assert!(loaded[1].outcome.is_none(), "an open intent is never purged");
    assert_eq!(loaded[2].outcome.as_ref().unwrap().summary, "done");
}

#[test]
fn a_half_written_outcome_is_an_error() {
    let mut t = write(Tables::new(), vec![put(intent("half", "r", 1, 1))]).unwrap();
    let row = &t.write_intents.rows()[0];
    let spoiled = IntentRow {
        session_id: row.session_id.clone(),
        receipt: row.receipt.clone(),
        agent: row.agent.clone(),
        interaction_id: row.interaction_id.clone(),
        lane_seq: -1,
        issued_ms: row.issued_ms,
        payload: WriteIntentPayload::Action {
            action: "a".to_string(),
            produces: Vec::new(),
            modifies: Vec::new(),
            depends_on: Vec::new(),
        },
        created_at: row.created_at.clone(),
        consumed_at: None,
        outcome_tag: Some("applied".to_string()),
        outcome_summary: None,
    };
    t.write_intents.put(spoiled);
    let err = load_session(&t, &session("half")).unwrap_err();
    assert!(matches!(err, StoreError::Invariant(ref m) if m.contains("partially set")), "{err:?}");
}

fn ask(s: &str, holder: &str, now: &str, expires: &str, endpoint: Option<&str>) -> LeaseRequest {
    LeaseRequest {
        session: session(s),
        holder: holder.to_string(),
        endpoint: endpoint.map(|e| e.to_string()),
        now: now.to_string(),
        expires_at: expires.to_string(),
    }
}

const T0: &str = "2026-01-01T12:00:00.000Z";
const T1: &str = "2026-01-01T12:00:01.000Z";
const T30: &str = "2026-01-01T12:00:30.000Z";
const T60: &str = "2026-01-01T12:01:00.000Z";

fn clock() -> Timestamp {
    Timestamp::from_parts(1_767_268_800 + 5, 0).unwrap()
}

#[test]
fn lease_lifecycle_on_one_connection() {
    let mut leases: Table<LeaseRow> = Table::new();
    let first = acquire_or_refresh(&mut leases, &ask("s", "a", T0, T30, None), &clock()).unwrap();
    let LeaseOutcome::Acquired(first) = first else { panic!("a free lease is taken") };
    assert_eq!(first.token, 1);
    match acquire_or_refresh(&mut leases, &ask("s", "b", T1, T30, None), &clock()).unwrap() {
        LeaseOutcome::Held { current, age_nanos } => {
            assert_eq!(current.holder, "a");
            assert_eq!(age_nanos, 5_000_000_000);
        }
        other => panic!("expected Held, got {other:?}"),
    }
    let again = acquire_or_refresh(&mut leases, &ask("s", "a", T1, T60, None), &clock()).unwrap();
    let LeaseOutcome::Acquired(again) = again else { panic!("a refresh succeeds") };
    assert_eq!(again.acquired_at, first.acquired_at);
    assert_eq!(again.token, 1);
    release_lease(&mut leases, &session("s"), "b");
    assert!(read_lease(&leases, &session("s")).unwrap().is_some(), "only the holder releases");
    release_lease(&mut leases, &session("s"), "a");
    let b = acquire_or_refresh(&mut leases, &ask("s", "b", T1, T30, None), &clock()).unwrap();
    assert!(b.is_acquired());
}

#[test]
fn the_lease_endpoint_round_trips_and_a_refresh_republishes_it() {
    let mut leases: Table<LeaseRow> = Table::new();
    let sock = Some("/run/lambo/s-abc.sock");
    acquire_or_refresh(&mut leases, &ask("s", "hub", T0, T30, sock), &clock()).unwrap();
    match acquire_or_refresh(&mut leases, &ask("s", "cli", T1, T30, None), &clock()).unwrap() {
        LeaseOutcome::Held { current, .. } => assert_eq!(current.endpoint.as_deref(), sock),
        other => panic!("expected Held, got {other:?}"),
    }
    acquire_or_refresh(&mut leases, &ask("s", "hub", T1, T60, sock), &clock()).unwrap();
    assert_eq!(read_lease(&leases, &session("s")).unwrap().unwrap().endpoint.as_deref(), sock);
    release_lease(&mut leases, &session("s"), "hub");
    acquire_or_refresh(&mut leases, &ask("s", "cli", T1, T30, None), &clock()).unwrap();
    assert_eq!(read_lease(&leases, &session("s")).unwrap().unwrap().endpoint, None);
}

#[test]
fn read_lease_is_none_for_an_unleased_session() {
    assert!(read_lease(&Table::new(), &session("never-leased")).unwrap().is_none());
}

#[test]
fn an_unreleased_lease_expires_and_the_takeover_raises_the_token() {
    let mut leases: Table<LeaseRow> = Table::new();
    acquire_or_refresh(&mut leases, &ask("s", "dead", T0, T1, None), &clock()).unwrap();
    assert!(!acquire_or_refresh(&mut leases, &ask("s", "live", T0, T30, None), &clock())
        .unwrap()
        .is_acquired());
    let live = acquire_or_refresh(&mut leases, &ask("s", "live", T1, T30, None), &clock()).unwrap();
    let LeaseOutcome::Acquired(live) = live else { panic!("an expired lease is taken") };
    assert_eq!(live.token, 2);
}

fn leased(token: i64) -> Tables {
    let mut t = Tables::new();
    t.session_leases.put(LeaseRow {
        session_id: "s".to_string(),
        holder: "h".to_string(),
        acquired_at: T0.to_string(),
        expires_at: T30.to_string(),
        current_token: token,
        endpoint: None,
    });
    t
}

#[test]
fn a_stale_token_is_fenced_off() {
    let batch = || MutationBatch {
        mutations: vec![interaction("s", NodeId(1), None, at(0))],
    };
    let err = flush(leased(2), &batch(), Some(1)).unwrap_err();
    assert_eq!(
        err.to_string(),
        "stale write (fencing token): session s: presented token Some(1) is stale (lease token 2) \
         — single-writer fence (GitHub issue #1)"
    );
    assert!(!err.is_retryable());
    let err = flush(leased(2), &batch(), None).unwrap_err();
    assert!(err.to_string().contains("presented token None is stale"));
    assert!(flush(leased(2), &batch(), Some(2)).is_ok());
    let err = flush(leased(-1), &batch(), Some(2)).unwrap_err();
    assert!(matches!(err, StoreError::Invariant(ref m) if m == "session s: negative lease current_token"));
    let err = record_canonization(
        leased(2),
        &event("s", NodeId(3), NodeId(2), CanonizationStatus::Candidate),
        Some(1),
    )
    .unwrap_err();
    assert!(matches!(err, StoreError::StaleWrite(_)));
    let mut bad = leased(-1);
    let err = read_lease(&bad.session_leases, &session("s")).unwrap_err();
    assert!(matches!(err, StoreError::Backend(_)));
    let err = acquire_or_refresh(&mut bad.session_leases, &ask("s", "x", T1, T60, None), &clock())
        .unwrap_err();
    assert!(matches!(err, StoreError::Backend(_)));
    assert!(lease_permits_write(0, None));
    assert!(lease_permits_write(3, Some(3)));
    assert!(!lease_permits_write(3, Some(4)));
}

#[test]
fn flush_stats_write_then_read_round_trips() {
    let stats = SessionFlushStats { flush_lag_ms: 42, log_depth: 7 };
    let read = read_flush_stats(stat_to_column(stats.flush_lag_ms), stat_to_column(stats.log_depth));
    assert_eq!(read, stats);
    assert_eq!(stat_to_column(u64::MAX), -1);
    assert_eq!(stat_from_column(-1), u64::MAX);
}

#[test]
fn is_in_memory_uri_matches_sqlx_grammar() {
    for mem in [
        ":memory:",
        ":memory:?cache=shared",
        "sqlite::memory:",
        "sqlite://:memory:",
        "sqlite://?mode=memory",
        "sqlite://db.db?cache=shared&mode=memory",
        "sqlite://db.db?mode=memory&cache=private",
    ] {
        assert!(is_in_memory_uri(mem), "{mem:?} is in memory");
    }
    for file in [
        "db.db",
        "sqlite://db.db",
        "sqlite://db.db?mode=rwc",
        "sqlite://db.db?cache=shared",
        "sqlite://db.db?mode=rw&cache=private",
    ] {
        assert!(!is_in_memory_uri(file), "{file:?} is a file");
    }
}

#[test]
fn columns_in_ddl_parses_the_shipped_migration() {
    let schema = required_schema();
    let has = |table: &str, column: &str| {
        schema
            .iter()
            .any(|t| t.name == table && t.columns.iter().any(|c| c == column))
    };
    assert!(has("concepts", "chunk_group_id"));
    assert!(has("concepts", "embedding"));
    assert!(has("sessions", "embedding_kind"));
    assert!(has("write_intents", "outcome_summary"));
    assert!(!has("edges", "UNIQUE"));
    assert!(!has("synonyms", "PRIMARY"));
    assert!(!has("write_intents", "PRIMARY"));
    assert_eq!(schema.len(), 10);
}

#[test]
fn preflight_schema_refuses_what_is_missing_by_name() {
    let required = required_schema();
    let err = preflight_schema(&required, &Vec::new()).unwrap_err();
    assert!(matches!(err, StoreError::Capability(_)));
    let mut present = required_schema();
    assert!(preflight_schema(&required, &present).is_ok());

    present.retain(|t| t.name != "write_intents");
    let msg = preflight_schema(&required, &present).unwrap_err().to_string();
    assert!(msg.contains("write_intents") && msg.contains("lambo provision"), "{msg}");

    let mut present = required_schema();
    for t in present.iter_mut().filter(|t| t.name == "concepts") {
        t.columns.retain(|c| c != "chunk_group_id" && c != "embedding");
    }
    let msg = preflight_schema(&required, &present).unwrap_err().to_string();
    assert!(msg.contains("table concepts is missing column(s) embedding, chunk_group_id"), "{msg}");
    assert!(msg.contains("lambo provision"), "{msg}");
}

#[test]
fn a_database_made_before_a_column_gains_it_once() {
    let mut present: Vec<TableShape> = required_schema();
    for t in present.iter_mut() {
        t.columns.retain(|c| c != "endpoint" && c != "embedding_dim");
    }
    let all = column_migrations();
    assert_eq!(all.len(), 7);
    let pending = pending_migrations(&all, &present);
    let names: Vec<&str> = pending.iter().map(|m| m.column.as_str()).collect();
    assert_eq!(names, vec!["embedding_dim", "endpoint"]);
    assert_eq!(pending[1].ddl, "ALTER TABLE session_leases ADD COLUMN endpoint TEXT");
    for m in &pending {
        for t in present.iter_mut().filter(|t| t.name == m.table) {
            t.columns.push(m.column.clone());
        }
    }
    assert!(pending_migrations(&all, &present).is_empty());
    assert!(preflight_schema(&required_schema(), &present).is_ok());
}
