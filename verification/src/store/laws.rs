//! What holds of the store's tables whatever is written.

use crate::calendar::{a_text_is_one_instant, stored_texts_sort_by_time};
use crate::job::{IntentModel, OutcomeModel};
use crate::store::codec::{
    an_identifier_reads_back, an_instant_reads_back, concept_type_round_trips, concept_type_text,
    cut_opt, cutoff, edge_type_round_trips, opt_four_digits, opt_stored, opt_ts_read,
    status_round_trips,
};
use crate::store::flush::{
    applied, applied_all, applied_in_steps, batch_fenced, flushed, named_session, steps_are_in_turn,
    token_of, with_sessions,
};
use crate::store::lease::fenced;
use crate::store::load::{loads_as, rows_of};
use crate::store::order::{text_earlier, text_order_is_total};
use crate::store::rows::{
    concept_read, concept_storable, concept_stored, concept_written, edge_read, edge_written,
    event_read, event_written, intent_read, intent_storable, intent_stored, intent_written,
    interaction_read, interaction_written, reservation_read, reservation_written, ConceptModel,
    ConceptRow, EdgeModel, EdgeRow, EventModel, EventRow, IntentRow, InteractionModel,
    InteractionRow, ReservationModel, ReservationRow,
};
use crate::store::session::{
    concept_rows, contract_of, edge_rows, event_rows, goal_read, in_issue_order, intent_rows,
    intents_loaded, interaction_rows, opt_contract, read_all, reads_concepts, reads_edges,
    reads_events, reads_intents, reads_interactions, reads_reservations, reservation_rows,
    session_read, SessionRow, SessionRows, SnapshotModel,
};
use crate::store::table::{lemma_found, lists, ranked, Row, RowKey};
use crate::store::tables::{
    canonized, concept_merged, concept_upserted, consumed, edge_key, edge_upserted, embedding_set,
    goal_set, id_key, id_text, intent_consumed, intent_key, interaction_upserted, is_incident,
    key_is_held, no_rows, node_deleted, session_of, stamped, stamped_dim, with_session, TablesModel,
};
use crate::store::vector::embedding_fault;
use crate::store::vectors::{candidate_read, embedded_in, pool_answer, CandidateModel};
use crate::time::{age_of, earlier_by, in_four_digit_years, stored_text, Timestamp};
use crate::types::{
    opt_text, ConceptType, ContractModel, Mutation, Node, NodeId, StoreErrorModel,
    WRITE_INTENT_RETENTION_SECS,
};
use vstd::prelude::*;

verus! {

/// That rows stand under their keys.
pub open spec fn stand_under_their_keys(t: TablesModel) -> bool {
    &&& forall|k: RowKey| #[trigger]
        t.sessions.contains_key(k) ==> k == SessionRow::key_of(t.sessions[k])
    &&& forall|k: RowKey| #[trigger]
        t.interactions.contains_key(k) ==> k == InteractionRow::key_of(t.interactions[k])
    &&& forall|k: RowKey| #[trigger]
        t.concepts.contains_key(k) ==> k == ConceptRow::key_of(t.concepts[k])
    &&& forall|k: RowKey| #[trigger] t.edges.contains_key(k) ==> k == EdgeRow::key_of(t.edges[k])
}

/// That no vector has another width than its session's contract says.
pub open spec fn widths_agree(t: TablesModel) -> bool {
    forall|s: RowKey, k: RowKey| #[trigger]
        t.sessions.contains_key(s) && #[trigger] t.concepts.contains_key(k)
            && t.concepts[k].session == t.sessions[s].session && t.sessions[s].dim is Some
            && t.concepts[k].embedding is Some ==> t.concepts[k].embedding->0.len()
            == t.sessions[s].dim->0
}

/// That every vector is an embedding.
pub open spec fn vectors_are_embeddings(t: TablesModel) -> bool {
    forall|k: RowKey| #[trigger]
        t.concepts.contains_key(k) && t.concepts[k].embedding is Some ==> embedding_fault(
            t.concepts[k].embedding->0,
        ) is None
}

/// That every interaction that a row names is there.
pub open spec fn names_are_there(t: TablesModel) -> bool {
    &&& forall|k: RowKey| #[trigger]
        t.concepts.contains_key(k) ==> t.interactions.contains_key(seq![t.concepts[k].origin])
    &&& forall|k: RowKey| #[trigger]
        t.interactions.contains_key(k) && t.interactions[k].previous is Some
            ==> t.interactions.contains_key(seq![t.interactions[k].previous->0])
}

/// That no two concepts of a session, but for observations, have one key.
pub open spec fn keys_are_unique(t: TablesModel) -> bool {
    forall|j: RowKey, k: RowKey| #[trigger]
        t.concepts.contains_key(j) && #[trigger] t.concepts.contains_key(k) && j != k
            && t.concepts[j].session == t.concepts[k].session && t.concepts[j].concept_type
            != "Observation"@ && t.concepts[k].concept_type != "Observation"@
            ==> t.concepts[j].key != t.concepts[k].key
}

/// That the tables are sound: rows under their keys, vectors that are embeddings and as wide as the
/// contract says, no row that names a missing interaction, no key held twice.
pub open spec fn are_sound(t: TablesModel) -> bool {
    &&& stand_under_their_keys(t)
    &&& widths_agree(t)
    &&& vectors_are_embeddings(t)
    &&& names_are_there(t)
    &&& keys_are_unique(t)
}

proof fn lemma_one(a: Seq<char>, b: Seq<char>)
    ensures
        seq![a] == seq![b] <==> a == b,
{
    assert(seq![a][0] == a);
    assert(seq![b][0] == b);
}

proof fn lemma_interaction_kept(t: TablesModel, i: InteractionModel)
    requires
        are_sound(t),
        interaction_upserted(t, i) is Ok,
    ensures
        are_sound(interaction_upserted(t, i)->Ok_0),
{
    let u = interaction_upserted(t, i)->Ok_0;
    let k0 = id_key(i.id);
    assert(InteractionRow::key_of(interaction_written(i)) =~= k0);
    assert(stand_under_their_keys(u));
    assert(widths_agree(u)) by {
        assert(u.concepts == t.concepts && u.sessions == t.sessions);
    }
    assert(keys_are_unique(u)) by {
        assert(u.concepts == t.concepts);
    }
    assert(names_are_there(u)) by {
        assert forall|k: RowKey| #[trigger]
            u.interactions.contains_key(k) && u.interactions[k].previous is Some implies
            u.interactions.contains_key(seq![u.interactions[k].previous->0]) by {
            if k != k0 {
                assert(t.interactions.contains_key(k));
            }
        }
    }
}

proof fn lemma_concept_kept(t: TablesModel, c: ConceptModel)
    requires
        are_sound(t),
        concept_upserted(t, c) is Ok,
    ensures
        are_sound(concept_upserted(t, c)->Ok_0),
{
    let u = concept_upserted(t, c)->Ok_0;
    let k0 = id_key(c.id);
    let row = concept_merged(t, c);
    assert(ConceptRow::key_of(row) =~= k0);
    assert(stand_under_their_keys(u));
    assert(names_are_there(u)) by {
        assert forall|k: RowKey| #[trigger] u.concepts.contains_key(k) implies
            u.interactions.contains_key(seq![u.concepts[k].origin]) by {
            if k != k0 {
                assert(t.concepts.contains_key(k));
            }
        }
    }
    assert(widths_agree(u)) by {
        assert forall|s: RowKey, k: RowKey| #[trigger]
            u.sessions.contains_key(s) && #[trigger] u.concepts.contains_key(k)
                && u.concepts[k].session == u.sessions[s].session && u.sessions[s].dim is Some
                && u.concepts[k].embedding is Some implies u.concepts[k].embedding->0.len()
            == u.sessions[s].dim->0 by {
            assert(t.sessions.contains_key(s));
            if k == k0 {
                assert(s == seq![c.session]);
                assert(session_of(t, c.session) == Some(t.sessions[s]));
            } else {
                assert(t.concepts.contains_key(k));
            }
        }
    }
    assert(keys_are_unique(u)) by {
        concept_type_round_trips(c.concept_type);
        assert((c.concept_type == ConceptType::Observation) == (concept_type_text(c.concept_type)
            == "Observation"@)) by {
            concept_type_round_trips(ConceptType::Observation);
        }
        assert forall|j: RowKey, k: RowKey| #[trigger]
            u.concepts.contains_key(j) && #[trigger] u.concepts.contains_key(k) && j != k
                && u.concepts[j].session == u.concepts[k].session && u.concepts[j].concept_type
                != "Observation"@ && u.concepts[k].concept_type != "Observation"@ implies
            u.concepts[j].key != u.concepts[k].key by {
            if j == k0 {
                assert(t.concepts.contains_key(k));
                lemma_one(t.concepts[k].id, id_text(c.id));
                assert(t.concepts[k].id != id_text(c.id));
            } else if k == k0 {
                assert(t.concepts.contains_key(j));
                lemma_one(t.concepts[j].id, id_text(c.id));
                assert(t.concepts[j].id != id_text(c.id));
            } else {
                assert(t.concepts.contains_key(j) && t.concepts.contains_key(k));
            }
        }
    }
}

proof fn lemma_node_deletion_kept(t: TablesModel, id: NodeId)
    requires
        are_sound(t),
        node_deleted(t, id) is Ok,
    ensures
        are_sound(node_deleted(t, id)->Ok_0),
{
    let u = node_deleted(t, id)->Ok_0;
    let k0 = id_key(id);
    assert(stand_under_their_keys(u)) by {
        assert forall|k: RowKey| #[trigger] u.edges.contains_key(k) implies k == EdgeRow::key_of(
            u.edges[k],
        ) by {
            assert(t.edges.contains_key(k));
        }
        assert forall|k: RowKey| #[trigger] u.concepts.contains_key(k) implies k
            == ConceptRow::key_of(u.concepts[k]) by {
            assert(t.concepts.contains_key(k));
        }
        assert forall|k: RowKey| #[trigger] u.interactions.contains_key(k) implies k
            == InteractionRow::key_of(u.interactions[k]) by {
            assert(t.interactions.contains_key(k));
        }
    }
    assert(widths_agree(u)) by {
        assert forall|s: RowKey, k: RowKey| #[trigger]
            u.sessions.contains_key(s) && #[trigger] u.concepts.contains_key(k)
                && u.concepts[k].session == u.sessions[s].session && u.sessions[s].dim is Some
                && u.concepts[k].embedding is Some implies u.concepts[k].embedding->0.len()
            == u.sessions[s].dim->0 by {
            assert(t.sessions.contains_key(s) && t.concepts.contains_key(k));
        }
    }
    assert(keys_are_unique(u)) by {
        assert forall|j: RowKey, k: RowKey| #[trigger]
            u.concepts.contains_key(j) && #[trigger] u.concepts.contains_key(k) && j != k
                && u.concepts[j].session == u.concepts[k].session && u.concepts[j].concept_type
                != "Observation"@ && u.concepts[k].concept_type != "Observation"@ implies
            u.concepts[j].key != u.concepts[k].key by {
            assert(t.concepts.contains_key(j) && t.concepts.contains_key(k));
        }
    }
    assert(names_are_there(u)) by {
        assert forall|k: RowKey| #[trigger] u.concepts.contains_key(k) implies
            u.interactions.contains_key(seq![u.concepts[k].origin]) by {
            assert(t.concepts.contains_key(k));
            lemma_one(t.concepts[k].origin, id_text(id));
        }
        assert forall|k: RowKey| #[trigger]
            u.interactions.contains_key(k) && u.interactions[k].previous is Some implies
            u.interactions.contains_key(seq![u.interactions[k].previous->0]) by {
            assert(t.interactions.contains_key(k));
            lemma_one(t.interactions[k].previous->0, id_text(id));
            lemma_one(t.interactions[k].id, id_text(id));
        }
    }
}

proof fn lemma_stamp_kept(t: TablesModel, session: Seq<char>, c: Option<ContractModel>)
    requires
        are_sound(t),
        embedding_set(t, session, c) is Ok,
    ensures
        are_sound(embedding_set(t, session, c)->Ok_0),
{
    let u = embedding_set(t, session, c)->Ok_0;
    let row = session_of(t, session)->0;
    assert(t.sessions.contains_key(seq![session]));
    assert(row.session == session) by {
        lemma_one(row.session, session);
    }
    assert forall|k: RowKey| #[trigger] u.concepts.contains_key(k) implies t.concepts.contains_key(k)
        && u.concepts[k].session == t.concepts[k].session && u.concepts[k].id == t.concepts[k].id
        && u.concepts[k].key == t.concepts[k].key && u.concepts[k].concept_type
        == t.concepts[k].concept_type && u.concepts[k].origin == t.concepts[k].origin by {}
    assert(stand_under_their_keys(u));
    assert(names_are_there(u));
    assert(keys_are_unique(u)) by {
        assert forall|j: RowKey, k: RowKey| #[trigger]
            u.concepts.contains_key(j) && #[trigger] u.concepts.contains_key(k) && j != k
                && u.concepts[j].session == u.concepts[k].session && u.concepts[j].concept_type
                != "Observation"@ && u.concepts[k].concept_type != "Observation"@ implies
            u.concepts[j].key != u.concepts[k].key by {
            assert(t.concepts.contains_key(j) && t.concepts.contains_key(k));
        }
    }
    assert(widths_agree(u)) by {
        assert forall|s: RowKey, k: RowKey| #[trigger]
            u.sessions.contains_key(s) && #[trigger] u.concepts.contains_key(k)
                && u.concepts[k].session == u.sessions[s].session && u.sessions[s].dim is Some
                && u.concepts[k].embedding is Some implies u.concepts[k].embedding->0.len()
            == u.sessions[s].dim->0 by {
            assert(t.concepts.contains_key(k));
            assert(t.sessions.contains_key(s));
            if s == seq![session] {
                assert(u.concepts[k].session == session);
                assert(c is Some && row.dim == stamped_dim(c));
                assert(t.concepts[k].embedding == u.concepts[k].embedding);
            } else {
                assert(t.sessions[s].session != session) by {
                    lemma_one(t.sessions[s].session, session);
                }
            }
        }
    }
}

proof fn lemma_transition_kept(t: TablesModel, e: EventModel)
    requires
        are_sound(t),
        canonized(t, e) is Ok,
    ensures
        are_sound(canonized(t, e)->Ok_0),
{
    let u = canonized(t, e)->Ok_0;
    assert forall|k: RowKey| #[trigger] u.concepts.contains_key(k) implies t.concepts.contains_key(k)
        && u.concepts[k].session == t.concepts[k].session && u.concepts[k].id == t.concepts[k].id
        && u.concepts[k].key == t.concepts[k].key && u.concepts[k].concept_type
        == t.concepts[k].concept_type && u.concepts[k].origin == t.concepts[k].origin
        && u.concepts[k].embedding == t.concepts[k].embedding by {}
    assert(stand_under_their_keys(u));
    assert(names_are_there(u));
    assert(keys_are_unique(u)) by {
        assert forall|j: RowKey, k: RowKey| #[trigger]
            u.concepts.contains_key(j) && #[trigger] u.concepts.contains_key(k) && j != k
                && u.concepts[j].session == u.concepts[k].session && u.concepts[j].concept_type
                != "Observation"@ && u.concepts[k].concept_type != "Observation"@ implies
            u.concepts[j].key != u.concepts[k].key by {
            assert(t.concepts.contains_key(j) && t.concepts.contains_key(k));
        }
    }
    assert(widths_agree(u)) by {
        assert forall|s: RowKey, k: RowKey| #[trigger]
            u.sessions.contains_key(s) && #[trigger] u.concepts.contains_key(k)
                && u.concepts[k].session == u.sessions[s].session && u.sessions[s].dim is Some
                && u.concepts[k].embedding is Some implies u.concepts[k].embedding->0.len()
            == u.sessions[s].dim->0 by {
            assert(t.sessions.contains_key(s) && t.concepts.contains_key(k));
        }
    }
}

/// Every mutation that is applied leaves sound tables sound.
pub proof fn a_mutation_keeps_the_tables_sound(t: TablesModel, m: Mutation)
    requires
        are_sound(t),
        applied(t, m) is Ok,
    ensures
        are_sound(applied(t, m)->Ok_0),
{
    let u = applied(t, m)->Ok_0;
    match m {
        Mutation::UpsertNode { node: Node::Interaction(i) } => lemma_interaction_kept(t, i@),
        Mutation::UpsertNode { node: Node::Concept(c) } => lemma_concept_kept(t, c@),
        Mutation::DeleteNode { id } => lemma_node_deletion_kept(t, id),
        Mutation::SetEmbedding { session_id, embedding } => lemma_stamp_kept(
            t,
            session_id@,
            opt_contract(embedding),
        ),
        Mutation::CanonizationTransition { event } => lemma_transition_kept(t, event@),
        Mutation::UpsertEdge { edge } => {
            assert(u.concepts == t.concepts && u.sessions == t.sessions && u.interactions
                == t.interactions);
            assert(are_sound(u));
        },
        Mutation::DeleteEdge { id } => {
            assert(u.concepts == t.concepts && u.sessions == t.sessions && u.interactions
                == t.interactions);
            assert forall|k: RowKey| #[trigger] u.edges.contains_key(k) implies k
                == EdgeRow::key_of(u.edges[k]) by {
                assert(t.edges.contains_key(k));
            }
            assert(are_sound(u));
        },
        Mutation::SetRootGoal { session_id, goal } => {
            assert(t.sessions.contains_key(seq![session_id@]));
            assert(u.concepts == t.concepts && u.interactions == t.interactions);
            assert forall|s: RowKey| #[trigger] u.sessions.contains_key(s) implies
                t.sessions.contains_key(s) && u.sessions[s].session == t.sessions[s].session
                && u.sessions[s].dim == t.sessions[s].dim by {}
            assert(widths_agree(u)) by {
                assert forall|s: RowKey, k: RowKey| #[trigger]
                    u.sessions.contains_key(s) && #[trigger] u.concepts.contains_key(k)
                        && u.concepts[k].session == u.sessions[s].session && u.sessions[s].dim
                        is Some && u.concepts[k].embedding is Some implies
                    u.concepts[k].embedding->0.len() == u.sessions[s].dim->0 by {
                    assert(t.sessions.contains_key(s) && t.concepts.contains_key(k));
                }
            }
            assert(are_sound(u));
        },
        Mutation::PutWriteIntent { intent } => {
            assert(u.concepts == t.concepts && u.sessions == t.sessions && u.interactions
                == t.interactions && u.edges == t.edges);
            assert(are_sound(u));
        },
        Mutation::ConsumeWriteIntent { session_id, receipt, outcome } => {
            assert(u.concepts == t.concepts && u.sessions == t.sessions && u.interactions
                == t.interactions && u.edges == t.edges);
            assert(are_sound(u));
        },
    }
}

proof fn lemma_session_row_kept(t: TablesModel, session: Seq<char>)
    requires
        are_sound(t),
    ensures
        are_sound(with_session(t, session)),
{
    let u = with_session(t, session);
    assert(widths_agree(u)) by {
        assert forall|s: RowKey, k: RowKey| #[trigger]
            u.sessions.contains_key(s) && #[trigger] u.concepts.contains_key(k)
                && u.concepts[k].session == u.sessions[s].session && u.sessions[s].dim is Some
                && u.concepts[k].embedding is Some implies u.concepts[k].embedding->0.len()
            == u.sessions[s].dim->0 by {
            assert(t.sessions.contains_key(s) && t.concepts.contains_key(k));
        }
    }
    assert(u.concepts == t.concepts && u.interactions == t.interactions && u.edges == t.edges);
}

proof fn lemma_session_rows_kept(t: TablesModel, ms: Seq<Mutation>)
    requires
        are_sound(t),
    ensures
        are_sound(with_sessions(t, ms)),
    decreases ms.len(),
{
    if ms.len() > 0 {
        lemma_session_rows_kept(t, ms.drop_last());
        match named_session(ms.last()) {
            Some(s) => lemma_session_row_kept(with_sessions(t, ms.drop_last()), s),
            None => {},
        }
    }
}

proof fn lemma_all_kept(t: TablesModel, ms: Seq<Mutation>)
    requires
        are_sound(t),
        applied_all(t, ms) is Ok,
    ensures
        are_sound(applied_all(t, ms)->Ok_0),
    decreases ms.len(),
{
    if ms.len() > 0 {
        lemma_all_kept(t, ms.drop_last());
        a_mutation_keeps_the_tables_sound(applied_all(t, ms.drop_last())->Ok_0, ms.last());
    }
}

/// A flush leaves sound tables sound. In particular no vector whose width disagrees with its
/// session's contract survives it, whatever the order of stamps and vectors in the batch.
pub proof fn a_flush_keeps_the_tables_sound(
    t: TablesModel,
    ms: Seq<Mutation>,
    token: Option<u64>,
)
    requires
        are_sound(t),
        flushed(t, ms, token) is Ok,
    ensures
        are_sound(flushed(t, ms, token)->Ok_0),
{
    if ms.len() > 0 {
        lemma_session_rows_kept(t, ms);
        steps_are_in_turn(with_sessions(t, ms), ms);
        lemma_all_kept(with_sessions(t, ms), ms);
    }
}

/// Tables without rows are sound.
pub proof fn empty_tables_are_sound()
    ensures
        are_sound(no_rows()),
{
}

/// A stamp of the width that a session has leaves its vectors, whatever it says of kind and model;
/// one of another width leaves none of them.
pub proof fn only_a_stamp_of_another_width_takes_the_vectors(
    t: TablesModel,
    session: Seq<char>,
    c: ContractModel,
    k: RowKey,
)
    requires
        embedding_set(t, session, Some(c)) is Ok,
        t.concepts.contains_key(k),
    ensures
        ({
            let u = embedding_set(t, session, Some(c))->Ok_0;
            let same_width = session_of(t, session)->0.dim == Some(c.dim as i64);
            &&& u.concepts.contains_key(k)
            &&& same_width || t.concepts[k].session != session ==> u.concepts[k] == t.concepts[k]
            &&& !same_width && t.concepts[k].session == session ==> u.concepts[k].embedding is None
            &&& session_of(u, session)->0.dim == Some(c.dim as i64)
        }),
{
}

/// The upsert of a concept that is there leaves what canonization made of it, so that a stale copy
/// of the concept can neither undo a transition nor forget a demotion.
pub proof fn an_upsert_leaves_canonization(t: TablesModel, c: ConceptModel)
    requires
        concept_upserted(t, c) is Ok,
        t.concepts.contains_key(id_key(c.id)),
    ensures
        ({
            let old = t.concepts[id_key(c.id)];
            let new = concept_upserted(t, c)->Ok_0.concepts[id_key(c.id)];
            &&& new.status == old.status
            &&& new.blast_radius == old.blast_radius
            &&& new.last_demotion == old.last_demotion
            &&& new.content == c.content
            &&& new.gc_survived == c.gc_survived
            &&& new.embedding == c.embedding
        }),
{
}

/// A transition is applied once: the second time it changes nothing.
pub proof fn a_transition_applies_once(t: TablesModel, e: EventModel)
    requires
        canonized(t, e) is Ok,
    ensures
        canonized(canonized(t, e)->Ok_0, e) == canonized(t, e),
{
}

/// A transition that is no demotion leaves the time of the last one, and one that is sets it.
pub proof fn only_a_demotion_moves_the_cooldown(t: TablesModel, e: EventModel)
    requires
        !t.events.contains_key(id_key(e.id)),
        canonized(t, e) is Ok,
    ensures
        ({
            let old = t.concepts[id_key(e.node)];
            let new = canonized(t, e)->Ok_0.concepts[id_key(e.node)];
            &&& e.last_demotion is None ==> new.last_demotion == old.last_demotion
            &&& e.last_demotion matches Some(at) ==> new.last_demotion == Some(stored_text(at))
            &&& new.blast_radius == e.blast_radius
        }),
{
}

/// An upsert and a transition of one concept come to the same in either order, where the concept
/// is there.
pub proof fn upserts_and_transitions_commute(t: TablesModel, c: ConceptModel, e: EventModel)
    requires
        t.concepts.contains_key(id_key(c.id)),
        t.concepts[id_key(c.id)].session == c.session,
        e.node == c.id,
        concept_upserted(t, c) is Ok,
        canonized(t, e) is Ok,
        !t.events.contains_key(id_key(e.id)),
    ensures
        ({
            let a = canonized(concept_upserted(t, c)->Ok_0, e);
            let b = concept_upserted(canonized(t, e)->Ok_0, c);
            a is Ok && b is Ok && a->Ok_0 =~= b->Ok_0
        }),
{
    let u = canonized(t, e)->Ok_0;
    if key_is_held(u, c) {
        let k = choose|k: RowKey| #[trigger]
            u.concepts.contains_key(k) && u.concepts[k].session == c.session && u.concepts[k].key
                == c.key && u.concepts[k].id != id_text(c.id) && u.concepts[k].concept_type
                != "Observation"@;
        assert(t.concepts.contains_key(k));
    }
}

/// A deleted node leaves no row of its own and no edge that touches it.
pub proof fn a_deleted_node_leaves_no_edges(t: TablesModel, id: NodeId, k: RowKey)
    requires
        node_deleted(t, id) is Ok,
    ensures
        ({
            let u = node_deleted(t, id)->Ok_0;
            &&& !u.concepts.contains_key(id_key(id))
            &&& !u.interactions.contains_key(id_key(id))
            &&& u.edges.contains_key(k) <==> t.edges.contains_key(k) && !is_incident(
                t.edges[k],
                id_text(id),
            )
            &&& u.edges.contains_key(k) ==> u.edges[k] == t.edges[k]
        }),
{
}

/// An edge of a kind between two nodes is there once: writing it again replaces it.
pub proof fn an_edge_is_there_once(t: TablesModel, a: EdgeModel, b: EdgeModel)
    requires
        a.source == b.source,
        a.target == b.target,
        a.edge_type == b.edge_type,
    ensures
        edge_key(a) == edge_key(b),
        edge_upserted(edge_upserted(t, a), b) == edge_upserted(t, b),
{
    assert(edge_upserted(edge_upserted(t, a), b).edges =~= edge_upserted(t, b).edges);
}

proof fn lemma_fence_found(t: TablesModel, ms: Seq<Mutation>, token: Option<u64>, i: int)
    requires
        0 <= i < ms.len(),
        named_session(ms[i]) is Some,
        fenced(named_session(ms[i])->0, token_of(t, named_session(ms[i])->0), token) is Some,
    ensures
        batch_fenced(t, ms, token) is Some,
    decreases ms.len(),
{
    if i < ms.len() - 1 {
        assert(ms.drop_last()[i] == ms[i]);
        lemma_fence_found(t, ms.drop_last(), token, i);
    }
}

proof fn lemma_leases_stay(t: TablesModel, ms: Seq<Mutation>)
    ensures
        with_sessions(t, ms).leases == t.leases,
    decreases ms.len(),
{
    if ms.len() > 0 {
        lemma_leases_stay(t, ms.drop_last());
    }
}

/// A batch that names a session whose lease stands at another token than the writer's is refused
/// whole.
pub proof fn a_stale_writer_is_refused_whole(
    t: TablesModel,
    ms: Seq<Mutation>,
    token: Option<u64>,
    i: int,
)
    requires
        0 <= i < ms.len(),
        named_session(ms[i]) is Some,
        fenced(named_session(ms[i])->0, token_of(t, named_session(ms[i])->0), token) is Some,
    ensures
        flushed(t, ms, token) is Err,
{
    lemma_leases_stay(t, ms);
    lemma_fence_found(with_sessions(t, ms), ms, token, i);
}

proof fn lemma_no_fence(t: TablesModel, ms: Seq<Mutation>, token: Option<u64>)
    requires
        forall|i: int|
            0 <= i < ms.len() && named_session(#[trigger] ms[i]) is Some ==> token_of(
                t,
                named_session(ms[i])->0,
            ) is None,
    ensures
        batch_fenced(t, ms, token) is None,
    decreases ms.len(),
{
    if ms.len() > 0 {
        assert forall|i: int|
            0 <= i < ms.drop_last().len() && named_session(#[trigger] ms.drop_last()[i])
                is Some implies token_of(t, named_session(ms.drop_last()[i])->0) is None by {
            assert(ms.drop_last()[i] == ms[i]);
        }
        lemma_no_fence(t, ms.drop_last(), token);
        assert(ms.last() == ms[ms.len() - 1]);
    }
}

/// Sessions without a lease take every writer: the fence refuses no batch that names only such.
pub proof fn a_session_without_a_lease_takes_every_writer(
    t: TablesModel,
    ms: Seq<Mutation>,
    token: Option<u64>,
)
    requires
        forall|i: int|
            0 <= i < ms.len() && named_session(#[trigger] ms[i]) is Some ==> token_of(
                t,
                named_session(ms[i])->0,
            ) is None,
    ensures
        ms.len() > 0 ==> flushed(t, ms, token) == applied_in_steps(with_sessions(t, ms), ms),
        ms.len() == 0 ==> flushed(t, ms, token) == Ok::<TablesModel, StoreErrorModel>(t),
{
    lemma_leases_stay(t, ms);
    let u = with_sessions(t, ms);
    assert forall|i: int| 0 <= i < ms.len() && named_session(#[trigger] ms[i]) is Some implies
        token_of(u, named_session(ms[i])->0) is None by {}
    lemma_no_fence(u, ms, token);
}

/// An intent that has no outcome stays through the consumption of any other.
pub proof fn an_open_intent_is_never_purged(
    t: TablesModel,
    session: Seq<char>,
    receipt: Seq<char>,
    o: OutcomeModel,
    k: RowKey,
)
    requires
        t.intents.contains_key(k),
        t.intents[k].consumed_at is None,
        k != intent_key(session, receipt),
    ensures
        intent_consumed(t, session, receipt, o).intents.contains_key(k),
        intent_consumed(t, session, receipt, o).intents[k] == t.intents[k],
{
}

/// An intent that was consumed stays for as long as it is kept: the consumption of another purges
/// it only where it was consumed longer ago than that, at milliseconds. Instants lie in years of
/// four digits and in no leap second.
pub proof fn a_consumed_intent_is_kept_for_its_time(
    t: TablesModel,
    session: Seq<char>,
    receipt: Seq<char>,
    o: OutcomeModel,
    k: RowKey,
    at: Timestamp,
)
    requires
        t.intents.contains_key(k),
        k != intent_key(session, receipt),
        t.intents[k].session == session,
        at.valid(),
        in_four_digit_years(at.secs()),
        at.sub_nanos() < 1_000_000_000,
        t.intents[k].consumed_at == Some(stored_text(at)),
        o.consumed_at.valid(),
        o.consumed_at.sub_nanos() < 1_000_000_000,
        in_four_digit_years(o.consumed_at.secs()),
        in_four_digit_years(o.consumed_at.secs() - WRITE_INTENT_RETENTION_SECS),
    ensures
        intent_consumed(t, session, receipt, o).intents.contains_key(k) <==> at.millis()
            >= o.consumed_at.millis() - WRITE_INTENT_RETENTION_SECS * 1000,
{
    let secs = o.consumed_at.secs() - WRITE_INTENT_RETENTION_SECS;
    let nanos = o.consumed_at.sub_nanos();
    let cut = earlier_by(o.consumed_at, age_of(WRITE_INTENT_RETENTION_SECS, 0));
    assert((o.consumed_at.instant() - age_of(WRITE_INTENT_RETENTION_SECS, 0))
        == secs * 1_000_000_000 + nanos);
    assert((secs * 1_000_000_000 + nanos) / 1_000_000_000 == secs);
    assert((secs * 1_000_000_000 + nanos) % 1_000_000_000 == nanos);
    assert(cut == Timestamp::at(secs, nanos));
    Timestamp::at_parts(secs, nanos);
    let a = stored_text(at);
    let b = cutoff(o.consumed_at, WRITE_INTENT_RETENTION_SECS, 0);
    stored_texts_sort_by_time(at.secs(), at.sub_nanos(), secs, nanos);
    a_text_is_one_instant(at.secs(), at.sub_nanos(), secs, nanos);
    stored_texts_sort_by_time(secs, nanos, at.secs(), at.sub_nanos());
    text_order_is_total(a, b);
    assert(text_earlier(a, b) <==> at.millis() < secs * 1000 + nanos / 1_000_000);
}

/// That an optional instant is one.
pub open spec fn opt_valid(t: Option<Timestamp>) -> bool {
    t matches Some(x) ==> x.valid()
}

/// An interaction reads back as it was written, its instant cut to the millisecond.
pub proof fn an_interaction_reads_back(i: InteractionModel)
    requires
        i.created_at.valid(),
        in_four_digit_years(i.created_at.secs()),
    ensures
        interaction_read(interaction_written(i)) == Ok::<InteractionModel, StoreErrorModel>(
            InteractionModel { created_at: i.created_at.cut(), ..i },
        ),
{
    an_identifier_reads_back(i.id, "interaction id"@);
    if i.previous is Some {
        an_identifier_reads_back(i.previous->0, "node id"@);
    }
    an_instant_reads_back(i.created_at);
}

/// An optional instant reads back, cut to the millisecond.
pub proof fn lemma_opt_instant(t: Option<Timestamp>)
    requires
        opt_valid(t),
        opt_four_digits(t),
    ensures
        opt_ts_read(opt_stored(t)) == Ok::<Option<Timestamp>, StoreErrorModel>(cut_opt(t)),
{
    if t is Some {
        an_instant_reads_back(t->0);
    }
}

/// A concept reads back as it was written, its instants cut to the millisecond.
pub proof fn a_concept_reads_back(c: ConceptModel)
    requires
        c.created_at.valid(),
        opt_valid(c.last_accessed),
        opt_valid(c.last_demotion),
        concept_storable(c),
    ensures
        concept_read(concept_written(c)) == Ok::<ConceptModel, StoreErrorModel>(concept_stored(c)),
{
    an_identifier_reads_back(c.id, "concept id"@);
    an_identifier_reads_back(c.origin, "origin_interaction"@);
    concept_type_round_trips(c.concept_type);
    status_round_trips(c.status, "canonization_status"@);
    an_instant_reads_back(c.created_at);
    lemma_opt_instant(c.last_accessed);
    lemma_opt_instant(c.last_demotion);
}

/// An edge reads back as it was written, its instants cut to the millisecond.
pub proof fn an_edge_reads_back(e: EdgeModel)
    requires
        e.created_at.valid(),
        e.last_reinforced.valid(),
        in_four_digit_years(e.created_at.secs()),
        in_four_digit_years(e.last_reinforced.secs()),
    ensures
        edge_read(edge_written(e)) == Ok::<EdgeModel, StoreErrorModel>(
            EdgeModel {
                created_at: e.created_at.cut(),
                last_reinforced: e.last_reinforced.cut(),
                ..e
            },
        ),
{
    an_identifier_reads_back(e.id, "edge id"@);
    an_identifier_reads_back(e.source, "edge source"@);
    an_identifier_reads_back(e.target, "edge target"@);
    edge_type_round_trips(e.edge_type);
    an_instant_reads_back(e.created_at);
    an_instant_reads_back(e.last_reinforced);
}

/// A transition reads back as it was written, its instants cut to the millisecond.
pub proof fn a_transition_reads_back(e: EventModel)
    requires
        e.occurred_at.valid(),
        opt_valid(e.last_demotion),
        in_four_digit_years(e.occurred_at.secs()),
        opt_four_digits(e.last_demotion),
    ensures
        event_read(event_written(e)) == Ok::<EventModel, StoreErrorModel>(
            EventModel {
                occurred_at: e.occurred_at.cut(),
                last_demotion: cut_opt(e.last_demotion),
                ..e
            },
        ),
{
    an_identifier_reads_back(e.id, "canonization event id"@);
    an_identifier_reads_back(e.node, "canonization node"@);
    status_round_trips(e.from_status, "from_status"@);
    status_round_trips(e.to_status, "to_status"@);
    lemma_opt_instant(e.last_demotion);
    an_instant_reads_back(e.occurred_at);
}

/// A reservation reads back as it was written, its instant cut to the millisecond.
pub proof fn a_reservation_reads_back(x: ReservationModel)
    requires
        x.expires_at.valid(),
        in_four_digit_years(x.expires_at.secs()),
    ensures
        reservation_read(reservation_written(x)) == Ok::<ReservationModel, StoreErrorModel>(
            ReservationModel { expires_at: x.expires_at.cut(), ..x },
        ),
{
    an_identifier_reads_back(x.node, "reservation node"@);
    an_instant_reads_back(x.expires_at);
}

/// An intent reads back as it was written, its instants cut to the millisecond.
pub proof fn an_intent_reads_back(i: IntentModel)
    requires
        i.created_at.valid(),
        i.outcome matches Some(o) ==> o.consumed_at.valid(),
        intent_storable(i),
    ensures
        intent_read(intent_written(i)) == Ok::<IntentModel, StoreErrorModel>(intent_stored(i)),
{
    an_identifier_reads_back(i.interaction, "write intent interaction"@);
    an_instant_reads_back(i.created_at);
    if i.outcome is Some {
        an_instant_reads_back(i.outcome->0.consumed_at);
    }
}

/// Where all rows were read, each was read.
pub proof fn lemma_read_each<R, M>(
    rows: Seq<R>,
    read: spec_fn(R) -> Result<M, StoreErrorModel>,
    out: Seq<M>,
    i: int,
)
    requires
        read_all(rows, read) == Ok::<Seq<M>, StoreErrorModel>(out),
        0 <= i < rows.len(),
    ensures
        out.len() == rows.len(),
        read(rows[i]) == Ok::<M, StoreErrorModel>(out[i]),
    decreases rows.len(),
{
    let less = rows.drop_last();
    let rest = read_all(less, read)->Ok_0;
    if less.len() == 0 {
        assert(rest.len() == 0) by {
            assert(read_all(less, read) == Ok::<Seq<M>, StoreErrorModel>(rest));
        }
    }
    if i < less.len() {
        lemma_read_each(less, read, rest, i);
    } else if less.len() > 0 {
        lemma_read_each(less, read, rest, 0);
    }
}

/// What a session's loading gives of a contract that was just stamped.
pub proof fn a_stamped_contract_is_loaded(
    t: TablesModel,
    session: Seq<char>,
    c: Option<ContractModel>,
    loaded: SnapshotModel,
)
    requires
        embedding_set(t, session, c) is Ok,
        c matches Some(x) ==> x.dim <= usize::MAX,
        loads_as(
            embedding_set(t, session, c)->Ok_0,
            session,
            Ok::<SnapshotModel, StoreErrorModel>(loaded),
        ),
    ensures
        loaded.embedding == c,
{
}

/// What a session's loading gives of a goal that was just set: its JSON, written compactly.
pub proof fn a_goal_is_loaded(
    t: TablesModel,
    session: Seq<char>,
    goal: Option<Seq<char>>,
    loaded: SnapshotModel,
)
    requires
        goal_set(t, session, goal) is Ok,
        loads_as(
            goal_set(t, session, goal)->Ok_0,
            session,
            Ok::<SnapshotModel, StoreErrorModel>(loaded),
        ),
    ensures
        Ok::<Option<Seq<char>>, StoreErrorModel>(loaded.root_goal) == goal_read(goal),
{
}

/// That every row can be read.
pub open spec fn are_readable(t: TablesModel) -> bool {
    &&& forall|k: RowKey| #[trigger]
        t.sessions.contains_key(k) ==> goal_read(t.sessions[k].root_goal) is Ok && contract_of(
            t.sessions[k],
        ) is Ok
    &&& forall|k: RowKey| #[trigger]
        t.interactions.contains_key(k) ==> interaction_read(t.interactions[k]) is Ok
    &&& forall|k: RowKey| #[trigger]
        t.concepts.contains_key(k) ==> concept_read(t.concepts[k]) is Ok
    &&& forall|k: RowKey| #[trigger] t.edges.contains_key(k) ==> edge_read(t.edges[k]) is Ok
    &&& forall|k: RowKey| #[trigger]
        t.reservations.contains_key(k) ==> reservation_read(t.reservations[k]) is Ok
    &&& forall|k: RowKey| #[trigger] t.events.contains_key(k) ==> event_read(t.events[k]) is Ok
    &&& forall|k: RowKey| #[trigger] t.intents.contains_key(k) ==> intent_read(t.intents[k]) is Ok
}

/// That an instant is one, in a year of four digits.
pub open spec fn can_be_stored(t: Timestamp) -> bool {
    t.valid() && in_four_digit_years(t.secs())
}

/// That an optional instant is one, in a year of four digits.
pub open spec fn opt_can_be_stored(t: Option<Timestamp>) -> bool {
    t matches Some(x) ==> can_be_stored(x)
}

/// That what a mutation writes can be read back: its instants lie in years of four digits, its goal
/// is JSON, its lane number and its width fit a column.
pub open spec fn is_storable(m: Mutation) -> bool {
    match m {
        Mutation::UpsertNode { node: Node::Interaction(i) } => can_be_stored(i@.created_at),
        Mutation::UpsertNode { node: Node::Concept(c) } => can_be_stored(c@.created_at)
            && opt_can_be_stored(c@.last_accessed) && opt_can_be_stored(c@.last_demotion),
        Mutation::UpsertEdge { edge } => can_be_stored(edge@.created_at) && can_be_stored(
            edge@.last_reinforced,
        ),
        Mutation::CanonizationTransition { event } => can_be_stored(event@.occurred_at)
            && opt_can_be_stored(event@.last_demotion),
        Mutation::SetRootGoal { goal, .. } => goal_read(opt_text(goal)) is Ok,
        Mutation::PutWriteIntent { intent } => can_be_stored(intent@.created_at) && (
        intent@.outcome matches Some(o) ==> can_be_stored(o.consumed_at)) && intent@.lane_seq
            <= i64::MAX,
        Mutation::ConsumeWriteIntent { outcome, .. } => can_be_stored(outcome@.consumed_at),
        _ => true,
    }
}

proof fn lemma_concept_still_readable(t: TablesModel, c: ConceptModel)
    requires
        are_readable(t),
        concept_upserted(t, c) is Ok,
        can_be_stored(c.created_at),
        opt_can_be_stored(c.last_accessed),
        opt_can_be_stored(c.last_demotion),
    ensures
        are_readable(concept_upserted(t, c)->Ok_0),
{
    let u = concept_upserted(t, c)->Ok_0;
    a_concept_reads_back(c);
    if t.concepts.contains_key(id_key(c.id)) {
        assert(concept_read(t.concepts[id_key(c.id)]) is Ok);
        assert(concept_read(concept_merged(t, c)) is Ok);
    }
    assert forall|k: RowKey| #[trigger] u.concepts.contains_key(k) implies concept_read(
        u.concepts[k],
    ) is Ok by {
        if k != id_key(c.id) {
            assert(t.concepts.contains_key(k));
        }
    }
}

proof fn lemma_transition_still_readable(t: TablesModel, e: EventModel)
    requires
        are_readable(t),
        canonized(t, e) is Ok,
        can_be_stored(e.occurred_at),
        opt_can_be_stored(e.last_demotion),
    ensures
        are_readable(canonized(t, e)->Ok_0),
{
    let u = canonized(t, e)->Ok_0;
    a_transition_reads_back(e);
    status_round_trips(e.to_status, "canonization_status"@);
    lemma_opt_instant(e.last_demotion);
    if t.concepts.contains_key(id_key(e.node)) {
        assert(concept_read(t.concepts[id_key(e.node)]) is Ok);
    }
    assert forall|k: RowKey| #[trigger] u.concepts.contains_key(k) implies concept_read(
        u.concepts[k],
    ) is Ok by {
        assert(t.concepts.contains_key(k));
    }
    assert forall|k: RowKey| #[trigger] u.events.contains_key(k) implies event_read(u.events[k])
        is Ok by {
        if k != id_key(e.id) {
            assert(t.events.contains_key(k));
        }
    }
}

proof fn lemma_consumption_still_readable(
    t: TablesModel,
    session: Seq<char>,
    receipt: Seq<char>,
    o: OutcomeModel,
)
    requires
        are_readable(t),
        can_be_stored(o.consumed_at),
    ensures
        are_readable(intent_consumed(t, session, receipt, o)),
{
    let u = intent_consumed(t, session, receipt, o);
    let key = intent_key(session, receipt);
    an_instant_reads_back(o.consumed_at);
    if t.intents.contains_key(key) {
        assert(intent_read(t.intents[key]) is Ok);
    }
    assert forall|k: RowKey| #[trigger] u.intents.contains_key(k) implies intent_read(u.intents[k])
        is Ok by {
        assert(t.intents.contains_key(k));
    }
}

proof fn lemma_still_readable(t: TablesModel, m: Mutation)
    requires
        are_readable(t),
        is_storable(m),
        applied(t, m) is Ok,
    ensures
        are_readable(applied(t, m)->Ok_0),
{
    let u = applied(t, m)->Ok_0;
    match m {
        Mutation::UpsertNode { node: Node::Interaction(i) } => {
            an_interaction_reads_back(i@);
            assert forall|k: RowKey| #[trigger] u.interactions.contains_key(k) implies
                interaction_read(u.interactions[k]) is Ok by {
                if k != id_key(i@.id) {
                    assert(t.interactions.contains_key(k));
                }
            }
        },
        Mutation::UpsertNode { node: Node::Concept(c) } => lemma_concept_still_readable(t, c@),
        Mutation::UpsertEdge { edge } => {
            an_edge_reads_back(edge@);
            assert forall|k: RowKey| #[trigger] u.edges.contains_key(k) implies edge_read(
                u.edges[k],
            ) is Ok by {
                if k != edge_key(edge@) {
                    assert(t.edges.contains_key(k));
                }
            }
        },
        Mutation::DeleteNode { id } => {
            assert forall|k: RowKey| #[trigger] u.edges.contains_key(k) implies edge_read(
                u.edges[k],
            ) is Ok by {
                assert(t.edges.contains_key(k));
            }
            assert forall|k: RowKey| #[trigger] u.concepts.contains_key(k) implies concept_read(
                u.concepts[k],
            ) is Ok by {
                assert(t.concepts.contains_key(k));
            }
            assert forall|k: RowKey| #[trigger] u.interactions.contains_key(k) implies
                interaction_read(u.interactions[k]) is Ok by {
                assert(t.interactions.contains_key(k));
            }
        },
        Mutation::DeleteEdge { id } => {
            assert forall|k: RowKey| #[trigger] u.edges.contains_key(k) implies edge_read(
                u.edges[k],
            ) is Ok by {
                assert(t.edges.contains_key(k));
            }
        },
        Mutation::CanonizationTransition { event } => lemma_transition_still_readable(t, event@),
        Mutation::SetRootGoal { session_id, goal } => {
            assert(t.sessions.contains_key(seq![session_id@]));
            assert forall|k: RowKey| #[trigger] u.sessions.contains_key(k) implies goal_read(
                u.sessions[k].root_goal,
            ) is Ok && contract_of(u.sessions[k]) is Ok by {
                assert(t.sessions.contains_key(k));
            }
        },
        Mutation::SetEmbedding { session_id, embedding } => {
            assert(t.sessions.contains_key(seq![session_id@]));
            assert forall|k: RowKey| #[trigger] u.sessions.contains_key(k) implies goal_read(
                u.sessions[k].root_goal,
            ) is Ok && contract_of(u.sessions[k]) is Ok by {
                assert(t.sessions.contains_key(k));
            }
            assert forall|k: RowKey| #[trigger] u.concepts.contains_key(k) implies concept_read(
                u.concepts[k],
            ) is Ok by {
                assert(t.concepts.contains_key(k));
            }
        },
        Mutation::PutWriteIntent { intent } => {
            an_intent_reads_back(intent@);
            assert forall|k: RowKey| #[trigger] u.intents.contains_key(k) implies intent_read(
                u.intents[k],
            ) is Ok by {
                if k != intent_key(intent@.session, intent@.receipt) {
                    assert(t.intents.contains_key(k));
                }
            }
        },
        Mutation::ConsumeWriteIntent { session_id, receipt, outcome } => {
            lemma_consumption_still_readable(t, session_id@, receipt@, outcome@);
        },
    }
}

proof fn lemma_sessions_still_readable(t: TablesModel, ms: Seq<Mutation>)
    requires
        are_readable(t),
    ensures
        are_readable(with_sessions(t, ms)),
    decreases ms.len(),
{
    if ms.len() > 0 {
        let u = with_sessions(t, ms.drop_last());
        lemma_sessions_still_readable(t, ms.drop_last());
        match named_session(ms.last()) {
            Some(s) => {
                let v = with_session(u, s);
                assert forall|k: RowKey| #[trigger] v.sessions.contains_key(k) implies goal_read(
                    v.sessions[k].root_goal,
                ) is Ok && contract_of(v.sessions[k]) is Ok by {
                    if k != seq![s] {
                        assert(u.sessions.contains_key(k));
                    }
                }
            },
            None => {},
        }
    }
}

proof fn lemma_all_still_readable(t: TablesModel, ms: Seq<Mutation>)
    requires
        are_readable(t),
        forall|i: int| 0 <= i < ms.len() ==> is_storable(#[trigger] ms[i]),
        applied_all(t, ms) is Ok,
    ensures
        are_readable(applied_all(t, ms)->Ok_0),
    decreases ms.len(),
{
    if ms.len() > 0 {
        let less = ms.drop_last();
        assert forall|i: int| 0 <= i < less.len() implies is_storable(#[trigger] less[i]) by {
            assert(less[i] == ms[i]);
        }
        lemma_all_still_readable(t, less);
        assert(ms.last() == ms[ms.len() - 1]);
        lemma_still_readable(applied_all(t, less)->Ok_0, ms.last());
    }
}

/// Where each row can be read, all are.
pub proof fn lemma_all_read<R, M>(rows: Seq<R>, read: spec_fn(R) -> Result<M, StoreErrorModel>)
    requires
        forall|i: int| 0 <= i < rows.len() ==> #[trigger] read(rows[i]) is Ok,
    ensures
        read_all(rows, read) is Ok,
    decreases rows.len(),
{
    if rows.len() > 0 {
        let less = rows.drop_last();
        assert forall|i: int| 0 <= i < less.len() implies #[trigger] read(less[i]) is Ok by {
            assert(less[i] == rows[i]);
            assert(read(rows[i]) is Ok);
        }
        lemma_all_read(less, read);
        assert(read(rows[rows.len() - 1]) is Ok);
    }
}

/// A session whose rows can be read is loaded.
pub proof fn a_readable_session_is_loaded(
    t: TablesModel,
    s: Seq<char>,
    r: Result<SnapshotModel, StoreErrorModel>,
)
    requires
        are_readable(t),
        stand_under_their_keys(t),
        session_of(t, s) is Some,
        loads_as(t, s, r),
    ensures
        r is Ok,
{
    let row = session_of(t, s)->0;
    assert(t.sessions.contains_key(seq![s]));
    lemma_one(row.session, s);
    let (rows, intents) = choose|
        rows: SessionRows,
        intents: Result<Seq<IntentModel>, StoreErrorModel>,
    |
        #![trigger rows_of(t, s, rows), intents_loaded(rows.write_intents@, intents)]
        rows_of(t, s, rows) && intents_loaded(rows.write_intents@, intents) && r == session_read(
            s,
            row,
            rows,
            intents,
        );
    let a = interaction_rows(rows.interactions@);
    assert forall|i: int| 0 <= i < a.len() implies #[trigger] reads_interactions()(a[i]) is Ok by {
        lemma_found(rows.interactions@, i);
        assert(t.interactions.contains_key(InteractionRow::key_of(a[i])));
    }
    lemma_all_read(a, reads_interactions());
    let b = concept_rows(rows.concepts@);
    assert forall|i: int| 0 <= i < b.len() implies #[trigger] reads_concepts()(b[i]) is Ok by {
        lemma_found(rows.concepts@, i);
        assert(t.concepts.contains_key(ConceptRow::key_of(b[i])));
    }
    lemma_all_read(b, reads_concepts());
    let c = edge_rows(rows.edges@);
    assert forall|i: int| 0 <= i < c.len() implies #[trigger] reads_edges()(c[i]) is Ok by {
        lemma_found(rows.edges@, i);
        assert(t.edges.contains_key(EdgeRow::key_of(c[i])));
    }
    lemma_all_read(c, reads_edges());
    let d = reservation_rows(rows.reservations@);
    assert forall|i: int| 0 <= i < d.len() implies #[trigger] reads_reservations()(d[i]) is Ok by {
        lemma_found(rows.reservations@, i);
        assert(t.reservations.contains_key(ReservationRow::key_of(d[i])));
    }
    lemma_all_read(d, reads_reservations());
    let e = event_rows(rows.canonization_events@);
    assert forall|i: int| 0 <= i < e.len() implies #[trigger] reads_events()(e[i]) is Ok by {
        lemma_found(rows.canonization_events@, i);
        assert(t.events.contains_key(EventRow::key_of(e[i])));
    }
    lemma_all_read(e, reads_events());
    let sorted = choose|sorted: Seq<IntentRow>|
        #![trigger intent_rows(sorted)]
        sorted.to_multiset() == rows.write_intents@.to_multiset() && in_issue_order(
            intent_rows(sorted),
        ) && read_all(intent_rows(sorted), reads_intents()) == intents;
    let f = intent_rows(sorted);
    assert forall|i: int| 0 <= i < f.len() implies #[trigger] reads_intents()(f[i]) is Ok by {
        let given = rows.write_intents@;
        broadcast use vstd::seq_lib::group_to_multiset_ensures;

        assert(sorted.contains(sorted[i]));
        assert(sorted.to_multiset().count(sorted[i]) > 0);
        assert(given.contains(sorted[i]));
        let j = choose|j: int| 0 <= j < given.len() && given[j] == sorted[i];
        lemma_found(given, j);
        assert(t.intents.contains_key(IntentRow::key_of(f[i])));
    }
    lemma_all_read(f, reads_intents());
}

/// Whatever is flushed into readable tables, in a form that can be stored, leaves them readable, so
/// that every session can be loaded again.
pub proof fn a_flushed_session_is_loaded(
    t: TablesModel,
    ms: Seq<Mutation>,
    token: Option<u64>,
    s: Seq<char>,
    r: Result<SnapshotModel, StoreErrorModel>,
)
    requires
        are_sound(t),
        are_readable(t),
        forall|i: int| 0 <= i < ms.len() ==> is_storable(#[trigger] ms[i]),
        flushed(t, ms, token) is Ok,
        session_of(flushed(t, ms, token)->Ok_0, s) is Some,
        loads_as(flushed(t, ms, token)->Ok_0, s, r),
    ensures
        are_readable(flushed(t, ms, token)->Ok_0),
        r is Ok,
{
    a_flush_keeps_the_tables_sound(t, ms, token);
    if ms.len() > 0 {
        lemma_sessions_still_readable(t, ms);
        steps_are_in_turn(with_sessions(t, ms), ms);
        lemma_all_still_readable(with_sessions(t, ms), ms);
    }
    a_readable_session_is_loaded(flushed(t, ms, token)->Ok_0, s, r);
}

/// A session whose tables are sound answers a probe of its contract and width: no stored vector
/// stops it.
pub proof fn a_sound_session_answers_a_probe(
    t: TablesModel,
    s: Seq<char>,
    stored: ContractModel,
    probe: Seq<u32>,
    limit: nat,
    max: nat,
    r: Result<Seq<CandidateModel>, StoreErrorModel>,
)
    requires
        are_sound(t),
        are_readable(t),
        session_of(t, s) is Some,
        contract_of(session_of(t, s)->0) == Ok::<Option<ContractModel>, StoreErrorModel>(
            Some(stored),
        ),
        embedding_fault(probe) is None,
        probe.len() == stored.dim,
        limit <= max,
        pool_answer(t, s, probe, stored, limit, max, r),
    ensures
        r is Ok,
{
    if limit > 0 {
        let rows = choose|rows: Seq<ConceptRow>|
            #![trigger concept_rows(rows)]
            lists(rows, embedded_in(t, s)) && ranked(rows) && r == read_all(
                concept_rows(rows),
                candidate_read(s, stored.dim),
            );
        let all = concept_rows(rows);
        assert forall|i: int| 0 <= i < all.len() implies #[trigger] candidate_read(s, stored.dim)(
            all[i],
        ) is Ok by {
            lemma_found(rows, i);
            let k = ConceptRow::key_of(all[i]);
            assert(t.concepts.contains_key(k) && t.concepts[k] == all[i]);
            assert(t.sessions.contains_key(seq![s]));
            lemma_one(t.sessions[seq![s]].session, s);
        }
        lemma_all_read(all, candidate_read(s, stored.dim));
    }
}

proof fn lemma_concept_again(t: TablesModel, c: ConceptModel)
    requires
        concept_upserted(t, c) is Ok,
    ensures
        concept_upserted(concept_upserted(t, c)->Ok_0, c) == concept_upserted(t, c),
{
    let u = concept_upserted(t, c)->Ok_0;
    let k0 = id_key(c.id);
    assert(concept_merged(t, c).id == id_text(c.id));
    assert(!key_is_held(u, c)) by {
        if key_is_held(u, c) {
            let k = choose|k: RowKey| #[trigger]
                u.concepts.contains_key(k) && u.concepts[k].session == c.session
                    && u.concepts[k].key == c.key && u.concepts[k].id != id_text(c.id)
                    && u.concepts[k].concept_type != "Observation"@;
            assert(k != k0);
            assert(t.concepts.contains_key(k));
        }
    }
    assert(concept_merged(u, c) == concept_merged(t, c));
    assert(u.concepts.insert(k0, concept_merged(u, c)) =~= u.concepts);
}

proof fn lemma_deletion_again(t: TablesModel, id: NodeId)
    requires
        node_deleted(t, id) is Ok,
    ensures
        node_deleted(node_deleted(t, id)->Ok_0, id) == node_deleted(t, id),
{
    let u = node_deleted(t, id)->Ok_0;
    lemma_one(id_text(id), id_text(id));
    assert(!u.interactions.contains_key(seq![id_text(id)]));
    assert(u.interactions.remove(id_key(id)) =~= u.interactions);
    assert(u.concepts.remove(id_key(id)) =~= u.concepts);
    assert(u.edges.restrict(
        u.edges.dom().filter(|k: RowKey| !is_incident(u.edges[k], id_text(id))),
    ) =~= u.edges);
}

proof fn lemma_stamp_again(t: TablesModel, session: Seq<char>, c: Option<ContractModel>)
    requires
        embedding_set(t, session, c) is Ok,
    ensures
        embedding_set(embedding_set(t, session, c)->Ok_0, session, c) == embedding_set(
            t,
            session,
            c,
        ),
{
    let u = embedding_set(t, session, c)->Ok_0;
    let row = session_of(u, session)->0;
    assert(u.sessions.insert(seq![session], stamped(row, c)) =~= u.sessions);
}

proof fn lemma_consumption_again(
    t: TablesModel,
    session: Seq<char>,
    receipt: Seq<char>,
    o: OutcomeModel,
)
    ensures
        intent_consumed(intent_consumed(t, session, receipt, o), session, receipt, o)
            == intent_consumed(t, session, receipt, o),
{
    let u = intent_consumed(t, session, receipt, o);
    let v = intent_consumed(u, session, receipt, o);
    let key = intent_key(session, receipt);
    assert(u.intents.contains_key(key) ==> u.intents.insert(
        key,
        consumed(u.intents[key], o),
    ) =~= u.intents);
    assert(v.intents =~= u.intents);
}

/// A mutation that is applied again changes nothing: what was replayed or retried is done once.
pub proof fn a_mutation_done_twice_is_done_once(t: TablesModel, m: Mutation)
    requires
        applied(t, m) is Ok,
    ensures
        applied(applied(t, m)->Ok_0, m) == applied(t, m),
{
    let u = applied(t, m)->Ok_0;
    match m {
        Mutation::UpsertNode { node: Node::Interaction(i) } => {
            assert(u.interactions.insert(id_key(i@.id), interaction_written(i@))
                =~= u.interactions);
        },
        Mutation::UpsertNode { node: Node::Concept(c) } => lemma_concept_again(t, c@),
        Mutation::UpsertEdge { edge } => {
            assert(u.edges.insert(edge_key(edge@), edge_written(edge@)) =~= u.edges);
        },
        Mutation::DeleteNode { id } => lemma_deletion_again(t, id),
        Mutation::DeleteEdge { id } => {
            assert(u.edges.restrict(
                u.edges.dom().filter(|k: RowKey| u.edges[k].id != id_text(id)),
            ) =~= u.edges);
        },
        Mutation::CanonizationTransition { .. } => {},
        Mutation::SetRootGoal { session_id, goal } => {
            let row = session_of(u, session_id@)->0;
            assert(row.root_goal == opt_text(goal));
            assert(u.sessions.insert(seq![session_id@], row) =~= u.sessions);
        },
        Mutation::SetEmbedding { session_id, embedding } => {
            lemma_stamp_again(t, session_id@, opt_contract(embedding));
        },
        Mutation::PutWriteIntent { intent } => {
            assert(u.intents.insert(
                intent_key(intent@.session, intent@.receipt),
                intent_written(intent@),
            ) =~= u.intents);
        },
        Mutation::ConsumeWriteIntent { session_id, receipt, outcome } => {
            lemma_consumption_again(t, session_id@, receipt@, outcome@);
        },
    }
}

} // verus!
