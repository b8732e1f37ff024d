//! What a load gives back of what was written.

use crate::calendar::a_text_is_one_instant;
use crate::job::{intent_for, IntentModel, JobModel};
use crate::pipeline::{replay_job, seed_answer, seeds, unconsumed};
use crate::receipt::{read_wire, receipt_id_round_trips};
use crate::store::codec::{an_identifier_reads_back, edge_type_round_trips};
use crate::store::flush::{
    applied, applied_all, flushed, steps_are_in_turn, upserted_concept, with_sessions,
};
use crate::store::laws::{
    a_concept_reads_back, an_edge_reads_back, an_intent_reads_back, an_interaction_reads_back,
    can_be_stored, is_storable, lemma_read_each, opt_valid,
};
use crate::store::load::{
    concepts_in, edges_in, events_in, intents_in, interactions_in, loads_as, reservations_in,
    rows_of, synonyms_in,
};
use crate::store::order::list_no_later;
use crate::store::rows::{
    concept_storable, concept_stored, concept_written, edge_written, intent_storable, intent_stored,
    intent_written, interaction_written, ConceptModel, ConceptRow, ConceptRowModel, EdgeModel,
    EdgeRow, EdgeRowModel, EventRow, EventRowModel, IntentRow, InteractionModel, InteractionRow,
    InteractionRowModel, ReservationRow, ReservationRowModel,
};
use crate::store::session::{
    concept_rows, edge_rows, event_rows, in_issue_order, intent_rows, intents_loaded,
    interaction_rows, read_all, reads_concepts, reads_edges, reads_events, reads_intents,
    reads_interactions, reads_reservations, reservation_rows, session_read, synonyms_of,
    SessionRows, SnapshotModel, SynonymModel,
};
use crate::store::table::{by_key, lemma_found, stands_at, Row, RowKey};
use crate::store::tables::{
    concept_merged, concept_upserted, edge_key, id_key, id_text, intent_key, no_rows, session_of,
    TablesModel,
};
use crate::time::{stored_text, Timestamp};
use crate::types::{Mutation, Node, NodeId, StoreErrorModel, Synonym};
use vstd::prelude::*;

verus! {

/// An interaction as it reads back: its instant cut to the millisecond.
pub open spec fn interaction_stored(i: InteractionModel) -> InteractionModel {
    InteractionModel { created_at: i.created_at.cut(), ..i }
}

/// An edge as it reads back: its instants cut to the millisecond.
pub open spec fn edge_stored(e: EdgeModel) -> EdgeModel {
    EdgeModel {
        created_at: e.created_at.cut(),
        last_reinforced: e.last_reinforced.cut(),
        ..e
    }
}

/// The rows that a loaded session was read from.
pub proof fn lemma_loaded_rows(u: TablesModel, s: Seq<char>, loaded: SnapshotModel) -> (rows:
    SessionRows)
    requires
        loads_as(u, s, Ok::<SnapshotModel, StoreErrorModel>(loaded)),
    ensures
        rows_of(u, s, rows),
        read_all(interaction_rows(rows.interactions@), reads_interactions()) == Ok::<
            Seq<InteractionModel>,
            StoreErrorModel,
        >(loaded.interactions),
        read_all(concept_rows(rows.concepts@), reads_concepts()) == Ok::<
            Seq<ConceptModel>,
            StoreErrorModel,
        >(loaded.concepts),
        read_all(edge_rows(rows.edges@), reads_edges()) == Ok::<Seq<EdgeModel>, StoreErrorModel>(
            loaded.edges,
        ),
        read_all(reservation_rows(rows.reservations@), reads_reservations()) == Ok::<
            _,
            StoreErrorModel,
        >(loaded.reservations),
        read_all(event_rows(rows.canonization_events@), reads_events()) == Ok::<
            _,
            StoreErrorModel,
        >(loaded.events),
        loaded.synonyms == synonyms_of(rows.synonyms@),
{
    let row = session_of(u, s)->0;
    let (rows, intents) = choose|
        rows: SessionRows,
        intents: Result<Seq<IntentModel>, StoreErrorModel>,
    |
        #![trigger rows_of(u, s, rows), intents_loaded(rows.write_intents@, intents)]
        rows_of(u, s, rows) && intents_loaded(rows.write_intents@, intents) && Ok::<
            SnapshotModel,
            StoreErrorModel,
        >(loaded) == session_read(s, row, rows, intents);
    rows
}

/// What a session's loading gives of an interaction whose row is there.
pub proof fn an_interaction_in_its_row_is_loaded(
    u: TablesModel,
    i: InteractionModel,
    loaded: SnapshotModel,
) -> (at: int)
    requires
        u.interactions.contains_key(id_key(i.id)),
        u.interactions[id_key(i.id)] == interaction_written(i),
        can_be_stored(i.created_at),
        loads_as(u, i.session, Ok::<SnapshotModel, StoreErrorModel>(loaded)),
    ensures
        0 <= at < loaded.interactions.len(),
        loaded.interactions[at] == interaction_stored(i),
{
    let rows = lemma_loaded_rows(u, i.session, loaded);
    let key = id_key(i.id);
    assert(interactions_in(u, i.session).contains_key(key));
    let at = choose|j: int| #[trigger] stands_at(rows.interactions@, key, j);
    assert(by_key(rows.interactions@).contains_key(key));
    assert(stands_at(rows.interactions@, key, at));
    lemma_found(rows.interactions@, at);
    let all = interaction_rows(rows.interactions@);
    lemma_read_each(all, reads_interactions(), loaded.interactions, at);
    an_interaction_reads_back(i);
    at
}

/// What a session's loading gives of a concept whose row is there: the concept itself, but for what
/// canonization has made of it where the row says otherwise.
pub proof fn a_concept_in_its_row_is_loaded(
    u: TablesModel,
    c: ConceptModel,
    loaded: SnapshotModel,
) -> (at: int)
    requires
        u.concepts.contains_key(id_key(c.id)),
        is_row_of(u.concepts[id_key(c.id)], c),
        can_be_stored(c.created_at),
        opt_valid(c.last_accessed),
        opt_valid(c.last_demotion),
        concept_storable(c),
        loads_as(u, c.session, Ok::<SnapshotModel, StoreErrorModel>(loaded)),
    ensures
        0 <= at < loaded.concepts.len(),
        ({
            let x = loaded.concepts[at];
            &&& x == ConceptModel {
                status: x.status,
                blast_radius: x.blast_radius,
                last_demotion: x.last_demotion,
                ..concept_stored(c)
            }
            &&& u.concepts[id_key(c.id)] == concept_written(c) ==> x == concept_stored(c)
        }),
{
    let rows = lemma_loaded_rows(u, c.session, loaded);
    let key = id_key(c.id);
    assert(concepts_in(u, c.session).contains_key(key));
    let at = choose|j: int| #[trigger] stands_at(rows.concepts@, key, j);
    assert(by_key(rows.concepts@).contains_key(key));
    assert(stands_at(rows.concepts@, key, at));
    lemma_found(rows.concepts@, at);
    let all = concept_rows(rows.concepts@);
    lemma_read_each(all, reads_concepts(), loaded.concepts, at);
    a_concept_reads_back(c);
    at
}

/// What a session's loading gives of an edge whose row is there.
pub proof fn an_edge_in_its_row_is_loaded(
    u: TablesModel,
    e: EdgeModel,
    loaded: SnapshotModel,
) -> (at: int)
    requires
        u.edges.contains_key(edge_key(e)),
        u.edges[edge_key(e)] == edge_written(e),
        can_be_stored(e.created_at),
        can_be_stored(e.last_reinforced),
        loads_as(u, e.session, Ok::<SnapshotModel, StoreErrorModel>(loaded)),
    ensures
        0 <= at < loaded.edges.len(),
        loaded.edges[at] == edge_stored(e),
{
    let rows = lemma_loaded_rows(u, e.session, loaded);
    let key = edge_key(e);
    assert(edges_in(u, e.session).contains_key(key));
    let at = choose|j: int| #[trigger] stands_at(rows.edges@, key, j);
    assert(by_key(rows.edges@).contains_key(key));
    assert(stands_at(rows.edges@, key, at));
    lemma_found(rows.edges@, at);
    let all = edge_rows(rows.edges@);
    lemma_read_each(all, reads_edges(), loaded.edges, at);
    an_edge_reads_back(e);
    at
}

/// The interaction that a mutation puts in or changes, if it is one that does.
pub open spec fn upserted_interaction(m: Mutation) -> Option<InteractionModel> {
    match m {
        Mutation::UpsertNode { node: Node::Interaction(i) } => Some(i@),
        _ => None,
    }
}

/// The edge that a mutation puts in or changes, if it is one that does.
pub open spec fn upserted_edge(m: Mutation) -> Option<EdgeModel> {
    match m {
        Mutation::UpsertEdge { edge } => Some(edge@),
        _ => None,
    }
}

/// That a mutation may change the row of an interaction.
pub open spec fn touches_interaction(m: Mutation, id: NodeId) -> bool {
    match m {
        Mutation::UpsertNode { node: Node::Interaction(i) } => i@.id == id,
        Mutation::DeleteNode { id: gone } => gone == id,
        _ => false,
    }
}

/// That a mutation may change the row of a concept of a session.
pub open spec fn touches_concept(m: Mutation, id: NodeId, session: Seq<char>) -> bool {
    match m {
        Mutation::UpsertNode { node: Node::Concept(c) } => c@.id == id,
        Mutation::DeleteNode { id: gone } => gone == id,
        Mutation::CanonizationTransition { event } => event@.node == id,
        Mutation::SetEmbedding { session_id, .. } => session_id@ == session,
        _ => false,
    }
}

/// That two edges are of one kind, between the same nodes: only one of them can be there.
pub open spec fn same_edge(a: EdgeModel, b: EdgeModel) -> bool {
    a.source == b.source && a.target == b.target && a.edge_type == b.edge_type
}

/// That a mutation may change the row of an edge.
pub open spec fn touches_edge(m: Mutation, e: EdgeModel) -> bool {
    match m {
        Mutation::UpsertEdge { edge } => same_edge(edge@, e),
        Mutation::DeleteNode { id } => id == e.source || id == e.target || id == e.id,
        Mutation::DeleteEdge { id } => id == e.id,
        _ => false,
    }
}

/// Identifiers that differ have texts and keys that differ.
pub proof fn lemma_ids_differ(a: NodeId, b: NodeId)
    ensures
        id_text(a) == id_text(b) <==> a == b,
        id_key(a) == id_key(b) <==> a == b,
{
    an_identifier_reads_back(a, Seq::empty());
    an_identifier_reads_back(b, Seq::empty());
    assert(id_key(a)[0] == id_text(a));
    assert(id_key(b)[0] == id_text(b));
}

proof fn lemma_edges_differ(a: EdgeModel, b: EdgeModel)
    ensures
        edge_key(a) == edge_key(b) <==> same_edge(a, b),
{
    lemma_ids_differ(a.source, b.source);
    lemma_ids_differ(a.target, b.target);
    edge_type_round_trips(a.edge_type);
    edge_type_round_trips(b.edge_type);
    let (x, y) = (edge_key(a), edge_key(b));
    assert(x[0] == id_text(a.source) && x[1] == id_text(a.target));
    assert(y[0] == id_text(b.source) && y[1] == id_text(b.target));
    assert(x[2] == edge_written(a).edge_type);
    assert(y[2] == edge_written(b).edge_type);
}

proof fn lemma_interaction_stays(t: TablesModel, m: Mutation, id: NodeId)
    requires
        applied(t, m) is Ok,
        !touches_interaction(m, id),
        t.interactions.contains_key(id_key(id)),
    ensures
        applied(t, m)->Ok_0.interactions.contains_key(id_key(id)),
        applied(t, m)->Ok_0.interactions[id_key(id)] == t.interactions[id_key(id)],
{
    match m {
        Mutation::UpsertNode { node: Node::Interaction(i) } => lemma_ids_differ(i@.id, id),
        Mutation::DeleteNode { id: gone } => lemma_ids_differ(gone, id),
        _ => {},
    }
}

proof fn lemma_concept_stays(t: TablesModel, m: Mutation, id: NodeId)
    requires
        applied(t, m) is Ok,
        t.concepts.contains_key(id_key(id)),
        !touches_concept(m, id, t.concepts[id_key(id)].session),
    ensures
        applied(t, m)->Ok_0.concepts.contains_key(id_key(id)),
        applied(t, m)->Ok_0.concepts[id_key(id)] == t.concepts[id_key(id)],
{
    match m {
        Mutation::UpsertNode { node: Node::Concept(c) } => lemma_ids_differ(c@.id, id),
        Mutation::DeleteNode { id: gone } => lemma_ids_differ(gone, id),
        Mutation::CanonizationTransition { event } => lemma_ids_differ(event@.node, id),
        _ => {},
    }
}

proof fn lemma_edge_stays(t: TablesModel, m: Mutation, e: EdgeModel)
    requires
        applied(t, m) is Ok,
        t.edges.contains_key(edge_key(e)),
        t.edges[edge_key(e)] == edge_written(e),
        !touches_edge(m, e),
    ensures
        applied(t, m)->Ok_0.edges.contains_key(edge_key(e)),
        applied(t, m)->Ok_0.edges[edge_key(e)] == edge_written(e),
{
    match m {
        Mutation::UpsertEdge { edge } => lemma_edges_differ(edge@, e),
        Mutation::DeleteNode { id } => {
            lemma_ids_differ(id, e.source);
            lemma_ids_differ(id, e.target);
            lemma_ids_differ(id, e.id);
        },
        Mutation::DeleteEdge { id } => lemma_ids_differ(id, e.id),
        _ => {},
    }
}

/// The row of a concept, but for what canonization has made of it, is the concept's as written.
pub open spec fn is_row_of(row: ConceptRowModel, c: ConceptModel) -> bool {
    row == ConceptRowModel {
        status: row.status,
        blast_radius: row.blast_radius,
        last_demotion: row.last_demotion,
        ..concept_written(c)
    }
}

proof fn lemma_interaction_lasts(t: TablesModel, ms: Seq<Mutation>, n: int, i: InteractionModel)
    requires
        applied_all(t, ms) is Ok,
        0 <= n < ms.len(),
        upserted_interaction(ms[n]) == Some(i),
        forall|j: int| n < j < ms.len() ==> !touches_interaction(#[trigger] ms[j], i.id),
    ensures
        applied_all(t, ms)->Ok_0.interactions.contains_key(id_key(i.id)),
        applied_all(t, ms)->Ok_0.interactions[id_key(i.id)] == interaction_written(i),
    decreases ms.len(),
{
    let less = ms.drop_last();
    assert(ms.last() == ms[ms.len() - 1]);
    if n < ms.len() - 1 {
        assert(less[n] == ms[n]);
        assert forall|j: int| n < j < less.len() implies !touches_interaction(
            #[trigger] less[j],
            i.id,
        ) by {
            assert(less[j] == ms[j]);
        }
        lemma_interaction_lasts(t, less, n, i);
        lemma_interaction_stays(applied_all(t, less)->Ok_0, ms.last(), i.id);
    }
}

proof fn lemma_concept_absent(t: TablesModel, ms: Seq<Mutation>, id: NodeId)
    requires
        applied_all(t, ms) is Ok,
        !t.concepts.contains_key(id_key(id)),
        forall|j: int|
            0 <= j < ms.len() ==> (upserted_concept(#[trigger] ms[j]) matches Some(c) ==> c.id
                != id),
    ensures
        !applied_all(t, ms)->Ok_0.concepts.contains_key(id_key(id)),
    decreases ms.len(),
{
    if ms.len() > 0 {
        let less = ms.drop_last();
        assert forall|j: int| 0 <= j < less.len() implies (upserted_concept(#[trigger] less[j])
            matches Some(c) ==> c.id != id) by {
            assert(less[j] == ms[j]);
        }
        lemma_concept_absent(t, less, id);
        assert(ms.last() == ms[ms.len() - 1]);
        if upserted_concept(ms.last()) is Some {
            lemma_ids_differ(upserted_concept(ms.last())->0.id, id);
        }
    }
}

proof fn lemma_concept_lasts(t: TablesModel, ms: Seq<Mutation>, n: int, c: ConceptModel)
    requires
        applied_all(t, ms) is Ok,
        0 <= n < ms.len(),
        upserted_concept(ms[n]) == Some(c),
        forall|j: int| n < j < ms.len() ==> !touches_concept(#[trigger] ms[j], c.id, c.session),
    ensures
        applied_all(t, ms)->Ok_0.concepts.contains_key(id_key(c.id)),
        is_row_of(applied_all(t, ms)->Ok_0.concepts[id_key(c.id)], c),
        !t.concepts.contains_key(id_key(c.id)) && (forall|j: int|
            0 <= j < n ==> (upserted_concept(#[trigger] ms[j]) matches Some(x) ==> x.id != c.id))
            ==> applied_all(t, ms)->Ok_0.concepts[id_key(c.id)] == concept_written(c),
    decreases ms.len(),
{
    let less = ms.drop_last();
    let key = id_key(c.id);
    assert(ms.last() == ms[ms.len() - 1]);
    let is_new = !t.concepts.contains_key(key) && (forall|j: int|
        0 <= j < n ==> (upserted_concept(#[trigger] ms[j]) matches Some(x) ==> x.id != c.id));
    if is_new {
        assert forall|j: int| 0 <= j < n implies (upserted_concept(#[trigger] less[j]) matches Some(
            x,
        ) ==> x.id != c.id) by {
            assert(less[j] == ms[j]);
        }
    }
    if n < ms.len() - 1 {
        assert(less[n] == ms[n]);
        assert forall|j: int| n < j < less.len() implies !touches_concept(
            #[trigger] less[j],
            c.id,
            c.session,
        ) by {
            assert(less[j] == ms[j]);
        }
        lemma_concept_lasts(t, less, n, c);
        lemma_concept_stays(applied_all(t, less)->Ok_0, ms.last(), c.id);
    } else {
        let before = applied_all(t, less)->Ok_0;
        assert(applied_all(t, ms) == concept_upserted(before, c));
        if is_new {
            lemma_concept_absent(t, less, c.id);
        }
        assert(applied_all(t, ms)->Ok_0.concepts[key] == concept_merged(before, c));
    }
}

proof fn lemma_edge_lasts(t: TablesModel, ms: Seq<Mutation>, n: int, e: EdgeModel)
    requires
        applied_all(t, ms) is Ok,
        0 <= n < ms.len(),
        upserted_edge(ms[n]) == Some(e),
        forall|j: int| n < j < ms.len() ==> !touches_edge(#[trigger] ms[j], e),
    ensures
        applied_all(t, ms)->Ok_0.edges.contains_key(edge_key(e)),
        applied_all(t, ms)->Ok_0.edges[edge_key(e)] == edge_written(e),
    decreases ms.len(),
{
    let less = ms.drop_last();
    assert(ms.last() == ms[ms.len() - 1]);
    if n < ms.len() - 1 {
        assert(less[n] == ms[n]);
        assert forall|j: int| n < j < less.len() implies !touches_edge(#[trigger] less[j], e) by {
            assert(less[j] == ms[j]);
        }
        lemma_edge_lasts(t, less, n, e);
        lemma_edge_stays(applied_all(t, less)->Ok_0, ms.last(), e);
    }
}

/// Naming sessions changes no table but theirs.
pub proof fn lemma_only_sessions_come(t: TablesModel, ms: Seq<Mutation>)
    ensures
        with_sessions(t, ms) == (TablesModel { sessions: with_sessions(t, ms).sessions, ..t }),
    decreases ms.len(),
{
    if ms.len() > 0 {
        lemma_only_sessions_come(t, ms.drop_last());
    }
}

/// Whatever the tables held and whatever else a batch does: an interaction that it writes, and that
/// no later mutation of it touches, is loaded as it was written, its instant cut to the millisecond.
pub proof fn a_flushed_interaction_is_loaded(
    t: TablesModel,
    ms: Seq<Mutation>,
    token: Option<u64>,
    n: int,
    i: InteractionModel,
    loaded: SnapshotModel,
) -> (at: int)
    requires
        0 <= n < ms.len(),
        upserted_interaction(ms[n]) == Some(i),
        is_storable(ms[n]),
        forall|j: int| n < j < ms.len() ==> !touches_interaction(#[trigger] ms[j], i.id),
        flushed(t, ms, token) is Ok,
        loads_as(
            flushed(t, ms, token)->Ok_0,
            i.session,
            Ok::<SnapshotModel, StoreErrorModel>(loaded),
        ),
    ensures
        0 <= at < loaded.interactions.len(),
        loaded.interactions[at] == interaction_stored(i),
{
    let start = with_sessions(t, ms);
    steps_are_in_turn(start, ms);
    lemma_interaction_lasts(start, ms, n, i);
    an_interaction_in_its_row_is_loaded(flushed(t, ms, token)->Ok_0, i, loaded)
}

/// Whatever the tables held and whatever else a batch does: a concept that it writes, and that no
/// later mutation of it touches, is loaded as it was written, with its vector and its chunk, its
/// instants cut to the millisecond. What canonization had made of it before stays; where it is new,
/// it is loaded whole.
pub proof fn a_flushed_concept_is_loaded(
    t: TablesModel,
    ms: Seq<Mutation>,
    token: Option<u64>,
    n: int,
    c: ConceptModel,
    loaded: SnapshotModel,
) -> (at: int)
    requires
        0 <= n < ms.len(),
        upserted_concept(ms[n]) == Some(c),
        is_storable(ms[n]),
        forall|j: int| n < j < ms.len() ==> !touches_concept(#[trigger] ms[j], c.id, c.session),
        flushed(t, ms, token) is Ok,
        loads_as(
            flushed(t, ms, token)->Ok_0,
            c.session,
            Ok::<SnapshotModel, StoreErrorModel>(loaded),
        ),
    ensures
        0 <= at < loaded.concepts.len(),
        ({
            let x = loaded.concepts[at];
            &&& x == ConceptModel {
                status: x.status,
                blast_radius: x.blast_radius,
                last_demotion: x.last_demotion,
                ..concept_stored(c)
            }
            &&& !t.concepts.contains_key(id_key(c.id)) && (forall|j: int|
                0 <= j < n ==> (upserted_concept(#[trigger] ms[j]) matches Some(y) ==> y.id
                    != c.id)) ==> x == concept_stored(c)
        }),
{
    let start = with_sessions(t, ms);
    steps_are_in_turn(start, ms);
    lemma_only_sessions_come(t, ms);
    lemma_concept_lasts(start, ms, n, c);
    a_concept_in_its_row_is_loaded(flushed(t, ms, token)->Ok_0, c, loaded)
}

/// Whatever the tables held and whatever else a batch does: an edge that it writes, and that no
/// later mutation of it touches, is loaded as it was written, its instants cut to the millisecond.
pub proof fn a_flushed_edge_is_loaded(
    t: TablesModel,
    ms: Seq<Mutation>,
    token: Option<u64>,
    n: int,
    e: EdgeModel,
    loaded: SnapshotModel,
) -> (at: int)
    requires
        0 <= n < ms.len(),
        upserted_edge(ms[n]) == Some(e),
        is_storable(ms[n]),
        forall|j: int| n < j < ms.len() ==> !touches_edge(#[trigger] ms[j], e),
        flushed(t, ms, token) is Ok,
        loads_as(
            flushed(t, ms, token)->Ok_0,
            e.session,
            Ok::<SnapshotModel, StoreErrorModel>(loaded),
        ),
    ensures
        0 <= at < loaded.edges.len(),
        loaded.edges[at] == edge_stored(e),
{
    let start = with_sessions(t, ms);
    steps_are_in_turn(start, ms);
    lemma_edge_lasts(start, ms, n, e);
    an_edge_in_its_row_is_loaded(flushed(t, ms, token)->Ok_0, e, loaded)
}

/// That a mutation writes a node or an edge of a session, or none at all.
pub open spec fn only_writes(m: Mutation, s: Seq<char>) -> bool {
    match m {
        Mutation::UpsertNode { node } => node.session_of()@ == s,
        Mutation::UpsertEdge { edge } => edge@.session == s,
        Mutation::SetRootGoal { .. } => true,
        Mutation::SetEmbedding { .. } => true,
        Mutation::PutWriteIntent { .. } => true,
        Mutation::ConsumeWriteIntent { .. } => true,
        _ => false,
    }
}

/// That two mutations write one row.
pub open spec fn same_row(a: Mutation, b: Mutation) -> bool {
    ||| upserted_interaction(a) is Some && upserted_interaction(b) is Some
        && upserted_interaction(a)->0.id == upserted_interaction(b)->0.id
    ||| upserted_concept(a) is Some && upserted_concept(b) is Some && upserted_concept(a)->0.id
        == upserted_concept(b)->0.id
    ||| upserted_edge(a) is Some && upserted_edge(b) is Some && same_edge(
        upserted_edge(a)->0,
        upserted_edge(b)->0,
    )
}

/// That a batch writes nodes and edges of a session, each once, and stamps no contract once it has
/// written a concept.
pub open spec fn writes_each_once(ms: Seq<Mutation>, s: Seq<char>) -> bool {
    &&& forall|i: int| 0 <= i < ms.len() ==> only_writes(#[trigger] ms[i], s)
    &&& forall|i: int, j: int|
        0 <= i < j < ms.len() ==> !same_row(#[trigger] ms[i], #[trigger] ms[j])
    &&& forall|i: int, j: int|
        0 <= i < j < ms.len() && upserted_concept(#[trigger] ms[i]) is Some ==> !((#[trigger] ms[j])
            is SetEmbedding)
}

/// That a row of `interactions` is what a mutation of a batch wrote.
pub open spec fn wrote_interaction(
    ms: Seq<Mutation>,
    i: int,
    k: RowKey,
    row: InteractionRowModel,
) -> bool {
    &&& 0 <= i < ms.len()
    &&& upserted_interaction(ms[i]) is Some
    &&& k == id_key(upserted_interaction(ms[i])->0.id)
    &&& row == interaction_written(upserted_interaction(ms[i])->0)
}

/// That a row of `concepts` is what a mutation of a batch wrote.
pub open spec fn wrote_concept(ms: Seq<Mutation>, i: int, k: RowKey, row: ConceptRowModel) -> bool {
    &&& 0 <= i < ms.len()
    &&& upserted_concept(ms[i]) is Some
    &&& k == id_key(upserted_concept(ms[i])->0.id)
    &&& row == concept_written(upserted_concept(ms[i])->0)
}

/// That a row of `edges` is what a mutation of a batch wrote.
pub open spec fn wrote_edge(ms: Seq<Mutation>, i: int, k: RowKey, row: EdgeRowModel) -> bool {
    &&& 0 <= i < ms.len()
    &&& upserted_edge(ms[i]) is Some
    &&& k == edge_key(upserted_edge(ms[i])->0)
    &&& row == edge_written(upserted_edge(ms[i])->0)
}

/// That tables hold no nodes and edges but those that a batch wrote.
pub open spec fn hold_only(u: TablesModel, ms: Seq<Mutation>) -> bool {
    &&& forall|k: RowKey| #[trigger]
        u.interactions.contains_key(k) ==> exists|i: int|
            wrote_interaction(ms, i, k, u.interactions[k])
    &&& forall|k: RowKey| #[trigger]
        u.concepts.contains_key(k) ==> exists|i: int| wrote_concept(ms, i, k, u.concepts[k])
    &&& forall|k: RowKey| #[trigger]
        u.edges.contains_key(k) ==> exists|i: int| wrote_edge(ms, i, k, u.edges[k])
    &&& u.synonyms == Map::<RowKey, SynonymModel>::empty()
    &&& u.reservations == Map::<RowKey, ReservationRowModel>::empty()
    &&& u.events == Map::<RowKey, EventRowModel>::empty()
}

proof fn lemma_each_once_before(ms: Seq<Mutation>, s: Seq<char>)
    requires
        writes_each_once(ms, s),
        ms.len() > 0,
    ensures
        writes_each_once(ms.drop_last(), s),
{
    let less = ms.drop_last();
    assert forall|i: int| 0 <= i < less.len() implies only_writes(#[trigger] less[i], s) by {
        assert(less[i] == ms[i]);
    }
    assert forall|i: int, j: int| 0 <= i < j < less.len() implies !same_row(
        #[trigger] less[i],
        #[trigger] less[j],
    ) by {
        assert(less[i] == ms[i] && less[j] == ms[j]);
    }
    assert forall|i: int, j: int|
        0 <= i < j < less.len() && upserted_concept(#[trigger] less[i]) is Some implies !((
    #[trigger] less[j]) is SetEmbedding) by {
        assert(less[i] == ms[i] && less[j] == ms[j]);
    }
}

proof fn lemma_holds_only(t: TablesModel, ms: Seq<Mutation>, s: Seq<char>)
    requires
        applied_all(t, ms) is Ok,
        writes_each_once(ms, s),
        t == (TablesModel { sessions: t.sessions, ..no_rows() }),
    ensures
        hold_only(applied_all(t, ms)->Ok_0, ms),
    decreases ms.len(),
{
    if ms.len() > 0 {
        let less = ms.drop_last();
        let m = ms.last();
        let last = ms.len() - 1;
        assert(m == ms[last]);
        lemma_each_once_before(ms, s);
        lemma_holds_only(t, less, s);
        let before = applied_all(t, less)->Ok_0;
        let u = applied_all(t, ms)->Ok_0;
        assert(only_writes(ms[last], s));
        if upserted_concept(m) is Some {
            let c = upserted_concept(m)->0;
            assert forall|j: int| 0 <= j < less.len() implies (upserted_concept(
                #[trigger] less[j],
            ) matches Some(x) ==> x.id != c.id) by {
                assert(less[j] == ms[j]);
                assert(!same_row(ms[j], ms[last]));
            }
            lemma_concept_absent(t, less, c.id);
        }
        assert forall|k: RowKey| #[trigger] u.interactions.contains_key(k) implies exists|i: int|
            wrote_interaction(ms, i, k, u.interactions[k]) by {
            if upserted_interaction(m) is Some && k == id_key(upserted_interaction(m)->0.id) {
                assert(wrote_interaction(ms, last, k, u.interactions[k]));
            } else {
                assert(before.interactions.contains_key(k));
                let i = choose|i: int| wrote_interaction(less, i, k, before.interactions[k]);
                assert(less[i] == ms[i]);
                assert(wrote_interaction(ms, i, k, u.interactions[k]));
            }
        }
        assert forall|k: RowKey| #[trigger] u.concepts.contains_key(k) implies exists|i: int|
            wrote_concept(ms, i, k, u.concepts[k]) by {
            if upserted_concept(m) is Some && k == id_key(upserted_concept(m)->0.id) {
                assert(wrote_concept(ms, last, k, u.concepts[k]));
            } else {
                assert(before.concepts.contains_key(k));
                let i = choose|i: int| wrote_concept(less, i, k, before.concepts[k]);
                assert(less[i] == ms[i]);
                assert(!(ms[last] is SetEmbedding));
                assert(wrote_concept(ms, i, k, u.concepts[k]));
            }
        }
        assert forall|k: RowKey| #[trigger] u.edges.contains_key(k) implies exists|i: int|
            wrote_edge(ms, i, k, u.edges[k]) by {
            if upserted_edge(m) is Some && k == edge_key(upserted_edge(m)->0) {
                assert(wrote_edge(ms, last, k, u.edges[k]));
            } else {
                assert(before.edges.contains_key(k));
                let i = choose|i: int| wrote_edge(less, i, k, before.edges[k]);
                assert(less[i] == ms[i]);
                assert(wrote_edge(ms, i, k, u.edges[k]));
            }
        }
    }
}

/// That an interaction is the stored form of one that a batch writes.
pub open spec fn is_written_interaction(ms: Seq<Mutation>, x: InteractionModel) -> bool {
    exists|i: int|
        0 <= i < ms.len() && upserted_interaction(#[trigger] ms[i]) is Some && x
            == interaction_stored(upserted_interaction(ms[i])->0)
}

/// That a concept is the stored form of one that a batch writes.
pub open spec fn is_written_concept(ms: Seq<Mutation>, x: ConceptModel) -> bool {
    exists|i: int|
        0 <= i < ms.len() && upserted_concept(#[trigger] ms[i]) is Some && x == concept_stored(
            upserted_concept(ms[i])->0,
        )
}

/// That an edge is the stored form of one that a batch writes.
pub open spec fn is_written_edge(ms: Seq<Mutation>, x: EdgeModel) -> bool {
    exists|i: int|
        0 <= i < ms.len() && upserted_edge(#[trigger] ms[i]) is Some && x == edge_stored(
            upserted_edge(ms[i])->0,
        )
}

/// Interactions stand by time, then by identifier.
pub open spec fn interactions_in_order(v: Seq<InteractionModel>) -> bool {
    forall|i: int, j: int|
        0 <= i < j < v.len() ==> list_no_later(
            seq![stored_text((#[trigger] v[i]).created_at), id_text(v[i].id)],
            seq![stored_text((#[trigger] v[j]).created_at), id_text(v[j].id)],
        )
}

/// Concepts stand by identifier.
pub open spec fn concepts_in_order(v: Seq<ConceptModel>) -> bool {
    forall|i: int, j: int|
        0 <= i < j < v.len() ==> list_no_later(
            seq![id_text((#[trigger] v[i]).id)],
            seq![id_text((#[trigger] v[j]).id)],
        )
}

/// Edges stand by identifier.
pub open spec fn edges_in_order(v: Seq<EdgeModel>) -> bool {
    forall|i: int, j: int|
        0 <= i < j < v.len() ==> list_no_later(
            seq![id_text((#[trigger] v[i]).id)],
            seq![id_text((#[trigger] v[j]).id)],
        )
}

proof fn lemma_cut_text(t: Timestamp)
    requires
        can_be_stored(t),
    ensures
        stored_text(t.cut()) == stored_text(t),
{
    let nanos = t.sub_nanos() - t.sub_nanos() % 1_000_000;
    Timestamp::at_parts(t.secs(), nanos);
    a_text_is_one_instant(t.secs(), t.sub_nanos(), t.secs(), nanos);
}

proof fn lemma_interactions_exact(
    u: TablesModel,
    ms: Seq<Mutation>,
    s: Seq<char>,
    loaded: SnapshotModel,
)
    requires
        hold_only(u, ms),
        forall|i: int| 0 <= i < ms.len() ==> is_storable(#[trigger] ms[i]),
        loads_as(u, s, Ok::<SnapshotModel, StoreErrorModel>(loaded)),
    ensures
        forall|x: InteractionModel| #[trigger]
            loaded.interactions.contains(x) ==> is_written_interaction(ms, x),
        loaded.interactions.no_duplicates(),
        interactions_in_order(loaded.interactions),
{
    let held = lemma_loaded_rows(u, s, loaded);
    let rows = held.interactions@;
    let all = interaction_rows(rows);
    let out = loaded.interactions;
    if rows.len() > 0 {
        lemma_read_each(all, reads_interactions(), out, 0);
    }
    assert(out.len() == rows.len());
    assert forall|j: int| 0 <= j < out.len() implies is_written_interaction(ms, #[trigger] out[j])
        && rows[j]@.id == id_text(out[j].id) && rows[j]@.created_at == stored_text(
        out[j].created_at,
    ) by {
        lemma_found(rows, j);
        let k = InteractionRow::key_of(rows[j]@);
        assert(interactions_in(u, s).contains_key(k));
        assert(u.interactions.contains_key(k));
        let i = choose|i: int| wrote_interaction(ms, i, k, u.interactions[k]);
        let y = upserted_interaction(ms[i])->0;
        assert(is_storable(ms[i]));
        lemma_read_each(all, reads_interactions(), out, j);
        an_interaction_reads_back(y);
        assert(out[j] == interaction_stored(y));
        lemma_cut_text(y.created_at);
    }
    assert forall|i: int, j: int| 0 <= i < out.len() && 0 <= j < out.len() && i != j implies out[i]
        != out[j] by {
        assert(rows[i]@.id == id_text(out[i].id) && rows[j]@.id == id_text(out[j].id));
        if out[i] == out[j] {
            assert(InteractionRow::key_of(rows[i]@) == InteractionRow::key_of(rows[j]@));
        }
    }
    assert forall|i: int, j: int| 0 <= i < j < out.len() implies list_no_later(
        seq![stored_text((#[trigger] out[i]).created_at), id_text(out[i].id)],
        seq![stored_text((#[trigger] out[j]).created_at), id_text(out[j].id)],
    ) by {
        assert(list_no_later(
            InteractionRow::rank_of(rows[i]@),
            InteractionRow::rank_of(rows[j]@),
        ));
    }
}

proof fn lemma_concepts_exact(
    u: TablesModel,
    ms: Seq<Mutation>,
    s: Seq<char>,
    loaded: SnapshotModel,
)
    requires
        hold_only(u, ms),
        forall|i: int| 0 <= i < ms.len() ==> is_storable(#[trigger] ms[i]),
        loads_as(u, s, Ok::<SnapshotModel, StoreErrorModel>(loaded)),
    ensures
        forall|x: ConceptModel| #[trigger]
            loaded.concepts.contains(x) ==> is_written_concept(ms, x),
        loaded.concepts.no_duplicates(),
        concepts_in_order(loaded.concepts),
{
    let held = lemma_loaded_rows(u, s, loaded);
    let rows = held.concepts@;
    let all = concept_rows(rows);
    let out = loaded.concepts;
    if rows.len() > 0 {
        lemma_read_each(all, reads_concepts(), out, 0);
    }
    assert(out.len() == rows.len());
    assert forall|j: int| 0 <= j < out.len() implies is_written_concept(ms, #[trigger] out[j])
        && rows[j]@.id == id_text(out[j].id) by {
        lemma_found(rows, j);
        let k = ConceptRow::key_of(rows[j]@);
        assert(concepts_in(u, s).contains_key(k));
        assert(u.concepts.contains_key(k));
        let i = choose|i: int| wrote_concept(ms, i, k, u.concepts[k]);
        let y = upserted_concept(ms[i])->0;
        assert(is_storable(ms[i]));
        lemma_read_each(all, reads_concepts(), out, j);
        a_concept_reads_back(y);
        assert(out[j] == concept_stored(y));
    }
    assert forall|i: int, j: int| 0 <= i < out.len() && 0 <= j < out.len() && i != j implies out[i]
        != out[j] by {
        assert(rows[i]@.id == id_text(out[i].id) && rows[j]@.id == id_text(out[j].id));
        if out[i] == out[j] {
            assert(ConceptRow::key_of(rows[i]@) == ConceptRow::key_of(rows[j]@));
        }
    }
    assert forall|i: int, j: int| 0 <= i < j < out.len() implies list_no_later(
        seq![id_text((#[trigger] out[i]).id)],
        seq![id_text((#[trigger] out[j]).id)],
    ) by {
        assert(list_no_later(ConceptRow::rank_of(rows[i]@), ConceptRow::rank_of(rows[j]@)));
    }
}

proof fn lemma_edges_exact(u: TablesModel, ms: Seq<Mutation>, s: Seq<char>, loaded: SnapshotModel)
    requires
        hold_only(u, ms),
        forall|i: int| 0 <= i < ms.len() ==> is_storable(#[trigger] ms[i]),
        loads_as(u, s, Ok::<SnapshotModel, StoreErrorModel>(loaded)),
    ensures
        forall|x: EdgeModel| #[trigger] loaded.edges.contains(x) ==> is_written_edge(ms, x),
        loaded.edges.no_duplicates(),
        edges_in_order(loaded.edges),
{
    let held = lemma_loaded_rows(u, s, loaded);
    let rows = held.edges@;
    let all = edge_rows(rows);
    let out = loaded.edges;
    if rows.len() > 0 {
        lemma_read_each(all, reads_edges(), out, 0);
    }
    assert(out.len() == rows.len());
    assert forall|j: int| 0 <= j < out.len() implies is_written_edge(ms, #[trigger] out[j])
        && rows[j]@.id == id_text(out[j].id) && EdgeRow::key_of(rows[j]@) == edge_key(out[j]) by {
        lemma_found(rows, j);
        let k = EdgeRow::key_of(rows[j]@);
        assert(edges_in(u, s).contains_key(k));
        assert(u.edges.contains_key(k));
        let i = choose|i: int| wrote_edge(ms, i, k, u.edges[k]);
        let y = upserted_edge(ms[i])->0;
        assert(is_storable(ms[i]));
        lemma_read_each(all, reads_edges(), out, j);
        an_edge_reads_back(y);
        assert(out[j] == edge_stored(y));
    }
    assert forall|i: int, j: int| 0 <= i < out.len() && 0 <= j < out.len() && i != j implies out[i]
        != out[j] by {
        if out[i] == out[j] {
            assert(EdgeRow::key_of(rows[i]@) == edge_key(out[i]));
            assert(EdgeRow::key_of(rows[j]@) == edge_key(out[j]));
        }
    }
    assert forall|i: int, j: int| 0 <= i < j < out.len() implies list_no_later(
        seq![id_text((#[trigger] out[i]).id)],
        seq![id_text((#[trigger] out[j]).id)],
    ) by {
        assert(list_no_later(EdgeRow::rank_of(rows[i]@), EdgeRow::rank_of(rows[j]@)));
    }
}

/// A batch that is flushed into an empty store loads back exactly: the interactions, concepts and
/// edges that were written, each once, with nothing added and nothing lost, the interactions by
/// time and then by identifier, concepts and edges by identifier. Instants are cut to the
/// millisecond.
pub proof fn a_flushed_batch_is_loaded(
    ms: Seq<Mutation>,
    token: Option<u64>,
    s: Seq<char>,
    loaded: SnapshotModel,
)
    requires
        writes_each_once(ms, s),
        forall|i: int| 0 <= i < ms.len() ==> is_storable(#[trigger] ms[i]),
        flushed(no_rows(), ms, token) is Ok,
        loads_as(
            flushed(no_rows(), ms, token)->Ok_0,
            s,
            Ok::<SnapshotModel, StoreErrorModel>(loaded),
        ),
    ensures
        forall|x: InteractionModel| #[trigger]
            loaded.interactions.contains(x) <==> is_written_interaction(ms, x),
        loaded.interactions.no_duplicates(),
        interactions_in_order(loaded.interactions),
        forall|x: ConceptModel| #[trigger]
            loaded.concepts.contains(x) <==> is_written_concept(ms, x),
        loaded.concepts.no_duplicates(),
        concepts_in_order(loaded.concepts),
        forall|x: EdgeModel| #[trigger] loaded.edges.contains(x) <==> is_written_edge(ms, x),
        loaded.edges.no_duplicates(),
        edges_in_order(loaded.edges),
        loaded.synonyms.len() == 0,
        loaded.reservations.len() == 0,
        loaded.events.len() == 0,
{
    let start = with_sessions(no_rows(), ms);
    let u = flushed(no_rows(), ms, token)->Ok_0;
    lemma_only_sessions_come(no_rows(), ms);
    steps_are_in_turn(start, ms);
    lemma_holds_only(start, ms, s);
    lemma_interactions_exact(u, ms, s, loaded);
    lemma_concepts_exact(u, ms, s, loaded);
    lemma_edges_exact(u, ms, s, loaded);
    let rows = lemma_loaded_rows(u, s, loaded);
    if rows.synonyms@.len() > 0 {
        lemma_found(rows.synonyms@, 0);
        assert(synonyms_in(u, s).contains_key(Synonym::key_of(rows.synonyms@[0]@)));
    }
    if rows.reservations@.len() > 0 {
        lemma_found(rows.reservations@, 0);
        assert(reservations_in(u, s).contains_key(ReservationRow::key_of(rows.reservations@[0]@)));
    }
    if rows.canonization_events@.len() > 0 {
        lemma_found(rows.canonization_events@, 0);
        assert(events_in(u, s).contains_key(EventRow::key_of(rows.canonization_events@[0]@)));
    }
    assert forall|x: InteractionModel| is_written_interaction(ms, x) implies #[trigger]
        loaded.interactions.contains(x) by {
        let n = choose|i: int|
            0 <= i < ms.len() && upserted_interaction(#[trigger] ms[i]) is Some && x
                == interaction_stored(upserted_interaction(ms[i])->0);
        let y = upserted_interaction(ms[n])->0;
        assert(only_writes(ms[n], s));
        assert forall|j: int| n < j < ms.len() implies !touches_interaction(
            #[trigger] ms[j],
            y.id,
        ) by {
            assert(!same_row(ms[n], ms[j]));
            assert(only_writes(ms[j], s));
        }
        let at = a_flushed_interaction_is_loaded(no_rows(), ms, token, n, y, loaded);
        assert(loaded.interactions[at] == x);
    }
    assert forall|x: ConceptModel| is_written_concept(ms, x) implies #[trigger]
        loaded.concepts.contains(x) by {
        let n = choose|i: int|
            0 <= i < ms.len() && upserted_concept(#[trigger] ms[i]) is Some && x
                == concept_stored(upserted_concept(ms[i])->0);
        let y = upserted_concept(ms[n])->0;
        assert(only_writes(ms[n], s));
        assert forall|j: int| n < j < ms.len() implies !touches_concept(
            #[trigger] ms[j],
            y.id,
            y.session,
        ) by {
            assert(!same_row(ms[n], ms[j]));
            assert(only_writes(ms[j], s));
        }
        assert forall|j: int| 0 <= j < n implies (upserted_concept(#[trigger] ms[j]) matches Some(
            z,
        ) ==> z.id != y.id) by {
            assert(!same_row(ms[j], ms[n]));
        }
        let at = a_flushed_concept_is_loaded(no_rows(), ms, token, n, y, loaded);
        assert(loaded.concepts[at] == x);
    }
    assert forall|x: EdgeModel| is_written_edge(ms, x) implies #[trigger] loaded.edges.contains(
        x,
    ) by {
        let n = choose|i: int|
            0 <= i < ms.len() && upserted_edge(#[trigger] ms[i]) is Some && x == edge_stored(
                upserted_edge(ms[i])->0,
            );
        let y = upserted_edge(ms[n])->0;
        assert(only_writes(ms[n], s));
        assert forall|j: int| n < j < ms.len() implies !touches_edge(#[trigger] ms[j], y) by {
            assert(!same_row(ms[n], ms[j]));
            assert(only_writes(ms[j], s));
        }
        let at = a_flushed_edge_is_loaded(no_rows(), ms, token, n, y, loaded);
        assert(loaded.edges[at] == x);
    }
}

/// What a session's loading gives of an intent whose row is there.
pub proof fn an_intent_in_its_row_is_loaded(
    u: TablesModel,
    i: IntentModel,
    loaded: SnapshotModel,
) -> (at: int)
    requires
        u.intents.contains_key(intent_key(i.session, i.receipt)),
        u.intents[intent_key(i.session, i.receipt)] == intent_written(i),
        i.created_at.valid(),
        i.outcome matches Some(o) ==> o.consumed_at.valid(),
        intent_storable(i),
        loads_as(u, i.session, Ok::<SnapshotModel, StoreErrorModel>(loaded)),
    ensures
        0 <= at < loaded.intents.len(),
        loaded.intents[at] == intent_stored(i),
{
    let s = i.session;
    let row = session_of(u, s)->0;
    let (rows, intents) = choose|
        rows: SessionRows,
        intents: Result<Seq<IntentModel>, StoreErrorModel>,
    |
        #![trigger rows_of(u, s, rows), intents_loaded(rows.write_intents@, intents)]
        rows_of(u, s, rows) && intents_loaded(rows.write_intents@, intents) && Ok::<
            SnapshotModel,
            StoreErrorModel,
        >(loaded) == session_read(s, row, rows, intents);
    let given = rows.write_intents@;
    let key = intent_key(i.session, i.receipt);
    assert(intents_in(u, s).contains_key(key));
    let j = choose|j: int| #[trigger] stands_at(given, key, j);
    assert(by_key(given).contains_key(key));
    assert(stands_at(given, key, j));
    lemma_found(given, j);
    let sorted = choose|sorted: Seq<IntentRow>|
        #![trigger intent_rows(sorted)]
        sorted.to_multiset() == given.to_multiset() && in_issue_order(intent_rows(sorted))
            && read_all(intent_rows(sorted), reads_intents()) == intents;
    broadcast use vstd::seq_lib::group_to_multiset_ensures;

    assert(given.contains(given[j]));
    assert(given.to_multiset().count(given[j]) > 0);
    assert(sorted.contains(given[j]));
    let at = choose|at: int| 0 <= at < sorted.len() && sorted[at] == given[j];
    lemma_read_each(intent_rows(sorted), reads_intents(), loaded.intents, at);
    an_intent_reads_back(i);
    at
}

/// The intent that a mutation puts in, if it is one that does.
pub open spec fn put_intent(m: Mutation) -> Option<IntentModel> {
    match m {
        Mutation::PutWriteIntent { intent } => Some(intent@),
        _ => None,
    }
}

/// That a mutation may change the row of an intent, or purge it. One that has no outcome is purged
/// by nothing.
pub open spec fn touches_intent(m: Mutation, i: IntentModel) -> bool {
    match m {
        Mutation::PutWriteIntent { intent } => intent@.session == i.session && intent@.receipt
            == i.receipt,
        Mutation::ConsumeWriteIntent { session_id, receipt, .. } => session_id@ == i.session && (
        receipt@ == i.receipt || i.outcome is Some),
        _ => false,
    }
}

proof fn lemma_intent_stays(t: TablesModel, m: Mutation, i: IntentModel)
    requires
        applied(t, m) is Ok,
        !touches_intent(m, i),
        t.intents.contains_key(intent_key(i.session, i.receipt)),
        t.intents[intent_key(i.session, i.receipt)] == intent_written(i),
    ensures
        applied(t, m)->Ok_0.intents.contains_key(intent_key(i.session, i.receipt)),
        applied(t, m)->Ok_0.intents[intent_key(i.session, i.receipt)] == intent_written(i),
{
    let key = intent_key(i.session, i.receipt);
    assert(key[0] == i.session && key[1] == i.receipt);
    match m {
        Mutation::PutWriteIntent { intent } => {
            let other = intent_key(intent@.session, intent@.receipt);
            assert(other[0] == intent@.session && other[1] == intent@.receipt);
        },
        Mutation::ConsumeWriteIntent { session_id, receipt, outcome } => {
            let other = intent_key(session_id@, receipt@);
            assert(other[0] == session_id@ && other[1] == receipt@);
        },
        _ => {},
    }
}

proof fn lemma_intent_lasts(t: TablesModel, ms: Seq<Mutation>, n: int, i: IntentModel)
    requires
        applied_all(t, ms) is Ok,
        0 <= n < ms.len(),
        put_intent(ms[n]) == Some(i),
        forall|j: int| n < j < ms.len() ==> !touches_intent(#[trigger] ms[j], i),
    ensures
        applied_all(t, ms)->Ok_0.intents.contains_key(intent_key(i.session, i.receipt)),
        applied_all(t, ms)->Ok_0.intents[intent_key(i.session, i.receipt)] == intent_written(i),
    decreases ms.len(),
{
    let less = ms.drop_last();
    assert(ms.last() == ms[ms.len() - 1]);
    if n < ms.len() - 1 {
        assert(less[n] == ms[n]);
        assert forall|j: int| n < j < less.len() implies !touches_intent(#[trigger] less[j], i) by {
            assert(less[j] == ms[j]);
        }
        lemma_intent_lasts(t, less, n, i);
        lemma_intent_stays(applied_all(t, less)->Ok_0, ms.last(), i);
    }
}

/// Whatever the tables held and whatever else a batch does: an intent that it puts, and that no
/// later mutation of it touches, is loaded as it was put, its instants cut to the millisecond.
pub proof fn a_flushed_intent_is_loaded(
    t: TablesModel,
    ms: Seq<Mutation>,
    token: Option<u64>,
    n: int,
    i: IntentModel,
    loaded: SnapshotModel,
) -> (at: int)
    requires
        0 <= n < ms.len(),
        put_intent(ms[n]) == Some(i),
        is_storable(ms[n]),
        forall|j: int| n < j < ms.len() ==> !touches_intent(#[trigger] ms[j], i),
        flushed(t, ms, token) is Ok,
        loads_as(
            flushed(t, ms, token)->Ok_0,
            i.session,
            Ok::<SnapshotModel, StoreErrorModel>(loaded),
        ),
    ensures
        0 <= at < loaded.intents.len(),
        loaded.intents[at] == intent_stored(i),
{
    let start = with_sessions(t, ms);
    steps_are_in_turn(start, ms);
    lemma_intent_lasts(start, ms, n, i);
    an_intent_in_its_row_is_loaded(flushed(t, ms, token)->Ok_0, i, loaded)
}

/// An acknowledged write whose intent has reached the store is never lost: the session's next
/// process finds the intent unconsumed, answers for the write's receipt that it is pending, and
/// replays that very write. So whatever else the batch does that brought the intent, unless it
/// consumes it.
pub proof fn an_acknowledged_write_is_replayed(
    t: TablesModel,
    ms: Seq<Mutation>,
    token: Option<u64>,
    n: int,
    session: Seq<char>,
    job: JobModel,
    admitted: Timestamp,
    loaded: SnapshotModel,
) -> (at: int)
    requires
        job.receipt.issued_ms >= 0,
        0 <= n < ms.len(),
        put_intent(ms[n]) == Some(intent_for(session, job, admitted)),
        is_storable(ms[n]),
        forall|j: int|
            n < j < ms.len() ==> !touches_intent(
                #[trigger] ms[j],
                intent_for(session, job, admitted),
            ),
        flushed(t, ms, token) is Ok,
        loads_as(
            flushed(t, ms, token)->Ok_0,
            session,
            Ok::<SnapshotModel, StoreErrorModel>(loaded),
        ),
    ensures
        0 <= at < loaded.intents.len(),
        unconsumed(loaded.intents[at]),
        forall|now: Timestamp| #[trigger] seeds(loaded.intents[at], now),
        seed_answer(loaded.intents[at]) is Pending,
        read_wire(loaded.intents[at].receipt) == Some(job.receipt),
        replay_job(loaded.intents[at]) == (JobModel { bytes: 0, ..job }),
{
    receipt_id_round_trips(job.receipt);
    a_flushed_intent_is_loaded(t, ms, token, n, intent_for(session, job, admitted), loaded)
}

} // verus!
