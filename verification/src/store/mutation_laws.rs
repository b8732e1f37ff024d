//! What each mutation changes, what it leaves alone, and when it is refused.

use crate::calendar::stored_texts_sort_by_time;
use crate::job::{IntentModel, OutcomeModel};
use crate::store::codec::{an_instant_reads_back, cut_opt};
use crate::store::flush::{
    applied_in_steps, batch_fenced, flushed, named_session, recorded, with_sessions,
};
use crate::store::laws::{
    a_concept_reads_back, a_stale_writer_is_refused_whole, an_edge_reads_back, an_intent_reads_back,
    an_interaction_reads_back, can_be_stored, opt_can_be_stored,
};
use crate::store::load::loads_as;
use crate::store::round_trip::{an_intent_in_its_row_is_loaded, lemma_only_sessions_come};
use crate::store::rows::{
    concept_read, edge_read, intent_read, intent_written, interaction_read, ConceptModel, EdgeModel,
    EventModel, InteractionModel,
};
use crate::store::session::SnapshotModel;
use crate::store::structure_laws::is_plain_time;
use crate::store::table::RowKey;
use crate::store::tables::{
    canonized, concept_upserted, edge_deleted, edge_key, edge_upserted, embedding_set, goal_set,
    id_key, id_text, intent_consumed, intent_key, intent_put, interaction_upserted, node_deleted,
    with_session, TablesModel,
};
use crate::store::vector::embedding_fault;
use crate::time::{age_of, earlier_by, in_four_digit_years, Timestamp};
use crate::types::{
    ContractModel, Mutation, Node, NodeId, StoreErrorModel, WRITE_INTENT_RETENTION_SECS,
};
use vstd::prelude::*;

verus! {

/// That two tables agree on every row but one.
pub open spec fn agree_but<V>(a: Map<RowKey, V>, b: Map<RowKey, V>, key: RowKey) -> bool {
    forall|k: RowKey|
        k != key ==> (#[trigger] a.contains_key(k) == b.contains_key(k) && (a.contains_key(k)
            ==> a[k] == b[k]))
}

/// An interaction is refused exactly where it follows another that is not there. Otherwise it is
/// put in as it is, its instant cut to the millisecond, in place of the one with its identifier;
/// nothing else changes.
pub proof fn an_interaction_is_put_in(t: TablesModel, i: InteractionModel)
    requires
        can_be_stored(i.created_at),
    ensures
        interaction_upserted(t, i) is Err <==> i.previous is Some && i.previous->0 != i.id
            && !t.interactions.contains_key(id_key(i.previous->0)),
        interaction_upserted(t, i) is Err ==> interaction_upserted(t, i)->Err_0 is Constraint,
        interaction_upserted(t, i) is Ok ==> {
            let u = interaction_upserted(t, i)->Ok_0;
            &&& u.interactions.contains_key(id_key(i.id))
            &&& interaction_read(u.interactions[id_key(i.id)]) == Ok::<_, StoreErrorModel>(
                InteractionModel { created_at: i.created_at.cut(), ..i },
            )
            &&& agree_but(t.interactions, u.interactions, id_key(i.id))
            &&& u == TablesModel { interactions: u.interactions, ..t }
        },
{
    an_interaction_reads_back(i);
}

/// That a key is another concept's of the session, where it may be one concept's only: an
/// observation shares its key.
pub open spec fn key_is_anothers(t: TablesModel, c: ConceptModel) -> bool {
    !(c.concept_type is Observation) && exists|k: RowKey| #[trigger]
        t.concepts.contains_key(k) && t.concepts[k].session == c.session && t.concepts[k].key
            == c.key && t.concepts[k].id != id_text(c.id) && t.concepts[k].concept_type
            != "Observation"@
}

/// That a concept's vector has the width that its session's contract says, where both are there.
pub open spec fn has_the_width(t: TablesModel, c: ConceptModel) -> bool {
    c.embedding is Some && t.sessions.contains_key(seq![c.session])
        && t.sessions[seq![c.session]].dim is Some ==> c.embedding->0.len()
        == t.sessions[seq![c.session]].dim->0
}

/// That the contract of a session is whole, or none.
pub open spec fn has_a_whole_contract(t: TablesModel, session: Seq<char>) -> bool {
    t.sessions.contains_key(seq![session]) ==> {
        let row = t.sessions[seq![session]];
        (row.kind is Some <==> row.dim is Some) && (row.dim matches Some(d) ==> 0 <= d
            <= usize::MAX)
    }
}

/// A concept is taken exactly where its vector, if it has one, is an embedding of the session's
/// width, its key is no other concept's, and the interaction it came from and its session are
/// there.
pub proof fn a_concept_is_taken_or_refused(t: TablesModel, c: ConceptModel)
    requires
        has_a_whole_contract(t, c.session),
    ensures
        concept_upserted(t, c) is Ok <==> {
            &&& has_the_width(t, c)
            &&& c.embedding matches Some(v) ==> embedding_fault(v) is None
            &&& !key_is_anothers(t, c)
            &&& t.interactions.contains_key(id_key(c.origin))
            &&& t.sessions.contains_key(seq![c.session])
        },
        !has_the_width(t, c) ==> concept_upserted(t, c)->Err_0 is Invariant,
        has_the_width(t, c) && c.embedding is Some && embedding_fault(c.embedding->0) is Some
            ==> concept_upserted(t, c) == Err::<TablesModel, _>(embedding_fault(c.embedding->0)->0),
        has_the_width(t, c) && (c.embedding matches Some(v) ==> embedding_fault(v) is None)
            && concept_upserted(t, c) is Err ==> concept_upserted(t, c)->Err_0 is Constraint,
{
}

/// A concept that is new is put in as it is, its instants cut to the millisecond. One that is there
/// is replaced, but for its status, its reach and the time of its last demotion. Nothing else
/// changes.
pub proof fn a_concept_is_put_in(t: TablesModel, c: ConceptModel)
    requires
        concept_upserted(t, c) is Ok,
        can_be_stored(c.created_at),
        opt_can_be_stored(c.last_accessed),
        opt_can_be_stored(c.last_demotion),
        t.concepts.contains_key(id_key(c.id)) ==> concept_read(t.concepts[id_key(c.id)]) is Ok,
    ensures
        ({
            let u = concept_upserted(t, c)->Ok_0;
            let old = concept_read(t.concepts[id_key(c.id)])->Ok_0;
            let given = ConceptModel {
                created_at: c.created_at.cut(),
                last_accessed: cut_opt(c.last_accessed),
                last_demotion: cut_opt(c.last_demotion),
                ..c
            };
            &&& u.concepts.contains_key(id_key(c.id))
            &&& concept_read(u.concepts[id_key(c.id)]) == Ok::<_, StoreErrorModel>(
                if t.concepts.contains_key(id_key(c.id)) {
                    ConceptModel {
                        status: old.status,
                        blast_radius: old.blast_radius,
                        last_demotion: old.last_demotion,
                        ..given
                    }
                } else {
                    given
                },
            )
            &&& agree_but(t.concepts, u.concepts, id_key(c.id))
            &&& u == TablesModel { concepts: u.concepts, ..t }
        }),
{
    a_concept_reads_back(c);
}

/// An edge is put in as it is, its instants cut to the millisecond, in place of the one of its kind
/// between its nodes, whatever identifier that has; nothing else changes.
pub proof fn an_edge_is_put_in(t: TablesModel, e: EdgeModel)
    requires
        can_be_stored(e.created_at),
        can_be_stored(e.last_reinforced),
    ensures
        ({
            let u = edge_upserted(t, e);
            let key = edge_key(e);
            &&& key.len() == 3 && key[0] == id_text(e.source) && key[1] == id_text(e.target)
            &&& u.edges.contains_key(key)
            &&& edge_read(u.edges[key]) == Ok::<_, StoreErrorModel>(
                EdgeModel {
                    created_at: e.created_at.cut(),
                    last_reinforced: e.last_reinforced.cut(),
                    ..e
                },
            )
            &&& agree_but(t.edges, u.edges, key)
            &&& u == TablesModel { edges: u.edges, ..t }
        }),
{
    an_edge_reads_back(e);
}

/// A node is deleted unless it is an interaction that another names or a concept came from. It is
/// gone then, and with it each edge that begins or ends at it or has its identifier; nothing else
/// is.
pub proof fn a_node_is_deleted_with_its_edges(t: TablesModel, id: NodeId)
    ensures
        node_deleted(t, id) is Err <==> t.interactions.contains_key(id_key(id)) && ((exists|
            k: RowKey,
        | #[trigger]
            t.interactions.contains_key(k) && t.interactions[k].previous == Some(id_text(id))
                && t.interactions[k].id != id_text(id)) || (exists|k: RowKey| #[trigger]
            t.concepts.contains_key(k) && t.concepts[k].origin == id_text(id))),
        node_deleted(t, id) is Err ==> node_deleted(t, id)->Err_0 is Constraint,
        node_deleted(t, id) is Ok ==> {
            let u = node_deleted(t, id)->Ok_0;
            &&& !u.interactions.contains_key(id_key(id))
            &&& !u.concepts.contains_key(id_key(id))
            &&& agree_but(t.interactions, u.interactions, id_key(id))
            &&& agree_but(t.concepts, u.concepts, id_key(id))
            &&& forall|k: RowKey| #[trigger]
                u.edges.contains_key(k) <==> t.edges.contains_key(k) && t.edges[k].source
                    != id_text(id) && t.edges[k].target != id_text(id) && t.edges[k].id != id_text(
                    id,
                )
            &&& forall|k: RowKey| #[trigger] u.edges.contains_key(k) ==> u.edges[k] == t.edges[k]
            &&& u == TablesModel {
                interactions: u.interactions,
                concepts: u.concepts,
                edges: u.edges,
                ..t
            }
        },
{
}

/// The edge with an identifier is deleted, and no other.
pub proof fn an_edge_is_deleted(t: TablesModel, id: NodeId)
    ensures
        ({
            let u = edge_deleted(t, id);
            &&& forall|k: RowKey| #[trigger]
                u.edges.contains_key(k) <==> t.edges.contains_key(k) && t.edges[k].id != id_text(id)
            &&& forall|k: RowKey| #[trigger] u.edges.contains_key(k) ==> u.edges[k] == t.edges[k]
            &&& u == TablesModel { edges: u.edges, ..t }
        }),
{
}

/// A goal is set, or cleared, on the session that is named: nothing else of it changes, and no
/// other session. One that is not there has none.
pub proof fn a_goal_is_set(t: TablesModel, session: Seq<char>, goal: Option<Seq<char>>)
    ensures
        goal_set(t, session, goal) is Ok <==> t.sessions.contains_key(seq![session]),
        goal_set(t, session, goal) is Err ==> goal_set(t, session, goal)->Err_0 is NotFound,
        goal_set(t, session, goal) is Ok ==> {
            let u = goal_set(t, session, goal)->Ok_0;
            let (old, new) = (t.sessions[seq![session]], u.sessions[seq![session]]);
            &&& u.sessions.contains_key(seq![session])
            &&& new.root_goal == goal
            &&& new.session == old.session && new.created_at == old.created_at && new.closed_at
                == old.closed_at && new.kind == old.kind && new.model == old.model && new.dim
                == old.dim
            &&& agree_but(t.sessions, u.sessions, seq![session])
            &&& u.interactions == t.interactions && u.concepts == t.concepts && u.edges == t.edges
            &&& u.synonyms == t.synonyms && u.reservations == t.reservations && u.events
                == t.events && u.intents == t.intents && u.leases == t.leases
        },
{
}

/// A contract is stamped, or cleared, on the session that is named: its kind, its model and its
/// width. The session's vectors go where the width is another than before, and stay where it is the
/// same or where the contract is cleared. No other session changes.
pub proof fn a_contract_is_stamped(t: TablesModel, session: Seq<char>, c: Option<ContractModel>)
    requires
        c matches Some(x) ==> x.dim <= i64::MAX,
    ensures
        embedding_set(t, session, c) is Ok <==> t.sessions.contains_key(seq![session]),
        embedding_set(t, session, c) is Err ==> embedding_set(t, session, c)->Err_0 is NotFound,
        embedding_set(t, session, c) is Ok ==> {
            let u = embedding_set(t, session, c)->Ok_0;
            let (old, new) = (t.sessions[seq![session]], u.sessions[seq![session]]);
            let stays = c is None || old.dim is Some && old.dim->0 == c->0.dim;
            &&& u.sessions.contains_key(seq![session])
            &&& c matches Some(x) ==> new.kind == Some(x.kind) && new.model == x.model && new.dim
                is Some && new.dim->0 == x.dim
            &&& c is None ==> new.kind is None && new.model is None && new.dim is None
            &&& new.session == old.session && new.root_goal == old.root_goal && new.created_at
                == old.created_at && new.closed_at == old.closed_at
            &&& agree_but(t.sessions, u.sessions, seq![session])
            &&& u.concepts.dom() == t.concepts.dom()
            &&& forall|k: RowKey| #[trigger]
                t.concepts.contains_key(k) ==> {
                    let (a, b) = (t.concepts[k], u.concepts[k]);
                    &&& stays || a.session != session ==> b == a
                    &&& !stays && a.session == session ==> b.embedding is None && b.id == a.id
                        && b.session == a.session && b.content == a.content && b.key == a.key
                        && b.concept_type == a.concept_type && b.origin == a.origin && b.agent
                        == a.agent && b.created_at == a.created_at && b.access_count
                        == a.access_count && b.last_accessed == a.last_accessed && b.gc_survived
                        == a.gc_survived && b.status == a.status && b.blast_radius
                        == a.blast_radius && b.last_demotion == a.last_demotion && b.chunk_group
                        == a.chunk_group
                }
            &&& u.interactions == t.interactions && u.edges == t.edges && u.synonyms == t.synonyms
            &&& u.reservations == t.reservations && u.events == t.events && u.intents
                == t.intents && u.leases == t.leases
        },
{
    if embedding_set(t, session, c) is Ok {
        let u = embedding_set(t, session, c)->Ok_0;
        assert(u.concepts.dom() =~= t.concepts.dom());
    }
}

/// An intent is put in as it is, its instants cut to the millisecond, in place of the one with its
/// session and its receipt; nothing else changes.
pub proof fn an_intent_is_put_in(t: TablesModel, i: IntentModel)
    requires
        can_be_stored(i.created_at),
        i.outcome matches Some(o) ==> can_be_stored(o.consumed_at),
        i.lane_seq <= i64::MAX,
    ensures
        ({
            let u = intent_put(t, i);
            let key = seq![i.session, i.receipt];
            &&& u.intents.contains_key(key)
            &&& intent_read(u.intents[key]) == Ok::<_, StoreErrorModel>(
                IntentModel {
                    created_at: i.created_at.cut(),
                    outcome: match i.outcome {
                        Some(o) => Some(OutcomeModel { consumed_at: o.consumed_at.cut(), ..o }),
                        None => None,
                    },
                    ..i
                },
            )
            &&& agree_but(t.intents, u.intents, key)
            &&& u == TablesModel { intents: u.intents, ..t }
        }),
{
    an_intent_reads_back(i);
}

/// An intent that is consumed has the outcome that it was given, and is otherwise as it was. No
/// other intent changes; what goes are consumed ones of the session alone.
pub proof fn an_intent_is_consumed(
    t: TablesModel,
    session: Seq<char>,
    receipt: Seq<char>,
    o: OutcomeModel,
)
    requires
        can_be_stored(o.consumed_at),
    ensures
        ({
            let u = intent_consumed(t, session, receipt, o);
            let key = seq![session, receipt];
            &&& t.intents.contains_key(key) && intent_read(t.intents[key]) is Ok
                && u.intents.contains_key(key) ==> intent_read(u.intents[key]) == Ok::<
                _,
                StoreErrorModel,
            >(
                IntentModel {
                    outcome: Some(OutcomeModel { consumed_at: o.consumed_at.cut(), ..o }),
                    ..intent_read(t.intents[key])->Ok_0
                },
            )
            &&& forall|k: RowKey| #[trigger]
                u.intents.contains_key(k) ==> t.intents.contains_key(k) && (k != key
                    ==> u.intents[k] == t.intents[k])
            &&& forall|k: RowKey| #[trigger]
                t.intents.contains_key(k) && k != key && (t.intents[k].session != session
                    || t.intents[k].consumed_at is None) ==> u.intents.contains_key(k)
            &&& u == TablesModel { intents: u.intents, ..t }
        }),
{
    an_instant_reads_back(o.consumed_at);
    let key = seq![session, receipt];
    assert(intent_key(session, receipt) == key);
}

/// Naming a session that is there changes nothing; one that is not gets a row that says nothing of
/// it but its name.
pub proof fn naming_a_session_changes_none(t: TablesModel, session: Seq<char>)
    ensures
        ({
            let u = with_session(t, session);
            let row = u.sessions[seq![session]];
            &&& u.sessions.contains_key(seq![session])
            &&& t.sessions.contains_key(seq![session]) ==> u == t
            &&& !t.sessions.contains_key(seq![session]) ==> row.session == session && row.root_goal
                is None && row.created_at is None && row.closed_at is None && row.kind is None
                && row.model is None && row.dim is None
            &&& agree_but(t.sessions, u.sessions, seq![session])
            &&& u == TablesModel { sessions: u.sessions, ..t }
        }),
{
}

proof fn lemma_sessions_named(t: TablesModel, ms: Seq<Mutation>, k: RowKey)
    ensures
        t.sessions.contains_key(k) ==> with_sessions(t, ms).sessions.contains_key(k)
            && with_sessions(t, ms).sessions[k] == t.sessions[k],
        forall|i: int|
            0 <= i < ms.len() && named_session(#[trigger] ms[i]) is Some ==> with_sessions(
                t,
                ms,
            ).sessions.contains_key(seq![named_session(ms[i])->0]),
    decreases ms.len(),
{
    if ms.len() > 0 {
        let less = ms.drop_last();
        lemma_sessions_named(t, less, k);
        assert forall|i: int| 0 <= i < ms.len() && named_session(#[trigger] ms[i]) is Some implies
            with_sessions(t, ms).sessions.contains_key(seq![named_session(ms[i])->0]) by {
            if i < less.len() {
                assert(less[i] == ms[i]);
            } else {
                assert(ms[i] == ms.last());
            }
        }
    }
}

/// A batch finds a row for every session that it names, and loses none that was there.
pub proof fn a_batch_finds_its_sessions(t: TablesModel, ms: Seq<Mutation>)
    ensures
        forall|i: int|
            0 <= i < ms.len() && named_session(#[trigger] ms[i]) is Some ==> with_sessions(
                t,
                ms,
            ).sessions.contains_key(seq![named_session(ms[i])->0]),
        forall|k: RowKey| #[trigger]
            t.sessions.contains_key(k) ==> with_sessions(t, ms).sessions.contains_key(k)
                && with_sessions(t, ms).sessions[k] == t.sessions[k],
{
    lemma_sessions_named(t, ms, Seq::empty());
    assert forall|k: RowKey| #[trigger] t.sessions.contains_key(k) implies with_sessions(
        t,
        ms,
    ).sessions.contains_key(k) && with_sessions(t, ms).sessions[k] == t.sessions[k] by {
        lemma_sessions_named(t, ms, k);
    }
}

/// An intent that was just consumed is still there. Its instant lies in a year of four digits and
/// in no leap second.
pub proof fn what_was_just_consumed_is_kept(
    t: TablesModel,
    session: Seq<char>,
    receipt: Seq<char>,
    o: OutcomeModel,
)
    requires
        t.intents.contains_key(seq![session, receipt]),
        is_plain_time(o.consumed_at),
        in_four_digit_years(o.consumed_at.secs() - WRITE_INTENT_RETENTION_SECS),
    ensures
        intent_consumed(t, session, receipt, o).intents.contains_key(seq![session, receipt]),
{
    let now = o.consumed_at;
    let secs = now.secs() - WRITE_INTENT_RETENTION_SECS;
    let nanos = now.sub_nanos();
    assert(now.instant() - age_of(WRITE_INTENT_RETENTION_SECS, 0) == secs * 1_000_000_000 + nanos);
    assert((secs * 1_000_000_000 + nanos) / 1_000_000_000 == secs);
    assert((secs * 1_000_000_000 + nanos) % 1_000_000_000 == nanos);
    assert(earlier_by(now, age_of(WRITE_INTENT_RETENTION_SECS, 0)) == Timestamp::at(secs, nanos));
    Timestamp::at_parts(secs, nanos);
    stored_texts_sort_by_time(now.secs(), nanos, secs, nanos);
    assert(intent_key(session, receipt) == seq![session, receipt]);
}

/// A load after an intent was consumed gives its outcome.
pub proof fn a_load_gives_the_outcome(
    t: TablesModel,
    i: IntentModel,
    o: OutcomeModel,
    loaded: SnapshotModel,
) -> (at: int)
    requires
        t.intents.contains_key(seq![i.session, i.receipt]),
        t.intents[seq![i.session, i.receipt]] == intent_written(i),
        can_be_stored(i.created_at),
        i.lane_seq <= i64::MAX,
        is_plain_time(o.consumed_at),
        in_four_digit_years(o.consumed_at.secs() - WRITE_INTENT_RETENTION_SECS),
        loads_as(
            intent_consumed(t, i.session, i.receipt, o),
            i.session,
            Ok::<SnapshotModel, StoreErrorModel>(loaded),
        ),
    ensures
        0 <= at < loaded.intents.len(),
        loaded.intents[at] == (IntentModel {
            created_at: i.created_at.cut(),
            outcome: Some(OutcomeModel { consumed_at: o.consumed_at.cut(), ..o }),
            ..i
        }),
{
    what_was_just_consumed_is_kept(t, i.session, i.receipt, o);
    assert(intent_key(i.session, i.receipt) == seq![i.session, i.receipt]);
    an_intent_in_its_row_is_loaded(
        intent_consumed(t, i.session, i.receipt, o),
        IntentModel { outcome: Some(o), ..i },
        loaded,
    )
}

/// That a mutation is of a session: it writes a node, an edge, a transition, a goal, a contract or
/// an intent of it.
pub open spec fn is_of(m: Mutation, s: Seq<char>) -> bool {
    match m {
        Mutation::UpsertNode { node: Node::Interaction(i) } => i.session_id@ == s,
        Mutation::UpsertNode { node: Node::Concept(c) } => c.session_id@ == s,
        Mutation::UpsertEdge { edge } => edge.session_id@ == s,
        Mutation::CanonizationTransition { event } => event.session_id@ == s,
        Mutation::SetRootGoal { session_id, .. } => session_id@ == s,
        Mutation::SetEmbedding { session_id, .. } => session_id@ == s,
        Mutation::PutWriteIntent { intent } => intent.session_id@ == s,
        Mutation::ConsumeWriteIntent { session_id, .. } => session_id@ == s,
        _ => false,
    }
}

/// A writer that does not have the token at which a session's lease stands writes nothing of a
/// batch that holds anything of the session, whatever else it holds.
pub proof fn only_the_leaseholder_flushes(
    t: TablesModel,
    ms: Seq<Mutation>,
    token: Option<u64>,
    i: int,
    s: Seq<char>,
)
    requires
        0 <= i < ms.len(),
        is_of(ms[i], s),
        t.leases.contains_key(seq![s]),
        t.leases[seq![s]].token > 0,
        token is None || token->0 != t.leases[seq![s]].token,
    ensures
        flushed(t, ms, token) is Err,
{
    a_stale_writer_is_refused_whole(t, ms, token, i);
}

/// A writer is not fenced off where each session of its batch has no lease, or one that stands at
/// the writer's token.
pub proof fn the_leaseholder_flushes(t: TablesModel, ms: Seq<Mutation>, token: Option<u64>)
    requires
        forall|i: int, s: Seq<char>|
            0 <= i < ms.len() && #[trigger] is_of(ms[i], s) ==> !t.leases.contains_key(seq![s]) || (
            t.leases[seq![s]].token > 0 && token is Some && token->0 == t.leases[seq![s]].token),
    ensures
        ms.len() > 0 ==> flushed(t, ms, token) == applied_in_steps(with_sessions(t, ms), ms),
        ms.len() == 0 ==> flushed(t, ms, token) == Ok::<_, StoreErrorModel>(t),
{
    lemma_only_sessions_come(t, ms);
    let u = with_sessions(t, ms);
    lemma_passes(u, ms, token);
}

proof fn lemma_passes(t: TablesModel, ms: Seq<Mutation>, token: Option<u64>)
    requires
        forall|i: int, s: Seq<char>|
            0 <= i < ms.len() && #[trigger] is_of(ms[i], s) ==> !t.leases.contains_key(seq![s]) || (
            t.leases[seq![s]].token > 0 && token is Some && token->0 == t.leases[seq![s]].token),
    ensures
        batch_fenced(t, ms, token) is None,
    decreases ms.len(),
{
    if ms.len() > 0 {
        let less = ms.drop_last();
        assert forall|i: int, s: Seq<char>| 0 <= i < less.len() && #[trigger] is_of(
            less[i],
            s,
        ) implies !t.leases.contains_key(seq![s]) || (t.leases[seq![s]].token > 0 && token is Some
            && token->0 == t.leases[seq![s]].token) by {
            assert(is_of(ms[i], s));
        }
        lemma_passes(t, less, token);
        let last = ms.len() - 1;
        assert(ms.last() == ms[last]);
        if named_session(ms.last()) is Some {
            assert(is_of(ms[last], named_session(ms.last())->0));
        }
    }
}

/// A transition is recorded by no one but the holder of the session's lease, where it has one.
pub proof fn only_the_leaseholder_records(t: TablesModel, e: EventModel, token: Option<u64>)
    ensures
        t.leases.contains_key(seq![e.session]) && t.leases[seq![e.session]].token > 0 && (token
            is None || token->0 != t.leases[seq![e.session]].token) ==> recorded(t, e, token) is Err
            && recorded(t, e, token)->Err_0 is StaleWrite,
        !t.leases.contains_key(seq![e.session]) || (t.leases[seq![e.session]].token > 0 && token
            is Some && token->0 == t.leases[seq![e.session]].token) ==> recorded(t, e, token)
            == canonized(t, e),
{
}

} // verus!
