//! The store's tables, and what each mutation does to them.

use crate::boundary::hyphenated;
use crate::job::{IntentModel, OutcomeModel};
use crate::store::codec::{cutoff, cutoff_text, status_text, write_ts};
use crate::store::keys::{key1, key2};
use crate::store::lease::{LeaseRow, LeaseRowModel};
use crate::store::order::{earlier, text_earlier};
use crate::store::rows::{
    concept_row, concept_written, edge_row, edge_written, event_row, event_written, intent_row,
    intent_written, interaction_row, interaction_written, ConceptModel, ConceptRow, ConceptRowModel,
    EdgeModel, EdgeRow, EdgeRowModel, EventModel, EventRow, EventRowModel, IntentRow,
    IntentRowModel, InteractionModel, InteractionRow, InteractionRowModel, ReservationRow,
    ReservationRowModel,
};
use crate::store::session::{
    contract_from_parts, opt_contract, session_embedding_from_parts, SessionRow, SessionRowModel,
    SynonymModel,
};
use crate::store::table::{altered, Alter, Pick, Row, RowKey, Table};
use crate::store::vector::{embedding_fault, ensure_is_an_embedding};
use crate::text::{decimal, decimal_usize};
use crate::time::{age_of, reaches_back, stored_text};
use crate::types::{
    clone_opt, joined, opt_text, CanonizationEvent, Concept, ConceptType, ContractModel, Edge,
    EmbeddingContract, Interaction, NodeId, SessionId, StoreError, StoreErrorModel, Synonym,
    WriteIntent, WriteIntentOutcome, WRITE_INTENT_RETENTION_SECS,
};
use vstd::prelude::*;
use vstd::string::*;

verus! {

/// The tables of a store.
#[derive(Debug)]
pub struct Tables {
    pub sessions: Table<SessionRow>,
    pub interactions: Table<InteractionRow>,
    pub concepts: Table<ConceptRow>,
    pub edges: Table<EdgeRow>,
    pub synonyms: Table<Synonym>,
    pub reservations: Table<ReservationRow>,
    pub canonization_events: Table<EventRow>,
    pub write_intents: Table<IntentRow>,
    pub session_leases: Table<LeaseRow>,
}

/// The tables of a store, as values.
#[verifier::ext_equal]
pub struct TablesModel {
    pub sessions: Map<RowKey, SessionRowModel>,
    pub interactions: Map<RowKey, InteractionRowModel>,
    pub concepts: Map<RowKey, ConceptRowModel>,
    pub edges: Map<RowKey, EdgeRowModel>,
    pub synonyms: Map<RowKey, SynonymModel>,
    pub reservations: Map<RowKey, ReservationRowModel>,
    pub events: Map<RowKey, EventRowModel>,
    pub intents: Map<RowKey, IntentRowModel>,
    pub leases: Map<RowKey, LeaseRowModel>,
}

impl View for Tables {
    type V = TablesModel;

    open spec fn view(&self) -> TablesModel {
        TablesModel {
            sessions: self.sessions@,
            interactions: self.interactions@,
            concepts: self.concepts@,
            edges: self.edges@,
            synonyms: self.synonyms@,
            reservations: self.reservations@,
            events: self.canonization_events@,
            intents: self.write_intents@,
            leases: self.session_leases@,
        }
    }
}

/// Tables without rows.
pub open spec fn no_rows() -> TablesModel {
    TablesModel {
        sessions: Map::empty(),
        interactions: Map::empty(),
        concepts: Map::empty(),
        edges: Map::empty(),
        synonyms: Map::empty(),
        reservations: Map::empty(),
        events: Map::empty(),
        intents: Map::empty(),
        leases: Map::empty(),
    }
}

impl Tables {
    /// That each table has its keys once.
    pub open spec fn wf(self) -> bool {
        &&& self.sessions.wf()
        &&& self.interactions.wf()
        &&& self.concepts.wf()
        &&& self.edges.wf()
        &&& self.synonyms.wf()
        &&& self.reservations.wf()
        &&& self.canonization_events.wf()
        &&& self.write_intents.wf()
        &&& self.session_leases.wf()
    }

    /// Tables without rows.
    pub fn new() -> (t: Tables)
        ensures
            t.wf(),
            t@ == no_rows(),
    {
        Tables {
            sessions: Table::new(),
            interactions: Table::new(),
            concepts: Table::new(),
            edges: Table::new(),
            synonyms: Table::new(),
            reservations: Table::new(),
            canonization_events: Table::new(),
            write_intents: Table::new(),
            session_leases: Table::new(),
        }
    }
}

/// What a change of the tables came to: the tables as it leaves them, or why it was refused.
pub open spec fn outcome(r: Result<Tables, StoreError>) -> Result<TablesModel, StoreErrorModel> {
    match r {
        Ok(t) => Ok(t@),
        Err(e) => Err(e@),
    }
}

/// That tables which a change left are well-formed.
pub open spec fn sound(r: Result<Tables, StoreError>) -> bool {
    r matches Ok(t) ==> t.wf()
}

/// The row of a session.
pub open spec fn session_of(t: TablesModel, session: Seq<char>) -> Option<SessionRowModel> {
    if t.sessions.contains_key(seq![session]) {
        Some(t.sessions[seq![session]])
    } else {
        None
    }
}

/// The text of an identifier.
pub open spec fn id_text(id: NodeId) -> Seq<char> {
    hyphenated(id.0 as nat)
}

/// The key of a row that an identifier finds.
pub open spec fn id_key(id: NodeId) -> RowKey {
    seq![id_text(id)]
}

/// The row of a session of which nothing is known but its name.
pub open spec fn bare_session(session: Seq<char>) -> SessionRowModel {
    SessionRowModel {
        session,
        root_goal: None,
        created_at: None,
        closed_at: None,
        kind: None,
        model: None,
        dim: None,
    }
}

/// The tables with a row for a session.
pub open spec fn with_session(t: TablesModel, session: Seq<char>) -> TablesModel {
    if t.sessions.contains_key(seq![session]) {
        t
    } else {
        TablesModel { sessions: t.sessions.insert(seq![session], bare_session(session)), ..t }
    }
}

/// Sees to it that a session has a row.
pub fn ensure_session(t: Tables, session: &str) -> (r: Tables)
    requires
        t.wf(),
    ensures
        r.wf(),
        r@ == with_session(t@, session@),
{
    let mut t = t;
    let key = key1(session);
    if t.sessions.get(&key).is_none() {
        t.sessions.put(
            SessionRow {
                session_id: session.to_owned(),
                root_goal: None,
                created_at: None,
                closed_at: None,
                embedding_kind: None,
                embedding_model: None,
                embedding_dim: None,
            },
        );
    }
    t
}

/// The refusal of an interaction that follows one that is not there.
pub open spec fn interaction_refused(t: TablesModel, i: InteractionModel) -> Option<
    StoreErrorModel,
> {
    match i.previous {
        Some(p) => if p == i.id || t.interactions.contains_key(id_key(p)) {
            None
        } else {
            Some(
                StoreErrorModel::Constraint(
                    "upsert interaction: FOREIGN KEY constraint failed"@,
                ),
            )
        },
        None => None,
    }
}

/// What the upsert of an interaction does.
pub open spec fn interaction_upserted(t: TablesModel, i: InteractionModel) -> Result<
    TablesModel,
    StoreErrorModel,
> {
    match interaction_refused(t, i) {
        Some(e) => Err(e),
        None => Ok(
            TablesModel {
                interactions: t.interactions.insert(id_key(i.id), interaction_written(i)),
                ..t
            },
        ),
    }
}

/// Puts an interaction in, or another in its place.
pub fn upsert_interaction(t: Tables, i: &Interaction) -> (r: Result<Tables, StoreError>)
    requires
        t.wf(),
    ensures
        outcome(r) == interaction_upserted(t@, i@),
        sound(r),
{
    let mut t = t;
    match i.previous_id {
        Some(p) => {
            if p.0 != i.id.0 && t.interactions.get(&key1(p.to_string().as_str())).is_none() {
                return Err(
                    StoreError::Constraint(
                        "upsert interaction: FOREIGN KEY constraint failed".to_owned(),
                    ),
                );
            }
        },
        None => {},
    }
    t.interactions.put(interaction_row(i));
    Ok(t)
}

/// The refusal of a vector of another width than the session's.
pub open spec fn width_mismatch(
    id: NodeId,
    width: nat,
    session: Seq<char>,
    dim: nat,
) -> StoreErrorModel {
    StoreErrorModel::Invariant(
        "concept "@ + id_text(id) + " carries a "@ + decimal(width)
            + "-dimensional embedding but session "@ + session + " stores vectors of "@ + decimal(
            dim,
        )
            + " — refusing the write: one width-mismatched row makes the session's entire vector leg fail on every read (re-embed the session or start a new one; `Concept::embedding` must match the session contract)"@,
    )
}

/// Why a concept's vector may not be written, if so: the session has a contract that says another
/// width, or one that cannot be read. A session without a contract takes every vector.
pub open spec fn width_refused(t: TablesModel, c: ConceptModel) -> Option<StoreErrorModel> {
    match (c.embedding, session_of(t, c.session)) {
        (Some(v), Some(row)) => match contract_from_parts(
            row.kind,
            row.model,
            row.dim,
            c.session,
        ) {
            Err(e) => Some(e),
            Ok(None) => None,
            Ok(Some(contract)) => if v.len() == contract.dim {
                None
            } else {
                Some(width_mismatch(c.id, v.len(), c.session, contract.dim))
            },
        },
        _ => None,
    }
}

/// Tests the width of a concept's vector against its session's contract.
pub fn enforce_concept_vector_width(t: &Tables, c: &Concept) -> (r: Result<(), StoreError>)
    requires
        t.wf(),
    ensures
        match r {
            Ok(()) => width_refused(t@, c@) is None,
            Err(e) => width_refused(t@, c@) == Some(e@),
        },
{
    let v = match &c.embedding {
        Some(v) => v,
        None => {
            return Ok(());
        },
    };
    let row = match t.sessions.get(&key1(c.session_id.as_str())) {
        Some(row) => row,
        None => {
            return Ok(());
        },
    };
    let contract = match session_embedding_from_parts(
        clone_opt(&row.embedding_kind),
        clone_opt(&row.embedding_model),
        row.embedding_dim,
        c.session_id.as_str(),
    ) {
        Ok(Some(contract)) => contract,
        Ok(None) => {
            return Ok(());
        },
        Err(e) => {
            return Err(e);
        },
    };
    if v.len() == contract.dim {
        return Ok(());
    }
    let mut s = "concept ".to_owned();
    s.append(c.id.to_string().as_str());
    s.append(" carries a ");
    s.append(decimal_usize(v.len()).as_str());
    s.append("-dimensional embedding but session ");
    s.append(c.session_id.as_str());
    s.append(" stores vectors of ");
    s.append(decimal_usize(contract.dim).as_str());
    s.append(
        " — refusing the write: one width-mismatched row makes the session's entire vector leg fail on every read (re-embed the session or start a new one; `Concept::embedding` must match the session contract)",
    );
    Err(StoreError::Invariant(s))
}

/// The concepts of a session, but for one, that have a key to themselves. Observations share
/// theirs.
pub struct HoldsKey {
    pub session: String,
    pub key: String,
    pub but: String,
}

impl Pick<ConceptRow> for HoldsKey {
    open spec fn picks(&self, row: ConceptRowModel) -> bool {
        &&& row.session == self.session@
        &&& row.key == self.key@
        &&& row.id != self.but@
        &&& row.concept_type != "Observation"@
    }

    fn picks_row(&self, row: &ConceptRow) -> (r: bool) {
        let observation = "Observation".to_owned();
        row.session_id == self.session && row.canonical_key == self.key && row.id != self.but
            && row.concept_type != observation
    }
}

/// That another concept of the session has the key, where the key must be a concept's own.
pub open spec fn key_is_held(t: TablesModel, c: ConceptModel) -> bool {
    c.concept_type != ConceptType::Observation && exists|k: RowKey| #[trigger]
        t.concepts.contains_key(k) && t.concepts[k].session == c.session && t.concepts[k].key
            == c.key && t.concepts[k].id != id_text(c.id) && t.concepts[k].concept_type
            != "Observation"@
}

/// Why a concept's vector is no embedding, if so.
pub open spec fn vector_refused(c: ConceptModel) -> Option<StoreErrorModel> {
    match c.embedding {
        Some(v) => embedding_fault(v),
        None => None,
    }
}

/// The refusal of a concept whose key another has.
pub open spec fn key_taken() -> StoreErrorModel {
    StoreErrorModel::Constraint(
        "upsert concept: UNIQUE constraint failed: concepts.session_id, concepts.canonical_key"@,
    )
}

/// The refusal of a concept that comes from an interaction, or belongs to a session, that is not
/// there.
pub open spec fn origin_refused(t: TablesModel, c: ConceptModel) -> Option<StoreErrorModel> {
    if !t.interactions.contains_key(id_key(c.origin)) || !t.sessions.contains_key(
        seq![c.session],
    ) {
        Some(StoreErrorModel::Constraint("upsert concept: FOREIGN KEY constraint failed"@))
    } else {
        None
    }
}

/// Why a concept may not be written, if so: its width, its vector, its key, its origin.
pub open spec fn concept_refused(t: TablesModel, c: ConceptModel) -> Option<StoreErrorModel> {
    match (width_refused(t, c), vector_refused(c)) {
        (Some(e), _) => Some(e),
        (None, Some(e)) => Some(e),
        (None, None) => if key_is_held(t, c) {
            Some(key_taken())
        } else {
            origin_refused(t, c)
        },
    }
}

/// The row that the upsert of a concept leaves. What canonization has made of a concept that is
/// there already stays.
pub open spec fn concept_merged(t: TablesModel, c: ConceptModel) -> ConceptRowModel {
    let row = concept_written(c);
    if t.concepts.contains_key(id_key(c.id)) {
        let old = t.concepts[id_key(c.id)];
        ConceptRowModel {
            status: old.status,
            blast_radius: old.blast_radius,
            last_demotion: old.last_demotion,
            ..row
        }
    } else {
        row
    }
}

/// What the upsert of a concept does.
pub open spec fn concept_upserted(t: TablesModel, c: ConceptModel) -> Result<
    TablesModel,
    StoreErrorModel,
> {
    match concept_refused(t, c) {
        Some(e) => Err(e),
        None => Ok(
            TablesModel { concepts: t.concepts.insert(id_key(c.id), concept_merged(t, c)), ..t },
        ),
    }
}

/// What putting a concept's row does, where nothing is tested but its key.
pub open spec fn concept_put(t: TablesModel, c: ConceptModel) -> Result<
    TablesModel,
    StoreErrorModel,
> {
    if key_is_held(t, c) {
        Err(key_taken())
    } else {
        Ok(TablesModel { concepts: t.concepts.insert(id_key(c.id), concept_merged(t, c)), ..t })
    }
}

/// Tests that a concept's vector is an embedding, where it has one.
pub fn enforce_concept_vector(c: &Concept) -> (r: Result<(), StoreError>)
    ensures
        match r {
            Ok(()) => vector_refused(c@) is None,
            Err(e) => vector_refused(c@) == Some(e@),
        },
{
    match &c.embedding {
        Some(v) => ensure_is_an_embedding(v),
        None => Ok(()),
    }
}

/// Tests that the interaction and the session of a concept are there.
pub fn enforce_concept_origin(t: &Tables, c: &Concept) -> (r: Result<(), StoreError>)
    requires
        t.wf(),
    ensures
        match r {
            Ok(()) => origin_refused(t@, c@) is None,
            Err(e) => origin_refused(t@, c@) == Some(e@),
        },
{
    if t.interactions.get(&key1(c.origin_interaction.to_string().as_str())).is_none()
        || t.sessions.get(&key1(c.session_id.as_str())).is_none() {
        return Err(
            StoreError::Constraint("upsert concept: FOREIGN KEY constraint failed".to_owned()),
        );
    }
    Ok(())
}

/// Puts a concept's row in, or changes the one that is there. Its key is tested.
pub fn put_concept(t: Tables, c: &Concept) -> (r: Result<Tables, StoreError>)
    requires
        t.wf(),
    ensures
        outcome(r) == concept_put(t@, c@),
        sound(r),
{
    let mut t = t;
    let shares_key = match c.concept_type {
        ConceptType::Observation => true,
        _ => false,
    };
    let holds = HoldsKey {
        session: c.session_id.0.clone(),
        key: c.canonical_key.clone(),
        but: c.id.to_string(),
    };
    let held = t.concepts.any(&holds);
    proof {
        assert(held == exists|k: RowKey| #[trigger]
            t@.concepts.contains_key(k) && holds.picks(t@.concepts[k]));
    }
    if !shares_key && held {
        return Err(
            StoreError::Constraint(
                "upsert concept: UNIQUE constraint failed: concepts.session_id, concepts.canonical_key".to_owned(),
            ),
        );
    }
    let mut row = concept_row(c);
    match t.concepts.get(&key1(row.id.as_str())) {
        Some(old) => {
            row.canonization_status = old.canonization_status.clone();
            row.blast_radius = old.blast_radius;
            row.last_demotion_time = clone_opt(&old.last_demotion_time);
        },
        None => {},
    }
    proof {
        assert(row@ == concept_merged(t@, c@));
    }
    t.concepts.put(row);
    Ok(t)
}

/// Puts a concept in, or changes the one that is there.
pub fn upsert_concept(t: Tables, c: &Concept) -> (r: Result<Tables, StoreError>)
    requires
        t.wf(),
    ensures
        outcome(r) == concept_upserted(t@, c@),
        sound(r),
{
    match enforce_concept_vector_width(&t, c) {
        Ok(()) => {},
        Err(e) => {
            return Err(e);
        },
    }
    match enforce_concept_vector(c) {
        Ok(()) => {},
        Err(e) => {
            return Err(e);
        },
    }
    let t = match put_concept(t, c) {
        Ok(t) => t,
        Err(e) => {
            return Err(e);
        },
    };
    match enforce_concept_origin(&t, c) {
        Ok(()) => Ok(t),
        Err(e) => Err(e),
    }
}

/// The key of an edge: an edge of a kind between two nodes is there once.
pub open spec fn edge_key(e: EdgeModel) -> RowKey {
    EdgeRow::key_of(edge_written(e))
}

/// What the upsert of an edge does.
pub open spec fn edge_upserted(t: TablesModel, e: EdgeModel) -> TablesModel {
    TablesModel { edges: t.edges.insert(edge_key(e), edge_written(e)), ..t }
}

/// Puts an edge in, or another in its place.
pub fn upsert_edge(t: Tables, e: &Edge) -> (r: Tables)
    requires
        t.wf(),
    ensures
        r@ == edge_upserted(t@, e@),
        r.wf(),
{
    let mut t = t;
    t.edges.put(edge_row(e));
    t
}

/// The edges that begin or end at a node, or that have its identifier.
pub struct Incident {
    pub id: String,
}

impl Pick<EdgeRow> for Incident {
    open spec fn picks(&self, row: EdgeRowModel) -> bool {
        row.source == self.id@ || row.target == self.id@ || row.id == self.id@
    }

    fn picks_row(&self, row: &EdgeRow) -> (r: bool) {
        row.source == self.id || row.target == self.id || row.id == self.id
    }
}

/// The interactions that follow one, but for itself.
pub struct Follows {
    pub id: String,
}

impl Pick<InteractionRow> for Follows {
    open spec fn picks(&self, row: InteractionRowModel) -> bool {
        row.previous == Some(self.id@) && row.id != self.id@
    }

    fn picks_row(&self, row: &InteractionRow) -> (r: bool) {
        match &row.previous_id {
            Some(p) => *p == self.id && row.id != self.id,
            None => false,
        }
    }
}

/// The concepts that come out of an interaction.
pub struct ComesFrom {
    pub id: String,
}

impl Pick<ConceptRow> for ComesFrom {
    open spec fn picks(&self, row: ConceptRowModel) -> bool {
        row.origin == self.id@
    }

    fn picks_row(&self, row: &ConceptRow) -> (r: bool) {
        row.origin_interaction == self.id
    }
}

/// That an interaction is there and another row names it.
pub open spec fn still_named(t: TablesModel, id: Seq<char>) -> bool {
    t.interactions.contains_key(seq![id]) && ((exists|k: RowKey| #[trigger]
        t.interactions.contains_key(k) && t.interactions[k].previous == Some(id)
            && t.interactions[k].id != id) || (exists|k: RowKey| #[trigger]
        t.concepts.contains_key(k) && t.concepts[k].origin == id))
}

/// That an edge begins or ends at a node, or has its identifier.
pub open spec fn is_incident(e: EdgeRowModel, id: Seq<char>) -> bool {
    e.source == id || e.target == id || e.id == id
}

/// What the deletion of a node does: the node goes, and every edge that touches it.
pub open spec fn node_deleted(t: TablesModel, id: NodeId) -> Result<TablesModel, StoreErrorModel> {
    if still_named(t, id_text(id)) {
        Err(StoreErrorModel::Constraint("delete interaction: FOREIGN KEY constraint failed"@))
    } else {
        Ok(
            TablesModel {
                interactions: t.interactions.remove(id_key(id)),
                concepts: t.concepts.remove(id_key(id)),
                edges: t.edges.restrict(
                    t.edges.dom().filter(|k: RowKey| !is_incident(t.edges[k], id_text(id))),
                ),
                ..t
            },
        )
    }
}

/// Deletes a node.
pub fn delete_node(t: Tables, id: NodeId) -> (r: Result<Tables, StoreError>)
    requires
        t.wf(),
    ensures
        outcome(r) == node_deleted(t@, id),
        sound(r),
{
    let mut t = t;
    let text = id.to_string();
    let key = key1(text.as_str());
    let follows = Follows { id: text.clone() };
    let comes_from = ComesFrom { id: text.clone() };
    let followed = t.interactions.any(&follows);
    let has_concepts = t.concepts.any(&comes_from);
    let there = t.interactions.get(&key).is_some();
    let ghost before = t@;
    proof {
        assert(followed == exists|k: RowKey| #[trigger]
            before.interactions.contains_key(k) && follows.picks(before.interactions[k]));
        assert(has_concepts == exists|k: RowKey| #[trigger]
            before.concepts.contains_key(k) && comes_from.picks(before.concepts[k]));
    }
    if there && (followed || has_concepts) {
        return Err(
            StoreError::Constraint("delete interaction: FOREIGN KEY constraint failed".to_owned()),
        );
    }
    let gone = t.interactions.take(&key);
    let gone = t.concepts.take(&key);
    let incident = Incident { id: text };
    t.edges.delete(&incident);
    proof {
        assert(t@.edges =~= before.edges.restrict(
            before.edges.dom().filter(|k: RowKey| !is_incident(before.edges[k], id_text(id))),
        ));
    }
    Ok(t)
}

/// The edges with an identifier.
pub struct HasId {
    pub id: String,
}

impl Pick<EdgeRow> for HasId {
    open spec fn picks(&self, row: EdgeRowModel) -> bool {
        row.id == self.id@
    }

    fn picks_row(&self, row: &EdgeRow) -> (r: bool) {
        row.id == self.id
    }
}

/// What the deletion of an edge does.
pub open spec fn edge_deleted(t: TablesModel, id: NodeId) -> TablesModel {
    TablesModel {
        edges: t.edges.restrict(t.edges.dom().filter(|k: RowKey| t.edges[k].id != id_text(id))),
        ..t
    }
}

/// Deletes an edge.
pub fn delete_edge(t: Tables, id: NodeId) -> (r: Tables)
    requires
        t.wf(),
    ensures
        r@ == edge_deleted(t@, id),
        r.wf(),
{
    let mut t = t;
    let ghost before = t@;
    let p = HasId { id: id.to_string() };
    t.edges.delete(&p);
    proof {
        assert(t@.edges =~= before.edges.restrict(
            before.edges.dom().filter(|k: RowKey| before.edges[k].id != id_text(id)),
        ));
    }
    t
}

/// What becomes of a concept's row by a transition. The time of the last demotion stays where the
/// transition is none.
pub open spec fn transitioned(row: ConceptRowModel, e: EventModel) -> ConceptRowModel {
    ConceptRowModel {
        status: status_text(e.to_status),
        blast_radius: e.blast_radius,
        last_demotion: match e.last_demotion {
            Some(t) => Some(stored_text(t)),
            None => row.last_demotion,
        },
        ..row
    }
}

/// That the concept of a transition is there, in the transition's session.
pub open spec fn has_subject(t: TablesModel, e: EventModel) -> bool {
    t.concepts.contains_key(id_key(e.node)) && t.concepts[id_key(e.node)].session == e.session
}

/// What a transition does: it is appended and applied, once. One that is there already changes
/// nothing.
pub open spec fn canonized(t: TablesModel, e: EventModel) -> Result<TablesModel, StoreErrorModel> {
    if t.events.contains_key(id_key(e.id)) {
        Ok(t)
    } else if !has_subject(t, e) {
        Err(StoreErrorModel::NotFound("concept "@ + id_text(e.node) + " for canonization"@))
    } else {
        Ok(
            TablesModel {
                events: t.events.insert(id_key(e.id), event_written(e)),
                concepts: t.concepts.insert(
                    id_key(e.node),
                    transitioned(t.concepts[id_key(e.node)], e),
                ),
                ..t
            },
        )
    }
}

/// Appends a transition and applies it to its concept.
pub fn apply_canonization_transition(t: Tables, e: &CanonizationEvent) -> (r: Result<
    Tables,
    StoreError,
>)
    requires
        t.wf(),
    ensures
        outcome(r) == canonized(t@, e@),
        sound(r),
{
    let mut t = t;
    let row = event_row(e);
    if t.canonization_events.get(&key1(row.id.as_str())).is_some() {
        return Ok(t);
    }
    let node = e.node_id.to_string();
    let mut concept = match t.concepts.get(&key1(node.as_str())) {
        Some(old) => if old.session_id == e.session_id.0 {
            old.copy()
        } else {
            return Err(
                StoreError::NotFound(joined("concept ", node.as_str(), " for canonization")),
            );
        },
        None => {
            return Err(
                StoreError::NotFound(joined("concept ", node.as_str(), " for canonization")),
            );
        },
    };
    let ghost before = t@;
    concept.canonization_status = row.to_status.clone();
    concept.blast_radius = row.blast_radius;
    match &row.last_demotion_time {
        Some(at) => {
            concept.last_demotion_time = Some(at.clone());
        },
        None => {},
    }
    proof {
        assert(concept@ == transitioned(before.concepts[id_key(e@.node)], e@));
    }
    t.canonization_events.put(row);
    t.concepts.put(concept);
    Ok(t)
}

/// What setting a session's goal does.
pub open spec fn goal_set(t: TablesModel, session: Seq<char>, goal: Option<Seq<char>>) -> Result<
    TablesModel,
    StoreErrorModel,
> {
    match session_of(t, session) {
        None => Err(
            StoreErrorModel::NotFound("sessions row for "@ + session + " while setting root_goal"@),
        ),
        Some(row) => Ok(
            TablesModel {
                sessions: t.sessions.insert(
                    seq![session],
                    SessionRowModel { root_goal: goal, ..row },
                ),
                ..t
            },
        ),
    }
}

/// Sets or clears the goal of a session.
pub fn set_root_goal(t: Tables, session: &SessionId, goal: &Option<String>) -> (r: Result<
    Tables,
    StoreError,
>)
    requires
        t.wf(),
    ensures
        outcome(r) == goal_set(t@, session@, opt_text(*goal)),
        sound(r),
{
    let mut t = t;
    let mut row = match t.sessions.get(&key1(session.as_str())) {
        Some(row) => row.copy(),
        None => {
            return Err(
                StoreError::NotFound(
                    joined("sessions row for ", session.as_str(), " while setting root_goal"),
                ),
            );
        },
    };
    row.root_goal = clone_opt(goal);
    t.sessions.put(row);
    Ok(t)
}

/// Takes the vectors of a session's concepts away.
pub struct Quarantine {
    pub session: String,
}

/// A concept's row without its vector.
pub open spec fn unembedded(row: ConceptRowModel) -> ConceptRowModel {
    ConceptRowModel { embedding: None, ..row }
}

impl Alter<ConceptRow> for Quarantine {
    open spec fn altered(&self, row: ConceptRowModel) -> ConceptRowModel {
        if row.session == self.session@ {
            unembedded(row)
        } else {
            row
        }
    }

    fn alter(&self, row: ConceptRow) -> (r: ConceptRow) {
        let mut row = row;
        if row.session_id == self.session {
            row.embedding = None;
        }
        row
    }
}

/// The concepts with the vectors of a session's concepts gone.
pub open spec fn quarantined(
    concepts: Map<RowKey, ConceptRowModel>,
    session: Seq<char>,
) -> Map<RowKey, ConceptRowModel> {
    Map::new(
        |k: RowKey| concepts.contains_key(k),
        |k: RowKey|
            if concepts[k].session == session {
                unembedded(concepts[k])
            } else {
                concepts[k]
            },
    )
}

/// The width that a contract stamps.
pub open spec fn stamped_dim(c: Option<ContractModel>) -> Option<i64> {
    match c {
        Some(c) => Some(c.dim as i64),
        None => None,
    }
}

/// The row of a session with a contract stamped on it, or cleared.
pub open spec fn stamped(row: SessionRowModel, c: Option<ContractModel>) -> SessionRowModel {
    SessionRowModel {
        kind: match c {
            Some(c) => Some(c.kind),
            None => None,
        },
        model: match c {
            Some(c) => c.model,
            None => None,
        },
        dim: stamped_dim(c),
        ..row
    }
}

/// What stamping a contract on a session does. A stamp of another width than the session's takes
/// away all the session's vectors; one of the same width leaves them.
pub open spec fn embedding_set(
    t: TablesModel,
    session: Seq<char>,
    c: Option<ContractModel>,
) -> Result<TablesModel, StoreErrorModel> {
    if c is Some && c->0.dim > i64::MAX {
        Err(
            StoreErrorModel::Invariant(
                "embedding dimension does not fit i64 for "@ + session,
            ),
        )
    } else {
        match session_of(t, session) {
            None => Err(
                StoreErrorModel::NotFound(
                    "sessions row for "@ + session + " while setting embedding"@,
                ),
            ),
            Some(row) => Ok(
                TablesModel {
                    sessions: t.sessions.insert(seq![session], stamped(row, c)),
                    concepts: if c is Some && row.dim != stamped_dim(c) {
                        quarantined(t.concepts, session)
                    } else {
                        t.concepts
                    },
                    ..t
                },
            ),
        }
    }
}

/// Stamps a contract on a session, or clears it.
pub fn set_embedding(
    t: Tables,
    session: &SessionId,
    embedding: &Option<EmbeddingContract>,
) -> (r: Result<Tables, StoreError>)
    requires
        t.wf(),
    ensures
        outcome(r) == embedding_set(t@, session@, opt_contract(*embedding)),
        sound(r),
{
    let mut t = t;
    let mut dim: Option<i64> = None;
    let mut kind: Option<String> = None;
    let mut model: Option<String> = None;
    let mut stamps = false;
    match embedding {
        Some(c) => {
            if c.dim as u64 > i64::MAX as u64 {
                return Err(
                    StoreError::Invariant(
                        joined("embedding dimension does not fit i64 for ", session.as_str(), ""),
                    ),
                );
            }
            dim = Some(c.dim as i64);
            kind = Some(c.kind.clone());
            model = clone_opt(&c.model);
            stamps = true;
        },
        None => {},
    }
    let mut row = match t.sessions.get(&key1(session.as_str())) {
        Some(row) => row.copy(),
        None => {
            return Err(
                StoreError::NotFound(
                    joined("sessions row for ", session.as_str(), " while setting embedding"),
                ),
            );
        },
    };
    let same = match (row.embedding_dim, dim) {
        (Some(a), Some(b)) => a == b,
        (None, None) => true,
        _ => false,
    };
    let ghost before = t@;
    if stamps && !same {
        let q = Quarantine { session: session.0.clone() };
        t.concepts.alter_all(&q);
        proof {
            assert(t@.concepts =~= quarantined(before.concepts, session@));
        }
    }
    row.embedding_kind = kind;
    row.embedding_model = model;
    row.embedding_dim = dim;
    t.sessions.put(row);
    Ok(t)
}

/// The key of an intent.
pub open spec fn intent_key(session: Seq<char>, receipt: Seq<char>) -> RowKey {
    seq![session, receipt]
}

/// What putting an intent does.
pub open spec fn intent_put(t: TablesModel, i: IntentModel) -> TablesModel {
    TablesModel {
        intents: t.intents.insert(intent_key(i.session, i.receipt), intent_written(i)),
        ..t
    }
}

/// Puts an intent in, or another in its place.
pub fn put_write_intent(t: Tables, i: &WriteIntent) -> (r: Tables)
    requires
        t.wf(),
    ensures
        r@ == intent_put(t@, i@),
        r.wf(),
{
    let mut t = t;
    t.write_intents.put(intent_row(i));
    t
}

/// The intents of a session that were consumed before an instant.
pub struct ConsumedBefore {
    pub session: String,
    pub cutoff: String,
}

/// That an intent of a session was consumed before an instant.
pub open spec fn consumed_before(
    row: IntentRowModel,
    session: Seq<char>,
    cutoff: Seq<char>,
) -> bool {
    row.session == session && row.consumed_at is Some && text_earlier(row.consumed_at->0, cutoff)
}

impl Pick<IntentRow> for ConsumedBefore {
    open spec fn picks(&self, row: IntentRowModel) -> bool {
        consumed_before(row, self.session@, self.cutoff@)
    }

    fn picks_row(&self, row: &IntentRow) -> (r: bool) {
        match &row.consumed_at {
            Some(at) => row.session_id == self.session && earlier(
                at.as_str(),
                self.cutoff.as_str(),
            ),
            None => false,
        }
    }
}

/// An intent's row with its outcome.
pub open spec fn consumed(row: IntentRowModel, o: OutcomeModel) -> IntentRowModel {
    IntentRowModel {
        consumed_at: Some(stored_text(o.consumed_at)),
        tag: Some(o.tag),
        summary: Some(o.summary),
        ..row
    }
}

/// What consuming an intent does: its row gets the outcome, and those that were consumed longer
/// ago than they are kept go.
pub open spec fn intent_consumed(
    t: TablesModel,
    session: Seq<char>,
    receipt: Seq<char>,
    o: OutcomeModel,
) -> TablesModel {
    let key = intent_key(session, receipt);
    let marked = if t.intents.contains_key(key) {
        t.intents.insert(key, consumed(t.intents[key], o))
    } else {
        t.intents
    };
    let cut = cutoff(o.consumed_at, WRITE_INTENT_RETENTION_SECS, 0);
    TablesModel {
        intents: marked.restrict(
            marked.dom().filter(|k: RowKey| !consumed_before(marked[k], session, cut)),
        ),
        ..t
    }
}

/// That there is an instant as long before an outcome as a consumed intent is kept.
pub open spec fn can_be_purged_from(o: OutcomeModel) -> bool {
    reaches_back(o.consumed_at, age_of(WRITE_INTENT_RETENTION_SECS, 0))
}

/// Gives an intent its outcome, and takes the old outcomes of the session away.
pub fn consume_write_intent(
    t: Tables,
    session: &SessionId,
    receipt: &str,
    o: &WriteIntentOutcome,
) -> (r: Tables)
    requires
        t.wf(),
        can_be_purged_from(o@),
    ensures
        r@ == intent_consumed(t@, session@, receipt@, o@),
        r.wf(),
{
    let mut t = t;
    let key = key2(session.as_str(), receipt);
    let ghost before = t@;
    let ghost k = intent_key(session@, receipt@);
    let ghost marked = if before.intents.contains_key(k) {
        before.intents.insert(k, consumed(before.intents[k], o@))
    } else {
        before.intents
    };
    let found: Option<IntentRow> = match t.write_intents.get(&key) {
        Some(row) => Some(row.copy()),
        None => None,
    };
    match found {
        Some(row) => {
            let mut row = row;
            row.consumed_at = Some(write_ts(&o.consumed_at));
            row.outcome_tag = Some(o.tag.clone());
            row.outcome_summary = Some(o.summary.clone());
            proof {
                assert(row@ == consumed(before.intents[k], o@));
            }
            t.write_intents.put(row);
        },
        None => {},
    }
    assert(t@.intents == marked);
    match cutoff_text(&o.consumed_at, WRITE_INTENT_RETENTION_SECS, 0) {
        Ok(cut) => {
            let p = ConsumedBefore { session: session.0.clone(), cutoff: cut };
            t.write_intents.delete(&p);
            proof {
                let text = cutoff(o@.consumed_at, WRITE_INTENT_RETENTION_SECS, 0);
                assert(t@.intents =~= marked.restrict(
                    marked.dom().filter(|k: RowKey| !consumed_before(marked[k], session@, text)),
                ));
            }
        },
        Err(_) => {},
    }
    t
}

} // verus!
