//! The rows of the store's tables: what is written of a value, and what is read of a row.

use crate::boundary::hyphenated;
use crate::job::{IntentModel, OutcomeModel, PayloadModel};
use crate::store::codec::{
    concept_type_read, concept_type_text, concept_type_to_text, cut_opt, edge_type_read,
    edge_type_text, edge_type_to_text, id_read, node_id, opt_four_digits, opt_id_read, opt_id_text,
    opt_node_id, opt_stored, opt_text_to_ts, opt_ts_read, status_read, status_text, status_to_text,
    text_to_concept_type, text_to_edge_type, text_to_status, text_to_ts, ts_read, write_opt_id,
    write_opt_ts, write_ts,
};
use crate::time::{in_four_digit_years, stored_text, Timestamp};
use crate::types::{
    clone_opt, joined, opt_text, AgentId, CanonizationEvent, CanonizationStatus, Concept,
    ConceptType, Edge, EdgeType, Interaction, NodeId, Reservation, SessionId, StoreError,
    StoreErrorModel, WriteIntent, WriteIntentOutcome, WriteIntentPayload,
};
use vstd::prelude::*;
use vstd::string::*;

verus! {

/// An interaction, as values.
pub struct InteractionModel {
    pub id: NodeId,
    pub session: Seq<char>,
    pub agent: Seq<char>,
    pub prompt: Option<Seq<char>>,
    pub previous: Option<NodeId>,
    pub created_at: Timestamp,
}

impl View for Interaction {
    type V = InteractionModel;

    open spec fn view(&self) -> InteractionModel {
        InteractionModel {
            id: self.id,
            session: self.session_id@,
            agent: self.agent_id@,
            prompt: opt_text(self.prompt_text),
            previous: self.previous_id,
            created_at: self.created_at,
        }
    }
}

/// A row of `interactions`.
#[derive(Debug, PartialEq)]
pub struct InteractionRow {
    pub id: String,
    pub session_id: String,
    pub agent_id: String,
    pub prompt_text: Option<String>,
    pub previous_id: Option<String>,
    pub created_at: String,
}

/// A row of `interactions`, as values.
pub struct InteractionRowModel {
    pub id: Seq<char>,
    pub session: Seq<char>,
    pub agent: Seq<char>,
    pub prompt: Option<Seq<char>>,
    pub previous: Option<Seq<char>>,
    pub created_at: Seq<char>,
}

impl View for InteractionRow {
    type V = InteractionRowModel;

    open spec fn view(&self) -> InteractionRowModel {
        InteractionRowModel {
            id: self.id@,
            session: self.session_id@,
            agent: self.agent_id@,
            prompt: opt_text(self.prompt_text),
            previous: opt_text(self.previous_id),
            created_at: self.created_at@,
        }
    }
}

/// What is written of an interaction.
pub open spec fn interaction_written(i: InteractionModel) -> InteractionRowModel {
    InteractionRowModel {
        id: hyphenated(i.id.0 as nat),
        session: i.session,
        agent: i.agent,
        prompt: i.prompt,
        previous: opt_id_text(i.previous),
        created_at: stored_text(i.created_at),
    }
}

/// What is read of a row of `interactions`.
pub open spec fn interaction_read(r: InteractionRowModel) -> Result<
    InteractionModel,
    StoreErrorModel,
> {
    match id_read(r.id, "interaction id"@) {
        Err(e) => Err(e),
        Ok(id) => match opt_id_read(r.previous, "node id"@) {
            Err(e) => Err(e),
            Ok(previous) => match ts_read(r.created_at) {
                Err(e) => Err(e),
                Ok(created_at) => Ok(
                    InteractionModel {
                        id,
                        session: r.session,
                        agent: r.agent,
                        prompt: r.prompt,
                        previous,
                        created_at,
                    },
                ),
            },
        },
    }
}

/// Writes an interaction. It reads back as itself, its instant cut to the millisecond.
pub fn interaction_row(i: &Interaction) -> (r: InteractionRow)
    ensures
        r@ == interaction_written(i@),
        in_four_digit_years(i.created_at.secs()) ==> interaction_read(r@) == Ok::<
            InteractionModel,
            StoreErrorModel,
        >(InteractionModel { created_at: i.created_at.cut(), ..i@ }),
{
    InteractionRow {
        id: i.id.to_string(),
        session_id: i.session_id.0.clone(),
        agent_id: i.agent_id.0.clone(),
        prompt_text: clone_opt(&i.prompt_text),
        previous_id: write_opt_id(&i.previous_id),
        created_at: write_ts(&i.created_at),
    }
}

/// Reads a row of `interactions`.
pub fn interaction_from_row(row: InteractionRow) -> (r: Result<Interaction, StoreError>)
    ensures
        match r {
            Ok(i) => interaction_read(row@) == Ok::<InteractionModel, StoreErrorModel>(i@),
            Err(e) => interaction_read(row@) == Err::<InteractionModel, StoreErrorModel>(e@),
        },
{
    let id = match node_id(row.id.as_str(), "interaction id") {
        Ok(id) => id,
        Err(e) => {
            return Err(e);
        },
    };
    let previous_id = match opt_node_id(&row.previous_id, "node id") {
        Ok(p) => p,
        Err(e) => {
            return Err(e);
        },
    };
    let created_at = match text_to_ts(row.created_at.as_str()) {
        Ok(t) => t,
        Err(e) => {
            return Err(e);
        },
    };
    Ok(
        Interaction {
            id,
            session_id: SessionId(row.session_id),
            agent_id: AgentId(row.agent_id),
            prompt_text: row.prompt_text,
            previous_id,
            created_at,
        },
    )
}

/// A concept, as values.
pub struct ConceptModel {
    pub id: NodeId,
    pub session: Seq<char>,
    pub content: Seq<char>,
    pub key: Seq<char>,
    pub concept_type: ConceptType,
    pub origin: NodeId,
    pub agent: Seq<char>,
    pub created_at: Timestamp,
    pub access_count: i32,
    pub last_accessed: Option<Timestamp>,
    pub gc_survived: i32,
    pub status: CanonizationStatus,
    pub blast_radius: Option<i32>,
    pub last_demotion: Option<Timestamp>,
    pub embedding: Option<Seq<u32>>,
    pub chunk_group: Option<Seq<char>>,
}

/// The view of an optional vector.
pub open spec fn opt_vector(v: Option<Vec<u32>>) -> Option<Seq<u32>> {
    match v {
        Some(x) => Some(x@),
        None => None,
    }
}

impl View for Concept {
    type V = ConceptModel;

    open spec fn view(&self) -> ConceptModel {
        ConceptModel {
            id: self.id,
            session: self.session_id@,
            content: self.content@,
            key: self.canonical_key@,
            concept_type: self.concept_type,
            origin: self.origin_interaction,
            agent: self.origin_agent@,
            created_at: self.created_at,
            access_count: self.access_count,
            last_accessed: self.last_accessed,
            gc_survived: self.gc_survived,
            status: self.canonization_status,
            blast_radius: self.blast_radius,
            last_demotion: self.last_demotion_time,
            embedding: opt_vector(self.embedding),
            chunk_group: opt_text(self.chunk_group_id),
        }
    }
}

/// A row of `concepts`. The vector is given by the bits of its components.
#[derive(Debug, PartialEq)]
pub struct ConceptRow {
    pub id: String,
    pub session_id: String,
    pub content: String,
    pub canonical_key: String,
    pub concept_type: String,
    pub origin_interaction: String,
    pub origin_agent: String,
    pub created_at: String,
    pub access_count: i32,
    pub last_accessed: Option<String>,
    pub gc_survived: i32,
    pub canonization_status: String,
    pub blast_radius: Option<i32>,
    pub last_demotion_time: Option<String>,
    pub embedding: Option<Vec<u32>>,
    pub chunk_group_id: Option<String>,
}

/// A row of `concepts`, as values.
pub struct ConceptRowModel {
    pub id: Seq<char>,
    pub session: Seq<char>,
    pub content: Seq<char>,
    pub key: Seq<char>,
    pub concept_type: Seq<char>,
    pub origin: Seq<char>,
    pub agent: Seq<char>,
    pub created_at: Seq<char>,
    pub access_count: i32,
    pub last_accessed: Option<Seq<char>>,
    pub gc_survived: i32,
    pub status: Seq<char>,
    pub blast_radius: Option<i32>,
    pub last_demotion: Option<Seq<char>>,
    pub embedding: Option<Seq<u32>>,
    pub chunk_group: Option<Seq<char>>,
}

impl View for ConceptRow {
    type V = ConceptRowModel;

    open spec fn view(&self) -> ConceptRowModel {
        ConceptRowModel {
            id: self.id@,
            session: self.session_id@,
            content: self.content@,
            key: self.canonical_key@,
            concept_type: self.concept_type@,
            origin: self.origin_interaction@,
            agent: self.origin_agent@,
            created_at: self.created_at@,
            access_count: self.access_count,
            last_accessed: opt_text(self.last_accessed),
            gc_survived: self.gc_survived,
            status: self.canonization_status@,
            blast_radius: self.blast_radius,
            last_demotion: opt_text(self.last_demotion_time),
            embedding: opt_vector(self.embedding),
            chunk_group: opt_text(self.chunk_group_id),
        }
    }
}

/// What is written of a concept.
pub open spec fn concept_written(c: ConceptModel) -> ConceptRowModel {
    ConceptRowModel {
        id: hyphenated(c.id.0 as nat),
        session: c.session,
        content: c.content,
        key: c.key,
        concept_type: concept_type_text(c.concept_type),
        origin: hyphenated(c.origin.0 as nat),
        agent: c.agent,
        created_at: stored_text(c.created_at),
        access_count: c.access_count,
        last_accessed: opt_stored(c.last_accessed),
        gc_survived: c.gc_survived,
        status: status_text(c.status),
        blast_radius: c.blast_radius,
        last_demotion: opt_stored(c.last_demotion),
        embedding: c.embedding,
        chunk_group: c.chunk_group,
    }
}

/// What is read of a row of `concepts`.
pub open spec fn concept_read(r: ConceptRowModel) -> Result<ConceptModel, StoreErrorModel> {
    match id_read(r.id, "concept id"@) {
        Err(e) => Err(e),
        Ok(id) => match concept_type_read(r.concept_type) {
            Err(e) => Err(e),
            Ok(concept_type) => match id_read(r.origin, "origin_interaction"@) {
                Err(e) => Err(e),
                Ok(origin) => match ts_read(r.created_at) {
                    Err(e) => Err(e),
                    Ok(created_at) => match opt_ts_read(r.last_accessed) {
                        Err(e) => Err(e),
                        Ok(last_accessed) => match status_read(r.status, "canonization_status"@) {
                            Err(e) => Err(e),
                            Ok(status) => match opt_ts_read(r.last_demotion) {
                                Err(e) => Err(e),
                                Ok(last_demotion) => Ok(
                                    ConceptModel {
                                        id,
                                        session: r.session,
                                        content: r.content,
                                        key: r.key,
                                        concept_type,
                                        origin,
                                        agent: r.agent,
                                        created_at,
                                        access_count: r.access_count,
                                        last_accessed,
                                        gc_survived: r.gc_survived,
                                        status,
                                        blast_radius: r.blast_radius,
                                        last_demotion,
                                        embedding: r.embedding,
                                        chunk_group: r.chunk_group,
                                    },
                                ),
                            },
                        },
                    },
                },
            },
        },
    }
}

/// The concept's instants have years of four digits.
pub open spec fn concept_storable(c: ConceptModel) -> bool {
    &&& in_four_digit_years(c.created_at.secs())
    &&& opt_four_digits(c.last_accessed)
    &&& opt_four_digits(c.last_demotion)
}

/// A concept as it reads back: its instants cut to the millisecond.
pub open spec fn concept_stored(c: ConceptModel) -> ConceptModel {
    ConceptModel {
        created_at: c.created_at.cut(),
        last_accessed: cut_opt(c.last_accessed),
        last_demotion: cut_opt(c.last_demotion),
        ..c
    }
}

/// A copy of an optional vector.
pub fn clone_vector(v: &Option<Vec<u32>>) -> (r: Option<Vec<u32>>)
    ensures
        opt_vector(r) == opt_vector(*v),
{
    match v {
        None => None,
        Some(x) => {
            let mut r: Vec<u32> = Vec::new();
            let mut i: usize = 0;
            while i < x.len()
                invariant
                    i <= x@.len(),
                    r@ == x@.take(i as int),
                decreases x@.len() - i,
            {
                r.push(x[i]);
                i += 1;
            }
            proof {
                assert(x@.take(x@.len() as int) =~= x@);
            }
            Some(r)
        },
    }
}

/// Writes a concept. It reads back as itself, its instants cut to the millisecond.
pub fn concept_row(c: &Concept) -> (r: ConceptRow)
    ensures
        r@ == concept_written(c@),
        concept_storable(c@) ==> concept_read(r@) == Ok::<ConceptModel, StoreErrorModel>(
            concept_stored(c@),
        ),
{
    ConceptRow {
        id: c.id.to_string(),
        session_id: c.session_id.0.clone(),
        content: c.content.clone(),
        canonical_key: c.canonical_key.clone(),
        concept_type: concept_type_to_text(c.concept_type),
        origin_interaction: c.origin_interaction.to_string(),
        origin_agent: c.origin_agent.0.clone(),
        created_at: write_ts(&c.created_at),
        access_count: c.access_count,
        last_accessed: write_opt_ts(&c.last_accessed),
        gc_survived: c.gc_survived,
        canonization_status: status_to_text(c.canonization_status),
        blast_radius: c.blast_radius,
        last_demotion_time: write_opt_ts(&c.last_demotion_time),
        embedding: clone_vector(&c.embedding),
        chunk_group_id: clone_opt(&c.chunk_group_id),
    }
}

/// Reads a row of `concepts`.
pub fn concept_from_row(row: ConceptRow) -> (r: Result<Concept, StoreError>)
    ensures
        match r {
            Ok(c) => concept_read(row@) == Ok::<ConceptModel, StoreErrorModel>(c@),
            Err(e) => concept_read(row@) == Err::<ConceptModel, StoreErrorModel>(e@),
        },
{
    let id = match node_id(row.id.as_str(), "concept id") {
        Ok(x) => x,
        Err(e) => {
            return Err(e);
        },
    };
    let concept_type = match text_to_concept_type(row.concept_type.as_str()) {
        Ok(x) => x,
        Err(e) => {
            return Err(e);
        },
    };
    let origin_interaction = match node_id(
        row.origin_interaction.as_str(),
        "origin_interaction",
    ) {
        Ok(x) => x,
        Err(e) => {
            return Err(e);
        },
    };
    let created_at = match text_to_ts(row.created_at.as_str()) {
        Ok(x) => x,
        Err(e) => {
            return Err(e);
        },
    };
    let last_accessed = match opt_text_to_ts(&row.last_accessed) {
        Ok(x) => x,
        Err(e) => {
            return Err(e);
        },
    };
    let canonization_status = match text_to_status(
        row.canonization_status.as_str(),
        "canonization_status",
    ) {
        Ok(x) => x,
        Err(e) => {
            return Err(e);
        },
    };
    let last_demotion_time = match opt_text_to_ts(&row.last_demotion_time) {
        Ok(x) => x,
        Err(e) => {
            return Err(e);
        },
    };
    Ok(
        Concept {
            id,
            session_id: SessionId(row.session_id),
            content: row.content,
            canonical_key: row.canonical_key,
            concept_type,
            origin_interaction,
            origin_agent: AgentId(row.origin_agent),
            created_at,
            access_count: row.access_count,
            last_accessed,
            gc_survived: row.gc_survived,
            canonization_status,
            blast_radius: row.blast_radius,
            last_demotion_time,
            embedding: row.embedding,
            chunk_group_id: row.chunk_group_id,
        },
    )
}

/// An edge, as values.
pub struct EdgeModel {
    pub id: NodeId,
    pub session: Seq<char>,
    pub source: NodeId,
    pub target: NodeId,
    pub edge_type: EdgeType,
    pub weight: u64,
    pub reinforcements: i32,
    pub created_at: Timestamp,
    pub last_reinforced: Timestamp,
}

impl View for Edge {
    type V = EdgeModel;

    open spec fn view(&self) -> EdgeModel {
        EdgeModel {
            id: self.id,
            session: self.session_id@,
            source: self.source,
            target: self.target,
            edge_type: self.edge_type,
            weight: self.weight,
            reinforcements: self.reinforcements,
            created_at: self.created_at,
            last_reinforced: self.last_reinforced,
        }
    }
}

/// A row of `edges`. The weight is given by its bits.
#[derive(Debug, PartialEq)]
pub struct EdgeRow {
    pub id: String,
    pub session_id: String,
    pub source: String,
    pub target: String,
    pub edge_type: String,
    pub weight: u64,
    pub reinforcements: i32,
    pub created_at: String,
    pub last_reinforced: String,
}

/// A row of `edges`, as values.
pub struct EdgeRowModel {
    pub id: Seq<char>,
    pub session: Seq<char>,
    pub source: Seq<char>,
    pub target: Seq<char>,
    pub edge_type: Seq<char>,
    pub weight: u64,
    pub reinforcements: i32,
    pub created_at: Seq<char>,
    pub last_reinforced: Seq<char>,
}

impl View for EdgeRow {
    type V = EdgeRowModel;

    open spec fn view(&self) -> EdgeRowModel {
        EdgeRowModel {
            id: self.id@,
            session: self.session_id@,
            source: self.source@,
            target: self.target@,
            edge_type: self.edge_type@,
            weight: self.weight,
            reinforcements: self.reinforcements,
            created_at: self.created_at@,
            last_reinforced: self.last_reinforced@,
        }
    }
}

/// What is written of an edge.
pub open spec fn edge_written(e: EdgeModel) -> EdgeRowModel {
    EdgeRowModel {
        id: hyphenated(e.id.0 as nat),
        session: e.session,
        source: hyphenated(e.source.0 as nat),
        target: hyphenated(e.target.0 as nat),
        edge_type: edge_type_text(e.edge_type),
        weight: e.weight,
        reinforcements: e.reinforcements,
        created_at: stored_text(e.created_at),
        last_reinforced: stored_text(e.last_reinforced),
    }
}

/// What is read of a row of `edges`.
pub open spec fn edge_read(r: EdgeRowModel) -> Result<EdgeModel, StoreErrorModel> {
    match id_read(r.id, "edge id"@) {
        Err(e) => Err(e),
        Ok(id) => match id_read(r.source, "edge source"@) {
            Err(e) => Err(e),
            Ok(source) => match id_read(r.target, "edge target"@) {
                Err(e) => Err(e),
                Ok(target) => match edge_type_read(r.edge_type) {
                    Err(e) => Err(e),
                    Ok(edge_type) => match ts_read(r.created_at) {
                        Err(e) => Err(e),
                        Ok(created_at) => match ts_read(r.last_reinforced) {
                            Err(e) => Err(e),
                            Ok(last_reinforced) => Ok(
                                EdgeModel {
                                    id,
                                    session: r.session,
                                    source,
                                    target,
                                    edge_type,
                                    weight: r.weight,
                                    reinforcements: r.reinforcements,
                                    created_at,
                                    last_reinforced,
                                },
                            ),
                        },
                    },
                },
            },
        },
    }
}

/// Writes an edge. It reads back as itself, its instants cut to the millisecond.
pub fn edge_row(e: &Edge) -> (r: EdgeRow)
    ensures
        r@ == edge_written(e@),
        in_four_digit_years(e.created_at.secs()) && in_four_digit_years(e.last_reinforced.secs())
            ==> edge_read(r@) == Ok::<EdgeModel, StoreErrorModel>(
            EdgeModel {
                created_at: e.created_at.cut(),
                last_reinforced: e.last_reinforced.cut(),
                ..e@
            },
        ),
{
    EdgeRow {
        id: e.id.to_string(),
        session_id: e.session_id.0.clone(),
        source: e.source.to_string(),
        target: e.target.to_string(),
        edge_type: edge_type_to_text(e.edge_type),
        weight: e.weight,
        reinforcements: e.reinforcements,
        created_at: write_ts(&e.created_at),
        last_reinforced: write_ts(&e.last_reinforced),
    }
}

/// Reads a row of `edges`.
pub fn edge_from_row(row: EdgeRow) -> (r: Result<Edge, StoreError>)
    ensures
        match r {
            Ok(x) => edge_read(row@) == Ok::<EdgeModel, StoreErrorModel>(x@),
            Err(e) => edge_read(row@) == Err::<EdgeModel, StoreErrorModel>(e@),
        },
{
    let id = match node_id(row.id.as_str(), "edge id") {
        Ok(x) => x,
        Err(e) => {
            return Err(e);
        },
    };
    let source = match node_id(row.source.as_str(), "edge source") {
        Ok(x) => x,
        Err(e) => {
            return Err(e);
        },
    };
    let target = match node_id(row.target.as_str(), "edge target") {
        Ok(x) => x,
        Err(e) => {
            return Err(e);
        },
    };
    let edge_type = match text_to_edge_type(row.edge_type.as_str()) {
        Ok(x) => x,
        Err(e) => {
            return Err(e);
        },
    };
    let created_at = match text_to_ts(row.created_at.as_str()) {
        Ok(x) => x,
        Err(e) => {
            return Err(e);
        },
    };
    let last_reinforced = match text_to_ts(row.last_reinforced.as_str()) {
        Ok(x) => x,
        Err(e) => {
            return Err(e);
        },
    };
    Ok(
        Edge {
            id,
            session_id: SessionId(row.session_id),
            source,
            target,
            edge_type,
            weight: row.weight,
            reinforcements: row.reinforcements,
            created_at,
            last_reinforced,
        },
    )
}

/// A reservation, as values.
pub struct ReservationModel {
    pub session: Seq<char>,
    pub node: NodeId,
    pub agent: Seq<char>,
    pub expires_at: Timestamp,
}

impl View for Reservation {
    type V = ReservationModel;

    open spec fn view(&self) -> ReservationModel {
        ReservationModel {
            session: self.session_id@,
            node: self.node_id,
            agent: self.agent_id@,
            expires_at: self.expires_at,
        }
    }
}

/// A row of `reservations`.
#[derive(Debug, PartialEq)]
pub struct ReservationRow {
    pub session_id: String,
    pub node_id: String,
    pub agent_id: String,
    pub expires_at: String,
}

/// A row of `reservations`, as values.
pub struct ReservationRowModel {
    pub session: Seq<char>,
    pub node: Seq<char>,
    pub agent: Seq<char>,
    pub expires_at: Seq<char>,
}

impl View for ReservationRow {
    type V = ReservationRowModel;

    open spec fn view(&self) -> ReservationRowModel {
        ReservationRowModel {
            session: self.session_id@,
            node: self.node_id@,
            agent: self.agent_id@,
            expires_at: self.expires_at@,
        }
    }
}

/// What is written of a reservation.
pub open spec fn reservation_written(x: ReservationModel) -> ReservationRowModel {
    ReservationRowModel {
        session: x.session,
        node: hyphenated(x.node.0 as nat),
        agent: x.agent,
        expires_at: stored_text(x.expires_at),
    }
}

/// What is read of a row of `reservations`.
pub open spec fn reservation_read(r: ReservationRowModel) -> Result<
    ReservationModel,
    StoreErrorModel,
> {
    match id_read(r.node, "reservation node"@) {
        Err(e) => Err(e),
        Ok(node) => match ts_read(r.expires_at) {
            Err(e) => Err(e),
            Ok(expires_at) => Ok(
                ReservationModel { session: r.session, node, agent: r.agent, expires_at },
            ),
        },
    }
}

/// Writes a reservation. It reads back as itself, its instant cut to the millisecond.
pub fn reservation_row(x: &Reservation) -> (r: ReservationRow)
    ensures
        r@ == reservation_written(x@),
        in_four_digit_years(x.expires_at.secs()) ==> reservation_read(r@) == Ok::<
            ReservationModel,
            StoreErrorModel,
        >(ReservationModel { expires_at: x.expires_at.cut(), ..x@ }),
{
    ReservationRow {
        session_id: x.session_id.0.clone(),
        node_id: x.node_id.to_string(),
        agent_id: x.agent_id.0.clone(),
        expires_at: write_ts(&x.expires_at),
    }
}

/// Reads a row of `reservations`.
pub fn reservation_from_row(row: ReservationRow) -> (r: Result<Reservation, StoreError>)
    ensures
        match r {
            Ok(x) => reservation_read(row@) == Ok::<ReservationModel, StoreErrorModel>(x@),
            Err(e) => reservation_read(row@) == Err::<ReservationModel, StoreErrorModel>(e@),
        },
{
    let node = match node_id(row.node_id.as_str(), "reservation node") {
        Ok(x) => x,
        Err(e) => {
            return Err(e);
        },
    };
    let expires_at = match text_to_ts(row.expires_at.as_str()) {
        Ok(x) => x,
        Err(e) => {
            return Err(e);
        },
    };
    Ok(
        Reservation {
            session_id: SessionId(row.session_id),
            node_id: node,
            agent_id: AgentId(row.agent_id),
            expires_at,
        },
    )
}

/// A canonization event, as values.
pub struct EventModel {
    pub id: NodeId,
    pub session: Seq<char>,
    pub node: NodeId,
    pub from_status: CanonizationStatus,
    pub to_status: CanonizationStatus,
    pub blast_radius: Option<i32>,
    pub last_demotion: Option<Timestamp>,
    pub occurred_at: Timestamp,
}

impl View for CanonizationEvent {
    type V = EventModel;

    open spec fn view(&self) -> EventModel {
        EventModel {
            id: self.id,
            session: self.session_id@,
            node: self.node_id,
            from_status: self.from_status,
            to_status: self.to_status,
            blast_radius: self.blast_radius,
            last_demotion: self.last_demotion_time,
            occurred_at: self.occurred_at,
        }
    }
}

/// A row of `canonization_events`.
#[derive(Debug, PartialEq)]
pub struct EventRow {
    pub id: String,
    pub session_id: String,
    pub node_id: String,
    pub from_status: String,
    pub to_status: String,
    pub blast_radius: Option<i32>,
    pub last_demotion_time: Option<String>,
    pub occurred_at: String,
}

/// A row of `canonization_events`, as values.
pub struct EventRowModel {
    pub id: Seq<char>,
    pub session: Seq<char>,
    pub node: Seq<char>,
    pub from_status: Seq<char>,
    pub to_status: Seq<char>,
    pub blast_radius: Option<i32>,
    pub last_demotion: Option<Seq<char>>,
    pub occurred_at: Seq<char>,
}

impl View for EventRow {
    type V = EventRowModel;

    open spec fn view(&self) -> EventRowModel {
        EventRowModel {
            id: self.id@,
            session: self.session_id@,
            node: self.node_id@,
            from_status: self.from_status@,
            to_status: self.to_status@,
            blast_radius: self.blast_radius,
            last_demotion: opt_text(self.last_demotion_time),
            occurred_at: self.occurred_at@,
        }
    }
}

/// What is written of a canonization event.
pub open spec fn event_written(e: EventModel) -> EventRowModel {
    EventRowModel {
        id: hyphenated(e.id.0 as nat),
        session: e.session,
        node: hyphenated(e.node.0 as nat),
        from_status: status_text(e.from_status),
        to_status: status_text(e.to_status),
        blast_radius: e.blast_radius,
        last_demotion: opt_stored(e.last_demotion),
        occurred_at: stored_text(e.occurred_at),
    }
}

/// What is read of a row of `canonization_events`.
pub open spec fn event_read(r: EventRowModel) -> Result<EventModel, StoreErrorModel> {
    match id_read(r.id, "canonization event id"@) {
        Err(e) => Err(e),
        Ok(id) => match id_read(r.node, "canonization node"@) {
            Err(e) => Err(e),
            Ok(node) => match status_read(r.from_status, "from_status"@) {
                Err(e) => Err(e),
                Ok(from_status) => match status_read(r.to_status, "to_status"@) {
                    Err(e) => Err(e),
                    Ok(to_status) => match opt_ts_read(r.last_demotion) {
                        Err(e) => Err(e),
                        Ok(last_demotion) => match ts_read(r.occurred_at) {
                            Err(e) => Err(e),
                            Ok(occurred_at) => Ok(
                                EventModel {
                                    id,
                                    session: r.session,
                                    node,
                                    from_status,
                                    to_status,
                                    blast_radius: r.blast_radius,
                                    last_demotion,
                                    occurred_at,
                                },
                            ),
                        },
                    },
                },
            },
        },
    }
}

/// Writes a canonization event. It reads back as itself, its instants cut to the millisecond.
pub fn event_row(e: &CanonizationEvent) -> (r: EventRow)
    ensures
        r@ == event_written(e@),
        in_four_digit_years(e.occurred_at.secs()) && opt_four_digits(e.last_demotion_time)
            ==> event_read(r@) == Ok::<EventModel, StoreErrorModel>(
            EventModel {
                last_demotion: cut_opt(e.last_demotion_time),
                occurred_at: e.occurred_at.cut(),
                ..e@
            },
        ),
{
    EventRow {
        id: e.id.to_string(),
        session_id: e.session_id.0.clone(),
        node_id: e.node_id.to_string(),
        from_status: status_to_text(e.from_status),
        to_status: status_to_text(e.to_status),
        blast_radius: e.blast_radius,
        last_demotion_time: write_opt_ts(&e.last_demotion_time),
        occurred_at: write_ts(&e.occurred_at),
    }
}

/// Reads a row of `canonization_events`.
pub fn event_from_row(row: EventRow) -> (r: Result<CanonizationEvent, StoreError>)
    ensures
        match r {
            Ok(x) => event_read(row@) == Ok::<EventModel, StoreErrorModel>(x@),
            Err(e) => event_read(row@) == Err::<EventModel, StoreErrorModel>(e@),
        },
{
    let id = match node_id(row.id.as_str(), "canonization event id") {
        Ok(x) => x,
        Err(e) => {
            return Err(e);
        },
    };
    let node = match node_id(row.node_id.as_str(), "canonization node") {
        Ok(x) => x,
        Err(e) => {
            return Err(e);
        },
    };
    let from_status = match text_to_status(row.from_status.as_str(), "from_status") {
        Ok(x) => x,
        Err(e) => {
            return Err(e);
        },
    };
    let to_status = match text_to_status(row.to_status.as_str(), "to_status") {
        Ok(x) => x,
        Err(e) => {
            return Err(e);
        },
    };
    let last_demotion_time = match opt_text_to_ts(&row.last_demotion_time) {
        Ok(x) => x,
        Err(e) => {
            return Err(e);
        },
    };
    let occurred_at = match text_to_ts(row.occurred_at.as_str()) {
        Ok(x) => x,
        Err(e) => {
            return Err(e);
        },
    };
    Ok(
        CanonizationEvent {
            id,
            session_id: SessionId(row.session_id),
            node_id: node,
            from_status,
            to_status,
            blast_radius: row.blast_radius,
            last_demotion_time,
            occurred_at,
        },
    )
}

/// A row of `write_intents`. The payload is given as it was parsed.
#[derive(Debug, PartialEq)]
pub struct IntentRow {
    pub session_id: String,
    pub receipt: String,
    pub agent: String,
    pub interaction_id: String,
    pub lane_seq: i64,
    pub issued_ms: i64,
    pub payload: WriteIntentPayload,
    pub created_at: String,
    pub consumed_at: Option<String>,
    pub outcome_tag: Option<String>,
    pub outcome_summary: Option<String>,
}

/// A row of `write_intents`, as values.
pub struct IntentRowModel {
    pub session: Seq<char>,
    pub receipt: Seq<char>,
    pub agent: Seq<char>,
    pub interaction: Seq<char>,
    pub lane_seq: i64,
    pub issued_ms: i64,
    pub payload: PayloadModel,
    pub created_at: Seq<char>,
    pub consumed_at: Option<Seq<char>>,
    pub tag: Option<Seq<char>>,
    pub summary: Option<Seq<char>>,
}

impl View for IntentRow {
    type V = IntentRowModel;

    open spec fn view(&self) -> IntentRowModel {
        IntentRowModel {
            session: self.session_id@,
            receipt: self.receipt@,
            agent: self.agent@,
            interaction: self.interaction_id@,
            lane_seq: self.lane_seq,
            issued_ms: self.issued_ms,
            payload: self.payload@,
            created_at: self.created_at@,
            consumed_at: opt_text(self.consumed_at),
            tag: opt_text(self.outcome_tag),
            summary: opt_text(self.outcome_summary),
        }
    }
}

/// A lane number as a column holds it: the largest that fits stands for any that does not.
pub open spec fn stored_lane_seq(n: u64) -> i64 {
    if n <= i64::MAX {
        n as i64
    } else {
        i64::MAX
    }
}

/// A lane number out of a column: a negative one stands for the largest.
pub open spec fn read_lane_seq(n: i64) -> u64 {
    if n < 0 {
        u64::MAX
    } else {
        n as u64
    }
}

/// What is written of an intent.
pub open spec fn intent_written(i: IntentModel) -> IntentRowModel {
    IntentRowModel {
        session: i.session,
        receipt: i.receipt,
        agent: i.agent,
        interaction: hyphenated(i.interaction.0 as nat),
        lane_seq: stored_lane_seq(i.lane_seq),
        issued_ms: i.issued_ms,
        payload: i.payload,
        created_at: stored_text(i.created_at),
        consumed_at: match i.outcome {
            Some(o) => Some(stored_text(o.consumed_at)),
            None => None,
        },
        tag: match i.outcome {
            Some(o) => Some(o.tag),
            None => None,
        },
        summary: match i.outcome {
            Some(o) => Some(o.summary),
            None => None,
        },
    }
}

/// The outcome that the three columns of a row hold: all of them, or none.
pub open spec fn outcome_read(r: IntentRowModel) -> Result<Option<OutcomeModel>, StoreErrorModel> {
    match (r.consumed_at, r.tag, r.summary) {
        (Some(at), Some(tag), Some(summary)) => match ts_read(at) {
            Err(e) => Err(e),
            Ok(consumed_at) => Ok(Some(OutcomeModel { tag, summary, consumed_at })),
        },
        (None, None, None) => Ok(None),
        _ => Err(
            StoreErrorModel::Invariant(
                "write intent "@ + r.receipt
                    + ": consumed_at/outcome columns are partially set"@,
            ),
        ),
    }
}

/// What is read of a row of `write_intents`.
pub open spec fn intent_read(r: IntentRowModel) -> Result<IntentModel, StoreErrorModel> {
    match outcome_read(r) {
        Err(e) => Err(e),
        Ok(outcome) => match id_read(r.interaction, "write intent interaction"@) {
            Err(e) => Err(e),
            Ok(interaction) => match ts_read(r.created_at) {
                Err(e) => Err(e),
                Ok(created_at) => Ok(
                    IntentModel {
                        session: r.session,
                        receipt: r.receipt,
                        agent: r.agent,
                        interaction,
                        lane_seq: read_lane_seq(r.lane_seq),
                        issued_ms: r.issued_ms,
                        payload: r.payload,
                        created_at,
                        outcome,
                    },
                ),
            },
        },
    }
}

/// The intent's instants have years of four digits, and its lane number fits a column.
pub open spec fn intent_storable(i: IntentModel) -> bool {
    &&& in_four_digit_years(i.created_at.secs())
    &&& i.outcome matches Some(o) ==> in_four_digit_years(o.consumed_at.secs())
    &&& i.lane_seq <= i64::MAX
}

/// An intent as it reads back: its instants cut to the millisecond.
pub open spec fn intent_stored(i: IntentModel) -> IntentModel {
    IntentModel {
        created_at: i.created_at.cut(),
        outcome: match i.outcome {
            Some(o) => Some(OutcomeModel { consumed_at: o.consumed_at.cut(), ..o }),
            None => None,
        },
        ..i
    }
}

/// A copy of an intent's payload.
pub fn clone_payload(p: &WriteIntentPayload) -> (r: WriteIntentPayload)
    ensures
        r@ == p@,
{
    match p {
        WriteIntentPayload::Derive { concepts, pairs } => WriteIntentPayload::Derive {
            concepts: crate::job::clone_concepts(concepts),
            pairs: crate::job::clone_pairs(pairs),
        },
        WriteIntentPayload::Action { action, produces, modifies, depends_on } =>
            WriteIntentPayload::Action {
            action: action.clone(),
            produces: crate::text::clone_strings(produces),
            modifies: crate::text::clone_strings(modifies),
            depends_on: crate::text::clone_strings(depends_on),
        },
    }
}

/// Writes an intent. It reads back as itself, its instants cut to the millisecond.
pub fn intent_row(i: &WriteIntent) -> (r: IntentRow)
    ensures
        r@ == intent_written(i@),
        intent_storable(i@) ==> intent_read(r@) == Ok::<IntentModel, StoreErrorModel>(
            intent_stored(i@),
        ),
{
    let (consumed_at, outcome_tag, outcome_summary) = match &i.outcome {
        Some(o) => (
            Some(write_ts(&o.consumed_at)),
            Some(o.tag.clone()),
            Some(o.summary.clone()),
        ),
        None => (None, None, None),
    };
    let lane_seq: i64 = if i.lane_seq <= i64::MAX as u64 {
        i.lane_seq as i64
    } else {
        i64::MAX
    };
    IntentRow {
        session_id: i.session_id.0.clone(),
        receipt: i.receipt.clone(),
        agent: i.agent.0.clone(),
        interaction_id: i.interaction.to_string(),
        lane_seq,
        issued_ms: i.issued_ms,
        payload: clone_payload(&i.payload),
        created_at: write_ts(&i.created_at),
        consumed_at,
        outcome_tag,
        outcome_summary,
    }
}

/// Reads a row of `write_intents`.
pub fn intent_from_row(row: IntentRow) -> (r: Result<WriteIntent, StoreError>)
    ensures
        match r {
            Ok(x) => intent_read(row@) == Ok::<IntentModel, StoreErrorModel>(x@),
            Err(e) => intent_read(row@) == Err::<IntentModel, StoreErrorModel>(e@),
        },
{
    let outcome = match (row.consumed_at, row.outcome_tag, row.outcome_summary) {
        (Some(at), Some(tag), Some(summary)) => match text_to_ts(at.as_str()) {
            Ok(consumed_at) => Some(WriteIntentOutcome { tag, summary, consumed_at }),
            Err(e) => {
                return Err(e);
            },
        },
        (None, None, None) => None,
        _ => {
            return Err(
                StoreError::Invariant(
                    joined(
                        "write intent ",
                        row.receipt.as_str(),
                        ": consumed_at/outcome columns are partially set",
                    ),
                ),
            );
        },
    };
    let interaction = match node_id(row.interaction_id.as_str(), "write intent interaction") {
        Ok(x) => x,
        Err(e) => {
            return Err(e);
        },
    };
    let created_at = match text_to_ts(row.created_at.as_str()) {
        Ok(x) => x,
        Err(e) => {
            return Err(e);
        },
    };
    let lane_seq: u64 = if row.lane_seq < 0 {
        u64::MAX
    } else {
        row.lane_seq as u64
    };
    Ok(
        WriteIntent {
            session_id: SessionId(row.session_id),
            receipt: row.receipt,
            agent: AgentId(row.agent),
            interaction,
            lane_seq,
            issued_ms: row.issued_ms,
            payload: row.payload,
            created_at,
            outcome,
        },
    )
}

} // verus!
