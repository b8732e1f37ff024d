//! The keys and the orders of the store's tables.

use crate::store::lease::{LeaseRow, LeaseRowModel};
use crate::store::rows::{
    clone_payload, clone_vector, ConceptRow, ConceptRowModel, EdgeRow, EdgeRowModel, EventRow,
    EventRowModel, IntentRow, IntentRowModel, InteractionRow, InteractionRowModel, ReservationRow,
    ReservationRowModel,
};
use crate::store::session::{SessionRow, SessionRowModel, SynonymModel};
use crate::store::table::{Row, RowKey};
use crate::text::texts;
use crate::types::{clone_opt, Synonym};
use vstd::prelude::*;
use vstd::string::*;

verus! {

/// A key of one text.
pub fn key1(a: &str) -> (k: Vec<String>)
    ensures
        texts(k@) == seq![a@],
{
    let mut k: Vec<String> = Vec::new();
    k.push(a.to_owned());
    proof {
        assert(texts(k@) =~= seq![a@]);
    }
    k
}

/// A key of two texts.
pub fn key2(a: &str, b: &str) -> (k: Vec<String>)
    ensures
        texts(k@) == seq![a@, b@],
{
    let mut k: Vec<String> = Vec::new();
    k.push(a.to_owned());
    k.push(b.to_owned());
    proof {
        assert(texts(k@) =~= seq![a@, b@]);
    }
    k
}

/// A key of three texts.
pub fn key3(a: &str, b: &str, c: &str) -> (k: Vec<String>)
    ensures
        texts(k@) == seq![a@, b@, c@],
{
    let mut k: Vec<String> = Vec::new();
    k.push(a.to_owned());
    k.push(b.to_owned());
    k.push(c.to_owned());
    proof {
        assert(texts(k@) =~= seq![a@, b@, c@]);
    }
    k
}

impl Row for InteractionRow {
    open spec fn key_of(row: InteractionRowModel) -> RowKey {
        seq![row.id]
    }

    fn key(&self) -> (k: Vec<String>) {
        key1(self.id.as_str())
    }

    open spec fn rank_of(row: InteractionRowModel) -> RowKey {
        seq![row.created_at, row.id]
    }

    fn rank(&self) -> (k: Vec<String>) {
        key2(self.created_at.as_str(), self.id.as_str())
    }

    fn copy(&self) -> (r: InteractionRow) {
        InteractionRow {
            id: self.id.clone(),
            session_id: self.session_id.clone(),
            agent_id: self.agent_id.clone(),
            prompt_text: clone_opt(&self.prompt_text),
            previous_id: clone_opt(&self.previous_id),
            created_at: self.created_at.clone(),
        }
    }
}

impl Row for ConceptRow {
    open spec fn key_of(row: ConceptRowModel) -> RowKey {
        seq![row.id]
    }

    fn key(&self) -> (k: Vec<String>) {
        key1(self.id.as_str())
    }

    open spec fn rank_of(row: ConceptRowModel) -> RowKey {
        seq![row.id]
    }

    fn rank(&self) -> (k: Vec<String>) {
        key1(self.id.as_str())
    }

    fn copy(&self) -> (r: ConceptRow) {
        ConceptRow {
            id: self.id.clone(),
            session_id: self.session_id.clone(),
            content: self.content.clone(),
            canonical_key: self.canonical_key.clone(),
            concept_type: self.concept_type.clone(),
            origin_interaction: self.origin_interaction.clone(),
            origin_agent: self.origin_agent.clone(),
            created_at: self.created_at.clone(),
            access_count: self.access_count,
            last_accessed: clone_opt(&self.last_accessed),
            gc_survived: self.gc_survived,
            canonization_status: self.canonization_status.clone(),
            blast_radius: self.blast_radius,
            last_demotion_time: clone_opt(&self.last_demotion_time),
            embedding: clone_vector(&self.embedding),
            chunk_group_id: clone_opt(&self.chunk_group_id),
        }
    }
}

impl Row for EdgeRow {
    open spec fn key_of(row: EdgeRowModel) -> RowKey {
        seq![row.source, row.target, row.edge_type]
    }

    fn key(&self) -> (k: Vec<String>) {
        key3(self.source.as_str(), self.target.as_str(), self.edge_type.as_str())
    }

    open spec fn rank_of(row: EdgeRowModel) -> RowKey {
        seq![row.id]
    }

    fn rank(&self) -> (k: Vec<String>) {
        key1(self.id.as_str())
    }

    fn copy(&self) -> (r: EdgeRow) {
        EdgeRow {
            id: self.id.clone(),
            session_id: self.session_id.clone(),
            source: self.source.clone(),
            target: self.target.clone(),
            edge_type: self.edge_type.clone(),
            weight: self.weight,
            reinforcements: self.reinforcements,
            created_at: self.created_at.clone(),
            last_reinforced: self.last_reinforced.clone(),
        }
    }
}

impl Row for Synonym {
    open spec fn key_of(row: SynonymModel) -> RowKey {
        seq![row.session, row.source]
    }

    fn key(&self) -> (k: Vec<String>) {
        key2(self.session_id.0.as_str(), self.source_key.as_str())
    }

    open spec fn rank_of(row: SynonymModel) -> RowKey {
        seq![row.source]
    }

    fn rank(&self) -> (k: Vec<String>) {
        key1(self.source_key.as_str())
    }

    fn copy(&self) -> (r: Synonym) {
        Synonym {
            session_id: self.session_id.clone(),
            source_key: self.source_key.clone(),
            canonical_key: self.canonical_key.clone(),
        }
    }
}

impl Row for ReservationRow {
    open spec fn key_of(row: ReservationRowModel) -> RowKey {
        seq![row.session, row.node]
    }

    fn key(&self) -> (k: Vec<String>) {
        key2(self.session_id.as_str(), self.node_id.as_str())
    }

    open spec fn rank_of(row: ReservationRowModel) -> RowKey {
        Seq::empty()
    }

    fn rank(&self) -> (k: Vec<String>) {
        let k: Vec<String> = Vec::new();
        proof {
            assert(texts(k@) =~= Seq::empty());
        }
        k
    }

    fn copy(&self) -> (r: ReservationRow) {
        ReservationRow {
            session_id: self.session_id.clone(),
            node_id: self.node_id.clone(),
            agent_id: self.agent_id.clone(),
            expires_at: self.expires_at.clone(),
        }
    }
}

impl Row for EventRow {
    open spec fn key_of(row: EventRowModel) -> RowKey {
        seq![row.id]
    }

    fn key(&self) -> (k: Vec<String>) {
        key1(self.id.as_str())
    }

    open spec fn rank_of(row: EventRowModel) -> RowKey {
        seq![row.occurred_at, row.id]
    }

    fn rank(&self) -> (k: Vec<String>) {
        key2(self.occurred_at.as_str(), self.id.as_str())
    }

    fn copy(&self) -> (r: EventRow) {
        EventRow {
            id: self.id.clone(),
            session_id: self.session_id.clone(),
            node_id: self.node_id.clone(),
            from_status: self.from_status.clone(),
            to_status: self.to_status.clone(),
            blast_radius: self.blast_radius,
            last_demotion_time: clone_opt(&self.last_demotion_time),
            occurred_at: self.occurred_at.clone(),
        }
    }
}

impl Row for IntentRow {
    open spec fn key_of(row: IntentRowModel) -> RowKey {
        seq![row.session, row.receipt]
    }

    fn key(&self) -> (k: Vec<String>) {
        key2(self.session_id.as_str(), self.receipt.as_str())
    }

    open spec fn rank_of(row: IntentRowModel) -> RowKey {
        Seq::empty()
    }

    fn rank(&self) -> (k: Vec<String>) {
        let k: Vec<String> = Vec::new();
        proof {
            assert(texts(k@) =~= Seq::empty());
        }
        k
    }

    fn copy(&self) -> (r: IntentRow) {
        IntentRow {
            session_id: self.session_id.clone(),
            receipt: self.receipt.clone(),
            agent: self.agent.clone(),
            interaction_id: self.interaction_id.clone(),
            lane_seq: self.lane_seq,
            issued_ms: self.issued_ms,
            payload: clone_payload(&self.payload),
            created_at: self.created_at.clone(),
            consumed_at: clone_opt(&self.consumed_at),
            outcome_tag: clone_opt(&self.outcome_tag),
            outcome_summary: clone_opt(&self.outcome_summary),
        }
    }
}

impl Row for SessionRow {
    open spec fn key_of(row: SessionRowModel) -> RowKey {
        seq![row.session]
    }

    fn key(&self) -> (k: Vec<String>) {
        key1(self.session_id.as_str())
    }

    open spec fn rank_of(row: SessionRowModel) -> RowKey {
        Seq::empty()
    }

    fn rank(&self) -> (k: Vec<String>) {
        let k: Vec<String> = Vec::new();
        proof {
            assert(texts(k@) =~= Seq::empty());
        }
        k
    }

    fn copy(&self) -> (r: SessionRow) {
        SessionRow {
            session_id: self.session_id.clone(),
            root_goal: clone_opt(&self.root_goal),
            created_at: clone_opt(&self.created_at),
            closed_at: clone_opt(&self.closed_at),
            embedding_kind: clone_opt(&self.embedding_kind),
            embedding_model: clone_opt(&self.embedding_model),
            embedding_dim: self.embedding_dim,
        }
    }
}

impl Row for LeaseRow {
    open spec fn key_of(row: LeaseRowModel) -> RowKey {
        seq![row.session]
    }

    fn key(&self) -> (k: Vec<String>) {
        key1(self.session_id.as_str())
    }

    open spec fn rank_of(row: LeaseRowModel) -> RowKey {
        Seq::empty()
    }

    fn rank(&self) -> (k: Vec<String>) {
        let k: Vec<String> = Vec::new();
        proof {
            assert(texts(k@) =~= Seq::empty());
        }
        k
    }

    fn copy(&self) -> (r: LeaseRow) {
        LeaseRow {
            session_id: self.session_id.clone(),
            holder: self.holder.clone(),
            acquired_at: self.acquired_at.clone(),
            expires_at: self.expires_at.clone(),
            current_token: self.current_token,
            endpoint: clone_opt(&self.endpoint),
        }
    }
}

} // verus!
