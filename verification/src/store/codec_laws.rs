//! What stands in the columns, and what comes out of them.

use crate::job::IntentModel;
use crate::store::codec::{
    an_instant_reads_back, concept_type_read, concept_type_text, edge_type_read, edge_type_text,
    status_read, status_text, ts_read,
};
use crate::store::laws::{
    a_concept_reads_back, a_reservation_reads_back, a_transition_reads_back, an_edge_reads_back,
    an_intent_reads_back, an_interaction_reads_back, can_be_stored,
};
use crate::store::rows::{
    concept_read, concept_written, edge_read, edge_written, event_read, event_written, intent_read,
    intent_written, interaction_read, interaction_written, read_lane_seq, reservation_read,
    reservation_written, stored_lane_seq, ConceptModel, EdgeModel, EventModel, IntentRowModel,
    InteractionModel, ReservationModel,
};
use crate::store::session::contract_from_parts;
use crate::store::structure_laws::speaks;
use crate::store::vector::embedding_fault;
use crate::time::{stored_text, Timestamp};
use crate::types::{CanonizationStatus, ConceptType, EdgeType, StoreErrorModel};
use vstd::prelude::*;

verus! {

/// Concept types, edge types and statuses are stored under their names.
pub proof fn kinds_are_stored_under_their_names()
    ensures
        concept_type_text(ConceptType::Entity) == "Entity"@,
        concept_type_text(ConceptType::Logic) == "Logic"@,
        concept_type_text(ConceptType::Constraint) == "Constraint"@,
        concept_type_text(ConceptType::Resource) == "Resource"@,
        concept_type_text(ConceptType::Observation) == "Observation"@,
        edge_type_text(EdgeType::Temporal) == "Temporal"@,
        edge_type_text(EdgeType::Derives) == "Derives"@,
        edge_type_text(EdgeType::CoOccurrence) == "CoOccurrence"@,
        edge_type_text(EdgeType::Causal) == "Causal"@,
        edge_type_text(EdgeType::Dependency) == "Dependency"@,
        edge_type_text(EdgeType::Hierarchical) == "Hierarchical"@,
        edge_type_text(EdgeType::Semantic) == "Semantic"@,
        status_text(CanonizationStatus::Uncanonized) == "None"@,
        status_text(CanonizationStatus::Candidate) == "Candidate"@,
        status_text(CanonizationStatus::Venerable) == "Venerable"@,
        status_text(CanonizationStatus::Canonical) == "Canonical"@,
{
}

/// A stored word that is no name of a kind is refused.
pub proof fn a_word_that_names_no_kind_is_refused(word: Seq<char>, what: Seq<char>)
    ensures
        concept_type_read(word) is Ok ==> concept_type_text(concept_type_read(word)->Ok_0) == word,
        edge_type_read(word) is Ok ==> edge_type_text(edge_type_read(word)->Ok_0) == word,
        status_read(word, what) is Ok ==> status_text(status_read(word, what)->Ok_0) == word,
{
}

/// An edge speaks for its target exactly where it is a dependency, a cause or a part, and was made
/// by then.
pub proof fn only_structure_speaks(e: EdgeModel, cut: Seq<char>)
    ensures
        speaks(edge_written(e), cut) <==> (e.edge_type is Dependency || e.edge_type is Causal
            || e.edge_type is Hierarchical) && crate::store::order::text_no_later(
            stored_text(e.created_at),
            cut,
        ),
{
    crate::store::codec::edge_type_round_trips(e.edge_type);
    crate::store::codec::edge_type_round_trips(EdgeType::Dependency);
    crate::store::codec::edge_type_round_trips(EdgeType::Causal);
    crate::store::codec::edge_type_round_trips(EdgeType::Hierarchical);
}

/// That an instant can be stored without being cut.
pub open spec fn is_whole(t: Timestamp) -> bool {
    can_be_stored(t) && t.sub_nanos() % 1_000_000 == 0
}

/// That an optional instant can be stored without being cut.
pub open spec fn opt_is_whole(t: Option<Timestamp>) -> bool {
    t matches Some(x) ==> is_whole(x)
}

/// What was written at whole milliseconds reads back as it was: an instant, an interaction, an edge
/// and a reservation.
pub proof fn whole_milliseconds_read_back(
    t: Timestamp,
    i: InteractionModel,
    e: EdgeModel,
    x: ReservationModel,
)
    requires
        is_whole(t),
        is_whole(i.created_at),
        is_whole(e.created_at),
        is_whole(e.last_reinforced),
        is_whole(x.expires_at),
    ensures
        ts_read(stored_text(t)) == Ok::<Timestamp, StoreErrorModel>(t),
        interaction_read(interaction_written(i)) == Ok::<InteractionModel, StoreErrorModel>(i),
        edge_read(edge_written(e)) == Ok::<EdgeModel, StoreErrorModel>(e),
        reservation_read(reservation_written(x)) == Ok::<ReservationModel, StoreErrorModel>(x),
{
    an_instant_reads_back(t);
    t.a_whole_millisecond_is_kept();
    an_interaction_reads_back(i);
    i.created_at.a_whole_millisecond_is_kept();
    an_edge_reads_back(e);
    e.created_at.a_whole_millisecond_is_kept();
    e.last_reinforced.a_whole_millisecond_is_kept();
    a_reservation_reads_back(x);
    x.expires_at.a_whole_millisecond_is_kept();
}

/// What was written at whole milliseconds reads back as it was: a concept, a transition and an
/// intent.
pub proof fn whole_milliseconds_read_back_too(c: ConceptModel, e: EventModel, i: IntentModel)
    requires
        is_whole(c.created_at),
        opt_is_whole(c.last_accessed),
        opt_is_whole(c.last_demotion),
        is_whole(e.occurred_at),
        opt_is_whole(e.last_demotion),
        is_whole(i.created_at),
        i.outcome matches Some(o) ==> is_whole(o.consumed_at),
        i.lane_seq <= i64::MAX,
    ensures
        concept_read(concept_written(c)) == Ok::<ConceptModel, StoreErrorModel>(c),
        event_read(event_written(e)) == Ok::<EventModel, StoreErrorModel>(e),
        intent_read(intent_written(i)) == Ok::<IntentModel, StoreErrorModel>(i),
{
    a_concept_reads_back(c);
    c.created_at.a_whole_millisecond_is_kept();
    if c.last_accessed is Some {
        c.last_accessed->0.a_whole_millisecond_is_kept();
    }
    if c.last_demotion is Some {
        c.last_demotion->0.a_whole_millisecond_is_kept();
    }
    a_transition_reads_back(e);
    e.occurred_at.a_whole_millisecond_is_kept();
    if e.last_demotion is Some {
        e.last_demotion->0.a_whole_millisecond_is_kept();
    }
    an_intent_reads_back(i);
    i.created_at.a_whole_millisecond_is_kept();
    if i.outcome is Some {
        i.outcome->0.consumed_at.a_whole_millisecond_is_kept();
    }
}

/// The three columns of an outcome stand together: a row that has some of them and lacks others is
/// refused, and one that has none is of an intent without an outcome.
pub proof fn an_outcome_is_whole_or_none(r: IntentRowModel)
    ensures
        intent_read(r) is Ok ==> {
            let i = intent_read(r)->Ok_0;
            &&& r.consumed_at is Some <==> i.outcome is Some
            &&& r.tag is Some <==> i.outcome is Some
            &&& r.summary is Some <==> i.outcome is Some
            &&& i.outcome matches Some(o) ==> r.tag == Some(o.tag) && r.summary == Some(o.summary)
            &&& i.session == r.session && i.receipt == r.receipt && i.agent == r.agent
                && i.issued_ms == r.issued_ms && i.payload == r.payload
        },
{
}

/// A vector is an embedding exactly where all its numbers are finite and, unless it has none, one
/// of them is large enough that its square is told from zero. The sign does not matter.
pub proof fn an_embedding_is_finite_and_has_a_direction(v: Seq<u32>)
    ensures
        embedding_fault(v) is None <==> (forall|i: int|
            0 <= i < v.len() ==> #[trigger] v[i] % 0x8000_0000 < 0x7f80_0000) && (v.len() == 0
            || exists|i: int| 0 <= i < v.len() && #[trigger] v[i] % 0x8000_0000 > 0x1a00_0000),
        embedding_fault(v) is Some ==> embedding_fault(v)->0 is Backend,
{
    lemma_unbounded(v);
    if v.len() > 0 && !crate::store::vector::has_no_length(v) {
        let i = choose|i: int|
            0 <= i < v.len() && crate::store::vector::magnitude(#[trigger] v[i])
                > crate::store::vector::FAINT;
        assert(v[i] % 0x8000_0000 > 0x1a00_0000);
    }
}

proof fn lemma_unbounded(v: Seq<u32>)
    ensures
        crate::store::vector::unbounded_at(v) is None <==> forall|i: int|
            0 <= i < v.len() ==> #[trigger] v[i] % 0x8000_0000 < 0x7f80_0000,
    decreases v.len(),
{
    if v.len() > 0 {
        let less = v.drop_last();
        lemma_unbounded(less);
        assert(v.last() == v[v.len() - 1]);
        if crate::store::vector::unbounded_at(v) is None {
            assert forall|i: int| 0 <= i < v.len() implies #[trigger] v[i] % 0x8000_0000
                < 0x7f80_0000 by {
                if i < less.len() {
                    assert(less[i] == v[i]);
                }
            }
        }
        if forall|i: int| 0 <= i < v.len() ==> #[trigger] v[i] % 0x8000_0000 < 0x7f80_0000 {
            assert forall|i: int| 0 <= i < less.len() implies #[trigger] less[i] % 0x8000_0000
                < 0x7f80_0000 by {
                assert(less[i] == v[i]);
            }
            assert(v[v.len() - 1] % 0x8000_0000 < 0x7f80_0000);
        }
    }
}

/// The kind and the width of a session's contract stand together: a row that has one of them and
/// lacks the other is refused, as is one whose width is no size, and one that has neither is of a
/// session without a contract. The model may be missing.
pub proof fn a_contract_is_whole_or_none(
    kind: Option<Seq<char>>,
    model: Option<Seq<char>>,
    dim: Option<i64>,
    session: Seq<char>,
)
    ensures
        ({
            let r = contract_from_parts(kind, model, dim, session);
            &&& r is Err <==> (kind is Some) != (dim is Some) || dim is Some && !(0 <= dim->0
                <= usize::MAX)
            &&& r is Err ==> r->Err_0 is Backend
            &&& kind is None && dim is None ==> r->Ok_0 is None
            &&& r is Ok && kind is Some ==> {
                let c = r->Ok_0->0;
                r->Ok_0 is Some && c.kind == kind->0 && c.model == model && c.dim == dim->0
            }
        }),
{
}

/// A write's number reads back as it was, up to the largest that a column holds, and as that beyond
/// it; so the order of the writes stays.
pub proof fn a_lane_number_reads_back(n: u64, m: u64)
    requires
        n <= m,
    ensures
        n <= i64::MAX ==> read_lane_seq(stored_lane_seq(n)) == n,
        n > i64::MAX ==> read_lane_seq(stored_lane_seq(n)) == i64::MAX,
        stored_lane_seq(n) <= stored_lane_seq(m),
{
}

} // verus!
