//! A session out of its rows: the contract of its vectors, its nodes and edges, and the intents
//! that are owed to it.

use crate::boundary::{self, json_compact};
use crate::job::IntentModel;
use crate::store::rows::{
    concept_from_row, concept_read, edge_from_row, edge_read, event_from_row, event_read,
    intent_from_row, intent_read, interaction_from_row, interaction_read, reservation_from_row,
    reservation_read, ConceptModel, ConceptRow, ConceptRowModel, EdgeModel, EdgeRow, EdgeRowModel,
    EventModel, EventRow, EventRowModel, IntentRow, IntentRowModel, InteractionModel,
    InteractionRow, InteractionRowModel, ReservationModel, ReservationRow, ReservationRowModel,
};
use crate::types::{
    joined, opt_text, CanonizationEvent, Concept, ContractModel, Edge, EmbeddingContract,
    GraphSnapshot, Interaction, Reservation, SessionId, StoreError, StoreErrorModel, Synonym,
    WriteIntent,
};
use vstd::prelude::*;
use vstd::string::*;

verus! {

/// The contract that the three columns of a session hold: kind and width together, or neither.
pub open spec fn contract_from_parts(
    kind: Option<Seq<char>>,
    model: Option<Seq<char>>,
    dim: Option<i64>,
    session: Seq<char>,
) -> Result<Option<ContractModel>, StoreErrorModel> {
    match (kind, dim) {
        (Some(kind), Some(dim)) => if 0 <= dim <= usize::MAX {
            Ok(Some(ContractModel { kind, model, dim: dim as nat }))
        } else {
            Err(
                StoreErrorModel::Backend(
                    "sessions row for "@ + session + " has negative embedding_dim"@,
                ),
            )
        },
        (None, None) => Ok(None),
        (Some(_), None) => Err(
            StoreErrorModel::Backend(
                "sessions row for "@ + session + " has embedding_kind without embedding_dim"@,
            ),
        ),
        (None, Some(_)) => Err(
            StoreErrorModel::Backend(
                "sessions row for "@ + session + " has embedding_dim without embedding_kind"@,
            ),
        ),
    }
}

/// The view of an optional contract.
pub open spec fn opt_contract(c: Option<EmbeddingContract>) -> Option<ContractModel> {
    match c {
        Some(x) => Some(x@),
        None => None,
    }
}

/// Reads the contract of a session out of its columns.
pub fn session_embedding_from_parts(
    kind: Option<String>,
    model: Option<String>,
    dim: Option<i64>,
    session_id: &str,
) -> (r: Result<Option<EmbeddingContract>, StoreError>)
    ensures
        match r {
            Ok(c) => contract_from_parts(opt_text(kind), opt_text(model), dim, session_id@) == Ok::<
                Option<ContractModel>,
                StoreErrorModel,
            >(opt_contract(c)),
            Err(e) => contract_from_parts(opt_text(kind), opt_text(model), dim, session_id@)
                == Err::<Option<ContractModel>, StoreErrorModel>(e@),
        },
{
    match (kind, dim) {
        (Some(kind), Some(dim)) => {
            if dim < 0 || dim as u64 > usize::MAX as u64 {
                return Err(
                    StoreError::Backend(
                        joined("sessions row for ", session_id, " has negative embedding_dim"),
                    ),
                );
            }
            Ok(Some(EmbeddingContract { kind, model, dim: dim as usize }))
        },
        (None, None) => Ok(None),
        (Some(_), None) => Err(
            StoreError::Backend(
                joined(
                    "sessions row for ",
                    session_id,
                    " has embedding_kind without embedding_dim",
                ),
            ),
        ),
        (None, Some(_)) => Err(
            StoreError::Backend(
                joined(
                    "sessions row for ",
                    session_id,
                    " has embedding_dim without embedding_kind",
                ),
            ),
        ),
    }
}

/// What is read of rows, one by one: the first that cannot be read decides.
pub open spec fn read_all<R, M>(
    rows: Seq<R>,
    read: spec_fn(R) -> Result<M, StoreErrorModel>,
) -> Result<Seq<M>, StoreErrorModel>
    decreases rows.len(),
{
    if rows.len() == 0 {
        Ok(Seq::empty())
    } else {
        match read_all(rows.drop_last(), read) {
            Err(e) => Err(e),
            Ok(before) => match read(rows.last()) {
                Err(e) => Err(e),
                Ok(m) => Ok(before.push(m)),
            },
        }
    }
}

/// Once a row cannot be read, its error is the answer whatever follows.
pub proof fn lemma_error_stays<R, M>(
    rows: Seq<R>,
    read: spec_fn(R) -> Result<M, StoreErrorModel>,
    k: int,
    e: StoreErrorModel,
)
    requires
        0 <= k <= rows.len(),
        read_all(rows.take(k), read) == Err::<Seq<M>, StoreErrorModel>(e),
    ensures
        read_all(rows, read) == Err::<Seq<M>, StoreErrorModel>(e),
    decreases rows.len() - k,
{
    if k < rows.len() {
        assert(rows.take(k + 1).drop_last() =~= rows.take(k));
        lemma_error_stays(rows, read, k + 1, e);
    } else {
        assert(rows.take(k) =~= rows);
    }
}

/// The views of rows of `interactions`.
pub open spec fn interaction_rows(v: Seq<InteractionRow>) -> Seq<InteractionRowModel> {
    Seq::new(v.len(), |i: int| v[i]@)
}

/// The views of interactions.
pub open spec fn interactions_of(v: Seq<Interaction>) -> Seq<InteractionModel> {
    Seq::new(v.len(), |i: int| v[i]@)
}

/// How a row of `interactions` is read.
pub open spec fn reads_interactions() -> spec_fn(InteractionRowModel) -> Result<
    InteractionModel,
    StoreErrorModel,
> {
    |r: InteractionRowModel| interaction_read(r)
}

/// Reads the interactions of a session.
pub fn load_interactions(rows: Vec<InteractionRow>) -> (r: Result<Vec<Interaction>, StoreError>)
    ensures
        match r {
            Ok(v) => read_all(interaction_rows(rows@), reads_interactions()) == Ok::<
                Seq<InteractionModel>,
                StoreErrorModel,
            >(interactions_of(v@)),
            Err(e) => read_all(interaction_rows(rows@), reads_interactions()) == Err::<
                Seq<InteractionModel>,
                StoreErrorModel,
            >(e@),
        },
{
    let ghost all = interaction_rows(rows@);
    let mut out: Vec<Interaction> = Vec::new();
    proof {
        assert(all.take(0) =~= Seq::empty());
        assert(interactions_of(out@) =~= Seq::empty());
    }
    for row in iter: rows
        invariant
            all == interaction_rows(rows@),
            iter.seq().len() == all.len(),
            forall|j: int| 0 <= j < all.len() ==> (#[trigger] iter.seq()[j])@ == all[j],
            read_all(all.take(iter.index() as int), reads_interactions()) == Ok::<
                Seq<InteractionModel>,
                StoreErrorModel,
            >(interactions_of(out@)),
    {
        let ghost at = iter.index() as int;
        let ghost before = out@;
        proof {
            assert(all.take(at + 1).drop_last() =~= all.take(at));
            assert(all.take(at + 1).last() == all[at]);
            assert(row@ == all[at]);
        }
        match interaction_from_row(row) {
            Ok(x) => {
                out.push(x);
                proof {
                    assert(interactions_of(out@) =~= interactions_of(before).push(x@));
                }
            },
            Err(e) => {
                proof {
                    lemma_error_stays(all, reads_interactions(), at + 1, e@);
                }
                return Err(e);
            },
        }
    }
    proof {
        assert(all.take(all.len() as int) =~= all);
    }
    Ok(out)
}

/// The views of rows of `concepts`.
pub open spec fn concept_rows(v: Seq<ConceptRow>) -> Seq<ConceptRowModel> {
    Seq::new(v.len(), |i: int| v[i]@)
}

/// The views of concepts.
pub open spec fn concepts_of(v: Seq<Concept>) -> Seq<ConceptModel> {
    Seq::new(v.len(), |i: int| v[i]@)
}

/// How a row of `concepts` is read.
pub open spec fn reads_concepts() -> spec_fn(ConceptRowModel) -> Result<
    ConceptModel,
    StoreErrorModel,
> {
    |r: ConceptRowModel| concept_read(r)
}

/// Reads the concepts of a session.
pub fn load_concepts(rows: Vec<ConceptRow>) -> (r: Result<Vec<Concept>, StoreError>)
    ensures
        match r {
            Ok(v) => read_all(concept_rows(rows@), reads_concepts()) == Ok::<
                Seq<ConceptModel>,
                StoreErrorModel,
            >(concepts_of(v@)),
            Err(e) => read_all(concept_rows(rows@), reads_concepts()) == Err::<
                Seq<ConceptModel>,
                StoreErrorModel,
            >(e@),
        },
{
    let ghost all = concept_rows(rows@);
    let mut out: Vec<Concept> = Vec::new();
    proof {
        assert(all.take(0) =~= Seq::empty());
        assert(concepts_of(out@) =~= Seq::empty());
    }
    for row in iter: rows
        invariant
            all == concept_rows(rows@),
            iter.seq().len() == all.len(),
            forall|j: int| 0 <= j < all.len() ==> (#[trigger] iter.seq()[j])@ == all[j],
            read_all(all.take(iter.index() as int), reads_concepts()) == Ok::<
                Seq<ConceptModel>,
                StoreErrorModel,
            >(concepts_of(out@)),
    {
        let ghost at = iter.index() as int;
        let ghost before = out@;
        proof {
            assert(all.take(at + 1).drop_last() =~= all.take(at));
            assert(all.take(at + 1).last() == all[at]);
            assert(row@ == all[at]);
        }
        match concept_from_row(row) {
            Ok(x) => {
                out.push(x);
                proof {
                    assert(concepts_of(out@) =~= concepts_of(before).push(x@));
                }
            },
            Err(e) => {
                proof {
                    lemma_error_stays(all, reads_concepts(), at + 1, e@);
                }
                return Err(e);
            },
        }
    }
    proof {
        assert(all.take(all.len() as int) =~= all);
    }
    Ok(out)
}

/// The views of rows of `edges`.
pub open spec fn edge_rows(v: Seq<EdgeRow>) -> Seq<EdgeRowModel> {
    Seq::new(v.len(), |i: int| v[i]@)
}

/// The views of edges.
pub open spec fn edges_of(v: Seq<Edge>) -> Seq<EdgeModel> {
    Seq::new(v.len(), |i: int| v[i]@)
}

/// How a row of `edges` is read.
pub open spec fn reads_edges() -> spec_fn(EdgeRowModel) -> Result<EdgeModel, StoreErrorModel> {
    |r: EdgeRowModel| edge_read(r)
}

/// Reads the edges of a session.
pub fn load_edges(rows: Vec<EdgeRow>) -> (r: Result<Vec<Edge>, StoreError>)
    ensures
        match r {
            Ok(v) => read_all(edge_rows(rows@), reads_edges()) == Ok::<
                Seq<EdgeModel>,
                StoreErrorModel,
            >(edges_of(v@)),
            Err(e) => read_all(edge_rows(rows@), reads_edges()) == Err::<
                Seq<EdgeModel>,
                StoreErrorModel,
            >(e@),
        },
{
    let ghost all = edge_rows(rows@);
    let mut out: Vec<Edge> = Vec::new();
    proof {
        assert(all.take(0) =~= Seq::empty());
        assert(edges_of(out@) =~= Seq::empty());
    }
    for row in iter: rows
        invariant
            all == edge_rows(rows@),
            iter.seq().len() == all.len(),
            forall|j: int| 0 <= j < all.len() ==> (#[trigger] iter.seq()[j])@ == all[j],
            read_all(all.take(iter.index() as int), reads_edges()) == Ok::<
                Seq<EdgeModel>,
                StoreErrorModel,
            >(edges_of(out@)),
    {
        let ghost at = iter.index() as int;
        let ghost before = out@;
        proof {
            assert(all.take(at + 1).drop_last() =~= all.take(at));
            assert(all.take(at + 1).last() == all[at]);
            assert(row@ == all[at]);
        }
        match edge_from_row(row) {
            Ok(x) => {
                out.push(x);
                proof {
                    assert(edges_of(out@) =~= edges_of(before).push(x@));
                }
            },
            Err(e) => {
                proof {
                    lemma_error_stays(all, reads_edges(), at + 1, e@);
                }
                return Err(e);
            },
        }
    }
    proof {
        assert(all.take(all.len() as int) =~= all);
    }
    Ok(out)
}

/// The views of rows of `reservations`.
pub open spec fn reservation_rows(v: Seq<ReservationRow>) -> Seq<ReservationRowModel> {
    Seq::new(v.len(), |i: int| v[i]@)
}

/// The views of reservations.
pub open spec fn reservations_of(v: Seq<Reservation>) -> Seq<ReservationModel> {
    Seq::new(v.len(), |i: int| v[i]@)
}

/// How a row of `reservations` is read.
pub open spec fn reads_reservations() -> spec_fn(ReservationRowModel) -> Result<
    ReservationModel,
    StoreErrorModel,
> {
    |r: ReservationRowModel| reservation_read(r)
}

/// Reads the reservations of a session.
pub fn load_reservations(rows: Vec<ReservationRow>) -> (r: Result<Vec<Reservation>, StoreError>)
    ensures
        match r {
            Ok(v) => read_all(reservation_rows(rows@), reads_reservations()) == Ok::<
                Seq<ReservationModel>,
                StoreErrorModel,
            >(reservations_of(v@)),
            Err(e) => read_all(reservation_rows(rows@), reads_reservations()) == Err::<
                Seq<ReservationModel>,
                StoreErrorModel,
            >(e@),
        },
{
    let ghost all = reservation_rows(rows@);
    let mut out: Vec<Reservation> = Vec::new();
    proof {
        assert(all.take(0) =~= Seq::empty());
        assert(reservations_of(out@) =~= Seq::empty());
    }
    for row in iter: rows
        invariant
            all == reservation_rows(rows@),
            iter.seq().len() == all.len(),
            forall|j: int| 0 <= j < all.len() ==> (#[trigger] iter.seq()[j])@ == all[j],
            read_all(all.take(iter.index() as int), reads_reservations()) == Ok::<
                Seq<ReservationModel>,
                StoreErrorModel,
            >(reservations_of(out@)),
    {
        let ghost at = iter.index() as int;
        let ghost before = out@;
        proof {
            assert(all.take(at + 1).drop_last() =~= all.take(at));
            assert(all.take(at + 1).last() == all[at]);
            assert(row@ == all[at]);
        }
        match reservation_from_row(row) {
            Ok(x) => {
                out.push(x);
                proof {
                    assert(reservations_of(out@) =~= reservations_of(before).push(x@));
                }
            },
            Err(e) => {
                proof {
                    lemma_error_stays(all, reads_reservations(), at + 1, e@);
                }
                return Err(e);
            },
        }
    }
    proof {
        assert(all.take(all.len() as int) =~= all);
    }
    Ok(out)
}

/// The views of rows of `canonization_events`.
pub open spec fn event_rows(v: Seq<EventRow>) -> Seq<EventRowModel> {
    Seq::new(v.len(), |i: int| v[i]@)
}

/// The views of canonization events.
pub open spec fn events_of(v: Seq<CanonizationEvent>) -> Seq<EventModel> {
    Seq::new(v.len(), |i: int| v[i]@)
}

/// How a row of `canonization_events` is read.
pub open spec fn reads_events() -> spec_fn(EventRowModel) -> Result<EventModel, StoreErrorModel> {
    |r: EventRowModel| event_read(r)
}

/// Reads the canonization events of a session.
pub fn load_canonization_events(rows: Vec<EventRow>) -> (r: Result<
    Vec<CanonizationEvent>,
    StoreError,
>)
    ensures
        match r {
            Ok(v) => read_all(event_rows(rows@), reads_events()) == Ok::<
                Seq<EventModel>,
                StoreErrorModel,
            >(events_of(v@)),
            Err(e) => read_all(event_rows(rows@), reads_events()) == Err::<
                Seq<EventModel>,
                StoreErrorModel,
            >(e@),
        },
{
    let ghost all = event_rows(rows@);
    let mut out: Vec<CanonizationEvent> = Vec::new();
    proof {
        assert(all.take(0) =~= Seq::empty());
        assert(events_of(out@) =~= Seq::empty());
    }
    for row in iter: rows
        invariant
            all == event_rows(rows@),
            iter.seq().len() == all.len(),
            forall|j: int| 0 <= j < all.len() ==> (#[trigger] iter.seq()[j])@ == all[j],
            read_all(all.take(iter.index() as int), reads_events()) == Ok::<
                Seq<EventModel>,
                StoreErrorModel,
            >(events_of(out@)),
    {
        let ghost at = iter.index() as int;
        let ghost before = out@;
        proof {
            assert(all.take(at + 1).drop_last() =~= all.take(at));
            assert(all.take(at + 1).last() == all[at]);
            assert(row@ == all[at]);
        }
        match event_from_row(row) {
            Ok(x) => {
                out.push(x);
                proof {
                    assert(events_of(out@) =~= events_of(before).push(x@));
                }
            },
            Err(e) => {
                proof {
                    lemma_error_stays(all, reads_events(), at + 1, e@);
                }
                return Err(e);
            },
        }
    }
    proof {
        assert(all.take(all.len() as int) =~= all);
    }
    Ok(out)
}

/// The views of rows of `write_intents`.
pub open spec fn intent_rows(v: Seq<IntentRow>) -> Seq<IntentRowModel> {
    Seq::new(v.len(), |i: int| v[i]@)
}

/// How a row of `write_intents` is read.
pub open spec fn reads_intents() -> spec_fn(IntentRowModel) -> Result<
    IntentModel,
    StoreErrorModel,
> {
    |r: IntentRowModel| intent_read(r)
}

/// An intent comes no later than another: by the millisecond it was issued in, then by its number
/// in its lane.
pub open spec fn issued_no_later(a: IntentRowModel, b: IntentRowModel) -> bool {
    a.issued_ms < b.issued_ms || (a.issued_ms == b.issued_ms && a.lane_seq <= b.lane_seq)
}

/// The rows stand in the order in which their intents were issued.
pub open spec fn in_issue_order(rows: Seq<IntentRowModel>) -> bool {
    forall|i: int, j: int|
        #![trigger rows[i], rows[j]]
        0 <= i < j < rows.len() ==> issued_no_later(rows[i], rows[j])
}

/// Puts rows of `write_intents` into the order in which their intents were issued.
pub fn sort_intents(rows: Vec<IntentRow>) -> (r: Vec<IntentRow>)
    ensures
        in_issue_order(intent_rows(r@)),
        r@.to_multiset() == rows@.to_multiset(),
{
    let ghost all = rows@;
    let mut out: Vec<IntentRow> = Vec::new();
    proof {
        assert(all.take(0) =~= out@);
    }
    for row in iter: rows
        invariant
            iter.seq() == all,
            in_issue_order(intent_rows(out@)),
            out@.to_multiset() == all.take(iter.index() as int).to_multiset(),
    {
        let ghost at = iter.index() as int;
        let ghost before = out@;
        let ghost model = row@;
        let mut i: usize = out.len();
        while i > 0 && (out[i - 1].issued_ms > row.issued_ms || (out[i - 1].issued_ms
            == row.issued_ms && out[i - 1].lane_seq > row.lane_seq))
            invariant
                i <= out@.len(),
                out@ == before,
                model == row@,
                forall|j: int| i <= j < out@.len() ==> !issued_no_later(
                    (#[trigger] intent_rows(out@)[j]),
                    model,
                ),
            decreases i,
        {
            i -= 1;
        }
        out.insert(i, row);
        proof {
            let views = intent_rows(before);
            assert(intent_rows(out@) =~= views.insert(i as int, model));
            assert forall|a: int, b: int|
                #![trigger intent_rows(out@)[a], intent_rows(out@)[b]]
                0 <= a < b < out@.len() implies issued_no_later(
                intent_rows(out@)[a],
                intent_rows(out@)[b],
            ) by {
                let x = if a < i {
                    a
                } else {
                    a - 1
                };
                let y = if b < i {
                    b
                } else {
                    b - 1
                };
                if a == i {
                    assert(!issued_no_later(views[y], model));
                } else if b == i {
                    assert(issued_no_later(views[i - 1], model));
                    if x < i - 1 {
                        assert(issued_no_later(views[x], views[i - 1]));
                    }
                } else {
                    assert(issued_no_later(views[x], views[y]));
                }
            }
            vstd::seq_lib::to_multiset_insert(before, i as int, row);
            vstd::seq_lib::to_multiset_build(all.take(at), row);
            assert(all.take(at + 1) =~= all.take(at).push(row));
        }
    }
    proof {
        assert(all.take(all.len() as int) =~= all);
    }
    out
}

/// The intents that rows hold, in the order in which they were issued, or the first error on the
/// way.
pub open spec fn intents_loaded(
    rows: Seq<IntentRow>,
    r: Result<Seq<IntentModel>, StoreErrorModel>,
) -> bool {
    exists|sorted: Seq<IntentRow>|
        #![trigger intent_rows(sorted)]
        sorted.to_multiset() == rows.to_multiset() && in_issue_order(intent_rows(sorted))
            && read_all(intent_rows(sorted), reads_intents()) == r
}

/// Reads the intents of a session, in the order in which they were issued.
pub fn load_write_intents(rows: Vec<IntentRow>) -> (r: Result<Vec<WriteIntent>, StoreError>)
    ensures
        intents_loaded(rows@, intents_seen(r)),
{
    let ghost given = rows@;
    let sorted = sort_intents(rows);
    let ghost order = sorted@;
    let ghost all = intent_rows(sorted@);
    let mut out: Vec<WriteIntent> = Vec::new();
    proof {
        assert(all.take(0) =~= Seq::empty());
        assert(crate::pipeline::intent_models(out@) =~= Seq::empty());
    }
    for row in iter: sorted
        invariant
            given == rows@,
            order.to_multiset() == given.to_multiset(),
            in_issue_order(intent_rows(order)),
            all == intent_rows(order),
            iter.seq().len() == all.len(),
            forall|j: int| 0 <= j < all.len() ==> (#[trigger] iter.seq()[j])@ == all[j],
            read_all(all.take(iter.index() as int), reads_intents()) == Ok::<
                Seq<IntentModel>,
                StoreErrorModel,
            >(crate::pipeline::intent_models(out@)),
    {
        let ghost at = iter.index() as int;
        let ghost before = out@;
        proof {
            assert(all.take(at + 1).drop_last() =~= all.take(at));
            assert(all.take(at + 1).last() == all[at]);
            assert(row@ == all[at]);
        }
        match intent_from_row(row) {
            Ok(x) => {
                out.push(x);
                proof {
                    assert(crate::pipeline::intent_models(out@)
                        =~= crate::pipeline::intent_models(before).push(x@));
                }
            },
            Err(e) => {
                proof {
                    lemma_error_stays(all, reads_intents(), at + 1, e@);
                }
                return Err(e);
            },
        }
    }
    proof {
        assert(all.take(all.len() as int) =~= all);
    }
    Ok(out)
}

/// A row of `sessions`. A row without a creation time has the time at which it is first written.
#[derive(Debug, PartialEq)]
pub struct SessionRow {
    pub session_id: String,
    pub root_goal: Option<String>,
    pub created_at: Option<String>,
    pub closed_at: Option<String>,
    pub embedding_kind: Option<String>,
    pub embedding_model: Option<String>,
    pub embedding_dim: Option<i64>,
}

/// A row of `sessions`, as values.
pub struct SessionRowModel {
    pub session: Seq<char>,
    pub root_goal: Option<Seq<char>>,
    pub created_at: Option<Seq<char>>,
    pub closed_at: Option<Seq<char>>,
    pub kind: Option<Seq<char>>,
    pub model: Option<Seq<char>>,
    pub dim: Option<i64>,
}

impl View for SessionRow {
    type V = SessionRowModel;

    open spec fn view(&self) -> SessionRowModel {
        SessionRowModel {
            session: self.session_id@,
            root_goal: opt_text(self.root_goal),
            created_at: opt_text(self.created_at),
            closed_at: opt_text(self.closed_at),
            kind: opt_text(self.embedding_kind),
            model: opt_text(self.embedding_model),
            dim: self.embedding_dim,
        }
    }
}

/// A synonym, as values.
pub struct SynonymModel {
    pub session: Seq<char>,
    pub source: Seq<char>,
    pub canonical: Seq<char>,
}

impl View for Synonym {
    type V = SynonymModel;

    open spec fn view(&self) -> SynonymModel {
        SynonymModel {
            session: self.session_id@,
            source: self.source_key@,
            canonical: self.canonical_key@,
        }
    }
}

/// Synonyms, as values.
pub open spec fn synonyms_of(v: Seq<Synonym>) -> Seq<SynonymModel> {
    Seq::new(v.len(), |i: int| v[i]@)
}

/// The contract that a row of `sessions` holds.
pub open spec fn contract_of(row: SessionRowModel) -> Result<
    Option<ContractModel>,
    StoreErrorModel,
> {
    contract_from_parts(row.kind, row.model, row.dim, row.session)
}

/// The rows of a session in the other tables.
#[derive(Debug)]
pub struct SessionRows {
    pub interactions: Vec<InteractionRow>,
    pub concepts: Vec<ConceptRow>,
    pub edges: Vec<EdgeRow>,
    pub synonyms: Vec<Synonym>,
    pub reservations: Vec<ReservationRow>,
    pub canonization_events: Vec<EventRow>,
    pub write_intents: Vec<IntentRow>,
}

/// The goal that a column holds: JSON text, written compactly.
pub open spec fn goal_read(goal: Option<Seq<char>>) -> Result<Option<Seq<char>>, StoreErrorModel> {
    match goal {
        None => Ok(None),
        Some(text) => match json_compact(text) {
            Ok(v) => Ok(Some(v)),
            Err(why) => Err(StoreErrorModel::Backend("parse root_goal JSON: "@ + why)),
        },
    }
}

fn read_goal(goal: &Option<String>) -> (r: Result<Option<String>, StoreError>)
    ensures
        match r {
            Ok(g) => goal_read(opt_text(*goal)) == Ok::<Option<Seq<char>>, StoreErrorModel>(
                opt_text(g),
            ),
            Err(e) => goal_read(opt_text(*goal)) == Err::<Option<Seq<char>>, StoreErrorModel>(e@),
        },
{
    match goal {
        None => Ok(None),
        Some(text) => match boundary::compact_json(text.as_str()) {
            Ok(v) => Ok(Some(v)),
            Err(why) => Err(
                StoreError::Backend(joined("parse root_goal JSON: ", why.as_str(), "")),
            ),
        },
    }
}

/// All that is stored of a session, as values.
pub struct SnapshotModel {
    pub session: Seq<char>,
    pub root_goal: Option<Seq<char>>,
    pub interactions: Seq<InteractionModel>,
    pub concepts: Seq<ConceptModel>,
    pub edges: Seq<EdgeModel>,
    pub synonyms: Seq<SynonymModel>,
    pub reservations: Seq<ReservationModel>,
    pub events: Seq<EventModel>,
    pub embedding: Option<ContractModel>,
    pub intents: Seq<IntentModel>,
}

impl View for GraphSnapshot {
    type V = SnapshotModel;

    open spec fn view(&self) -> SnapshotModel {
        SnapshotModel {
            session: self.session_id@,
            root_goal: opt_text(self.root_goal),
            interactions: interactions_of(self.interactions@),
            concepts: concepts_of(self.concepts@),
            edges: edges_of(self.edges@),
            synonyms: synonyms_of(self.synonyms@),
            reservations: reservations_of(self.reservations@),
            events: events_of(self.canonization_events@),
            embedding: opt_contract(self.embedding),
            intents: crate::pipeline::intent_models(self.write_intents@),
        }
    }
}

/// What is read of a session's rows: the first part that cannot be read decides. The intents are
/// given as they were read.
pub open spec fn session_read(
    session: Seq<char>,
    row: SessionRowModel,
    rows: SessionRows,
    intents: Result<Seq<IntentModel>, StoreErrorModel>,
) -> Result<SnapshotModel, StoreErrorModel> {
    match goal_read(row.root_goal) {
        Err(e) => Err(e),
        Ok(root_goal) => match contract_from_parts(row.kind, row.model, row.dim, session) {
            Err(e) => Err(e),
            Ok(embedding) => match read_all(
                interaction_rows(rows.interactions@),
                reads_interactions(),
            ) {
                Err(e) => Err(e),
                Ok(interactions) => match read_all(
                    concept_rows(rows.concepts@),
                    reads_concepts(),
                ) {
                    Err(e) => Err(e),
                    Ok(concepts) => match read_all(edge_rows(rows.edges@), reads_edges()) {
                        Err(e) => Err(e),
                        Ok(edges) => match read_all(
                            reservation_rows(rows.reservations@),
                            reads_reservations(),
                        ) {
                            Err(e) => Err(e),
                            Ok(reservations) => match read_all(
                                event_rows(rows.canonization_events@),
                                reads_events(),
                            ) {
                                Err(e) => Err(e),
                                Ok(events) => match intents {
                                    Err(e) => Err(e),
                                    Ok(intents) => Ok(
                                        SnapshotModel {
                                            session,
                                            root_goal,
                                            interactions,
                                            concepts,
                                            edges,
                                            synonyms: synonyms_of(rows.synonyms@),
                                            reservations,
                                            events,
                                            embedding,
                                            intents,
                                        },
                                    ),
                                },
                            },
                        },
                    },
                },
            },
        },
    }
}

/// The models of intents that were read, or the error.
pub open spec fn intents_seen(r: Result<Vec<WriteIntent>, StoreError>) -> Result<
    Seq<IntentModel>,
    StoreErrorModel,
> {
    match r {
        Ok(v) => Ok(crate::pipeline::intent_models(v@)),
        Err(e) => Err(e@),
    }
}

/// Puts a session together out of its rows. A session without a row of its own is not there.
pub fn session_from_rows(session: &SessionId, row: Option<SessionRow>, rows: SessionRows) -> (r: Result<
    GraphSnapshot,
    StoreError,
>)
    ensures
        row is None ==> (r matches Err(e) && e@ == StoreErrorModel::SessionNotFound(session@)),
        row matches Some(row) ==> exists|intents: Result<Seq<IntentModel>, StoreErrorModel>| #[trigger]
            intents_loaded(rows.write_intents@, intents) && session_read(
                session@,
                row@,
                rows,
                intents,
            ) == match r {
                Ok(s) => Ok::<SnapshotModel, StoreErrorModel>(s@),
                Err(e) => Err::<SnapshotModel, StoreErrorModel>(e@),
            },
        r matches Ok(s) ==> s.created_at is None && s.closed_at is None,
{
    let row = match row {
        Some(row) => row,
        None => {
            return Err(StoreError::SessionNotFound(session.0.clone()));
        },
    };
    let intents = load_write_intents(rows.write_intents);
    let ghost read = intents_seen(intents);
    assert(intents_loaded(rows.write_intents@, read));
    let root_goal = match read_goal(&row.root_goal) {
        Ok(x) => x,
        Err(e) => {
            return Err(e);
        },
    };
    let embedding = match session_embedding_from_parts(
        row.embedding_kind,
        row.embedding_model,
        row.embedding_dim,
        session.as_str(),
    ) {
        Ok(x) => x,
        Err(e) => {
            return Err(e);
        },
    };
    let interactions = match load_interactions(rows.interactions) {
        Ok(x) => x,
        Err(e) => {
            return Err(e);
        },
    };
    let concepts = match load_concepts(rows.concepts) {
        Ok(x) => x,
        Err(e) => {
            return Err(e);
        },
    };
    let edges = match load_edges(rows.edges) {
        Ok(x) => x,
        Err(e) => {
            return Err(e);
        },
    };
    let reservations = match load_reservations(rows.reservations) {
        Ok(x) => x,
        Err(e) => {
            return Err(e);
        },
    };
    let canonization_events = match load_canonization_events(rows.canonization_events) {
        Ok(x) => x,
        Err(e) => {
            return Err(e);
        },
    };
    let write_intents = match intents {
        Ok(x) => x,
        Err(e) => {
            return Err(e);
        },
    };
    Ok(
        GraphSnapshot {
            session_id: session.clone(),
            root_goal,
            created_at: None,
            closed_at: None,
            interactions,
            concepts,
            edges,
            synonyms: rows.synonyms,
            reservations,
            canonization_events,
            embedding,
            write_intents,
        },
    )
}

} // verus!
