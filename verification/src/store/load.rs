//! Reading a session back out of the tables.

use crate::job::IntentModel;
use crate::store::keys::key1;
use crate::store::rows::{
    ConceptRow, ConceptRowModel, EdgeRow, EdgeRowModel, EventRow, EventRowModel, IntentRow,
    IntentRowModel, InteractionRow, InteractionRowModel, ReservationRow, ReservationRowModel,
};
use crate::store::session::{
    intents_loaded, session_from_rows, session_read, SessionRow, SessionRows, SnapshotModel,
    SynonymModel,
};
use crate::store::table::{kept, lists, ranked, Pick, Row, RowKey};
use crate::store::tables::{session_of, Tables, TablesModel};
use crate::types::{GraphSnapshot, SessionId, StoreError, StoreErrorModel, Synonym};
use vstd::prelude::*;
use vstd::string::*;

verus! {

/// The rows of a session.
pub struct OfSession {
    pub session: String,
}

impl Pick<InteractionRow> for OfSession {
    open spec fn picks(&self, row: InteractionRowModel) -> bool {
        row.session == self.session@
    }

    fn picks_row(&self, row: &InteractionRow) -> (r: bool) {
        row.session_id == self.session
    }
}

impl Pick<ConceptRow> for OfSession {
    open spec fn picks(&self, row: ConceptRowModel) -> bool {
        row.session == self.session@
    }

    fn picks_row(&self, row: &ConceptRow) -> (r: bool) {
        row.session_id == self.session
    }
}

impl Pick<EdgeRow> for OfSession {
    open spec fn picks(&self, row: EdgeRowModel) -> bool {
        row.session == self.session@
    }

    fn picks_row(&self, row: &EdgeRow) -> (r: bool) {
        row.session_id == self.session
    }
}

impl Pick<Synonym> for OfSession {
    open spec fn picks(&self, row: SynonymModel) -> bool {
        row.session == self.session@
    }

    fn picks_row(&self, row: &Synonym) -> (r: bool) {
        row.session_id.0 == self.session
    }
}

impl Pick<ReservationRow> for OfSession {
    open spec fn picks(&self, row: ReservationRowModel) -> bool {
        row.session == self.session@
    }

    fn picks_row(&self, row: &ReservationRow) -> (r: bool) {
        row.session_id == self.session
    }
}

impl Pick<EventRow> for OfSession {
    open spec fn picks(&self, row: EventRowModel) -> bool {
        row.session == self.session@
    }

    fn picks_row(&self, row: &EventRow) -> (r: bool) {
        row.session_id == self.session
    }
}

impl Pick<IntentRow> for OfSession {
    open spec fn picks(&self, row: IntentRowModel) -> bool {
        row.session == self.session@
    }

    fn picks_row(&self, row: &IntentRow) -> (r: bool) {
        row.session_id == self.session
    }
}

/// The rows of a table for which something holds.
pub open spec fn where_row<V>(rows: Map<RowKey, V>, holds: spec_fn(V) -> bool) -> Map<RowKey, V> {
    rows.restrict(rows.dom().filter(|k: RowKey| holds(rows[k])))
}

/// The interactions of a session.
pub open spec fn interactions_in(t: TablesModel, s: Seq<char>) -> Map<RowKey, InteractionRowModel> {
    where_row(t.interactions, |r: InteractionRowModel| r.session == s)
}

/// The concepts of a session.
pub open spec fn concepts_in(t: TablesModel, s: Seq<char>) -> Map<RowKey, ConceptRowModel> {
    where_row(t.concepts, |r: ConceptRowModel| r.session == s)
}

/// The edges of a session.
pub open spec fn edges_in(t: TablesModel, s: Seq<char>) -> Map<RowKey, EdgeRowModel> {
    where_row(t.edges, |r: EdgeRowModel| r.session == s)
}

/// The synonyms of a session.
pub open spec fn synonyms_in(t: TablesModel, s: Seq<char>) -> Map<RowKey, SynonymModel> {
    where_row(t.synonyms, |r: SynonymModel| r.session == s)
}

/// The reservations of a session.
pub open spec fn reservations_in(t: TablesModel, s: Seq<char>) -> Map<RowKey, ReservationRowModel> {
    where_row(t.reservations, |r: ReservationRowModel| r.session == s)
}

/// The transitions of a session.
pub open spec fn events_in(t: TablesModel, s: Seq<char>) -> Map<RowKey, EventRowModel> {
    where_row(t.events, |r: EventRowModel| r.session == s)
}

/// The intents of a session.
pub open spec fn intents_in(t: TablesModel, s: Seq<char>) -> Map<RowKey, IntentRowModel> {
    where_row(t.intents, |r: IntentRowModel| r.session == s)
}

/// That rows are those of a session: each once, the interactions by time and then by identifier,
/// concepts and edges by identifier, synonyms by the key they stand for, transitions by time and
/// then by identifier.
pub open spec fn rows_of(t: TablesModel, s: Seq<char>, rows: SessionRows) -> bool {
    &&& lists(rows.interactions@, interactions_in(t, s)) && ranked(rows.interactions@)
    &&& lists(rows.concepts@, concepts_in(t, s)) && ranked(rows.concepts@)
    &&& lists(rows.edges@, edges_in(t, s)) && ranked(rows.edges@)
    &&& lists(rows.synonyms@, synonyms_in(t, s)) && ranked(rows.synonyms@)
    &&& lists(rows.reservations@, reservations_in(t, s))
    &&& lists(rows.canonization_events@, events_in(t, s)) && ranked(rows.canonization_events@)
    &&& lists(rows.write_intents@, intents_in(t, s))
}

/// The rows of a session.
pub fn session_rows(t: &Tables, session: &SessionId) -> (rows: SessionRows)
    requires
        t.wf(),
    ensures
        rows_of(t@, session@, rows),
{
    let p = OfSession { session: session.0.clone() };
    let s = session;
    let rows = SessionRows {
        interactions: t.interactions.select(&p),
        concepts: t.concepts.select(&p),
        edges: t.edges.select(&p),
        synonyms: t.synonyms.select(&p),
        reservations: t.reservations.select(&p),
        canonization_events: t.canonization_events.select(&p),
        write_intents: t.write_intents.select(&p),
    };
    proof {
        assert(kept::<InteractionRow, OfSession>(t.interactions@, p) =~= interactions_in(t@, s@));
        assert(kept::<ConceptRow, OfSession>(t.concepts@, p) =~= concepts_in(t@, s@));
        assert(kept::<EdgeRow, OfSession>(t.edges@, p) =~= edges_in(t@, s@));
        assert(kept::<Synonym, OfSession>(t.synonyms@, p) =~= synonyms_in(t@, s@));
        assert(kept::<ReservationRow, OfSession>(t.reservations@, p) =~= reservations_in(t@, s@));
        assert(kept::<EventRow, OfSession>(t.canonization_events@, p) =~= events_in(t@, s@));
        assert(kept::<IntentRow, OfSession>(t.write_intents@, p) =~= intents_in(t@, s@));
    }
    rows
}

/// A snapshot that was read, or the error.
pub open spec fn snapshot_seen(r: Result<GraphSnapshot, StoreError>) -> Result<
    SnapshotModel,
    StoreErrorModel,
> {
    match r {
        Ok(s) => Ok(s@),
        Err(e) => Err(e@),
    }
}

/// What is read of a session: nothing where it has no row; otherwise its rows, read in their
/// order. The first that cannot be read decides.
pub open spec fn loads_as(
    t: TablesModel,
    s: Seq<char>,
    r: Result<SnapshotModel, StoreErrorModel>,
) -> bool {
    match session_of(t, s) {
        None => r == Err::<SnapshotModel, StoreErrorModel>(StoreErrorModel::SessionNotFound(s)),
        Some(row) => exists|rows: SessionRows, intents: Result<Seq<IntentModel>, StoreErrorModel>|
            #![trigger rows_of(t, s, rows), intents_loaded(rows.write_intents@, intents)]
            rows_of(t, s, rows) && intents_loaded(rows.write_intents@, intents) && r
                == session_read(s, row, rows, intents),
    }
}

/// Reads a session.
pub fn load_session(t: &Tables, session: &SessionId) -> (r: Result<GraphSnapshot, StoreError>)
    requires
        t.wf(),
    ensures
        loads_as(t@, session@, snapshot_seen(r)),
        r matches Ok(s) ==> s.created_at is None && s.closed_at is None,
{
    let row: Option<SessionRow> = match t.sessions.get(&key1(session.as_str())) {
        Some(row) => Some(row.copy()),
        None => None,
    };
    let rows = session_rows(t, session);
    let ghost held = rows;
    let r = session_from_rows(session, row, rows);
    proof {
        if session_of(t@, session@) is Some {
            let intents = choose|intents: Result<Seq<IntentModel>, StoreErrorModel>|
                #[trigger] intents_loaded(held.write_intents@, intents) && session_read(
                    session@,
                    session_of(t@, session@)->0,
                    held,
                    intents,
                ) == snapshot_seen(r);
            assert(rows_of(t@, session@, held) && intents_loaded(held.write_intents@, intents));
        }
    }
    r
}

} // verus!
