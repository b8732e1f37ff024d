//! What a transition does to its concept, and what a load then says of it.

use crate::store::codec::{cut_opt, opt_ts_read, status_read, status_round_trips};
use crate::store::flush::{
    applied, applied_all, flushed, recorded, steps_are_in_turn, with_sessions,
};
use crate::store::laws::{
    a_transition_reads_back, can_be_stored, lemma_opt_instant, lemma_read_each, opt_can_be_stored,
};
use crate::store::load::{concepts_in, events_in, loads_as};
use crate::store::round_trip::{lemma_ids_differ, lemma_loaded_rows, lemma_only_sessions_come};
use crate::store::rows::{event_read, ConceptRowModel, EventModel};
use crate::store::session::{concept_rows, event_rows, reads_concepts, reads_events, SnapshotModel};
use crate::store::table::{by_key, lemma_found, stands_at, RowKey};
use crate::store::tables::{canonized, id_key, id_text, TablesModel};
use crate::types::{Mutation, Node, NodeId, StoreErrorModel};
use vstd::prelude::*;

verus! {

/// A transition that is new to a concept that is there is applied: whatever it is, a demotion or
/// not, the concept has the status that the transition leads to, and its reach. The time of the
/// last demotion is the transition's where it has one. Nothing else of the concept changes, and no
/// other concept.
pub proof fn a_transition_leads_to_its_status(t: TablesModel, e: EventModel)
    requires
        !t.events.contains_key(id_key(e.id)),
        t.concepts.contains_key(id_key(e.node)),
        t.concepts[id_key(e.node)].session == e.session,
        opt_can_be_stored(e.last_demotion),
    ensures
        canonized(t, e) is Ok,
        ({
            let u = canonized(t, e)->Ok_0;
            let old = t.concepts[id_key(e.node)];
            let new = u.concepts[id_key(e.node)];
            &&& u.concepts.contains_key(id_key(e.node))
            &&& status_read(new.status, "canonization_status"@) == Ok::<_, StoreErrorModel>(
                e.to_status,
            )
            &&& new.blast_radius == e.blast_radius
            &&& e.last_demotion is None ==> new.last_demotion == old.last_demotion
            &&& e.last_demotion is Some ==> opt_ts_read(new.last_demotion) == Ok::<
                _,
                StoreErrorModel,
            >(cut_opt(e.last_demotion))
            &&& new == ConceptRowModel {
                status: new.status,
                blast_radius: new.blast_radius,
                last_demotion: new.last_demotion,
                ..old
            }
            &&& forall|k: RowKey|
                k != id_key(e.node) ==> (#[trigger] u.concepts.contains_key(k)
                    == t.concepts.contains_key(k) && (t.concepts.contains_key(k) ==> u.concepts[k]
                    == t.concepts[k]))
            &&& u == TablesModel { concepts: u.concepts, events: u.events, ..t }
        }),
{
    status_round_trips(e.to_status, "canonization_status"@);
    lemma_opt_instant(e.last_demotion);
}

/// A transition that is applied is also on record, as it was given, its instants cut to the
/// millisecond; and no other is touched.
pub proof fn a_transition_is_on_record(t: TablesModel, e: EventModel)
    requires
        !t.events.contains_key(id_key(e.id)),
        canonized(t, e) is Ok,
        can_be_stored(e.occurred_at),
        opt_can_be_stored(e.last_demotion),
    ensures
        ({
            let u = canonized(t, e)->Ok_0;
            &&& u.events.contains_key(id_key(e.id))
            &&& event_read(u.events[id_key(e.id)]) == Ok::<_, StoreErrorModel>(
                EventModel {
                    occurred_at: e.occurred_at.cut(),
                    last_demotion: cut_opt(e.last_demotion),
                    ..e
                },
            )
            &&& forall|k: RowKey|
                k != id_key(e.id) ==> (#[trigger] u.events.contains_key(k)
                    == t.events.contains_key(k) && (t.events.contains_key(k) ==> u.events[k]
                    == t.events[k]))
        }),
{
    a_transition_reads_back(e);
}

/// A transition of a concept that is not there, or is another session's, is refused; one that is on
/// record already changes nothing.
pub proof fn a_transition_needs_its_concept(t: TablesModel, e: EventModel)
    ensures
        t.events.contains_key(id_key(e.id)) ==> canonized(t, e) == Ok::<_, StoreErrorModel>(t),
        !t.events.contains_key(id_key(e.id)) && !(t.concepts.contains_key(id_key(e.node))
            && t.concepts[id_key(e.node)].session == e.session) ==> canonized(t, e) == Err::<
            TablesModel,
            _,
        >(StoreErrorModel::NotFound("concept "@ + id_text(e.node) + " for canonization"@)),
{
}

/// That a concept's row says that a transition was the last to be applied to it.
pub open spec fn stands_as(row: ConceptRowModel, e: EventModel) -> bool {
    &&& row.session == e.session
    &&& status_read(row.status, "canonization_status"@) == Ok::<_, StoreErrorModel>(e.to_status)
    &&& row.blast_radius == e.blast_radius
    &&& e.last_demotion is Some ==> opt_ts_read(row.last_demotion) == Ok::<_, StoreErrorModel>(
        cut_opt(e.last_demotion),
    )
}

/// What a load says of a concept whose row says how a transition left it.
proof fn lemma_status_is_loaded(u: TablesModel, e: EventModel, loaded: SnapshotModel) -> (at: int)
    requires
        u.concepts.contains_key(id_key(e.node)),
        stands_as(u.concepts[id_key(e.node)], e),
        u.concepts[id_key(e.node)].id == id_text(e.node),
        loads_as(u, e.session, Ok::<SnapshotModel, StoreErrorModel>(loaded)),
    ensures
        0 <= at < loaded.concepts.len(),
        loaded.concepts[at].id == e.node,
        loaded.concepts[at].status == e.to_status,
        loaded.concepts[at].blast_radius == e.blast_radius,
        e.last_demotion is Some ==> loaded.concepts[at].last_demotion == cut_opt(e.last_demotion),
{
    let rows = lemma_loaded_rows(u, e.session, loaded);
    let key = id_key(e.node);
    assert(concepts_in(u, e.session).contains_key(key));
    assert(by_key(rows.concepts@).contains_key(key));
    let at = choose|j: int| #[trigger] stands_at(rows.concepts@, key, j);
    assert(stands_at(rows.concepts@, key, at));
    lemma_found(rows.concepts@, at);
    lemma_read_each(concept_rows(rows.concepts@), reads_concepts(), loaded.concepts, at);
    crate::store::codec::an_identifier_reads_back(e.node, "concept id"@);
    at
}

/// A load after a transition gives the concept the status that the transition leads to.
pub proof fn a_load_gives_the_status_of_the_transition(
    t: TablesModel,
    e: EventModel,
    token: Option<u64>,
    loaded: SnapshotModel,
) -> (at: int)
    requires
        !t.events.contains_key(id_key(e.id)),
        recorded(t, e, token) is Ok,
        t.concepts[id_key(e.node)].id == id_text(e.node),
        opt_can_be_stored(e.last_demotion),
        loads_as(
            recorded(t, e, token)->Ok_0,
            e.session,
            Ok::<SnapshotModel, StoreErrorModel>(loaded),
        ),
    ensures
        0 <= at < loaded.concepts.len(),
        loaded.concepts[at].id == e.node,
        loaded.concepts[at].status == e.to_status,
        loaded.concepts[at].blast_radius == e.blast_radius,
        e.last_demotion is Some ==> loaded.concepts[at].last_demotion == cut_opt(e.last_demotion),
{
    a_transition_needs_its_concept(t, e);
    a_transition_leads_to_its_status(t, e);
    lemma_status_is_loaded(recorded(t, e, token)->Ok_0, e, loaded)
}

/// A load after a transition gives the transition.
pub proof fn a_load_gives_the_transition(
    t: TablesModel,
    e: EventModel,
    token: Option<u64>,
    loaded: SnapshotModel,
) -> (at: int)
    requires
        !t.events.contains_key(id_key(e.id)),
        recorded(t, e, token) is Ok,
        can_be_stored(e.occurred_at),
        opt_can_be_stored(e.last_demotion),
        loads_as(
            recorded(t, e, token)->Ok_0,
            e.session,
            Ok::<SnapshotModel, StoreErrorModel>(loaded),
        ),
    ensures
        0 <= at < loaded.events.len(),
        loaded.events[at] == (EventModel {
            occurred_at: e.occurred_at.cut(),
            last_demotion: cut_opt(e.last_demotion),
            ..e
        }),
{
    let u = recorded(t, e, token)->Ok_0;
    a_transition_is_on_record(t, e);
    let rows = lemma_loaded_rows(u, e.session, loaded);
    let key = id_key(e.id);
    assert(events_in(u, e.session).contains_key(key));
    assert(by_key(rows.canonization_events@).contains_key(key));
    let at = choose|j: int| #[trigger] stands_at(rows.canonization_events@, key, j);
    assert(stands_at(rows.canonization_events@, key, at));
    lemma_found(rows.canonization_events@, at);
    lemma_read_each(event_rows(rows.canonization_events@), reads_events(), loaded.events, at);
    at
}

/// The transition that a mutation makes, if it is one that does.
pub open spec fn transition_of(m: Mutation) -> Option<EventModel> {
    match m {
        Mutation::CanonizationTransition { event } => Some(event@),
        _ => None,
    }
}

/// That a mutation deletes a concept, makes another transition of it, or moves it to another
/// session.
pub open spec fn unsettles(m: Mutation, e: EventModel) -> bool {
    match m {
        Mutation::DeleteNode { id } => id == e.node,
        Mutation::CanonizationTransition { event } => event@.node == e.node,
        Mutation::UpsertNode { node: Node::Concept(c) } => c@.id == e.node && c@.session
            != e.session,
        _ => false,
    }
}

proof fn lemma_status_stays(t: TablesModel, m: Mutation, e: EventModel)
    requires
        applied(t, m) is Ok,
        !unsettles(m, e),
        t.concepts.contains_key(id_key(e.node)),
        t.concepts[id_key(e.node)].id == id_text(e.node),
        stands_as(t.concepts[id_key(e.node)], e),
    ensures
        applied(t, m)->Ok_0.concepts.contains_key(id_key(e.node)),
        applied(t, m)->Ok_0.concepts[id_key(e.node)].id == id_text(e.node),
        stands_as(applied(t, m)->Ok_0.concepts[id_key(e.node)], e),
{
    match m {
        Mutation::UpsertNode { node: Node::Concept(c) } => lemma_ids_differ(c@.id, e.node),
        Mutation::DeleteNode { id } => lemma_ids_differ(id, e.node),
        Mutation::CanonizationTransition { event } => lemma_ids_differ(event@.node, e.node),
        _ => {},
    }
}

proof fn lemma_ids_stand(t: TablesModel, ms: Seq<Mutation>)
    requires
        applied_all(t, ms) is Ok,
        forall|id: NodeId| #[trigger]
            t.concepts.contains_key(id_key(id)) ==> t.concepts[id_key(id)].id == id_text(id),
    ensures
        forall|id: NodeId| #[trigger]
            applied_all(t, ms)->Ok_0.concepts.contains_key(id_key(id)) ==> applied_all(
                t,
                ms,
            )->Ok_0.concepts[id_key(id)].id == id_text(id),
    decreases ms.len(),
{
    if ms.len() > 0 {
        lemma_ids_stand(t, ms.drop_last());
        let before = applied_all(t, ms.drop_last())->Ok_0;
        let after = applied_all(t, ms)->Ok_0;
        assert forall|id: NodeId| #[trigger] after.concepts.contains_key(id_key(id)) implies
            after.concepts[id_key(id)].id == id_text(id) by {
            match ms.last() {
                Mutation::UpsertNode { node: Node::Concept(c) } => lemma_ids_differ(c@.id, id),
                Mutation::CanonizationTransition { event } => lemma_ids_differ(event@.node, id),
                _ => {},
            }
            assert(before.concepts.contains_key(id_key(id)) || !before.concepts.contains_key(
                id_key(id),
            ));
        }
    }
}

proof fn lemma_transition_absent(t: TablesModel, ms: Seq<Mutation>, id: NodeId)
    requires
        applied_all(t, ms) is Ok,
        !t.events.contains_key(id_key(id)),
        forall|j: int|
            0 <= j < ms.len() ==> (transition_of(#[trigger] ms[j]) matches Some(x) ==> x.id != id),
    ensures
        !applied_all(t, ms)->Ok_0.events.contains_key(id_key(id)),
    decreases ms.len(),
{
    if ms.len() > 0 {
        let less = ms.drop_last();
        assert forall|j: int| 0 <= j < less.len() implies (transition_of(#[trigger] less[j])
            matches Some(x) ==> x.id != id) by {
            assert(less[j] == ms[j]);
        }
        lemma_transition_absent(t, less, id);
        assert(ms.last() == ms[ms.len() - 1]);
        if transition_of(ms.last()) is Some {
            lemma_ids_differ(transition_of(ms.last())->0.id, id);
        }
    }
}

proof fn lemma_status_lasts(t: TablesModel, ms: Seq<Mutation>, n: int, e: EventModel)
    requires
        applied_all(t, ms) is Ok,
        0 <= n < ms.len(),
        transition_of(ms[n]) == Some(e),
        opt_can_be_stored(e.last_demotion),
        !t.events.contains_key(id_key(e.id)),
        forall|id: NodeId| #[trigger]
            t.concepts.contains_key(id_key(id)) ==> t.concepts[id_key(id)].id == id_text(id),
        forall|j: int|
            0 <= j < n ==> (transition_of(#[trigger] ms[j]) matches Some(x) ==> x.id != e.id),
        forall|j: int| n < j < ms.len() ==> !unsettles(#[trigger] ms[j], e),
    ensures
        applied_all(t, ms)->Ok_0.concepts.contains_key(id_key(e.node)),
        applied_all(t, ms)->Ok_0.concepts[id_key(e.node)].id == id_text(e.node),
        stands_as(applied_all(t, ms)->Ok_0.concepts[id_key(e.node)], e),
    decreases ms.len(),
{
    let less = ms.drop_last();
    assert(ms.last() == ms[ms.len() - 1]);
    assert forall|j: int| 0 <= j < n implies (transition_of(#[trigger] less[j]) matches Some(x)
        ==> x.id != e.id) by {
        assert(less[j] == ms[j]);
    }
    let before = applied_all(t, less)->Ok_0;
    if n < ms.len() - 1 {
        assert(less[n] == ms[n]);
        assert forall|j: int| n < j < less.len() implies !unsettles(#[trigger] less[j], e) by {
            assert(less[j] == ms[j]);
        }
        lemma_status_lasts(t, less, n, e);
        lemma_status_stays(before, ms.last(), e);
    } else {
        lemma_transition_absent(t, less, e.id);
        lemma_ids_stand(t, less);
        a_transition_needs_its_concept(before, e);
        a_transition_leads_to_its_status(before, e);
    }
}

/// Whatever the tables held and whatever else a batch does: of the transitions of a concept the
/// last to be applied decides, and a load gives the concept the status that it leads to. No upsert
/// of the concept, later or earlier, takes it back.
pub proof fn the_last_transition_decides(
    t: TablesModel,
    ms: Seq<Mutation>,
    token: Option<u64>,
    n: int,
    e: EventModel,
    loaded: SnapshotModel,
) -> (at: int)
    requires
        0 <= n < ms.len(),
        transition_of(ms[n]) == Some(e),
        opt_can_be_stored(e.last_demotion),
        !t.events.contains_key(id_key(e.id)),
        forall|id: NodeId| #[trigger]
            t.concepts.contains_key(id_key(id)) ==> t.concepts[id_key(id)].id == id_text(id),
        forall|j: int|
            0 <= j < n ==> (transition_of(#[trigger] ms[j]) matches Some(x) ==> x.id != e.id),
        forall|j: int| n < j < ms.len() ==> !unsettles(#[trigger] ms[j], e),
        flushed(t, ms, token) is Ok,
        loads_as(
            flushed(t, ms, token)->Ok_0,
            e.session,
            Ok::<SnapshotModel, StoreErrorModel>(loaded),
        ),
    ensures
        0 <= at < loaded.concepts.len(),
        loaded.concepts[at].id == e.node,
        loaded.concepts[at].status == e.to_status,
        loaded.concepts[at].blast_radius == e.blast_radius,
        e.last_demotion is Some ==> loaded.concepts[at].last_demotion == cut_opt(e.last_demotion),
{
    let start = with_sessions(t, ms);
    steps_are_in_turn(start, ms);
    lemma_only_sessions_come(t, ms);
    assert(start.concepts == t.concepts && start.events == t.events);
    lemma_status_lasts(start, ms, n, e);
    lemma_status_is_loaded(flushed(t, ms, token)->Ok_0, e, loaded)
}

} // verus!
