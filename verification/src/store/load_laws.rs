//! What a load gives of a session: all that is its own, nothing of another's, in the order in which
//! it came about.

use crate::calendar::{a_text_is_one_instant, stored_texts_sort_by_time};
use crate::job::IntentModel;
use crate::store::laws::{
    a_transition_reads_back, an_interaction_reads_back, lemma_read_each, opt_can_be_stored,
};
use crate::store::load::{
    concepts_in, edges_in, events_in, intents_in, interactions_in, loads_as, reservations_in,
    rows_of, synonyms_in,
};
use crate::store::order::{list_no_later, text_no_later, text_order_is_total};
use crate::store::round_trip::lemma_loaded_rows;
use crate::store::rows::{
    concept_read, edge_read, event_read, event_written, intent_read, interaction_read,
    interaction_written, reservation_read, ConceptRowModel, EdgeRowModel, EventModel, EventRow,
    EventRowModel, IntentRow, IntentRowModel, InteractionModel, InteractionRow, InteractionRowModel,
    ReservationRowModel,
};
use crate::store::session::{
    concept_rows, edge_rows, event_rows, in_issue_order, intent_rows, intents_loaded,
    interaction_rows, issued_no_later, read_all, reads_concepts, reads_edges, reads_events,
    reads_intents, reads_interactions, reads_reservations, reservation_rows, session_read,
    SessionRows, SnapshotModel, SynonymModel,
};
use crate::store::structure_laws::is_plain_time;
use crate::store::table::{by_key, lemma_counted, lemma_found, lists, stands_at, Row, RowKey};
use crate::store::tables::{id_text, session_of, TablesModel};
use crate::time::{stored_text, Timestamp};
use crate::types::{StoreErrorModel, Synonym};
use vstd::prelude::*;

verus! {

/// That values are what is read of the rows of a table for which something holds: one for each.
pub open spec fn read_of<V, M>(
    table: Map<RowKey, V>,
    holds: spec_fn(V) -> bool,
    read: spec_fn(V) -> Result<M, StoreErrorModel>,
    out: Seq<M>,
) -> bool {
    let keys = Set::new(|k: RowKey| table.contains_key(k) && holds(table[k]));
    &&& forall|i: int|
        0 <= i < out.len() ==> exists|k: RowKey|
            keys.contains(k) && read(table[k]) == Ok::<M, StoreErrorModel>(#[trigger] out[i])
    &&& forall|k: RowKey| #[trigger]
        keys.contains(k) ==> exists|i: int|
            0 <= i < out.len() && read(table[k]) == Ok::<M, StoreErrorModel>(#[trigger] out[i])
    &&& keys.finite()
    &&& out.len() == keys.len()
}

proof fn lemma_read_of<R: Row, M>(
    rows: Seq<R>,
    views: Seq<R::V>,
    table: Map<RowKey, R::V>,
    holds: spec_fn(R::V) -> bool,
    some: Map<RowKey, R::V>,
    read: spec_fn(R::V) -> Result<M, StoreErrorModel>,
    out: Seq<M>,
)
    requires
        lists(rows, some),
        forall|k: RowKey| #[trigger]
            some.contains_key(k) <==> table.contains_key(k) && holds(table[k]),
        forall|k: RowKey| #[trigger] some.contains_key(k) ==> some[k] == table[k],
        views.len() == rows.len(),
        forall|i: int| 0 <= i < rows.len() ==> #[trigger] views[i] == rows[i]@,
        read_all(views, read) == Ok::<Seq<M>, StoreErrorModel>(out),
    ensures
        read_of(table, holds, read, out),
        out.len() == rows.len(),
{
    let keys = Set::new(|k: RowKey| table.contains_key(k) && holds(table[k]));
    assert(keys =~= some.dom());
    lemma_counted(rows);
    if rows.len() > 0 {
        lemma_read_each(views, read, out, 0);
    }
    assert forall|i: int| 0 <= i < out.len() implies exists|k: RowKey|
        keys.contains(k) && read(table[k]) == Ok::<M, StoreErrorModel>(#[trigger] out[i]) by {
        lemma_found(rows, i);
        lemma_read_each(views, read, out, i);
        assert(views[i] == rows[i]@);
        let k = R::key_of(rows[i]@);
        assert(some.contains_key(k));
        assert(keys.contains(k));
    }
    assert forall|k: RowKey| #[trigger] keys.contains(k) implies exists|i: int|
        0 <= i < out.len() && read(table[k]) == Ok::<M, StoreErrorModel>(#[trigger] out[i]) by {
        assert(by_key(rows).contains_key(k));
        let i = choose|i: int| #[trigger] stands_at(rows, k, i);
        assert(stands_at(rows, k, i));
        lemma_found(rows, i);
        lemma_read_each(views, read, out, i);
        assert(views[i] == rows[i]@);
        assert(some.contains_key(k));
        assert(read(table[k]) == Ok::<M, StoreErrorModel>(out[i]));
    }
}

/// A load gives one value for every interaction, concept and edge of the session, read of its row,
/// and none that is not of the session.
pub proof fn a_load_gives_all_nodes_of_the_session(
    t: TablesModel,
    s: Seq<char>,
    loaded: SnapshotModel,
)
    requires
        loads_as(t, s, Ok::<SnapshotModel, StoreErrorModel>(loaded)),
    ensures
        read_of(
            t.interactions,
            |x: InteractionRowModel| x.session == s,
            |x: InteractionRowModel| interaction_read(x),
            loaded.interactions,
        ),
        read_of(
            t.concepts,
            |x: ConceptRowModel| x.session == s,
            |x: ConceptRowModel| concept_read(x),
            loaded.concepts,
        ),
        read_of(
            t.edges,
            |x: EdgeRowModel| x.session == s,
            |x: EdgeRowModel| edge_read(x),
            loaded.edges,
        ),
        loaded.session == s,
        forall|i: int|
            0 <= i < loaded.interactions.len() ==> (#[trigger] loaded.interactions[i]).session == s,
        forall|i: int|
            0 <= i < loaded.concepts.len() ==> (#[trigger] loaded.concepts[i]).session == s,
        forall|i: int| 0 <= i < loaded.edges.len() ==> (#[trigger] loaded.edges[i]).session == s,
{
    let rows = lemma_loaded_rows(t, s, loaded);
    let a = |x: InteractionRowModel| x.session == s;
    let b = |x: ConceptRowModel| x.session == s;
    let c = |x: EdgeRowModel| x.session == s;
    let ra = |x: InteractionRowModel| interaction_read(x);
    let rb = |x: ConceptRowModel| concept_read(x);
    let rc = |x: EdgeRowModel| edge_read(x);
    assert(ra =~= reads_interactions() && rb =~= reads_concepts() && rc =~= reads_edges());
    lemma_read_of(
        rows.interactions@,
        interaction_rows(rows.interactions@),
        t.interactions,
        a,
        interactions_in(t, s),
        ra,
        loaded.interactions,
    );
    lemma_read_of(
        rows.concepts@,
        concept_rows(rows.concepts@),
        t.concepts,
        b,
        concepts_in(t, s),
        rb,
        loaded.concepts,
    );
    lemma_read_of(
        rows.edges@,
        edge_rows(rows.edges@),
        t.edges,
        c,
        edges_in(t, s),
        rc,
        loaded.edges,
    );
}

/// A load gives one value for every reservation and every transition of the session, read of its
/// row, and every synonym; and none that is not of the session.
pub proof fn a_load_gives_all_records_of_the_session(
    t: TablesModel,
    s: Seq<char>,
    loaded: SnapshotModel,
)
    requires
        loads_as(t, s, Ok::<SnapshotModel, StoreErrorModel>(loaded)),
    ensures
        read_of(
            t.reservations,
            |x: ReservationRowModel| x.session == s,
            |x: ReservationRowModel| reservation_read(x),
            loaded.reservations,
        ),
        read_of(
            t.events,
            |x: EventRowModel| x.session == s,
            |x: EventRowModel| event_read(x),
            loaded.events,
        ),
        forall|k: RowKey| #[trigger]
            t.synonyms.contains_key(k) && t.synonyms[k].session == s ==> loaded.synonyms.contains(
                t.synonyms[k],
            ),
        forall|i: int|
            0 <= i < loaded.synonyms.len() ==> (#[trigger] loaded.synonyms[i]).session == s
                && exists|k: RowKey| #[trigger]
                t.synonyms.contains_key(k) && t.synonyms[k] == loaded.synonyms[i],
        forall|i: int, j: int|
            0 <= i < j < loaded.synonyms.len() ==> (#[trigger] loaded.synonyms[i]).source != (
            #[trigger] loaded.synonyms[j]).source && text_no_later(
                loaded.synonyms[i].source,
                loaded.synonyms[j].source,
            ),
        forall|i: int|
            0 <= i < loaded.reservations.len() ==> (#[trigger] loaded.reservations[i]).session == s,
        forall|i: int| 0 <= i < loaded.events.len() ==> (#[trigger] loaded.events[i]).session == s,
{
    let rows = lemma_loaded_rows(t, s, loaded);
    let a = |x: ReservationRowModel| x.session == s;
    let b = |x: EventRowModel| x.session == s;
    let ra = |x: ReservationRowModel| reservation_read(x);
    let rb = |x: EventRowModel| event_read(x);
    assert(ra =~= reads_reservations() && rb =~= reads_events());
    lemma_read_of(
        rows.reservations@,
        reservation_rows(rows.reservations@),
        t.reservations,
        a,
        reservations_in(t, s),
        ra,
        loaded.reservations,
    );
    lemma_read_of(
        rows.canonization_events@,
        event_rows(rows.canonization_events@),
        t.events,
        b,
        events_in(t, s),
        rb,
        loaded.events,
    );
    let held = rows.synonyms@;
    assert forall|k: RowKey| #[trigger]
        t.synonyms.contains_key(k) && t.synonyms[k].session == s implies loaded.synonyms.contains(
        t.synonyms[k],
    ) by {
        assert(synonyms_in(t, s).contains_key(k));
        assert(by_key(held).contains_key(k));
        let i = choose|i: int| #[trigger] stands_at(held, k, i);
        assert(stands_at(held, k, i));
        lemma_found(held, i);
        assert(loaded.synonyms[i] == t.synonyms[k]);
    }
    assert forall|i: int| 0 <= i < loaded.synonyms.len() implies (
    #[trigger] loaded.synonyms[i]).session == s && exists|k: RowKey| #[trigger]
        t.synonyms.contains_key(k) && t.synonyms[k] == loaded.synonyms[i] by {
        lemma_found(held, i);
        let k = Synonym::key_of(held[i]@);
        assert(synonyms_in(t, s).contains_key(k));
        assert(t.synonyms.contains_key(k));
    }
    assert forall|i: int, j: int| 0 <= i < j < loaded.synonyms.len() implies (
    #[trigger] loaded.synonyms[i]).source != (#[trigger] loaded.synonyms[j]).source
        && text_no_later(loaded.synonyms[i].source, loaded.synonyms[j].source) by {
        assert(loaded.synonyms[i].session == s && loaded.synonyms[j].session == s);
        let (x, y) = (Synonym::rank_of(held[i]@), Synonym::rank_of(held[j]@));
        assert(list_no_later(x, y));
        assert(x[0] == loaded.synonyms[i].source && y[0] == loaded.synonyms[j].source);
        text_order_is_total(x[0], y[0]);
        assert(Synonym::key_of(held[i]@) != Synonym::key_of(held[j]@));
    }
}

/// A load gives every intent of the session, read of its row, and none of another's, in the order
/// in which they were issued: by the millisecond, then by the number in the lane.
pub proof fn a_load_gives_all_intents_of_the_session(
    t: TablesModel,
    s: Seq<char>,
    loaded: SnapshotModel,
)
    requires
        loads_as(t, s, Ok::<SnapshotModel, StoreErrorModel>(loaded)),
        forall|k: RowKey| #[trigger] t.intents.contains_key(k) ==> t.intents[k].lane_seq >= 0,
    ensures
        forall|k: RowKey| #[trigger]
            t.intents.contains_key(k) && t.intents[k].session == s ==> exists|i: int|
                0 <= i < loaded.intents.len() && intent_read(t.intents[k]) == Ok::<
                    IntentModel,
                    StoreErrorModel,
                >(#[trigger] loaded.intents[i]),
        forall|i: int|
            0 <= i < loaded.intents.len() ==> (#[trigger] loaded.intents[i]).session == s && exists|
                k: RowKey,
            | #[trigger]
                t.intents.contains_key(k) && intent_read(t.intents[k]) == Ok::<
                    IntentModel,
                    StoreErrorModel,
                >(loaded.intents[i]),
        forall|i: int, j: int|
            0 <= i < j < loaded.intents.len() ==> (#[trigger] loaded.intents[i]).issued_ms < (
            #[trigger] loaded.intents[j]).issued_ms || (loaded.intents[i].issued_ms
                == loaded.intents[j].issued_ms && loaded.intents[i].lane_seq
                <= loaded.intents[j].lane_seq),
{
    let row = session_of(t, s)->0;
    let (rows, intents) = choose|
        rows: SessionRows,
        intents: Result<Seq<IntentModel>, StoreErrorModel>,
    |
        #![trigger rows_of(t, s, rows), intents_loaded(rows.write_intents@, intents)]
        rows_of(t, s, rows) && intents_loaded(rows.write_intents@, intents) && Ok::<
            SnapshotModel,
            StoreErrorModel,
        >(loaded) == session_read(s, row, rows, intents);
    let given = rows.write_intents@;
    let sorted = choose|sorted: Seq<IntentRow>|
        #![trigger intent_rows(sorted)]
        sorted.to_multiset() == given.to_multiset() && in_issue_order(intent_rows(sorted))
            && read_all(intent_rows(sorted), reads_intents()) == intents;
    broadcast use vstd::seq_lib::group_to_multiset_ensures;

    let all = intent_rows(sorted);
    let out = loaded.intents;
    assert(sorted.len() == sorted.to_multiset().len() && given.len() == given.to_multiset().len());
    if all.len() > 0 {
        lemma_read_each(all, reads_intents(), out, 0);
    }
    assert forall|k: RowKey| #[trigger]
        t.intents.contains_key(k) && t.intents[k].session == s implies exists|i: int|
        0 <= i < out.len() && intent_read(t.intents[k]) == Ok::<IntentModel, StoreErrorModel>(
            #[trigger] out[i],
        ) by {
        assert(intents_in(t, s).contains_key(k));
        assert(by_key(given).contains_key(k));
        let j = choose|j: int| #[trigger] stands_at(given, k, j);
        assert(stands_at(given, k, j));
        lemma_found(given, j);
        assert(given.contains(given[j]));
        assert(given.to_multiset().count(given[j]) > 0);
        assert(sorted.contains(given[j]));
        let i = choose|i: int| 0 <= i < sorted.len() && sorted[i] == given[j];
        lemma_read_each(all, reads_intents(), out, i);
        assert(all[i] == t.intents[k]);
    }
    assert forall|i: int| 0 <= i < out.len() implies (#[trigger] out[i]).session == s && exists|
        k: RowKey,
    | #[trigger]
        t.intents.contains_key(k) && intent_read(t.intents[k]) == Ok::<
            IntentModel,
            StoreErrorModel,
        >(out[i]) by {
        assert(sorted.contains(sorted[i]));
        assert(sorted.to_multiset().count(sorted[i]) > 0);
        assert(given.contains(sorted[i]));
        let j = choose|j: int| 0 <= j < given.len() && given[j] == sorted[i];
        lemma_found(given, j);
        let k = IntentRow::key_of(given[j]@);
        assert(intents_in(t, s).contains_key(k));
        lemma_read_each(all, reads_intents(), out, i);
        assert(t.intents.contains_key(k));
    }
    assert forall|i: int, j: int| 0 <= i < j < out.len() implies (#[trigger] out[i]).issued_ms < (
    #[trigger] out[j]).issued_ms || (out[i].issued_ms == out[j].issued_ms && out[i].lane_seq
        <= out[j].lane_seq) by {
        lemma_read_each(all, reads_intents(), out, i);
        lemma_read_each(all, reads_intents(), out, j);
        assert(issued_no_later(all[i], all[j]));
        assert(given.to_multiset().count(sorted[i]) > 0 && given.to_multiset().count(sorted[j]) > 0)
            by {
            assert(sorted.contains(sorted[i]) && sorted.contains(sorted[j]));
            assert(sorted.to_multiset().count(sorted[i]) > 0);
            assert(sorted.to_multiset().count(sorted[j]) > 0);
        }
        assert(given.contains(sorted[i]) && given.contains(sorted[j]));
        let a = choose|a: int| 0 <= a < given.len() && given[a] == sorted[i];
        let b = choose|b: int| 0 <= b < given.len() && given[b] == sorted[j];
        lemma_found(given, a);
        lemma_found(given, b);
        assert(intents_in(t, s).contains_key(IntentRow::key_of(given[a]@)));
        assert(intents_in(t, s).contains_key(IntentRow::key_of(given[b]@)));
        assert(t.intents.contains_key(IntentRow::key_of(given[a]@)));
        assert(t.intents.contains_key(IntentRow::key_of(given[b]@)));
    }
}

/// That two tables have the same rows of a session.
pub open spec fn same_rows<V>(
    a: Map<RowKey, V>,
    b: Map<RowKey, V>,
    of_session: spec_fn(V) -> bool,
) -> bool {
    &&& forall|k: RowKey| #[trigger]
        a.contains_key(k) && of_session(a[k]) ==> b.contains_key(k) && b[k] == a[k]
    &&& forall|k: RowKey| #[trigger]
        b.contains_key(k) && of_session(b[k]) ==> a.contains_key(k) && a[k] == b[k]
}

/// What other sessions hold does not matter to a load: rows of theirs may come or go.
pub proof fn a_load_is_of_its_session(
    t: TablesModel,
    u: TablesModel,
    s: Seq<char>,
    r: Result<SnapshotModel, StoreErrorModel>,
)
    requires
        loads_as(t, s, r),
        t.sessions.contains_key(seq![s]) == u.sessions.contains_key(seq![s]),
        t.sessions.contains_key(seq![s]) ==> t.sessions[seq![s]] == u.sessions[seq![s]],
        same_rows(t.interactions, u.interactions, |x: InteractionRowModel| x.session == s),
        same_rows(t.concepts, u.concepts, |x: ConceptRowModel| x.session == s),
        same_rows(t.edges, u.edges, |x: EdgeRowModel| x.session == s),
        same_rows(t.synonyms, u.synonyms, |x: SynonymModel| x.session == s),
        same_rows(t.reservations, u.reservations, |x: ReservationRowModel| x.session == s),
        same_rows(t.events, u.events, |x: EventRowModel| x.session == s),
        same_rows(t.intents, u.intents, |x: IntentRowModel| x.session == s),
    ensures
        loads_as(u, s, r),
{
    assert(interactions_in(t, s) =~= interactions_in(u, s));
    assert(concepts_in(t, s) =~= concepts_in(u, s));
    assert(edges_in(t, s) =~= edges_in(u, s));
    assert(synonyms_in(t, s) =~= synonyms_in(u, s));
    assert(reservations_in(t, s) =~= reservations_in(u, s));
    assert(events_in(t, s) =~= events_in(u, s));
    assert(intents_in(t, s) =~= intents_in(u, s));
    if session_of(t, s) is Some {
        let row = session_of(t, s)->0;
        let (rows, intents) = choose|
            rows: SessionRows,
            intents: Result<Seq<IntentModel>, StoreErrorModel>,
        |
            #![trigger rows_of(t, s, rows), intents_loaded(rows.write_intents@, intents)]
            rows_of(t, s, rows) && intents_loaded(rows.write_intents@, intents) && r
                == session_read(s, row, rows, intents);
        assert(rows_of(u, s, rows));
    }
}

/// A session that has no row is not there.
pub proof fn a_session_without_a_row_is_not_there(
    t: TablesModel,
    s: Seq<char>,
    r: Result<SnapshotModel, StoreErrorModel>,
)
    requires
        loads_as(t, s, r),
        !t.sessions.contains_key(seq![s]),
    ensures
        r == Err::<SnapshotModel, StoreErrorModel>(StoreErrorModel::SessionNotFound(s)),
{
}

proof fn lemma_by_time(
    a: Timestamp,
    b: Timestamp,
    x: Seq<char>,
    y: Seq<char>,
)
    requires
        is_plain_time(a),
        is_plain_time(b),
        list_no_later(seq![stored_text(a), x], seq![stored_text(b), y]),
    ensures
        a.millis() < b.millis() || (a.millis() == b.millis() && text_no_later(x, y)),
{
    let (p, q) = (seq![stored_text(a), x], seq![stored_text(b), y]);
    assert(p[0] == stored_text(a) && q[0] == stored_text(b));
    stored_texts_sort_by_time(a.secs(), a.sub_nanos(), b.secs(), b.sub_nanos());
    a_text_is_one_instant(a.secs(), a.sub_nanos(), b.secs(), b.sub_nanos());
    if p[0] == q[0] {
        let (v, w) = (p.skip(1), q.skip(1));
        assert(v[0] == x && w[0] == y);
        assert(list_no_later(v, w));
        text_order_is_total(x, y);
    }
}

/// A load gives interactions in the order in which they were made: by the millisecond, and within
/// one by identifier.
pub proof fn interactions_are_loaded_in_their_order(
    t: TablesModel,
    s: Seq<char>,
    loaded: SnapshotModel,
    made: Map<RowKey, InteractionModel>,
)
    requires
        loads_as(t, s, Ok::<SnapshotModel, StoreErrorModel>(loaded)),
        forall|k: RowKey| #[trigger]
            t.interactions.contains_key(k) && t.interactions[k].session == s ==> t.interactions[k]
                == interaction_written(made[k]) && is_plain_time(made[k].created_at),
    ensures
        forall|i: int, j: int|
            0 <= i < j < loaded.interactions.len() ==> (
            #[trigger] loaded.interactions[i]).created_at.millis() < (
            #[trigger] loaded.interactions[j]).created_at.millis() || (
            loaded.interactions[i].created_at.millis() == loaded.interactions[j].created_at.millis()
                && text_no_later(
                id_text(loaded.interactions[i].id),
                id_text(loaded.interactions[j].id),
            )),
{
    let held = lemma_loaded_rows(t, s, loaded);
    let rows = held.interactions@;
    let all = interaction_rows(rows);
    let out = loaded.interactions;
    if rows.len() > 0 {
        lemma_read_each(all, reads_interactions(), out, 0);
    }
    assert forall|i: int| 0 <= i < out.len() implies ({
        let x = made[InteractionRow::key_of((#[trigger] rows[i])@)];
        &&& is_plain_time(x.created_at)
        &&& rows[i]@ == interaction_written(x)
        &&& out[i].id == x.id
        &&& out[i].created_at == x.created_at.cut()
        &&& out[i].created_at.millis() == x.created_at.millis()
    }) by {
        lemma_found(rows, i);
        let k = InteractionRow::key_of(rows[i]@);
        assert(interactions_in(t, s).contains_key(k));
        assert(t.interactions.contains_key(k));
        lemma_read_each(all, reads_interactions(), out, i);
        an_interaction_reads_back(made[k]);
        lemma_cut_millis(made[k].created_at);
    }
    assert forall|i: int, j: int| 0 <= i < j < out.len() implies (
    #[trigger] out[i]).created_at.millis() < (#[trigger] out[j]).created_at.millis() || (
    out[i].created_at.millis() == out[j].created_at.millis() && text_no_later(
        id_text(out[i].id),
        id_text(out[j].id),
    )) by {
        let x = made[InteractionRow::key_of(rows[i]@)];
        let y = made[InteractionRow::key_of(rows[j]@)];
        assert(list_no_later(
            InteractionRow::rank_of(rows[i]@),
            InteractionRow::rank_of(rows[j]@),
        ));
        lemma_by_time(x.created_at, y.created_at, id_text(x.id), id_text(y.id));
    }
}

/// The millisecond of an instant stays where it is cut.
proof fn lemma_cut_millis(t: Timestamp)
    requires
        t.valid(),
    ensures
        t.cut().millis() == t.millis(),
{
    let nanos = t.sub_nanos() - t.sub_nanos() % 1_000_000;
    Timestamp::at_parts(t.secs(), nanos);
    assert(nanos / 1_000_000 == t.sub_nanos() / 1_000_000);
}

/// A load gives transitions in the order in which they occurred: by the millisecond, and within one
/// by identifier.
pub proof fn transitions_are_loaded_in_their_order(
    t: TablesModel,
    s: Seq<char>,
    loaded: SnapshotModel,
    made: Map<RowKey, EventModel>,
)
    requires
        loads_as(t, s, Ok::<SnapshotModel, StoreErrorModel>(loaded)),
        forall|k: RowKey| #[trigger]
            t.events.contains_key(k) && t.events[k].session == s ==> t.events[k] == event_written(
                made[k],
            ) && is_plain_time(made[k].occurred_at) && opt_can_be_stored(made[k].last_demotion),
    ensures
        forall|i: int, j: int|
            0 <= i < j < loaded.events.len() ==> (#[trigger] loaded.events[i]).occurred_at.millis()
                < (#[trigger] loaded.events[j]).occurred_at.millis() || (
            loaded.events[i].occurred_at.millis() == loaded.events[j].occurred_at.millis()
                && text_no_later(id_text(loaded.events[i].id), id_text(loaded.events[j].id))),
{
    let held = lemma_loaded_rows(t, s, loaded);
    let rows = held.canonization_events@;
    let all = event_rows(rows);
    let out = loaded.events;
    if rows.len() > 0 {
        lemma_read_each(all, reads_events(), out, 0);
    }
    assert forall|i: int| 0 <= i < out.len() implies ({
        let x = made[EventRow::key_of((#[trigger] rows[i])@)];
        &&& is_plain_time(x.occurred_at)
        &&& rows[i]@ == event_written(x)
        &&& out[i].id == x.id
        &&& out[i].occurred_at.millis() == x.occurred_at.millis()
    }) by {
        lemma_found(rows, i);
        let k = EventRow::key_of(rows[i]@);
        assert(events_in(t, s).contains_key(k));
        assert(t.events.contains_key(k));
        lemma_read_each(all, reads_events(), out, i);
        a_transition_reads_back(made[k]);
        lemma_cut_millis(made[k].occurred_at);
    }
    assert forall|i: int, j: int| 0 <= i < j < out.len() implies (
    #[trigger] out[i]).occurred_at.millis() < (#[trigger] out[j]).occurred_at.millis() || (
    out[i].occurred_at.millis() == out[j].occurred_at.millis() && text_no_later(
        id_text(out[i].id),
        id_text(out[j].id),
    )) by {
        let x = made[EventRow::key_of(rows[i]@)];
        let y = made[EventRow::key_of(rows[j]@)];
        assert(list_no_later(EventRow::rank_of(rows[i]@), EventRow::rank_of(rows[j]@)));
        lemma_by_time(x.occurred_at, y.occurred_at, id_text(x.id), id_text(y.id));
    }
}

} // verus!
