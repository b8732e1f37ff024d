//! What a snapshot that was put in gives when its session is loaded.

use crate::job::IntentModel;
use crate::store::bulk::{
    all_concepts, together_is_in_turn, written_in_turn, written_together, CONCEPTS_TOGETHER,
};
use crate::store::codec::cut_opt;
use crate::store::flush::{
    all_edges, all_events, all_intents, all_interactions, all_reservations, all_synonyms, seeded,
    seeded_row,
};
use crate::store::laws::{
    a_reservation_reads_back, a_transition_reads_back, can_be_stored, opt_can_be_stored,
};
use crate::store::load::loads_as;
use crate::store::load_laws::a_load_gives_all_records_of_the_session;
use crate::store::round_trip::{
    a_concept_in_its_row_is_loaded, an_edge_in_its_row_is_loaded, an_intent_in_its_row_is_loaded,
    an_interaction_in_its_row_is_loaded, is_row_of, lemma_ids_differ,
};
use crate::store::rows::{
    concept_written, edge_written, event_read, event_written, intent_storable, intent_stored,
    intent_written, interaction_written, reservation_read, reservation_written, ConceptModel,
    EdgeModel, EventModel, EventRowModel, InteractionModel, ReservationModel, ReservationRowModel,
};
use crate::store::session::{concepts_of, goal_read, opt_contract, SnapshotModel, SynonymModel};
use crate::store::table::RowKey;
use crate::store::tables::{concept_upserted, edge_key, id_key, id_text, intent_key, TablesModel};
use crate::time::{stored_text, Timestamp};
use crate::types::{
    opt_text, CanonizationEvent, Edge, GraphSnapshot, Interaction, NodeId, Reservation,
    StoreErrorModel, Synonym, WriteIntent,
};
use vstd::prelude::*;

verus! {

proof fn lemma_interactions(t: TablesModel, v: Seq<Interaction>, n: int)
    requires
        all_interactions(t, v) is Ok,
    ensures
        all_interactions(t, v)->Ok_0 == (TablesModel {
            interactions: all_interactions(t, v)->Ok_0.interactions,
            ..t
        }),
        0 <= n < v.len() && (forall|j: int| n < j < v.len() ==> (#[trigger] v[j])@.id != v[n]@.id)
            ==> {
            let u = all_interactions(t, v)->Ok_0;
            u.interactions.contains_key(id_key(v[n]@.id)) && u.interactions[id_key(v[n]@.id)]
                == interaction_written(v[n]@)
        },
    decreases v.len(),
{
    if v.len() > 0 {
        let less = v.drop_last();
        lemma_interactions(t, less, n);
        let last = v.len() - 1;
        assert(v.last() == v[last]);
        if 0 <= n < last && (forall|j: int|
            n < j < v.len() ==> (#[trigger] v[j])@.id != v[n]@.id) {
            assert(less[n] == v[n]);
            assert forall|j: int| n < j < less.len() implies (#[trigger] less[j])@.id
                != less[n]@.id by {
                assert(less[j] == v[j]);
            }
            lemma_ids_differ(v[last]@.id, v[n]@.id);
        }
    }
}

proof fn lemma_concepts_in_turn(t: TablesModel, a: Seq<ConceptModel>, b: Seq<ConceptModel>)
    ensures
        written_in_turn(t, a + b) == match written_in_turn(t, a) {
            Err(e) => Err(e),
            Ok(u) => written_in_turn(u, b),
        },
    decreases b.len(),
{
    if b.len() == 0 {
        assert(a + b =~= a);
    } else {
        assert((a + b).drop_last() =~= a + b.drop_last());
        lemma_concepts_in_turn(t, a, b.drop_last());
    }
}

/// Concepts that are put in many at a time come out as if each were put in on its own.
pub proof fn many_concepts_are_written_in_turn(t: TablesModel, v: Seq<ConceptModel>)
    ensures
        all_concepts(t, v) is Ok <==> written_in_turn(t, v) is Ok,
        all_concepts(t, v) is Ok ==> all_concepts(t, v) == written_in_turn(t, v),
    decreases v.len(),
{
    if v.len() > 0 {
        let n = if v.len() < CONCEPTS_TOGETHER {
            v.len() as int
        } else {
            CONCEPTS_TOGETHER as int
        };
        let (a, b) = (v.take(n), v.skip(n));
        assert(a + b =~= v);
        together_is_in_turn(t, a);
        lemma_concepts_in_turn(t, a, b);
        if written_together(t, a) is Ok {
            many_concepts_are_written_in_turn(written_together(t, a)->Ok_0, b);
        }
    }
}

proof fn lemma_concepts(t: TablesModel, v: Seq<ConceptModel>, n: int)
    requires
        written_in_turn(t, v) is Ok,
    ensures
        written_in_turn(t, v)->Ok_0 == (TablesModel {
            concepts: written_in_turn(t, v)->Ok_0.concepts,
            ..t
        }),
        0 <= n < v.len() && (forall|j: int| n < j < v.len() ==> (#[trigger] v[j]).id != v[n].id)
            ==> {
            let u = written_in_turn(t, v)->Ok_0;
            u.concepts.contains_key(id_key(v[n].id)) && is_row_of(
                u.concepts[id_key(v[n].id)],
                v[n],
            )
        },
        0 <= n < v.len() && (forall|j: int|
            0 <= j < v.len() && j != n ==> (#[trigger] v[j]).id != v[n].id)
            && !t.concepts.contains_key(id_key(v[n].id)) ==> written_in_turn(
            t,
            v,
        )->Ok_0.concepts[id_key(v[n].id)] == concept_written(v[n]),
        forall|id: NodeId|
            !t.concepts.contains_key(#[trigger] id_key(id)) && (forall|j: int|
                0 <= j < v.len() ==> (#[trigger] v[j]).id != id) ==> !written_in_turn(
                t,
                v,
            )->Ok_0.concepts.contains_key(id_key(id)),
    decreases v.len(),
{
    if v.len() > 0 {
        let less = v.drop_last();
        lemma_concepts(t, less, n);
        let last = v.len() - 1;
        let before = written_in_turn(t, less)->Ok_0;
        let u = written_in_turn(t, v)->Ok_0;
        assert(v.last() == v[last]);
        assert(u == concept_upserted(before, v[last])->Ok_0);
        if 0 <= n < last {
            assert(less[n] == v[n]);
            lemma_ids_differ(v[last].id, v[n].id);
            if forall|j: int| n < j < v.len() ==> (#[trigger] v[j]).id != v[n].id {
                assert forall|j: int| n < j < less.len() implies (#[trigger] less[j]).id
                    != less[n].id by {
                    assert(less[j] == v[j]);
                }
            }
            if forall|j: int| 0 <= j < v.len() && j != n ==> (#[trigger] v[j]).id != v[n].id {
                assert forall|j: int| 0 <= j < less.len() && j != n implies (
                #[trigger] less[j]).id != less[n].id by {
                    assert(less[j] == v[j]);
                }
                assert(v[last].id != v[n].id);
            }
        }
        assert forall|id: NodeId| !t.concepts.contains_key(#[trigger] id_key(id)) && (forall|
            j: int,
        |
            0 <= j < v.len() ==> (#[trigger] v[j]).id != id) implies !u.concepts.contains_key(
            id_key(id),
        ) by {
            assert forall|j: int| 0 <= j < less.len() implies (#[trigger] less[j]).id != id by {
                assert(less[j] == v[j]);
            }
            assert(v[last].id != id);
            lemma_ids_differ(v[last].id, id);
        }
        if n == last && (forall|j: int|
            0 <= j < v.len() && j != n ==> (#[trigger] v[j]).id != v[n].id)
            && !t.concepts.contains_key(id_key(v[n].id)) {
            assert forall|j: int| 0 <= j < less.len() implies (#[trigger] less[j]).id != v[n].id by {
                assert(less[j] == v[j]);
            }
            assert(!before.concepts.contains_key(id_key(v[n].id)));
        }
    }
}

proof fn lemma_edges(t: TablesModel, v: Seq<Edge>, n: int)
    ensures
        all_edges(t, v) == (TablesModel { edges: all_edges(t, v).edges, ..t }),
        0 <= n < v.len() && (forall|j: int|
            n < j < v.len() ==> edge_key((#[trigger] v[j])@) != edge_key(v[n]@)) ==> all_edges(
            t,
            v,
        ).edges.contains_key(edge_key(v[n]@)) && all_edges(t, v).edges[edge_key(v[n]@)]
            == edge_written(v[n]@),
    decreases v.len(),
{
    if v.len() > 0 {
        let less = v.drop_last();
        lemma_edges(t, less, n);
        let last = v.len() - 1;
        assert(v.last() == v[last]);
        if 0 <= n < last && (forall|j: int|
            n < j < v.len() ==> edge_key((#[trigger] v[j])@) != edge_key(v[n]@)) {
            assert(less[n] == v[n]);
            assert forall|j: int| n < j < less.len() implies edge_key((#[trigger] less[j])@)
                != edge_key(less[n]@) by {
                assert(less[j] == v[j]);
            }
            assert(edge_key(v[last]@) != edge_key(v[n]@));
        }
    }
}

/// That two synonyms stand for one key of a session.
pub open spec fn same_source(a: SynonymModel, b: SynonymModel) -> bool {
    a.session == b.session && a.source == b.source
}

proof fn lemma_synonyms(t: TablesModel, v: Seq<Synonym>, n: int)
    ensures
        all_synonyms(t, v) == (TablesModel { synonyms: all_synonyms(t, v).synonyms, ..t }),
        0 <= n < v.len() && (forall|j: int|
            n < j < v.len() ==> !same_source((#[trigger] v[j])@, v[n]@)) ==> {
            let u = all_synonyms(t, v);
            let key = seq![v[n]@.session, v[n]@.source];
            u.synonyms.contains_key(key) && u.synonyms[key] == v[n]@
        },
    decreases v.len(),
{
    if v.len() > 0 {
        let less = v.drop_last();
        lemma_synonyms(t, less, n);
        let last = v.len() - 1;
        assert(v.last() == v[last]);
        if 0 <= n < last && (forall|j: int|
            n < j < v.len() ==> !same_source((#[trigger] v[j])@, v[n]@)) {
            assert(less[n] == v[n]);
            assert forall|j: int| n < j < less.len() implies !same_source(
                (#[trigger] less[j])@,
                less[n]@,
            ) by {
                assert(less[j] == v[j]);
            }
            let (a, b) = (
                seq![v[last]@.session, v[last]@.source],
                seq![v[n]@.session, v[n]@.source],
            );
            assert(a[0] == v[last]@.session && a[1] == v[last]@.source);
            assert(b[0] == v[n]@.session && b[1] == v[n]@.source);
            assert(!same_source(v[last]@, v[n]@));
        }
    }
}

/// That two reservations are of one node of a session.
pub open spec fn same_node(a: ReservationModel, b: ReservationModel) -> bool {
    a.session == b.session && a.node == b.node
}

proof fn lemma_reservations(t: TablesModel, v: Seq<Reservation>, n: int)
    ensures
        all_reservations(t, v) == (TablesModel {
            reservations: all_reservations(t, v).reservations,
            ..t
        }),
        0 <= n < v.len() && (forall|j: int|
            n < j < v.len() ==> !same_node((#[trigger] v[j])@, v[n]@)) ==> {
            let u = all_reservations(t, v);
            let key = seq![v[n]@.session, id_text(v[n]@.node)];
            u.reservations.contains_key(key) && u.reservations[key] == reservation_written(v[n]@)
        },
    decreases v.len(),
{
    if v.len() > 0 {
        let less = v.drop_last();
        lemma_reservations(t, less, n);
        let last = v.len() - 1;
        assert(v.last() == v[last]);
        if 0 <= n < last && (forall|j: int|
            n < j < v.len() ==> !same_node((#[trigger] v[j])@, v[n]@)) {
            assert(less[n] == v[n]);
            assert forall|j: int| n < j < less.len() implies !same_node(
                (#[trigger] less[j])@,
                less[n]@,
            ) by {
                assert(less[j] == v[j]);
            }
            let (a, b) = (
                seq![v[last]@.session, id_text(v[last]@.node)],
                seq![v[n]@.session, id_text(v[n]@.node)],
            );
            assert(a[0] == v[last]@.session && a[1] == id_text(v[last]@.node));
            assert(b[0] == v[n]@.session && b[1] == id_text(v[n]@.node));
            assert(!same_node(v[last]@, v[n]@));
            lemma_ids_differ(v[last]@.node, v[n]@.node);
        }
    }
}

proof fn lemma_events(t: TablesModel, v: Seq<CanonizationEvent>, n: int)
    ensures
        all_events(t, v) == (TablesModel { events: all_events(t, v).events, ..t }),
        forall|k: RowKey| #[trigger]
            t.events.contains_key(k) ==> all_events(t, v).events.contains_key(k) && all_events(
                t,
                v,
            ).events[k] == t.events[k],
        forall|id: NodeId|
            !t.events.contains_key(#[trigger] id_key(id)) && (forall|j: int|
                0 <= j < v.len() ==> (#[trigger] v[j])@.id != id) ==> !all_events(
                t,
                v,
            ).events.contains_key(id_key(id)),
        0 <= n < v.len() && !t.events.contains_key(id_key(v[n]@.id)) && (forall|j: int|
            0 <= j < n ==> (#[trigger] v[j])@.id != v[n]@.id) ==> {
            let u = all_events(t, v);
            u.events.contains_key(id_key(v[n]@.id)) && u.events[id_key(v[n]@.id)] == event_written(
                v[n]@,
            )
        },
    decreases v.len(),
{
    if v.len() > 0 {
        let less = v.drop_last();
        lemma_events(t, less, n);
        let last = v.len() - 1;
        assert(v.last() == v[last]);
        let u = all_events(t, v);
        assert forall|k: RowKey| #[trigger] t.events.contains_key(k) implies u.events.contains_key(
            k,
        ) && u.events[k] == t.events[k] by {
            assert(all_events(t, less).events.contains_key(k));
        }
        assert forall|id: NodeId| !t.events.contains_key(#[trigger] id_key(id)) && (forall|j: int|
            0 <= j < v.len() ==> (#[trigger] v[j])@.id != id) implies !u.events.contains_key(
            id_key(id),
        ) by {
            assert forall|j: int| 0 <= j < less.len() implies (#[trigger] less[j])@.id != id by {
                assert(less[j] == v[j]);
            }
            assert(v[last]@.id != id);
            lemma_ids_differ(v[last]@.id, id);
        }
        if 0 <= n < v.len() && !t.events.contains_key(id_key(v[n]@.id)) && (forall|j: int|
            0 <= j < n ==> (#[trigger] v[j])@.id != v[n]@.id) {
            if n < last {
                assert(less[n] == v[n]);
                assert forall|j: int| 0 <= j < n implies (#[trigger] less[j])@.id != less[n]@.id by {
                    assert(less[j] == v[j]);
                }
                lemma_ids_differ(v[last]@.id, v[n]@.id);
            } else {
                assert forall|j: int| 0 <= j < less.len() implies (#[trigger] less[j])@.id
                    != v[n]@.id by {
                    assert(less[j] == v[j]);
                }
                assert(!all_events(t, less).events.contains_key(id_key(v[n]@.id)));
            }
        }
    }
}

/// That two intents are of one receipt of a session.
pub open spec fn same_receipt(a: IntentModel, b: IntentModel) -> bool {
    a.session == b.session && a.receipt == b.receipt
}

proof fn lemma_intents(t: TablesModel, v: Seq<WriteIntent>, n: int)
    ensures
        all_intents(t, v) == (TablesModel { intents: all_intents(t, v).intents, ..t }),
        0 <= n < v.len() && (forall|j: int|
            n < j < v.len() ==> !same_receipt((#[trigger] v[j])@, v[n]@)) ==> {
            let u = all_intents(t, v);
            let key = intent_key(v[n]@.session, v[n]@.receipt);
            u.intents.contains_key(key) && u.intents[key] == intent_written(v[n]@)
        },
    decreases v.len(),
{
    if v.len() > 0 {
        let less = v.drop_last();
        lemma_intents(t, less, n);
        let last = v.len() - 1;
        assert(v.last() == v[last]);
        if 0 <= n < last && (forall|j: int|
            n < j < v.len() ==> !same_receipt((#[trigger] v[j])@, v[n]@)) {
            assert(less[n] == v[n]);
            assert forall|j: int| n < j < less.len() implies !same_receipt(
                (#[trigger] less[j])@,
                less[n]@,
            ) by {
                assert(less[j] == v[j]);
            }
            let (a, b) = (
                intent_key(v[last]@.session, v[last]@.receipt),
                intent_key(v[n]@.session, v[n]@.receipt),
            );
            assert(a[0] == v[last]@.session && a[1] == v[last]@.receipt);
            assert(b[0] == v[n]@.session && b[1] == v[n]@.receipt);
            assert(!same_receipt(v[last]@, v[n]@));
        }
    }
}

/// What of the tables each part of a snapshot leaves.
proof fn lemma_parts(t: TablesModel, s: GraphSnapshot, now: Timestamp) -> (r: (
    TablesModel,
    TablesModel,
))
    requires
        seeded(t, s, now) is Ok,
    ensures
        ({
            let u = seeded(t, s, now)->Ok_0;
            let t0 = TablesModel {
                sessions: t.sessions.insert(seq![s.session_id@], seeded_row(s, now)),
                ..t
            };
            &&& all_interactions(t0, s.interactions@) == Ok::<TablesModel, StoreErrorModel>(r.0)
            &&& written_in_turn(r.0, concepts_of(s.concepts@)) == Ok::<
                TablesModel,
                StoreErrorModel,
            >(r.1)
            &&& u.sessions == t0.sessions
            &&& u.interactions == r.0.interactions
            &&& u.concepts == r.1.concepts
            &&& u.edges == all_edges(r.1, s.edges@).edges
            &&& u.synonyms == all_synonyms(all_edges(r.1, s.edges@), s.synonyms@).synonyms
            &&& r.0.concepts == t.concepts
            &&& u.leases == t.leases
        }),
{
    let t0 = TablesModel {
        sessions: t.sessions.insert(seq![s.session_id@], seeded_row(s, now)),
        ..t
    };
    let a = all_interactions(t0, s.interactions@)->Ok_0;
    lemma_interactions(t0, s.interactions@, 0);
    let v = concepts_of(s.concepts@);
    many_concepts_are_written_in_turn(a, v);
    let b = all_concepts(a, v)->Ok_0;
    lemma_concepts(a, v, 0);
    let c = all_edges(b, s.edges@);
    lemma_edges(b, s.edges@, 0);
    let d = all_synonyms(c, s.synonyms@);
    lemma_synonyms(c, s.synonyms@, 0);
    let e = all_reservations(d, s.reservations@);
    lemma_reservations(d, s.reservations@, 0);
    let f = all_events(e, s.canonization_events@);
    lemma_events(e, s.canonization_events@, 0);
    lemma_intents(f, s.write_intents@, 0);
    (a, b)
}

/// A session that was put in has the snapshot's goal and contract, and is as old as the snapshot
/// says, or as the moment where it does not say. A load gives goal and contract back.
pub proof fn a_seeded_session_is_loaded(
    t: TablesModel,
    s: GraphSnapshot,
    now: Timestamp,
    loaded: SnapshotModel,
)
    requires
        seeded(t, s, now) is Ok,
        s.embedding matches Some(c) ==> c.dim <= usize::MAX,
        loads_as(
            seeded(t, s, now)->Ok_0,
            s.session_id@,
            Ok::<SnapshotModel, StoreErrorModel>(loaded),
        ),
    ensures
        ({
            let row = seeded(t, s, now)->Ok_0.sessions[seq![s.session_id@]];
            &&& row.session == s.session_id@
            &&& row.root_goal == opt_text(s.root_goal)
            &&& row.created_at == Some(
                stored_text(
                    if s.created_at is Some {
                        s.created_at->0
                    } else {
                        now
                    },
                ),
            )
            &&& s.closed_at is None ==> row.closed_at is None
            &&& s.closed_at matches Some(at) ==> row.closed_at == Some(stored_text(at))
        }),
        Ok::<_, StoreErrorModel>(loaded.root_goal) == goal_read(opt_text(s.root_goal)),
        loaded.embedding == opt_contract(s.embedding),
        loaded.session == s.session_id@,
{
    let parts = lemma_parts(t, s, now);
}

/// An interaction of a snapshot is loaded as it was put in, its instant cut to the millisecond.
pub proof fn a_seeded_interaction_is_loaded(
    t: TablesModel,
    s: GraphSnapshot,
    now: Timestamp,
    n: int,
    loaded: SnapshotModel,
) -> (at: int)
    requires
        seeded(t, s, now) is Ok,
        0 <= n < s.interactions@.len(),
        s.interactions@[n]@.session == s.session_id@,
        can_be_stored(s.interactions@[n]@.created_at),
        forall|j: int|
            n < j < s.interactions@.len() ==> (#[trigger] s.interactions@[j])@.id
                != s.interactions@[n]@.id,
        loads_as(
            seeded(t, s, now)->Ok_0,
            s.session_id@,
            Ok::<SnapshotModel, StoreErrorModel>(loaded),
        ),
    ensures
        0 <= at < loaded.interactions.len(),
        loaded.interactions[at] == (InteractionModel {
            created_at: s.interactions@[n]@.created_at.cut(),
            ..s.interactions@[n]@
        }),
{
    let parts = lemma_parts(t, s, now);
    let t0 = TablesModel {
        sessions: t.sessions.insert(seq![s.session_id@], seeded_row(s, now)),
        ..t
    };
    lemma_interactions(t0, s.interactions@, n);
    an_interaction_in_its_row_is_loaded(seeded(t, s, now)->Ok_0, s.interactions@[n]@, loaded)
}

/// A concept of a snapshot is loaded as it was put in, its instants cut to the millisecond; what
/// canonization has made of one that was there stays.
pub proof fn a_seeded_concept_is_loaded(
    t: TablesModel,
    s: GraphSnapshot,
    now: Timestamp,
    n: int,
    loaded: SnapshotModel,
) -> (at: int)
    requires
        seeded(t, s, now) is Ok,
        0 <= n < s.concepts@.len(),
        s.concepts@[n]@.session == s.session_id@,
        can_be_stored(s.concepts@[n]@.created_at),
        opt_can_be_stored(s.concepts@[n]@.last_accessed),
        opt_can_be_stored(s.concepts@[n]@.last_demotion),
        forall|j: int|
            0 <= j < s.concepts@.len() && j != n ==> (#[trigger] s.concepts@[j])@.id
                != s.concepts@[n]@.id,
        loads_as(
            seeded(t, s, now)->Ok_0,
            s.session_id@,
            Ok::<SnapshotModel, StoreErrorModel>(loaded),
        ),
    ensures
        0 <= at < loaded.concepts.len(),
        ({
            let (x, c) = (loaded.concepts[at], s.concepts@[n]@);
            let given = ConceptModel {
                created_at: c.created_at.cut(),
                last_accessed: cut_opt(c.last_accessed),
                last_demotion: cut_opt(c.last_demotion),
                ..c
            };
            &&& x == ConceptModel {
                status: x.status,
                blast_radius: x.blast_radius,
                last_demotion: x.last_demotion,
                ..given
            }
            &&& !t.concepts.contains_key(id_key(c.id)) ==> x == given
        }),
{
    let parts = lemma_parts(t, s, now);
    let v = concepts_of(s.concepts@);
    let c = s.concepts@[n]@;
    assert(v[n] == c);
    assert forall|j: int| 0 <= j < v.len() && j != n implies (#[trigger] v[j]).id != v[n].id by {
        assert(v[j] == s.concepts@[j]@);
    }
    lemma_concepts(parts.0, v, n);
    a_concept_in_its_row_is_loaded(seeded(t, s, now)->Ok_0, c, loaded)
}

/// An edge of a snapshot is loaded as it was put in, its instants cut to the millisecond.
pub proof fn a_seeded_edge_is_loaded(
    t: TablesModel,
    s: GraphSnapshot,
    now: Timestamp,
    n: int,
    loaded: SnapshotModel,
) -> (at: int)
    requires
        seeded(t, s, now) is Ok,
        0 <= n < s.edges@.len(),
        s.edges@[n]@.session == s.session_id@,
        can_be_stored(s.edges@[n]@.created_at),
        can_be_stored(s.edges@[n]@.last_reinforced),
        forall|j: int|
            n < j < s.edges@.len() ==> edge_key((#[trigger] s.edges@[j])@) != edge_key(
                s.edges@[n]@,
            ),
        loads_as(
            seeded(t, s, now)->Ok_0,
            s.session_id@,
            Ok::<SnapshotModel, StoreErrorModel>(loaded),
        ),
    ensures
        0 <= at < loaded.edges.len(),
        loaded.edges[at] == (EdgeModel {
            created_at: s.edges@[n]@.created_at.cut(),
            last_reinforced: s.edges@[n]@.last_reinforced.cut(),
            ..s.edges@[n]@
        }),
{
    let parts = lemma_parts(t, s, now);
    lemma_edges(parts.1, s.edges@, n);
    an_edge_in_its_row_is_loaded(seeded(t, s, now)->Ok_0, s.edges@[n]@, loaded)
}

/// A synonym of a snapshot is loaded as it was put in.
pub proof fn a_seeded_synonym_is_loaded(
    t: TablesModel,
    s: GraphSnapshot,
    now: Timestamp,
    n: int,
    loaded: SnapshotModel,
)
    requires
        seeded(t, s, now) is Ok,
        0 <= n < s.synonyms@.len(),
        s.synonyms@[n]@.session == s.session_id@,
        forall|j: int|
            n < j < s.synonyms@.len() ==> !same_source((#[trigger] s.synonyms@[j])@, s.synonyms@[n]@),
        loads_as(
            seeded(t, s, now)->Ok_0,
            s.session_id@,
            Ok::<SnapshotModel, StoreErrorModel>(loaded),
        ),
    ensures
        loaded.synonyms.contains(s.synonyms@[n]@),
{
    let u = seeded(t, s, now)->Ok_0;
    let parts = lemma_parts(t, s, now);
    lemma_synonyms(all_edges(parts.1, s.edges@), s.synonyms@, n);
    a_load_gives_all_records_of_the_session(u, s.session_id@, loaded);
    assert(u.synonyms.contains_key(seq![s.synonyms@[n]@.session, s.synonyms@[n]@.source]));
}

/// The last three parts of a snapshot, each upon the ones before.
proof fn lemma_late_parts(t: TablesModel, s: GraphSnapshot, now: Timestamp) -> (r: (
    TablesModel,
    TablesModel,
    TablesModel,
))
    requires
        seeded(t, s, now) is Ok,
    ensures
        ({
            let u = seeded(t, s, now)->Ok_0;
            &&& u.reservations == all_reservations(r.0, s.reservations@).reservations
            &&& u.events == all_events(r.1, s.canonization_events@).events
            &&& u.intents == all_intents(r.2, s.write_intents@).intents
            &&& r.1.events == t.events
        }),
{
    let t0 = TablesModel {
        sessions: t.sessions.insert(seq![s.session_id@], seeded_row(s, now)),
        ..t
    };
    let a = all_interactions(t0, s.interactions@)->Ok_0;
    lemma_interactions(t0, s.interactions@, 0);
    let v = concepts_of(s.concepts@);
    many_concepts_are_written_in_turn(a, v);
    let b = all_concepts(a, v)->Ok_0;
    lemma_concepts(a, v, 0);
    let c = all_edges(b, s.edges@);
    lemma_edges(b, s.edges@, 0);
    let d = all_synonyms(c, s.synonyms@);
    lemma_synonyms(c, s.synonyms@, 0);
    let e = all_reservations(d, s.reservations@);
    lemma_reservations(d, s.reservations@, 0);
    let f = all_events(e, s.canonization_events@);
    lemma_events(e, s.canonization_events@, 0);
    lemma_intents(f, s.write_intents@, 0);
    (d, e, f)
}

/// A reservation of a snapshot is loaded as it was put in, its instant cut to the millisecond.
pub proof fn a_seeded_reservation_is_loaded(
    t: TablesModel,
    s: GraphSnapshot,
    now: Timestamp,
    n: int,
    loaded: SnapshotModel,
)
    requires
        seeded(t, s, now) is Ok,
        0 <= n < s.reservations@.len(),
        s.reservations@[n]@.session == s.session_id@,
        can_be_stored(s.reservations@[n]@.expires_at),
        forall|j: int|
            n < j < s.reservations@.len() ==> !same_node(
                (#[trigger] s.reservations@[j])@,
                s.reservations@[n]@,
            ),
        loads_as(
            seeded(t, s, now)->Ok_0,
            s.session_id@,
            Ok::<SnapshotModel, StoreErrorModel>(loaded),
        ),
    ensures
        loaded.reservations.contains(
            ReservationModel {
                expires_at: s.reservations@[n]@.expires_at.cut(),
                ..s.reservations@[n]@
            },
        ),
{
    let u = seeded(t, s, now)->Ok_0;
    let x = s.reservations@[n]@;
    let parts = lemma_late_parts(t, s, now);
    lemma_reservations(parts.0, s.reservations@, n);
    a_load_gives_all_records_of_the_session(u, s.session_id@, loaded);
    a_reservation_reads_back(x);
    let key = seq![x.session, id_text(x.node)];
    let keys = Set::new(
        |k: RowKey|
            u.reservations.contains_key(k) && (|y: ReservationRowModel|
                y.session == s.session_id@)(u.reservations[k]),
    );
    assert(keys.contains(key));
    let i = choose|i: int|
        0 <= i < loaded.reservations.len() && reservation_read(u.reservations[key]) == Ok::<
            ReservationModel,
            StoreErrorModel,
        >(#[trigger] loaded.reservations[i]);
    assert(loaded.reservations[i] == (ReservationModel { expires_at: x.expires_at.cut(), ..x }));
}

/// A transition of a snapshot that is new is loaded as it was put in, its instants cut to the
/// millisecond; one that was on record stays as it was.
pub proof fn a_seeded_transition_is_loaded(
    t: TablesModel,
    s: GraphSnapshot,
    now: Timestamp,
    n: int,
    loaded: SnapshotModel,
)
    requires
        seeded(t, s, now) is Ok,
        0 <= n < s.canonization_events@.len(),
        s.canonization_events@[n]@.session == s.session_id@,
        can_be_stored(s.canonization_events@[n]@.occurred_at),
        opt_can_be_stored(s.canonization_events@[n]@.last_demotion),
        !t.events.contains_key(id_key(s.canonization_events@[n]@.id)),
        forall|j: int|
            0 <= j < n ==> (#[trigger] s.canonization_events@[j])@.id
                != s.canonization_events@[n]@.id,
        loads_as(
            seeded(t, s, now)->Ok_0,
            s.session_id@,
            Ok::<SnapshotModel, StoreErrorModel>(loaded),
        ),
    ensures
        loaded.events.contains(
            EventModel {
                occurred_at: s.canonization_events@[n]@.occurred_at.cut(),
                last_demotion: cut_opt(s.canonization_events@[n]@.last_demotion),
                ..s.canonization_events@[n]@
            },
        ),
        forall|k: RowKey| #[trigger]
            t.events.contains_key(k) ==> seeded(t, s, now)->Ok_0.events.contains_key(k)
                && seeded(t, s, now)->Ok_0.events[k] == t.events[k],
{
    let u = seeded(t, s, now)->Ok_0;
    let x = s.canonization_events@[n]@;
    let parts = lemma_late_parts(t, s, now);
    lemma_events(parts.1, s.canonization_events@, n);
    a_load_gives_all_records_of_the_session(u, s.session_id@, loaded);
    a_transition_reads_back(x);
    let key = id_key(x.id);
    let keys = Set::new(
        |k: RowKey|
            u.events.contains_key(k) && (|y: EventRowModel| y.session == s.session_id@)(
                u.events[k],
            ),
    );
    assert(keys.contains(key));
    let i = choose|i: int|
        0 <= i < loaded.events.len() && event_read(u.events[key]) == Ok::<
            EventModel,
            StoreErrorModel,
        >(#[trigger] loaded.events[i]);
    assert(loaded.events[i] == (EventModel {
        occurred_at: x.occurred_at.cut(),
        last_demotion: cut_opt(x.last_demotion),
        ..x
    }));
}

/// An intent of a snapshot is loaded as it was put in, its instants cut to the millisecond.
pub proof fn a_seeded_intent_is_loaded(
    t: TablesModel,
    s: GraphSnapshot,
    now: Timestamp,
    n: int,
    loaded: SnapshotModel,
) -> (at: int)
    requires
        seeded(t, s, now) is Ok,
        0 <= n < s.write_intents@.len(),
        s.write_intents@[n]@.session == s.session_id@,
        s.write_intents@[n]@.created_at.valid(),
        s.write_intents@[n]@.outcome matches Some(o) ==> o.consumed_at.valid(),
        intent_storable(s.write_intents@[n]@),
        forall|j: int|
            n < j < s.write_intents@.len() ==> !same_receipt(
                (#[trigger] s.write_intents@[j])@,
                s.write_intents@[n]@,
            ),
        loads_as(
            seeded(t, s, now)->Ok_0,
            s.session_id@,
            Ok::<SnapshotModel, StoreErrorModel>(loaded),
        ),
    ensures
        0 <= at < loaded.intents.len(),
        loaded.intents[at] == intent_stored(s.write_intents@[n]@),
{
    let parts = lemma_late_parts(t, s, now);
    lemma_intents(parts.2, s.write_intents@, n);
    an_intent_in_its_row_is_loaded(seeded(t, s, now)->Ok_0, s.write_intents@[n]@, loaded)
}

} // verus!
