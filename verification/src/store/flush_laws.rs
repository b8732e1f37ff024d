//! What a whole batch leaves: of the mutations that touch one thing the last decides.

use crate::job::{IntentModel, OutcomeModel};
use crate::store::flush::{applied, applied_all, flushed, steps_are_in_turn, with_sessions};
use crate::store::laws::can_be_stored;
use crate::store::load::loads_as;
use crate::store::mutation_laws::{
    a_contract_is_stamped, a_goal_is_set, a_node_is_deleted_with_its_edges, an_edge_is_deleted,
    what_was_just_consumed_is_kept,
};
use crate::store::round_trip::{an_intent_in_its_row_is_loaded, lemma_ids_differ};
use crate::store::rows::intent_written;
use crate::store::session::{goal_read, opt_contract, SnapshotModel};
use crate::store::structure_laws::is_plain_time;
use crate::store::table::RowKey;
use crate::store::tables::{id_key, id_text, TablesModel};
use crate::time::in_four_digit_years;
use crate::types::{
    opt_text, ContractModel, Mutation, Node, NodeId, StoreErrorModel, WRITE_INTENT_RETENTION_SECS,
};
use vstd::prelude::*;

verus! {

/// That a mutation writes the node with an identifier.
pub open spec fn writes_node(m: Mutation, id: NodeId) -> bool {
    match m {
        Mutation::UpsertNode { node: Node::Interaction(i) } => i@.id == id,
        Mutation::UpsertNode { node: Node::Concept(c) } => c@.id == id,
        _ => false,
    }
}

/// That a mutation writes an edge that touches a node: it begins or ends there, or has its
/// identifier.
pub open spec fn writes_edge_at(m: Mutation, id: NodeId) -> bool {
    match m {
        Mutation::UpsertEdge { edge } => edge@.source == id || edge@.target == id || edge@.id == id,
        _ => false,
    }
}

/// That a mutation writes an edge with an identifier.
pub open spec fn writes_edge(m: Mutation, id: NodeId) -> bool {
    match m {
        Mutation::UpsertEdge { edge } => edge@.id == id,
        _ => false,
    }
}

/// That no node has an identifier.
pub open spec fn node_is_gone(u: TablesModel, id: NodeId) -> bool {
    !u.interactions.contains_key(id_key(id)) && !u.concepts.contains_key(id_key(id))
}

/// That no edge touches a node.
pub open spec fn edges_are_gone(u: TablesModel, id: NodeId) -> bool {
    forall|k: RowKey| #[trigger]
        u.edges.contains_key(k) ==> u.edges[k].source != id_text(id) && u.edges[k].target
            != id_text(id) && u.edges[k].id != id_text(id)
}

/// That no edge has an identifier.
pub open spec fn edge_is_gone(u: TablesModel, id: NodeId) -> bool {
    forall|k: RowKey| #[trigger] u.edges.contains_key(k) ==> u.edges[k].id != id_text(id)
}

proof fn lemma_node_stays_gone(t: TablesModel, m: Mutation, id: NodeId)
    requires
        applied(t, m) is Ok,
        !writes_node(m, id),
        node_is_gone(t, id),
    ensures
        node_is_gone(applied(t, m)->Ok_0, id),
{
    match m {
        Mutation::UpsertNode { node: Node::Interaction(i) } => lemma_ids_differ(i@.id, id),
        Mutation::UpsertNode { node: Node::Concept(c) } => lemma_ids_differ(c@.id, id),
        Mutation::CanonizationTransition { event } => lemma_ids_differ(event@.node, id),
        _ => {},
    }
}

proof fn lemma_edges_stay_gone(t: TablesModel, m: Mutation, id: NodeId)
    requires
        applied(t, m) is Ok,
        !writes_edge_at(m, id),
        edges_are_gone(t, id),
    ensures
        edges_are_gone(applied(t, m)->Ok_0, id),
{
    let u = applied(t, m)->Ok_0;
    assert forall|k: RowKey| #[trigger] u.edges.contains_key(k) implies u.edges[k].source
        != id_text(id) && u.edges[k].target != id_text(id) && u.edges[k].id != id_text(id) by {
        match m {
            Mutation::UpsertEdge { edge } => {
                lemma_ids_differ(edge@.source, id);
                lemma_ids_differ(edge@.target, id);
                lemma_ids_differ(edge@.id, id);
            },
            _ => {},
        }
        assert(t.edges.contains_key(k) || !t.edges.contains_key(k));
    }
}

proof fn lemma_edge_stays_gone(t: TablesModel, m: Mutation, id: NodeId)
    requires
        applied(t, m) is Ok,
        !writes_edge(m, id),
        edge_is_gone(t, id),
    ensures
        edge_is_gone(applied(t, m)->Ok_0, id),
{
    let u = applied(t, m)->Ok_0;
    assert forall|k: RowKey| #[trigger] u.edges.contains_key(k) implies u.edges[k].id != id_text(
        id,
    ) by {
        match m {
            Mutation::UpsertEdge { edge } => lemma_ids_differ(edge@.id, id),
            _ => {},
        }
        assert(t.edges.contains_key(k) || !t.edges.contains_key(k));
    }
}

proof fn lemma_deletion_lasts(t: TablesModel, ms: Seq<Mutation>, n: int, id: NodeId)
    requires
        applied_all(t, ms) is Ok,
        0 <= n < ms.len(),
        ms[n] == (Mutation::DeleteNode { id }),
    ensures
        (forall|j: int| n < j < ms.len() ==> !writes_node(#[trigger] ms[j], id)) ==> node_is_gone(
            applied_all(t, ms)->Ok_0,
            id,
        ),
        (forall|j: int| n < j < ms.len() ==> !writes_edge_at(#[trigger] ms[j], id))
            ==> edges_are_gone(applied_all(t, ms)->Ok_0, id),
    decreases ms.len(),
{
    let less = ms.drop_last();
    let before = applied_all(t, less)->Ok_0;
    assert(ms.last() == ms[ms.len() - 1]);
    if n < ms.len() - 1 {
        assert(less[n] == ms[n]);
        lemma_deletion_lasts(t, less, n, id);
        if forall|j: int| n < j < ms.len() ==> !writes_node(#[trigger] ms[j], id) {
            assert forall|j: int| n < j < less.len() implies !writes_node(#[trigger] less[j], id) by {
                assert(less[j] == ms[j]);
            }
            assert(!writes_node(ms[ms.len() - 1], id));
            lemma_node_stays_gone(before, ms.last(), id);
        }
        if forall|j: int| n < j < ms.len() ==> !writes_edge_at(#[trigger] ms[j], id) {
            assert forall|j: int| n < j < less.len() implies !writes_edge_at(
                #[trigger] less[j],
                id,
            ) by {
                assert(less[j] == ms[j]);
            }
            assert(!writes_edge_at(ms[ms.len() - 1], id));
            lemma_edges_stay_gone(before, ms.last(), id);
        }
    } else {
        a_node_is_deleted_with_its_edges(before, id);
    }
}

/// A node that a batch deletes, and does not write again, is gone; and so is every edge that
/// touches it, unless the batch writes such a one later.
pub proof fn a_flushed_deletion_is_done(
    t: TablesModel,
    ms: Seq<Mutation>,
    token: Option<u64>,
    n: int,
    id: NodeId,
)
    requires
        flushed(t, ms, token) is Ok,
        0 <= n < ms.len(),
        ms[n] == (Mutation::DeleteNode { id }),
    ensures
        (forall|j: int| n < j < ms.len() ==> !writes_node(#[trigger] ms[j], id)) ==> node_is_gone(
            flushed(t, ms, token)->Ok_0,
            id,
        ),
        (forall|j: int| n < j < ms.len() ==> !writes_edge_at(#[trigger] ms[j], id))
            ==> edges_are_gone(flushed(t, ms, token)->Ok_0, id),
{
    let start = with_sessions(t, ms);
    steps_are_in_turn(start, ms);
    lemma_deletion_lasts(start, ms, n, id);
}

proof fn lemma_edge_deletion_lasts(t: TablesModel, ms: Seq<Mutation>, n: int, id: NodeId)
    requires
        applied_all(t, ms) is Ok,
        0 <= n < ms.len(),
        ms[n] == (Mutation::DeleteEdge { id }),
        forall|j: int| n < j < ms.len() ==> !writes_edge(#[trigger] ms[j], id),
    ensures
        edge_is_gone(applied_all(t, ms)->Ok_0, id),
    decreases ms.len(),
{
    let less = ms.drop_last();
    let before = applied_all(t, less)->Ok_0;
    assert(ms.last() == ms[ms.len() - 1]);
    if n < ms.len() - 1 {
        assert(less[n] == ms[n]);
        assert forall|j: int| n < j < less.len() implies !writes_edge(#[trigger] less[j], id) by {
            assert(less[j] == ms[j]);
        }
        lemma_edge_deletion_lasts(t, less, n, id);
        lemma_edge_stays_gone(before, ms.last(), id);
    } else {
        an_edge_is_deleted(before, id);
    }
}

/// An edge that a batch deletes, and does not write again, is gone.
pub proof fn a_flushed_edge_deletion_is_done(
    t: TablesModel,
    ms: Seq<Mutation>,
    token: Option<u64>,
    n: int,
    id: NodeId,
)
    requires
        flushed(t, ms, token) is Ok,
        0 <= n < ms.len(),
        ms[n] == (Mutation::DeleteEdge { id }),
        forall|j: int| n < j < ms.len() ==> !writes_edge(#[trigger] ms[j], id),
    ensures
        edge_is_gone(flushed(t, ms, token)->Ok_0, id),
{
    let start = with_sessions(t, ms);
    steps_are_in_turn(start, ms);
    lemma_edge_deletion_lasts(start, ms, n, id);
}

/// The goal that a mutation sets on a session, if it is one that does: `Some(None)` clears it.
pub open spec fn goal_of(m: Mutation, s: Seq<char>) -> Option<Option<Seq<char>>> {
    match m {
        Mutation::SetRootGoal { session_id, goal } => if session_id@ == s {
            Some(opt_text(goal))
        } else {
            None
        },
        _ => None,
    }
}

/// The contract that a mutation stamps on a session, if it is one that does: `Some(None)` clears
/// it.
pub open spec fn stamp_of(m: Mutation, s: Seq<char>) -> Option<Option<ContractModel>> {
    match m {
        Mutation::SetEmbedding { session_id, embedding } => if session_id@ == s {
            Some(opt_contract(embedding))
        } else {
            None
        },
        _ => None,
    }
}

proof fn lemma_session_key(a: Seq<char>, b: Seq<char>)
    ensures
        seq![a] == seq![b] <==> a == b,
{
    assert(seq![a][0] == a);
    assert(seq![b][0] == b);
}

proof fn lemma_goal_lasts(
    t: TablesModel,
    ms: Seq<Mutation>,
    n: int,
    s: Seq<char>,
    goal: Option<Seq<char>>,
)
    requires
        applied_all(t, ms) is Ok,
        0 <= n < ms.len(),
        goal_of(ms[n], s) == Some(goal),
        forall|j: int| n < j < ms.len() ==> goal_of(#[trigger] ms[j], s) is None,
    ensures
        applied_all(t, ms)->Ok_0.sessions.contains_key(seq![s]),
        applied_all(t, ms)->Ok_0.sessions[seq![s]].root_goal == goal,
    decreases ms.len(),
{
    let less = ms.drop_last();
    let before = applied_all(t, less)->Ok_0;
    assert(ms.last() == ms[ms.len() - 1]);
    if n < ms.len() - 1 {
        assert(less[n] == ms[n]);
        assert forall|j: int| n < j < less.len() implies goal_of(#[trigger] less[j], s) is None by {
            assert(less[j] == ms[j]);
        }
        lemma_goal_lasts(t, less, n, s, goal);
        match ms.last() {
            Mutation::SetRootGoal { session_id, .. } => lemma_session_key(session_id@, s),
            Mutation::SetEmbedding { session_id, .. } => lemma_session_key(session_id@, s),
            _ => {},
        }
    } else {
        a_goal_is_set(before, s, goal);
    }
}

/// Whatever else a batch does: of the goals that it sets on a session the last is loaded.
pub proof fn the_last_goal_is_loaded(
    t: TablesModel,
    ms: Seq<Mutation>,
    token: Option<u64>,
    n: int,
    s: Seq<char>,
    goal: Option<Seq<char>>,
    loaded: SnapshotModel,
)
    requires
        flushed(t, ms, token) is Ok,
        0 <= n < ms.len(),
        goal_of(ms[n], s) == Some(goal),
        forall|j: int| n < j < ms.len() ==> goal_of(#[trigger] ms[j], s) is None,
        loads_as(flushed(t, ms, token)->Ok_0, s, Ok::<SnapshotModel, StoreErrorModel>(loaded)),
    ensures
        goal is None ==> loaded.root_goal is None,
        Ok::<Option<Seq<char>>, StoreErrorModel>(loaded.root_goal) == goal_read(goal),
{
    let start = with_sessions(t, ms);
    steps_are_in_turn(start, ms);
    lemma_goal_lasts(start, ms, n, s, goal);
}

proof fn lemma_stamp_lasts(
    t: TablesModel,
    ms: Seq<Mutation>,
    n: int,
    s: Seq<char>,
    c: Option<ContractModel>,
)
    requires
        applied_all(t, ms) is Ok,
        0 <= n < ms.len(),
        stamp_of(ms[n], s) == Some(c),
        c matches Some(x) ==> x.dim <= i64::MAX,
        forall|j: int| n < j < ms.len() ==> stamp_of(#[trigger] ms[j], s) is None,
    ensures
        applied_all(t, ms)->Ok_0.sessions.contains_key(seq![s]),
        ({
            let row = applied_all(t, ms)->Ok_0.sessions[seq![s]];
            &&& c matches Some(x) ==> row.kind == Some(x.kind) && row.model == x.model && row.dim
                is Some && row.dim->0 == x.dim
            &&& c is None ==> row.kind is None && row.dim is None
        }),
    decreases ms.len(),
{
    let less = ms.drop_last();
    let before = applied_all(t, less)->Ok_0;
    assert(ms.last() == ms[ms.len() - 1]);
    if n < ms.len() - 1 {
        assert(less[n] == ms[n]);
        assert forall|j: int| n < j < less.len() implies stamp_of(#[trigger] less[j], s) is None by {
            assert(less[j] == ms[j]);
        }
        lemma_stamp_lasts(t, less, n, s, c);
        match ms.last() {
            Mutation::SetRootGoal { session_id, .. } => lemma_session_key(session_id@, s),
            Mutation::SetEmbedding { session_id, .. } => lemma_session_key(session_id@, s),
            _ => {},
        }
    } else {
        a_contract_is_stamped(before, s, c);
    }
}

/// Whatever else a batch does: of the contracts that it stamps on a session the last is loaded.
pub proof fn the_last_contract_is_loaded(
    t: TablesModel,
    ms: Seq<Mutation>,
    token: Option<u64>,
    n: int,
    s: Seq<char>,
    c: Option<ContractModel>,
    loaded: SnapshotModel,
)
    requires
        flushed(t, ms, token) is Ok,
        0 <= n < ms.len(),
        stamp_of(ms[n], s) == Some(c),
        c matches Some(x) ==> x.dim <= i64::MAX && x.dim <= usize::MAX,
        forall|j: int| n < j < ms.len() ==> stamp_of(#[trigger] ms[j], s) is None,
        loads_as(flushed(t, ms, token)->Ok_0, s, Ok::<SnapshotModel, StoreErrorModel>(loaded)),
    ensures
        loaded.embedding == c,
{
    let start = with_sessions(t, ms);
    steps_are_in_turn(start, ms);
    lemma_stamp_lasts(start, ms, n, s, c);
}

/// That a mutation puts an intent of a session and a receipt, or consumes one of the session.
pub open spec fn moves_intents(m: Mutation, s: Seq<char>, receipt: Seq<char>) -> bool {
    match m {
        Mutation::PutWriteIntent { intent } => intent@.session == s && intent@.receipt == receipt,
        Mutation::ConsumeWriteIntent { session_id, .. } => session_id@ == s,
        _ => false,
    }
}

proof fn lemma_outcome_lasts(
    t: TablesModel,
    ms: Seq<Mutation>,
    a: int,
    n: int,
    i: IntentModel,
    o: OutcomeModel,
)
    requires
        applied_all(t, ms) is Ok,
        0 <= a < n < ms.len(),
        ms[a] is PutWriteIntent,
        ms[a]->intent@ == i,
        i.outcome is None,
        ms[n] is ConsumeWriteIntent,
        ms[n]->ConsumeWriteIntent_session_id@ == i.session,
        ms[n]->receipt@ == i.receipt,
        ms[n]->outcome@ == o,
        is_plain_time(o.consumed_at),
        in_four_digit_years(o.consumed_at.secs() - WRITE_INTENT_RETENTION_SECS),
        forall|j: int|
            a < j < n ==> !(#[trigger] ms[j] is PutWriteIntent && ms[j]->intent@.session
                == i.session && ms[j]->intent@.receipt == i.receipt) && !(ms[j]
                is ConsumeWriteIntent && ms[j]->ConsumeWriteIntent_session_id@ == i.session
                && ms[j]->receipt@ == i.receipt),
        forall|j: int| n < j < ms.len() ==> !moves_intents(#[trigger] ms[j], i.session, i.receipt),
    ensures
        ({
            let u = applied_all(t, ms)->Ok_0;
            let key = seq![i.session, i.receipt];
            u.intents.contains_key(key) && u.intents[key] == intent_written(
                IntentModel { outcome: Some(o), ..i },
            )
        }),
    decreases ms.len(),
{
    let less = ms.drop_last();
    let before = applied_all(t, less)->Ok_0;
    let key = seq![i.session, i.receipt];
    assert(key[0] == i.session && key[1] == i.receipt);
    assert(ms.last() == ms[ms.len() - 1]);
    if n < ms.len() - 1 {
        assert(less[n] == ms[n] && less[a] == ms[a]);
        assert forall|j: int| a < j < n implies !(#[trigger] less[j] is PutWriteIntent
            && less[j]->intent@.session == i.session && less[j]->intent@.receipt == i.receipt) && !(
        less[j] is ConsumeWriteIntent && less[j]->ConsumeWriteIntent_session_id@ == i.session
            && less[j]->receipt@ == i.receipt) by {
            assert(less[j] == ms[j]);
        }
        assert forall|j: int| n < j < less.len() implies !moves_intents(
            #[trigger] less[j],
            i.session,
            i.receipt,
        ) by {
            assert(less[j] == ms[j]);
        }
        lemma_outcome_lasts(t, less, a, n, i, o);
        match ms.last() {
            Mutation::PutWriteIntent { intent } => {
                let other = seq![intent@.session, intent@.receipt];
                assert(other[0] == intent@.session && other[1] == intent@.receipt);
            },
            Mutation::ConsumeWriteIntent { session_id, receipt, outcome } => {
                let other = seq![session_id@, receipt@];
                assert(other[0] == session_id@ && other[1] == receipt@);
            },
            _ => {},
        }
    } else {
        assert(less[a] == ms[a]);
        lemma_open_lasts(t, less, a, i);
        what_was_just_consumed_is_kept(before, i.session, i.receipt, o);
    }
}

proof fn lemma_open_lasts(t: TablesModel, ms: Seq<Mutation>, a: int, i: IntentModel)
    requires
        applied_all(t, ms) is Ok,
        0 <= a < ms.len(),
        ms[a] is PutWriteIntent,
        ms[a]->intent@ == i,
        i.outcome is None,
        forall|j: int|
            a < j < ms.len() ==> !(#[trigger] ms[j] is PutWriteIntent && ms[j]->intent@.session
                == i.session && ms[j]->intent@.receipt == i.receipt) && !(ms[j]
                is ConsumeWriteIntent && ms[j]->ConsumeWriteIntent_session_id@ == i.session
                && ms[j]->receipt@ == i.receipt),
    ensures
        applied_all(t, ms)->Ok_0.intents.contains_key(seq![i.session, i.receipt]),
        applied_all(t, ms)->Ok_0.intents[seq![i.session, i.receipt]] == intent_written(i),
    decreases ms.len(),
{
    let less = ms.drop_last();
    let key = seq![i.session, i.receipt];
    assert(key[0] == i.session && key[1] == i.receipt);
    assert(ms.last() == ms[ms.len() - 1]);
    if a < ms.len() - 1 {
        assert(less[a] == ms[a]);
        assert forall|j: int| a < j < less.len() implies !(#[trigger] less[j] is PutWriteIntent
            && less[j]->intent@.session == i.session && less[j]->intent@.receipt == i.receipt) && !(
        less[j] is ConsumeWriteIntent && less[j]->ConsumeWriteIntent_session_id@ == i.session
            && less[j]->receipt@ == i.receipt) by {
            assert(less[j] == ms[j]);
        }
        lemma_open_lasts(t, less, a, i);
        match ms.last() {
            Mutation::PutWriteIntent { intent } => {
                let other = seq![intent@.session, intent@.receipt];
                assert(other[0] == intent@.session && other[1] == intent@.receipt);
            },
            Mutation::ConsumeWriteIntent { session_id, receipt, outcome } => {
                let other = seq![session_id@, receipt@];
                assert(other[0] == session_id@ && other[1] == receipt@);
            },
            _ => {},
        }
    }
}

/// An intent that a batch puts and then consumes is loaded with the outcome that it was given, and
/// otherwise as it was put.
pub proof fn a_consumed_intent_is_loaded_with_its_outcome(
    t: TablesModel,
    ms: Seq<Mutation>,
    token: Option<u64>,
    a: int,
    n: int,
    i: IntentModel,
    o: OutcomeModel,
    loaded: SnapshotModel,
) -> (at: int)
    requires
        flushed(t, ms, token) is Ok,
        0 <= a < n < ms.len(),
        ms[a] is PutWriteIntent,
        ms[a]->intent@ == i,
        i.outcome is None,
        can_be_stored(i.created_at),
        i.lane_seq <= i64::MAX,
        ms[n] is ConsumeWriteIntent,
        ms[n]->ConsumeWriteIntent_session_id@ == i.session,
        ms[n]->receipt@ == i.receipt,
        ms[n]->outcome@ == o,
        is_plain_time(o.consumed_at),
        in_four_digit_years(o.consumed_at.secs() - WRITE_INTENT_RETENTION_SECS),
        forall|j: int|
            a < j < n ==> !(#[trigger] ms[j] is PutWriteIntent && ms[j]->intent@.session
                == i.session && ms[j]->intent@.receipt == i.receipt) && !(ms[j]
                is ConsumeWriteIntent && ms[j]->ConsumeWriteIntent_session_id@ == i.session
                && ms[j]->receipt@ == i.receipt),
        forall|j: int| n < j < ms.len() ==> !moves_intents(#[trigger] ms[j], i.session, i.receipt),
        loads_as(
            flushed(t, ms, token)->Ok_0,
            i.session,
            Ok::<SnapshotModel, StoreErrorModel>(loaded),
        ),
    ensures
        0 <= at < loaded.intents.len(),
        loaded.intents[at] == (IntentModel {
            created_at: i.created_at.cut(),
            outcome: Some(OutcomeModel { consumed_at: o.consumed_at.cut(), ..o }),
            ..i
        }),
{
    let start = with_sessions(t, ms);
    steps_are_in_turn(start, ms);
    lemma_outcome_lasts(start, ms, a, n, i, o);
    let x = IntentModel { outcome: Some(o), ..i };
    assert(crate::store::tables::intent_key(i.session, i.receipt) == seq![i.session, i.receipt]);
    an_intent_in_its_row_is_loaded(flushed(t, ms, token)->Ok_0, x, loaded)
}

} // verus!
