//! Whole writes: a batch of mutations, a recorded transition, and a session put in from a
//! snapshot. Each is done as a whole or refused as a whole.

use crate::store::bulk::{
    all_concepts, concept_models, together_is_in_turn, upsert_concepts, upsert_together,
    written_in_turn, written_together, CONCEPTS_TOGETHER,
};
use crate::store::codec::{opt_stored, write_opt_ts, write_ts};
use crate::store::keys::key1;
use crate::store::lease::{fence, fenced, lease_of};
use crate::store::rows::{
    event_row, event_written, reservation_row, reservation_written, ConceptModel, EventModel,
    ReservationModel, ReservationRow,
};
use crate::store::session::{concepts_of, opt_contract, SessionRow, SessionRowModel, SynonymModel};
use crate::store::table::Row;
use crate::store::tables::{
    apply_canonization_transition, can_be_purged_from, canonized, concept_upserted,
    consume_write_intent, delete_edge, delete_node, edge_deleted, edge_upserted, embedding_set,
    ensure_session, goal_set, id_key, intent_consumed, intent_put, interaction_upserted,
    node_deleted, outcome, put_write_intent, set_embedding, set_root_goal, sound, stamped,
    upsert_concept, upsert_edge, upsert_interaction, with_session, Tables, TablesModel,
};
use crate::time::{stored_text, Timestamp};
use crate::types::{
    clone_opt, opt_text, CanonizationEvent, Concept, Edge, GraphSnapshot, Interaction, Mutation,
    MutationBatch, Node, Reservation, StoreError, StoreErrorModel, Synonym, WriteIntent,
};
use vstd::prelude::*;
use vstd::string::*;

verus! {

/// The session that a mutation names. Deletions name none.
pub open spec fn named_session(m: Mutation) -> Option<Seq<char>> {
    match m {
        Mutation::UpsertNode { node } => Some(node.session_of()@),
        Mutation::UpsertEdge { edge } => Some(edge.session_id@),
        Mutation::CanonizationTransition { event } => Some(event.session_id@),
        Mutation::SetRootGoal { session_id, .. } => Some(session_id@),
        Mutation::SetEmbedding { session_id, .. } => Some(session_id@),
        Mutation::PutWriteIntent { intent } => Some(intent.session_id@),
        Mutation::ConsumeWriteIntent { session_id, .. } => Some(session_id@),
        Mutation::DeleteNode { .. } => None,
        Mutation::DeleteEdge { .. } => None,
    }
}

fn session_named(m: &Mutation) -> (r: Option<&str>)
    ensures
        match r {
            Some(s) => named_session(*m) == Some(s@),
            None => named_session(*m) is None,
        },
{
    match m {
        Mutation::UpsertNode { node } => Some(node.session_id().as_str()),
        Mutation::UpsertEdge { edge } => Some(edge.session_id.as_str()),
        Mutation::CanonizationTransition { event } => Some(event.session_id.as_str()),
        Mutation::SetRootGoal { session_id, .. } => Some(session_id.as_str()),
        Mutation::SetEmbedding { session_id, .. } => Some(session_id.as_str()),
        Mutation::PutWriteIntent { intent } => Some(intent.session_id.as_str()),
        Mutation::ConsumeWriteIntent { session_id, .. } => Some(session_id.as_str()),
        Mutation::DeleteNode { .. } => None,
        Mutation::DeleteEdge { .. } => None,
    }
}

/// The tables with a row for every session that mutations name.
pub open spec fn with_sessions(t: TablesModel, ms: Seq<Mutation>) -> TablesModel
    decreases ms.len(),
{
    if ms.len() == 0 {
        t
    } else {
        let t = with_sessions(t, ms.drop_last());
        match named_session(ms.last()) {
            Some(s) => with_session(t, s),
            None => t,
        }
    }
}

/// Sees to it that every session that a batch names has a row.
pub fn ensure_sessions(t: Tables, ms: &Vec<Mutation>) -> (r: Tables)
    requires
        t.wf(),
    ensures
        r.wf(),
        r@ == with_sessions(t@, ms@),
{
    let ghost start = t@;
    let mut t = t;
    let mut i: usize = 0;
    proof {
        assert(ms@.take(0) =~= Seq::empty());
    }
    while i < ms.len()
        invariant
            i <= ms@.len(),
            t.wf(),
            t@ == with_sessions(start, ms@.take(i as int)),
        decreases ms@.len() - i,
    {
        proof {
            assert(ms@.take(i + 1).drop_last() =~= ms@.take(i as int));
            assert(ms@.take(i + 1).last() == ms@[i as int]);
        }
        match session_named(&ms[i]) {
            Some(s) => {
                t = ensure_session(t, s);
            },
            None => {},
        }
        i = i + 1;
    }
    proof {
        assert(ms@.take(ms@.len() as int) =~= ms@);
    }
    t
}

/// The token at which the lease of a session stands.
pub open spec fn token_of(t: TablesModel, session: Seq<char>) -> Option<i64> {
    match lease_of(t.leases, session) {
        Some(row) => Some(row.token),
        None => None,
    }
}

fn fence_session(t: &Tables, session: &str, token: Option<u64>) -> (r: Result<(), StoreError>)
    requires
        t.wf(),
    ensures
        match r {
            Ok(()) => fenced(session@, token_of(t@, session@), token) is None,
            Err(e) => fenced(session@, token_of(t@, session@), token) == Some(e@),
        },
{
    let current: Option<i64> = match t.session_leases.get(&key1(session)) {
        Some(row) => Some(row.current_token),
        None => None,
    };
    fence(session, current, token)
}

/// Why a batch is fenced off, if it is: the first session it names whose lease refuses the token.
pub open spec fn batch_fenced(
    t: TablesModel,
    ms: Seq<Mutation>,
    token: Option<u64>,
) -> Option<StoreErrorModel>
    decreases ms.len(),
{
    if ms.len() == 0 {
        None
    } else {
        match batch_fenced(t, ms.drop_last(), token) {
            Some(e) => Some(e),
            None => match named_session(ms.last()) {
                Some(s) => fenced(s, token_of(t, s), token),
                None => None,
            },
        }
    }
}

proof fn lemma_fence_stays(
    t: TablesModel,
    ms: Seq<Mutation>,
    token: Option<u64>,
    k: int,
)
    requires
        0 <= k <= ms.len(),
        batch_fenced(t, ms.take(k), token) is Some,
    ensures
        batch_fenced(t, ms, token) == batch_fenced(t, ms.take(k), token),
    decreases ms.len() - k,
{
    if k == ms.len() {
        assert(ms.take(k) =~= ms);
    } else {
        assert(ms.take(k + 1).drop_last() =~= ms.take(k));
        lemma_fence_stays(t, ms, token, k + 1);
    }
}

/// Tests a batch against the leases of the sessions it names.
pub fn fence_batch(t: &Tables, ms: &Vec<Mutation>, token: Option<u64>) -> (r: Result<
    (),
    StoreError,
>)
    requires
        t.wf(),
    ensures
        match r {
            Ok(()) => batch_fenced(t@, ms@, token) is None,
            Err(e) => batch_fenced(t@, ms@, token) == Some(e@),
        },
{
    let mut i: usize = 0;
    proof {
        assert(ms@.take(0) =~= Seq::empty());
    }
    while i < ms.len()
        invariant
            t.wf(),
            i <= ms@.len(),
            batch_fenced(t@, ms@.take(i as int), token) is None,
        decreases ms@.len() - i,
    {
        proof {
            assert(ms@.take(i + 1).drop_last() =~= ms@.take(i as int));
            assert(ms@.take(i + 1).last() == ms@[i as int]);
        }
        match session_named(&ms[i]) {
            Some(s) => match fence_session(t, s, token) {
                Ok(()) => {},
                Err(e) => {
                    proof {
                        lemma_fence_stays(t@, ms@, token, i + 1);
                    }
                    return Err(e);
                },
            },
            None => {},
        }
        i = i + 1;
    }
    proof {
        assert(ms@.take(ms@.len() as int) =~= ms@);
    }
    Ok(())
}

/// What a mutation does to the tables.
pub open spec fn applied(t: TablesModel, m: Mutation) -> Result<TablesModel, StoreErrorModel> {
    match m {
        Mutation::UpsertNode { node: Node::Interaction(i) } => interaction_upserted(t, i@),
        Mutation::UpsertNode { node: Node::Concept(c) } => concept_upserted(t, c@),
        Mutation::UpsertEdge { edge } => Ok(edge_upserted(t, edge@)),
        Mutation::DeleteNode { id } => node_deleted(t, id),
        Mutation::DeleteEdge { id } => Ok(edge_deleted(t, id)),
        Mutation::CanonizationTransition { event } => canonized(t, event@),
        Mutation::SetRootGoal { session_id, goal } => goal_set(t, session_id@, opt_text(goal)),
        Mutation::SetEmbedding { session_id, embedding } => embedding_set(
            t,
            session_id@,
            opt_contract(embedding),
        ),
        Mutation::PutWriteIntent { intent } => Ok(intent_put(t, intent@)),
        Mutation::ConsumeWriteIntent { session_id, receipt, outcome } => Ok(
            intent_consumed(t, session_id@, receipt@, outcome@),
        ),
    }
}

/// That a mutation's instants leave room for what it purges.
pub open spec fn purges_in_time(m: Mutation) -> bool {
    m matches Mutation::ConsumeWriteIntent { outcome, .. } ==> can_be_purged_from(outcome@)
}

/// Applies a mutation.
pub fn apply_single(t: Tables, m: &Mutation) -> (r: Result<Tables, StoreError>)
    requires
        t.wf(),
        purges_in_time(*m),
    ensures
        outcome(r) == applied(t@, *m),
        sound(r),
{
    match m {
        Mutation::UpsertNode { node } => match node {
            Node::Interaction(i) => upsert_interaction(t, i),
            Node::Concept(c) => upsert_concept(t, c),
        },
        Mutation::UpsertEdge { edge } => Ok(upsert_edge(t, edge)),
        Mutation::DeleteNode { id } => delete_node(t, *id),
        Mutation::DeleteEdge { id } => Ok(delete_edge(t, *id)),
        Mutation::CanonizationTransition { event } => apply_canonization_transition(t, event),
        Mutation::SetRootGoal { session_id, goal } => set_root_goal(t, session_id, goal),
        Mutation::SetEmbedding { session_id, embedding } => set_embedding(
            t,
            session_id,
            embedding,
        ),
        Mutation::PutWriteIntent { intent } => Ok(put_write_intent(t, intent)),
        Mutation::ConsumeWriteIntent { session_id, receipt, outcome } => Ok(
            consume_write_intent(t, session_id, receipt.as_str(), outcome),
        ),
    }
}

/// What mutations do to the tables, one after the other. The first that is refused ends it.
pub open spec fn applied_all(t: TablesModel, ms: Seq<Mutation>) -> Result<
    TablesModel,
    StoreErrorModel,
>
    decreases ms.len(),
{
    if ms.len() == 0 {
        Ok(t)
    } else {
        match applied_all(t, ms.drop_last()) {
            Err(e) => Err(e),
            Ok(t) => applied(t, ms.last()),
        }
    }
}

/// The concept that a mutation puts in or changes, if it is one that does.
pub open spec fn upserted_concept(m: Mutation) -> Option<ConceptModel> {
    match m {
        Mutation::UpsertNode { node: Node::Concept(c) } => Some(c@),
        _ => None,
    }
}

/// The concepts that mutations put in or change.
pub open spec fn upserted_concepts(ms: Seq<Mutation>) -> Seq<ConceptModel> {
    Seq::new(ms.len(), |i: int| upserted_concept(ms[i])->0)
}

/// How many of the first mutations are upserts of concepts, as many as may be written together.
pub open spec fn run_of_concepts(ms: Seq<Mutation>, most: nat) -> nat
    decreases most,
{
    if most == 0 || ms.len() == 0 || upserted_concept(ms[0]) is None {
        0
    } else {
        1 + run_of_concepts(ms.skip(1), (most - 1) as nat)
    }
}

/// What mutations do to the tables, step by step: a run of concepts is written together, every
/// other mutation on its own. The first step that is refused ends it.
pub open spec fn applied_in_steps(t: TablesModel, ms: Seq<Mutation>) -> Result<
    TablesModel,
    StoreErrorModel,
>
    decreases ms.len(),
{
    let n = run_of_concepts(ms, CONCEPTS_TOGETHER as nat) as int;
    if ms.len() == 0 {
        Ok(t)
    } else if 0 < n <= ms.len() {
        match written_together(t, upserted_concepts(ms.take(n))) {
            Err(e) => Err(e),
            Ok(u) => applied_in_steps(u, ms.skip(n)),
        }
    } else {
        match applied(t, ms[0]) {
            Err(e) => Err(e),
            Ok(u) => applied_in_steps(u, ms.skip(1)),
        }
    }
}

proof fn lemma_run(ms: Seq<Mutation>, most: nat)
    ensures
        run_of_concepts(ms, most) <= ms.len(),
        run_of_concepts(ms, most) <= most,
        forall|i: int|
            0 <= i < run_of_concepts(ms, most) ==> upserted_concept(#[trigger] ms[i]) is Some,
    decreases most,
{
    if most > 0 && ms.len() > 0 && upserted_concept(ms[0]) is Some {
        lemma_run(ms.skip(1), (most - 1) as nat);
        let n = run_of_concepts(ms, most);
        assert forall|i: int| 0 <= i < n implies upserted_concept(#[trigger] ms[i]) is Some by {
            if i > 0 {
                assert(ms.skip(1)[i - 1] == ms[i]);
            }
        }
    }
}

proof fn lemma_applied_after(t: TablesModel, a: Seq<Mutation>, b: Seq<Mutation>)
    ensures
        applied_all(t, a + b) == match applied_all(t, a) {
            Err(e) => Err(e),
            Ok(u) => applied_all(u, b),
        },
    decreases b.len(),
{
    if b.len() == 0 {
        assert(a + b =~= a);
    } else {
        assert((a + b).drop_last() =~= a + b.drop_last());
        assert((a + b).last() == b.last());
        lemma_applied_after(t, a, b.drop_last());
    }
}

proof fn lemma_run_in_turn(t: TablesModel, ms: Seq<Mutation>)
    requires
        forall|i: int| 0 <= i < ms.len() ==> upserted_concept(#[trigger] ms[i]) is Some,
    ensures
        written_in_turn(t, upserted_concepts(ms)) == applied_all(t, ms),
    decreases ms.len(),
{
    if ms.len() > 0 {
        let less = ms.drop_last();
        assert forall|i: int| 0 <= i < less.len() implies upserted_concept(#[trigger] less[i])
            is Some by {
            assert(less[i] == ms[i]);
        }
        lemma_run_in_turn(t, less);
        assert(upserted_concepts(ms).drop_last() =~= upserted_concepts(less));
        assert(upserted_concept(ms[ms.len() - 1]) is Some);
        assert(upserted_concepts(ms).last() == upserted_concept(ms.last())->0);
    } else {
        assert(upserted_concepts(ms) =~= Seq::empty());
    }
}

/// Mutations applied step by step succeed exactly where each applied on its own would, and leave
/// the same tables. Only which of several faults is reported differs.
pub proof fn steps_are_in_turn(t: TablesModel, ms: Seq<Mutation>)
    ensures
        applied_in_steps(t, ms) is Ok <==> applied_all(t, ms) is Ok,
        applied_in_steps(t, ms) is Ok ==> applied_in_steps(t, ms) == applied_all(t, ms),
    decreases ms.len(),
{
    if ms.len() > 0 {
        let most = CONCEPTS_TOGETHER as nat;
        lemma_run(ms, most);
        let n = run_of_concepts(ms, most) as int;
        let k = if n > 0 {
            n
        } else {
            1
        };
        let (a, b) = (ms.take(k), ms.skip(k));
        assert(a + b =~= ms);
        lemma_applied_after(t, a, b);
        if n > 0 {
            assert forall|i: int| 0 <= i < a.len() implies upserted_concept(#[trigger] a[i])
                is Some by {
                assert(a[i] == ms[i]);
            }
            lemma_run_in_turn(t, a);
            together_is_in_turn(t, upserted_concepts(a));
            if written_together(t, upserted_concepts(a)) is Ok {
                steps_are_in_turn(written_together(t, upserted_concepts(a))->Ok_0, b);
            }
        } else {
            assert(a.drop_last() =~= Seq::empty());
            assert(a.last() == ms[0]);
            assert(applied_all(t, a.drop_last()) == Ok::<TablesModel, StoreErrorModel>(t));
            if applied(t, ms[0]) is Ok {
                steps_are_in_turn(applied(t, ms[0])->Ok_0, b);
            }
        }
    }
}

/// The concepts of a run that begins at a place of a batch.
fn collect_run(ms: &Vec<Mutation>, at: usize) -> (r: Vec<&Concept>)
    requires
        at <= ms@.len(),
    ensures
        r@.len() == run_of_concepts(ms@.skip(at as int), CONCEPTS_TOGETHER as nat),
        r@.len() <= ms@.len() - at,
        concept_models(r@) == upserted_concepts(ms@.skip(at as int).take(r@.len() as int)),
{
    let ghost rest = ms@.skip(at as int);
    let mut run: Vec<&Concept> = Vec::new();
    let mut n: usize = 0;
    proof {
        assert(rest.skip(0) =~= rest);
        assert(concept_models(run@) =~= upserted_concepts(rest.take(0)));
    }
    while n < CONCEPTS_TOGETHER && n < ms.len() - at
        invariant_except_break
            run_of_concepts(rest, CONCEPTS_TOGETHER as nat) == n + run_of_concepts(
                rest.skip(n as int),
                (CONCEPTS_TOGETHER - n) as nat,
            ),
        invariant
            at <= ms@.len(),
            rest == ms@.skip(at as int),
            n <= CONCEPTS_TOGETHER,
            n <= rest.len(),
            run@.len() == n,
            concept_models(run@) == upserted_concepts(rest.take(n as int)),
        ensures
            run_of_concepts(rest, CONCEPTS_TOGETHER as nat) == n,
        decreases CONCEPTS_TOGETHER - n,
    {
        proof {
            assert(rest.skip(n as int)[0] == ms@[at + n]);
            assert(rest.skip(n as int).skip(1) =~= rest.skip(n + 1));
        }
        match &ms[at + n] {
            Mutation::UpsertNode { node: Node::Concept(c) } => {
                let ghost before = run@;
                run.push(c);
                n = n + 1;
                proof {
                    let upto = rest.take(n as int);
                    assert(concept_models(run@) =~= concept_models(before).push(c@));
                    assert(upserted_concepts(upto) =~= upserted_concepts(rest.take(n - 1)).push(
                        c@,
                    ));
                }
            },
            _ => {
                break ;
            },
        }
    }
    run
}

/// What a flush does. An empty batch does nothing; otherwise every session it names gets a row,
/// the fence is asked, and the mutations are applied in their order, step by step.
pub open spec fn flushed(t: TablesModel, ms: Seq<Mutation>, token: Option<u64>) -> Result<
    TablesModel,
    StoreErrorModel,
> {
    if ms.len() == 0 {
        Ok(t)
    } else {
        let t = with_sessions(t, ms);
        match batch_fenced(t, ms, token) {
            Some(e) => Err(e),
            None => applied_in_steps(t, ms),
        }
    }
}

/// Applies a batch of mutations as a whole. A batch that is refused leaves no tables behind: the
/// caller keeps those it had.
pub fn flush(t: Tables, batch: &MutationBatch, token: Option<u64>) -> (r: Result<
    Tables,
    StoreError,
>)
    requires
        t.wf(),
        forall|i: int|
            0 <= i < batch.mutations@.len() ==> purges_in_time(#[trigger] batch.mutations@[i]),
    ensures
        outcome(r) == flushed(t@, batch.mutations@, token),
        sound(r),
{
    if batch.is_empty() {
        return Ok(t);
    }
    let ms = &batch.mutations;
    let mut cur = ensure_sessions(t, ms);
    match fence_batch(&cur, ms, token) {
        Ok(()) => {},
        Err(e) => {
            return Err(e);
        },
    }
    let ghost start = cur@;
    let mut i: usize = 0;
    proof {
        assert(ms@.skip(0) =~= ms@);
    }
    while i < ms.len()
        invariant
            i <= ms@.len(),
            cur.wf(),
            forall|j: int| 0 <= j < ms@.len() ==> purges_in_time(#[trigger] ms@[j]),
            applied_in_steps(start, ms@) == applied_in_steps(cur@, ms@.skip(i as int)),
            flushed(t@, ms@, token) == applied_in_steps(start, ms@),
            ms@ == batch.mutations@,
        decreases ms@.len() - i,
    {
        let ghost rest = ms@.skip(i as int);
        let run = collect_run(ms, i);
        if run.len() > 0 {
            cur = match upsert_together(cur, &run) {
                Ok(t) => t,
                Err(e) => {
                    return Err(e);
                },
            };
            proof {
                assert(rest.skip(run@.len() as int) =~= ms@.skip(i + run@.len()));
            }
            i = i + run.len();
        } else {
            proof {
                assert(rest[0] == ms@[i as int]);
                assert(rest.skip(1) =~= ms@.skip(i + 1));
            }
            cur = match apply_single(cur, &ms[i]) {
                Ok(t) => t,
                Err(e) => {
                    return Err(e);
                },
            };
            i = i + 1;
        }
    }
    Ok(cur)
}

/// What recording a transition does: the fence of its session is asked, then it is applied.
pub open spec fn recorded(t: TablesModel, e: EventModel, token: Option<u64>) -> Result<
    TablesModel,
    StoreErrorModel,
> {
    match fenced(e.session, token_of(t, e.session), token) {
        Some(err) => Err(err),
        None => canonized(t, e),
    }
}

/// Records a transition.
pub fn record_canonization(t: Tables, e: &CanonizationEvent, token: Option<u64>) -> (r: Result<
    Tables,
    StoreError,
>)
    requires
        t.wf(),
    ensures
        outcome(r) == recorded(t@, e@, token),
        sound(r),
{
    match fence_session(&t, e.session_id.as_str(), token) {
        Ok(()) => apply_canonization_transition(t, e),
        Err(err) => Err(err),
    }
}

/// What the upsert of interactions does, one after the other.
pub open spec fn all_interactions(t: TablesModel, v: Seq<Interaction>) -> Result<TablesModel, StoreErrorModel>
    decreases v.len(),
{
    if v.len() == 0 {
        Ok(t)
    } else {
        match all_interactions(t, v.drop_last()) {
            Err(e) => Err(e),
            Ok(t) => interaction_upserted(t, v.last()@),
        }
    }
}

proof fn lemma_all_interactions_stop(t: TablesModel, v: Seq<Interaction>, k: int, e: StoreErrorModel)
    requires
        0 <= k <= v.len(),
        all_interactions(t, v.take(k)) == Err::<TablesModel, StoreErrorModel>(e),
    ensures
        all_interactions(t, v) == Err::<TablesModel, StoreErrorModel>(e),
    decreases v.len() - k,
{
    if k == v.len() {
        assert(v.take(k) =~= v);
    } else {
        assert(v.take(k + 1).drop_last() =~= v.take(k));
        lemma_all_interactions_stop(t, v, k + 1, e);
    }
}

fn upsert_interactions(t: Tables, v: &Vec<Interaction>) -> (r: Result<Tables, StoreError>)
    requires
        t.wf(),
    ensures
        outcome(r) == all_interactions(t@, v@),
        sound(r),
{
    let ghost start = t@;
    let mut cur = t;
    let mut i: usize = 0;
    proof {
        assert(v@.take(0) =~= Seq::empty());
    }
    while i < v.len()
        invariant
            i <= v@.len(),
            cur.wf(),
            start == t@,
            all_interactions(start, v@.take(i as int)) == Ok::<TablesModel, StoreErrorModel>(cur@),
        decreases v@.len() - i,
    {
        proof {
            assert(v@.take(i + 1).drop_last() =~= v@.take(i as int));
            assert(v@.take(i + 1).last() == v@[i as int]);
        }
        cur = match upsert_interaction(cur, &v[i]) {
            Ok(t) => t,
            Err(e) => {
                proof {
                    lemma_all_interactions_stop(start, v@, i + 1, e@);
                }
                return Err(e);
            },
        };
        i = i + 1;
    }
    proof {
        assert(v@.take(v@.len() as int) =~= v@);
    }
    Ok(cur)
}

/// What the upsert of edges does, one after the other.
pub open spec fn all_edges(t: TablesModel, v: Seq<Edge>) -> TablesModel
    decreases v.len(),
{
    if v.len() == 0 {
        t
    } else {
        edge_upserted(all_edges(t, v.drop_last()), v.last()@)
    }
}

fn upsert_edges(t: Tables, v: &Vec<Edge>) -> (r: Tables)
    requires
        t.wf(),
    ensures
        r.wf(),
        r@ == all_edges(t@, v@),
{
    let ghost start = t@;
    let mut t = t;
    let mut i: usize = 0;
    proof {
        assert(v@.take(0) =~= Seq::empty());
    }
    while i < v.len()
        invariant
            i <= v@.len(),
            t.wf(),
            t@ == all_edges(start, v@.take(i as int)),
        decreases v@.len() - i,
    {
        proof {
            assert(v@.take(i + 1).drop_last() =~= v@.take(i as int));
            assert(v@.take(i + 1).last() == v@[i as int]);
        }
        t = upsert_edge(t, &v[i]);
        i = i + 1;
    }
    proof {
        assert(v@.take(v@.len() as int) =~= v@);
    }
    t
}

/// What putting a synonym does.
pub open spec fn synonym_put(t: TablesModel, s: SynonymModel) -> TablesModel {
    TablesModel { synonyms: t.synonyms.insert(seq![s.session, s.source], s), ..t }
}

fn put_synonym(t: Tables, s: &Synonym) -> (r: Tables)
    requires
        t.wf(),
    ensures
        r.wf(),
        r@ == synonym_put(t@, s@),
{
    let mut t = t;
    t.synonyms.put(s.copy());
    t
}

/// What putting synonyms does.
pub open spec fn all_synonyms(t: TablesModel, v: Seq<Synonym>) -> TablesModel
    decreases v.len(),
{
    if v.len() == 0 {
        t
    } else {
        synonym_put(all_synonyms(t, v.drop_last()), v.last()@)
    }
}

fn put_synonyms(t: Tables, v: &Vec<Synonym>) -> (r: Tables)
    requires
        t.wf(),
    ensures
        r.wf(),
        r@ == all_synonyms(t@, v@),
{
    let ghost start = t@;
    let mut t = t;
    let mut i: usize = 0;
    proof {
        assert(v@.take(0) =~= Seq::empty());
    }
    while i < v.len()
        invariant
            i <= v@.len(),
            t.wf(),
            t@ == all_synonyms(start, v@.take(i as int)),
        decreases v@.len() - i,
    {
        proof {
            assert(v@.take(i + 1).drop_last() =~= v@.take(i as int));
            assert(v@.take(i + 1).last() == v@[i as int]);
        }
        t = put_synonym(t, &v[i]);
        i = i + 1;
    }
    proof {
        assert(v@.take(v@.len() as int) =~= v@);
    }
    t
}

/// What putting a reservation does: a node is reserved for one agent.
pub open spec fn reservation_put(t: TablesModel, x: ReservationModel) -> TablesModel {
    TablesModel {
        reservations: t.reservations.insert(
            ReservationRow::key_of(reservation_written(x)),
            reservation_written(x),
        ),
        ..t
    }
}

fn put_reservation(t: Tables, x: &Reservation) -> (r: Tables)
    requires
        t.wf(),
    ensures
        r.wf(),
        r@ == reservation_put(t@, x@),
{
    let mut t = t;
    t.reservations.put(reservation_row(x));
    t
}

/// What putting reservations does.
pub open spec fn all_reservations(t: TablesModel, v: Seq<Reservation>) -> TablesModel
    decreases v.len(),
{
    if v.len() == 0 {
        t
    } else {
        reservation_put(all_reservations(t, v.drop_last()), v.last()@)
    }
}

fn put_reservations(t: Tables, v: &Vec<Reservation>) -> (r: Tables)
    requires
        t.wf(),
    ensures
        r.wf(),
        r@ == all_reservations(t@, v@),
{
    let ghost start = t@;
    let mut t = t;
    let mut i: usize = 0;
    proof {
        assert(v@.take(0) =~= Seq::empty());
    }
    while i < v.len()
        invariant
            i <= v@.len(),
            t.wf(),
            t@ == all_reservations(start, v@.take(i as int)),
        decreases v@.len() - i,
    {
        proof {
            assert(v@.take(i + 1).drop_last() =~= v@.take(i as int));
            assert(v@.take(i + 1).last() == v@[i as int]);
        }
        t = put_reservation(t, &v[i]);
        i = i + 1;
    }
    proof {
        assert(v@.take(v@.len() as int) =~= v@);
    }
    t
}

/// What appending a transition does where it is not applied. One that is there stays as it is.
pub open spec fn event_appended(t: TablesModel, e: EventModel) -> TablesModel {
    if t.events.contains_key(id_key(e.id)) {
        t
    } else {
        TablesModel { events: t.events.insert(id_key(e.id), event_written(e)), ..t }
    }
}

fn append_event(t: Tables, e: &CanonizationEvent) -> (r: Tables)
    requires
        t.wf(),
    ensures
        r.wf(),
        r@ == event_appended(t@, e@),
{
    let mut t = t;
    let row = event_row(e);
    if t.canonization_events.get(&key1(row.id.as_str())).is_none() {
        t.canonization_events.put(row);
    }
    t
}

/// What appending transitions does.
pub open spec fn all_events(t: TablesModel, v: Seq<CanonizationEvent>) -> TablesModel
    decreases v.len(),
{
    if v.len() == 0 {
        t
    } else {
        event_appended(all_events(t, v.drop_last()), v.last()@)
    }
}

fn append_events(t: Tables, v: &Vec<CanonizationEvent>) -> (r: Tables)
    requires
        t.wf(),
    ensures
        r.wf(),
        r@ == all_events(t@, v@),
{
    let ghost start = t@;
    let mut t = t;
    let mut i: usize = 0;
    proof {
        assert(v@.take(0) =~= Seq::empty());
    }
    while i < v.len()
        invariant
            i <= v@.len(),
            t.wf(),
            t@ == all_events(start, v@.take(i as int)),
        decreases v@.len() - i,
    {
        proof {
            assert(v@.take(i + 1).drop_last() =~= v@.take(i as int));
            assert(v@.take(i + 1).last() == v@[i as int]);
        }
        t = append_event(t, &v[i]);
        i = i + 1;
    }
    proof {
        assert(v@.take(v@.len() as int) =~= v@);
    }
    t
}

/// What putting intents does.
pub open spec fn all_intents(t: TablesModel, v: Seq<WriteIntent>) -> TablesModel
    decreases v.len(),
{
    if v.len() == 0 {
        t
    } else {
        intent_put(all_intents(t, v.drop_last()), v.last()@)
    }
}

fn put_intents(t: Tables, v: &Vec<WriteIntent>) -> (r: Tables)
    requires
        t.wf(),
    ensures
        r.wf(),
        r@ == all_intents(t@, v@),
{
    let ghost start = t@;
    let mut t = t;
    let mut i: usize = 0;
    proof {
        assert(v@.take(0) =~= Seq::empty());
    }
    while i < v.len()
        invariant
            i <= v@.len(),
            t.wf(),
            t@ == all_intents(start, v@.take(i as int)),
        decreases v@.len() - i,
    {
        proof {
            assert(v@.take(i + 1).drop_last() =~= v@.take(i as int));
            assert(v@.take(i + 1).last() == v@[i as int]);
        }
        t = put_write_intent(t, &v[i]);
        i = i + 1;
    }
    proof {
        assert(v@.take(v@.len() as int) =~= v@);
    }
    t
}

/// The row of a session that a snapshot puts in, at the time `now`.
pub open spec fn seeded_row(s: GraphSnapshot, now: Timestamp) -> SessionRowModel {
    stamped(
        SessionRowModel {
            session: s.session_id@,
            root_goal: opt_text(s.root_goal),
            created_at: Some(
                stored_text(
                    match s.created_at {
                        Some(at) => at,
                        None => now,
                    },
                ),
            ),
            closed_at: opt_stored(s.closed_at),
            kind: None,
            model: None,
            dim: None,
        },
        opt_contract(s.embedding),
    )
}

/// What putting a snapshot in does: the session's row as the snapshot has it, then its parts, one
/// after the other. The first that is refused ends it.
pub open spec fn seeded(t: TablesModel, s: GraphSnapshot, now: Timestamp) -> Result<
    TablesModel,
    StoreErrorModel,
> {
    if s.embedding is Some && s.embedding->0.dim > i64::MAX {
        Err(StoreErrorModel::Invariant("embedding dimension does not fit i64"@))
    } else {
        let t = TablesModel {
            sessions: t.sessions.insert(seq![s.session_id@], seeded_row(s, now)),
            ..t
        };
        match all_interactions(t, s.interactions@) {
            Err(e) => Err(e),
            Ok(t) => match all_concepts(t, concepts_of(s.concepts@)) {
                Err(e) => Err(e),
                Ok(t) => Ok(
                    all_intents(
                        all_events(
                            all_reservations(
                                all_synonyms(all_edges(t, s.edges@), s.synonyms@),
                                s.reservations@,
                            ),
                            s.canonization_events@,
                        ),
                        s.write_intents@,
                    ),
                ),
            },
        }
    }
}

/// Puts a snapshot in as a whole.
pub fn seed(t: Tables, s: &GraphSnapshot, now: &Timestamp) -> (r: Result<Tables, StoreError>)
    requires
        t.wf(),
    ensures
        outcome(r) == seeded(t@, *s, *now),
        sound(r),
{
    let mut t = t;
    let mut kind: Option<String> = None;
    let mut model: Option<String> = None;
    let mut dim: Option<i64> = None;
    match &s.embedding {
        Some(c) => {
            if c.dim as u64 > i64::MAX as u64 {
                return Err(
                    StoreError::Invariant("embedding dimension does not fit i64".to_owned()),
                );
            }
            kind = Some(c.kind.clone());
            model = clone_opt(&c.model);
            dim = Some(c.dim as i64);
        },
        None => {},
    }
    let created_at = match &s.created_at {
        Some(at) => write_ts(at),
        None => write_ts(now),
    };
    let row = SessionRow {
        session_id: s.session_id.0.clone(),
        root_goal: clone_opt(&s.root_goal),
        created_at: Some(created_at),
        closed_at: write_opt_ts(&s.closed_at),
        embedding_kind: kind,
        embedding_model: model,
        embedding_dim: dim,
    };
    proof {
        assert(row@ == seeded_row(*s, *now));
    }
    t.sessions.put(row);
    let t = match upsert_interactions(t, &s.interactions) {
        Ok(t) => t,
        Err(e) => {
            return Err(e);
        },
    };
    let t = match upsert_concepts(t, &s.concepts) {
        Ok(t) => t,
        Err(e) => {
            return Err(e);
        },
    };
    let t = upsert_edges(t, &s.edges);
    let t = put_synonyms(t, &s.synonyms);
    let t = put_reservations(t, &s.reservations);
    let t = append_events(t, &s.canonization_events);
    Ok(put_intents(t, &s.write_intents))
}

} // verus!
