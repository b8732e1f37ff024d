//! What a probe may be compared with, and the order of what was found.

use crate::store::codec::an_identifier_reads_back;
use crate::store::keyword::at_most;
use crate::store::keyword_laws::are_named;
use crate::store::laws::lemma_read_each;
use crate::store::order::{list_no_later, text_no_later, text_order_is_total};
use crate::store::rows::ConceptRow;
use crate::store::session::{concept_rows, read_all};
use crate::store::table::{by_key, lemma_found, lists, ranked, stands_at, Row, RowKey};
use crate::store::tables::{id_text, TablesModel};
use crate::store::vector::embedding_fault;
use crate::store::vectors::{
    candidate_read, embedded_in, in_rank_order, pool_answer, ranks_before, CandidateModel, Ranked,
};
use crate::types::{ContractModel, NodeId, StoreErrorModel};
use vstd::prelude::*;

verus! {

/// That a session has a contract: a kind and a width, and a model where one is named.
pub open spec fn has_contract(t: TablesModel, s: Seq<char>, c: ContractModel) -> bool {
    let row = t.sessions[seq![s]];
    t.sessions.contains_key(seq![s]) && row.kind == Some(c.kind) && row.model == c.model && row.dim
        is Some && row.dim->0 == c.dim && c.dim <= usize::MAX
}

/// A probe is refused where more is asked for than may be, where it is no embedding, where it was
/// made by another contract than the session's, and where it has another width. It is compared with
/// nothing where nothing is asked for, and where the session is not there or has no contract.
pub proof fn a_probe_is_taken_or_refused(
    t: TablesModel,
    s: Seq<char>,
    probe: Seq<u32>,
    expected: ContractModel,
    limit: nat,
    max: nat,
    r: Result<Seq<CandidateModel>, StoreErrorModel>,
)
    requires
        pool_answer(t, s, probe, expected, limit, max, r),
    ensures
        limit > max ==> r is Err && r->Err_0 is Invariant,
        limit == 0 ==> r is Ok && r->Ok_0.len() == 0,
        0 < limit <= max && embedding_fault(probe) is Some ==> r == Err::<Seq<CandidateModel>, _>(
            embedding_fault(probe)->0,
        ),
        0 < limit <= max && embedding_fault(probe) is None && (!t.sessions.contains_key(seq![s])
            || t.sessions[seq![s]].kind is None && t.sessions[seq![s]].dim is None) ==> r is Ok
            && r->Ok_0.len() == 0,
        forall|c: ContractModel|
            0 < limit <= max && embedding_fault(probe) is None && #[trigger] has_contract(t, s, c)
                && (c != expected || probe.len() != c.dim) ==> r is Err && r->Err_0 is Invariant,
{
}

/// That a candidate is a concept of a session with its vector.
pub open spec fn is_candidate(
    t: TablesModel,
    s: Seq<char>,
    ids: Map<RowKey, NodeId>,
    k: RowKey,
    x: CandidateModel,
) -> bool {
    &&& t.concepts.contains_key(k)
    &&& t.concepts[k].session == s
    &&& ids[k] == x.id
    &&& t.concepts[k].embedding == Some(x.vector)
}

/// That a candidate is some concept of a session with its vector.
pub open spec fn is_some_candidate(
    t: TablesModel,
    s: Seq<char>,
    ids: Map<RowKey, NodeId>,
    x: CandidateModel,
) -> bool {
    exists|k: RowKey| is_candidate(t, s, ids, k, x)
}

/// A probe is compared with every vector of its session, each once and as it is stored, and with
/// none of another's, by the identifiers of their concepts. Where one has another width than the
/// session's contract says, there is no answer.
pub proof fn a_probe_meets_the_vectors_of_its_session(
    t: TablesModel,
    s: Seq<char>,
    probe: Seq<u32>,
    expected: ContractModel,
    limit: nat,
    max: nat,
    ids: Map<RowKey, NodeId>,
    r: Result<Seq<CandidateModel>, StoreErrorModel>,
)
    requires
        pool_answer(t, s, probe, expected, limit, max, r),
        are_named(t, s, ids),
        0 < limit <= max,
        embedding_fault(probe) is None,
        has_contract(t, s, expected),
        t.sessions[seq![s]].session == s,
        probe.len() == expected.dim,
    ensures
        r is Ok <==> forall|k: RowKey| #[trigger]
            t.concepts.contains_key(k) && t.concepts[k].session == s && t.concepts[k].embedding
                is Some ==> t.concepts[k].embedding->0.len() == expected.dim,
        forall|i: int|
            r is Ok && 0 <= i < r->Ok_0.len() ==> (#[trigger] r->Ok_0[i]).vector.len()
                == expected.dim && is_some_candidate(t, s, ids, r->Ok_0[i]),
        forall|k: RowKey| #[trigger]
            t.concepts.contains_key(k) && r is Ok && t.concepts[k].session == s
                && t.concepts[k].embedding is Some ==> exists|i: int|
                0 <= i < r->Ok_0.len() && is_candidate(t, s, ids, k, #[trigger] r->Ok_0[i]),
        forall|i: int, j: int|
            r is Ok && 0 <= i < j < r->Ok_0.len() ==> (#[trigger] r->Ok_0[i]).id != (
            #[trigger] r->Ok_0[j]).id && text_no_later(
                id_text(r->Ok_0[i].id),
                id_text(r->Ok_0[j].id),
            ),
{
    let rows = choose|rows: Seq<ConceptRow>|
        #![trigger concept_rows(rows)]
        lists(rows, embedded_in(t, s)) && ranked(rows) && r == read_all(
            concept_rows(rows),
            candidate_read(s, expected.dim),
        );
    let read = candidate_read(s, expected.dim);
    let all = concept_rows(rows);
    assert forall|i: int| 0 <= i < rows.len() implies ({
        let k = ConceptRow::key_of((#[trigger] rows[i])@);
        &&& t.concepts.contains_key(k) && t.concepts[k] == rows[i]@
        &&& rows[i]@.session == s && rows[i]@.embedding is Some
        &&& rows[i]@.id == id_text(ids[k]) && k == seq![rows[i]@.id]
        &&& read(rows[i]@) is Ok <==> rows[i]@.embedding->0.len() == expected.dim
        &&& read(rows[i]@) is Ok ==> read(rows[i]@)->Ok_0 == (CandidateModel {
            id: ids[k],
            vector: rows[i]@.embedding->0,
        })
    }) by {
        lemma_found(rows, i);
        let k = ConceptRow::key_of(rows[i]@);
        assert(embedded_in(t, s).contains_key(k));
        an_identifier_reads_back(ids[k], "concept id"@);
    }
    assert forall|k: RowKey| #[trigger]
        t.concepts.contains_key(k) && t.concepts[k].session == s && t.concepts[k].embedding
            is Some implies exists|i: int| 0 <= i < rows.len() && (#[trigger] rows[i])@
        == t.concepts[k] && ConceptRow::key_of(rows[i]@) == k by {
        assert(embedded_in(t, s).contains_key(k));
        assert(by_key(rows).contains_key(k));
        let i = choose|i: int| #[trigger] stands_at(rows, k, i);
        assert(stands_at(rows, k, i));
        lemma_found(rows, i);
    }
    if forall|k: RowKey| #[trigger]
        t.concepts.contains_key(k) && t.concepts[k].session == s && t.concepts[k].embedding is Some
            ==> t.concepts[k].embedding->0.len() == expected.dim {
        assert forall|i: int| 0 <= i < all.len() implies #[trigger] read(all[i]) is Ok by {
            assert(all[i] == rows[i]@);
            assert(t.concepts.contains_key(ConceptRow::key_of(rows[i]@)));
        }
        crate::store::laws::lemma_all_read(all, read);
    }
    if r is Ok {
        let pool = r->Ok_0;
        if all.len() > 0 {
            lemma_read_each(all, read, pool, 0);
        }
        assert forall|i: int| 0 <= i < pool.len() implies (#[trigger] pool[i]).vector.len()
            == expected.dim && is_some_candidate(t, s, ids, pool[i]) by {
            lemma_read_each(all, read, pool, i);
            assert(all[i] == rows[i]@);
            assert(is_candidate(t, s, ids, ConceptRow::key_of(rows[i]@), pool[i]));
        }
        assert forall|k: RowKey| #[trigger]
            t.concepts.contains_key(k) && t.concepts[k].session == s && t.concepts[k].embedding
                is Some implies t.concepts[k].embedding->0.len() == expected.dim && exists|i: int|
            0 <= i < pool.len() && is_candidate(t, s, ids, k, #[trigger] pool[i]) by {
            let i = choose|i: int|
                0 <= i < rows.len() && (#[trigger] rows[i])@ == t.concepts[k] && ConceptRow::key_of(
                    rows[i]@,
                ) == k;
            lemma_read_each(all, read, pool, i);
            assert(all[i] == rows[i]@);
            assert(is_candidate(t, s, ids, k, pool[i]));
        }
        assert forall|i: int, j: int| 0 <= i < j < pool.len() implies (#[trigger] pool[i]).id != (
        #[trigger] pool[j]).id && text_no_later(id_text(pool[i].id), id_text(pool[j].id)) by {
            lemma_read_each(all, read, pool, i);
            lemma_read_each(all, read, pool, j);
            assert(all[i] == rows[i]@ && all[j] == rows[j]@);
            let (x, y) = (ConceptRow::rank_of(rows[i]@), ConceptRow::rank_of(rows[j]@));
            assert(list_no_later(x, y));
            assert(x[0] == rows[i]@.id && y[0] == rows[j]@.id);
            text_order_is_total(x[0], y[0]);
            assert(ConceptRow::key_of(rows[i]@) != ConceptRow::key_of(rows[j]@));
        }
    }
}

/// What other sessions hold does not matter to a probe: vectors of theirs may come or go.
pub proof fn a_probe_is_of_its_session(
    t: TablesModel,
    u: TablesModel,
    s: Seq<char>,
    probe: Seq<u32>,
    expected: ContractModel,
    limit: nat,
    max: nat,
    r: Result<Seq<CandidateModel>, StoreErrorModel>,
)
    requires
        pool_answer(t, s, probe, expected, limit, max, r),
        t.sessions.contains_key(seq![s]) == u.sessions.contains_key(seq![s]),
        t.sessions.contains_key(seq![s]) ==> t.sessions[seq![s]] == u.sessions[seq![s]],
        forall|k: RowKey|
            (#[trigger] t.concepts.contains_key(k) && t.concepts[k].session == s)
                ==> u.concepts.contains_key(k) && u.concepts[k] == t.concepts[k],
        forall|k: RowKey|
            (#[trigger] u.concepts.contains_key(k) && u.concepts[k].session == s)
                ==> t.concepts.contains_key(k) && t.concepts[k] == u.concepts[k],
    ensures
        pool_answer(u, s, probe, expected, limit, max, r),
{
    assert forall|k: RowKey| #[trigger] embedded_in(t, s).contains_key(k) implies embedded_in(
        u,
        s,
    ).contains_key(k) && embedded_in(u, s)[k] == embedded_in(t, s)[k] by {
        assert(t.concepts.contains_key(k));
    }
    assert forall|k: RowKey| #[trigger] embedded_in(u, s).contains_key(k) implies embedded_in(
        t,
        s,
    ).contains_key(k) by {
        assert(u.concepts.contains_key(k));
    }
    assert(embedded_in(t, s) =~= embedded_in(u, s));
}

/// What was found is handed on with the highest scores first, and of equal scores the smaller
/// identifier first. Nothing is added, and nothing is left out unless as much as was allowed comes
/// before it.
pub proof fn the_best_come_first(found: Seq<Ranked>, limit: nat, sorted: Seq<Ranked>, r: Seq<Ranked>)
    requires
        sorted.to_multiset() == found.to_multiset(),
        in_rank_order(sorted),
        r == at_most(sorted, limit),
    ensures
        r.len() <= limit,
        r.len() == if found.len() < limit {
            found.len()
        } else {
            limit
        },
        forall|i: int, j: int|
            0 <= i < j < r.len() ==> (#[trigger] r[i]).score > (#[trigger] r[j]).score || (
            r[i].score == r[j].score && r[i].id.0 <= r[j].id.0),
        forall|i: int| 0 <= i < r.len() ==> found.contains(#[trigger] r[i]),
        forall|x: Ranked| #[trigger]
            found.contains(x) ==> r.contains(x) || (r.len() == limit && forall|i: int|
                0 <= i < r.len() ==> (#[trigger] r[i]).score > x.score || (r[i].score == x.score
                    && r[i].id.0 <= x.id.0)),
{
    broadcast use vstd::seq_lib::group_to_multiset_ensures;

    assert(sorted.len() == sorted.to_multiset().len() && found.len() == found.to_multiset().len());
    assert forall|i: int| 0 <= i < r.len() implies found.contains(#[trigger] r[i]) by {
        assert(r[i] == sorted[i]);
        assert(sorted.contains(sorted[i]));
        assert(sorted.to_multiset().count(sorted[i]) > 0);
    }
    assert forall|i: int, j: int| 0 <= i < j < r.len() implies (#[trigger] r[i]).score > (
    #[trigger] r[j]).score || (r[i].score == r[j].score && r[i].id.0 <= r[j].id.0) by {
        assert(ranks_before(sorted[i], sorted[j]));
    }
    assert forall|x: Ranked| #[trigger] found.contains(x) implies r.contains(x) || (r.len() == limit
        && forall|i: int|
        0 <= i < r.len() ==> (#[trigger] r[i]).score > x.score || (r[i].score == x.score
            && r[i].id.0 <= x.id.0)) by {
        assert(found.to_multiset().count(x) > 0);
        assert(sorted.contains(x));
        let at = choose|at: int| 0 <= at < sorted.len() && sorted[at] == x;
        if at < r.len() {
            assert(r[at] == x);
        } else {
            assert forall|i: int| 0 <= i < r.len() implies (#[trigger] r[i]).score > x.score || (
            r[i].score == x.score && r[i].id.0 <= x.id.0) by {
                assert(ranks_before(sorted[i], sorted[at]));
            }
        }
    }
}

} // verus!
