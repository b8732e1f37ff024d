//! What a search by words promises: whom it finds, in which order, and whom it leaves out.

use crate::boundary::lowered;
use crate::store::codec::an_identifier_reads_back;
use crate::store::keyword::{
    at_most, best_first, found_read, keyword_answer, matches_better, matching, word_count, words,
    Found,
};
use crate::store::laws::lemma_read_each;
use crate::store::order::text_no_later;
use crate::store::rows::{ConceptRow, ConceptRowModel};
use crate::store::session::{concept_rows, read_all};
use crate::store::table::{by_key, lemma_found, lists, stands_at, Row, RowKey};
use crate::store::tables::{id_text, TablesModel};
use crate::text::{ascii_lower, occurs_in, trimmed};
use crate::types::{NodeId, StoreErrorModel};
use vstd::prelude::*;

verus! {

/// That a token asks for something: more than blanks.
pub open spec fn asks(token: Seq<char>) -> bool {
    lowered(trimmed(token)).len() > 0
}

/// That a concept says what a token asks for, in its content or in its key.
pub open spec fn says(row: ConceptRowModel, token: Seq<char>) -> bool {
    asks(token) && (occurs_in(lowered(trimmed(token)), ascii_lower(row.content)) || occurs_in(
        lowered(trimmed(token)),
        ascii_lower(row.key),
    ))
}

/// The tokens, by their places, that a concept answers to.
pub open spec fn said(row: ConceptRowModel, tokens: Seq<Seq<char>>) -> Set<int> {
    Set::new(|j: int| 0 <= j < tokens.len() && says(row, tokens[j]))
}

proof fn lemma_said(row: ConceptRowModel, tokens: Seq<Seq<char>>)
    ensures
        said(row, tokens).finite(),
        said(row, tokens).len() == word_count(row, words(tokens)),
    decreases tokens.len(),
{
    let all = said(row, tokens);
    if tokens.len() == 0 {
        assert(all =~= Set::empty());
    } else {
        let less = tokens.drop_last();
        let last = tokens.len() - 1;
        lemma_said(row, less);
        assert(tokens.last() == tokens[last]);
        let w = lowered(trimmed(tokens.last()));
        if w.len() > 0 {
            assert(words(tokens).drop_last() =~= words(less));
            assert(words(tokens).last() == w);
        }
        if says(row, tokens.last()) {
            assert(all =~= said(row, less).insert(last));
            assert(!said(row, less).contains(last));
        } else {
            assert(all =~= said(row, less));
        }
    }
}

proof fn lemma_words_asked(tokens: Seq<Seq<char>>)
    ensures
        words(tokens).len() > 0 <==> exists|j: int|
            0 <= j < tokens.len() && asks(#[trigger] tokens[j]),
    decreases tokens.len(),
{
    if tokens.len() > 0 {
        let less = tokens.drop_last();
        lemma_words_asked(less);
        let last = tokens.len() - 1;
        if words(tokens).len() > 0 {
            if words(less).len() > 0 {
                let j = choose|j: int| 0 <= j < less.len() && asks(#[trigger] less[j]);
                assert(asks(tokens[j]));
            } else {
                assert(asks(tokens[last]));
            }
        }
        if exists|j: int| 0 <= j < tokens.len() && asks(#[trigger] tokens[j]) {
            let j = choose|j: int| 0 <= j < tokens.len() && asks(#[trigger] tokens[j]);
            if j < last {
                assert(asks(less[j]));
            }
        }
    }
}

/// That the concepts of a session have identifiers, under which they stand.
pub open spec fn are_named(t: TablesModel, session: Seq<char>, ids: Map<RowKey, NodeId>) -> bool {
    forall|k: RowKey| #[trigger]
        t.concepts.contains_key(k) && t.concepts[k].session == session ==> t.concepts[k].id
            == id_text(ids[k]) && k == seq![t.concepts[k].id]
}

/// That what was found is a concept of the session that says something of what was asked, and how
/// much of it.
pub open spec fn is_found(
    t: TablesModel,
    session: Seq<char>,
    tokens: Seq<Seq<char>>,
    ids: Map<RowKey, NodeId>,
    k: RowKey,
    x: Found,
) -> bool {
    &&& t.concepts.contains_key(k)
    &&& t.concepts[k].session == session
    &&& ids[k] == x.id
    &&& said(t.concepts[k], tokens).len() > 0
    &&& x.score == said(t.concepts[k], tokens).len()
}

/// That what was found comes before a concept: it says more, or as much under the smaller
/// identifier.
pub open spec fn comes_before(x: Found, row: ConceptRowModel, tokens: Seq<Seq<char>>) -> bool {
    x.score > said(row, tokens).len() || (x.score == said(row, tokens).len() && text_no_later(
        id_text(x.id),
        row.id,
    ))
}

/// Whatever is found is a concept of the session that was asked, and of no other, that says
/// something of what was asked.
pub proof fn what_is_found_is_of_the_session(
    t: TablesModel,
    session: Seq<char>,
    tokens: Seq<Seq<char>>,
    limit: nat,
    ids: Map<RowKey, NodeId>,
    found: Seq<Found>,
    i: int,
) -> (k: RowKey)
    requires
        are_named(t, session, ids),
        keyword_answer(
            t,
            session,
            words(tokens),
            limit,
            Ok::<Seq<Found>, StoreErrorModel>(found),
        ),
        0 <= i < found.len(),
    ensures
        is_found(t, session, tokens, ids, k, found[i]),
{
    let ws = words(tokens);
    let rows = lemma_listed_matches(t, session, tokens, limit, found);
    lemma_found(rows, i);
    let k = ConceptRow::key_of(rows[i]@);
    assert(matching(t, session, ws).contains_key(k));
    lemma_read_each(at_most(concept_rows(rows), limit), found_read(ws), found, i);
    an_identifier_reads_back(ids[k], "concept id"@);
    lemma_said(t.concepts[k], tokens);
    k
}

proof fn lemma_listed_matches(
    t: TablesModel,
    session: Seq<char>,
    tokens: Seq<Seq<char>>,
    limit: nat,
    found: Seq<Found>,
) -> (rows: Seq<ConceptRow>)
    requires
        keyword_answer(
            t,
            session,
            words(tokens),
            limit,
            Ok::<Seq<Found>, StoreErrorModel>(found),
        ),
    ensures
        found.len() > 0 || (words(tokens).len() > 0 && limit > 0) ==> lists(
            rows,
            matching(t, session, words(tokens)),
        ) && best_first(rows, words(tokens)) && read_all(
            at_most(concept_rows(rows), limit),
            found_read(words(tokens)),
        ) == Ok::<Seq<Found>, StoreErrorModel>(found) && found.len() == at_most(
            concept_rows(rows),
            limit,
        ).len(),
{
    let ws = words(tokens);
    let rows = choose|rows: Seq<ConceptRow>|
        #![trigger best_first(rows, ws)]
        lists(rows, matching(t, session, ws)) && best_first(rows, ws) && Ok::<
            Seq<Found>,
            StoreErrorModel,
        >(found) == read_all(at_most(concept_rows(rows), limit), found_read(ws));
    if ws.len() > 0 && limit > 0 {
        let all = at_most(concept_rows(rows), limit);
        if all.len() > 0 {
            lemma_read_each(all, found_read(ws), found, 0);
        }
    }
    rows
}

/// A search answers with no more than it was allowed, each concept once, whoever says more of what
/// was asked first, and among those that say as much the smaller identifier first.
pub proof fn who_says_more_is_found_first(
    t: TablesModel,
    session: Seq<char>,
    tokens: Seq<Seq<char>>,
    limit: nat,
    ids: Map<RowKey, NodeId>,
    found: Seq<Found>,
)
    requires
        are_named(t, session, ids),
        keyword_answer(
            t,
            session,
            words(tokens),
            limit,
            Ok::<Seq<Found>, StoreErrorModel>(found),
        ),
    ensures
        found.len() <= limit,
        forall|i: int, j: int|
            0 <= i < j < found.len() ==> (#[trigger] found[i]).id != (#[trigger] found[j]).id && (
            found[i].score > found[j].score || (found[i].score == found[j].score && text_no_later(
                id_text(found[i].id),
                id_text(found[j].id),
            ))),
{
    let ws = words(tokens);
    let rows = lemma_listed_matches(t, session, tokens, limit, found);
    let all = at_most(concept_rows(rows), limit);
    assert forall|i: int, j: int| 0 <= i < j < found.len() implies (#[trigger] found[i]).id != (
    #[trigger] found[j]).id && (found[i].score > found[j].score || (found[i].score
        == found[j].score && text_no_later(id_text(found[i].id), id_text(found[j].id)))) by {
        let a = ConceptRow::key_of(rows[i]@);
        let b = ConceptRow::key_of(rows[j]@);
        lemma_found(rows, i);
        lemma_found(rows, j);
        assert(matching(t, session, ws).contains_key(a) && matching(t, session, ws).contains_key(b));
        lemma_read_each(all, found_read(ws), found, i);
        lemma_read_each(all, found_read(ws), found, j);
        an_identifier_reads_back(ids[a], "concept id"@);
        an_identifier_reads_back(ids[b], "concept id"@);
        assert(matches_better(rows[i]@, rows[j]@, ws));
        assert(a[0] == rows[i]@.id && b[0] == rows[j]@.id);
    }
}

/// A concept of the session that says something of what was asked is found, unless as many as were
/// allowed come before it.
pub proof fn who_says_something_is_found(
    t: TablesModel,
    session: Seq<char>,
    tokens: Seq<Seq<char>>,
    limit: nat,
    ids: Map<RowKey, NodeId>,
    r: Result<Seq<Found>, StoreErrorModel>,
    k: RowKey,
)
    requires
        are_named(t, session, ids),
        t.sessions.contains_key(seq![session]),
        keyword_answer(t, session, words(tokens), limit, r),
        limit > 0,
        t.concepts.contains_key(k),
        t.concepts[k].session == session,
        said(t.concepts[k], tokens).len() > 0,
    ensures
        r is Ok,
        (exists|i: int| 0 <= i < r->Ok_0.len() && is_found(t, session, tokens, ids, k, #[trigger] r->Ok_0[i]))
            || (r->Ok_0.len() == limit && forall|i: int|
            0 <= i < r->Ok_0.len() ==> comes_before(#[trigger] r->Ok_0[i], t.concepts[k], tokens)),
{
    let ws = words(tokens);
    let row = t.concepts[k];
    lemma_said(row, tokens);
    let j = said(row, tokens).choose();
    assert(said(row, tokens).contains(j));
    assert(asks(tokens[j]));
    lemma_words_asked(tokens);
    let rows = choose|rows: Seq<ConceptRow>|
        #![trigger best_first(rows, ws)]
        lists(rows, matching(t, session, ws)) && best_first(rows, ws) && r == read_all(
            at_most(concept_rows(rows), limit),
            found_read(ws),
        );
    let all = at_most(concept_rows(rows), limit);
    assert forall|i: int| 0 <= i < rows.len() implies t.concepts.contains_key(
        ConceptRow::key_of((#[trigger] rows[i])@),
    ) && t.concepts[ConceptRow::key_of(rows[i]@)] == rows[i]@ && rows[i]@.session == session by {
        lemma_found(rows, i);
        assert(matching(t, session, ws).contains_key(ConceptRow::key_of(rows[i]@)));
    }
    assert forall|i: int| 0 <= i < all.len() implies #[trigger] found_read(ws)(all[i]) is Ok by {
        let at = ConceptRow::key_of(rows[i]@);
        an_identifier_reads_back(ids[at], "concept id"@);
    }
    crate::store::laws::lemma_all_read(all, found_read(ws));
    let found = r->Ok_0;
    assert(matching(t, session, ws).contains_key(k));
    assert(by_key(rows).contains_key(k));
    let at = choose|i: int| #[trigger] stands_at(rows, k, i);
    assert(stands_at(rows, k, at));
    assert(rows[at]@ == row);
    if all.len() > 0 {
        lemma_read_each(all, found_read(ws), found, 0);
    }
    if at < all.len() {
        lemma_read_each(all, found_read(ws), found, at);
        an_identifier_reads_back(ids[k], "concept id"@);
        assert(is_found(t, session, tokens, ids, k, found[at]));
    } else {
        assert forall|i: int| 0 <= i < found.len() implies comes_before(
            #[trigger] found[i],
            row,
            tokens,
        ) by {
            let b = ConceptRow::key_of(rows[i]@);
            lemma_read_each(all, found_read(ws), found, i);
            an_identifier_reads_back(ids[b], "concept id"@);
            assert(matches_better(rows[i]@, rows[at]@, ws));
        }
    }
}

/// What other sessions hold does not matter to a search: concepts of theirs may come or go.
pub proof fn a_search_is_of_its_session(
    t: TablesModel,
    u: TablesModel,
    session: Seq<char>,
    tokens: Seq<Seq<char>>,
    limit: nat,
    r: Result<Seq<Found>, StoreErrorModel>,
)
    requires
        keyword_answer(t, session, words(tokens), limit, r),
        t.sessions.contains_key(seq![session]) == u.sessions.contains_key(seq![session]),
        forall|k: RowKey|
            (#[trigger] t.concepts.contains_key(k) && t.concepts[k].session == session)
                ==> u.concepts.contains_key(k) && u.concepts[k] == t.concepts[k],
        forall|k: RowKey|
            (#[trigger] u.concepts.contains_key(k) && u.concepts[k].session == session)
                ==> t.concepts.contains_key(k) && t.concepts[k] == u.concepts[k],
    ensures
        keyword_answer(u, session, words(tokens), limit, r),
{
    let ws = words(tokens);
    assert forall|k: RowKey| #[trigger] matching(t, session, ws).contains_key(k) implies matching(
        u,
        session,
        ws,
    ).contains_key(k) && matching(u, session, ws)[k] == matching(t, session, ws)[k] by {
        assert(t.concepts.contains_key(k));
    }
    assert forall|k: RowKey| #[trigger] matching(u, session, ws).contains_key(k) implies matching(
        t,
        session,
        ws,
    ).contains_key(k) by {
        assert(u.concepts.contains_key(k));
    }
    assert(matching(t, session, ws) =~= matching(u, session, ws));
}

/// A search that asks for nothing, or may answer nothing, answers nothing. One in a session that is
/// not there is refused.
pub proof fn a_search_for_nothing_finds_nothing(
    t: TablesModel,
    session: Seq<char>,
    tokens: Seq<Seq<char>>,
    limit: nat,
    r: Result<Seq<Found>, StoreErrorModel>,
)
    requires
        keyword_answer(t, session, words(tokens), limit, r),
    ensures
        limit == 0 || (forall|j: int| 0 <= j < tokens.len() ==> !asks(#[trigger] tokens[j])) ==> r
            is Ok && r->Ok_0.len() == 0,
        limit > 0 && (exists|j: int| 0 <= j < tokens.len() && asks(#[trigger] tokens[j]))
            && !t.sessions.contains_key(seq![session]) ==> r == Err::<Seq<Found>, StoreErrorModel>(
            StoreErrorModel::SessionNotFound(session),
        ),
{
    lemma_words_asked(tokens);
}

} // verus!
