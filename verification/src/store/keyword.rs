//! Finding concepts by words.

use crate::boundary::{self, lowered};
use crate::store::codec::{id_read, node_id};
use crate::store::keys::key1;
use crate::store::load::where_row;
use crate::store::order::{list_no_later, text_no_later, text_order_is_total};
use crate::store::rows::{ConceptRow, ConceptRowModel};
use crate::store::session::{concept_rows, lemma_error_stays, read_all};
use crate::store::table::{
    by_key, kept, keys_differ, lemma_inserted, lists, ranked, stands_at, Pick, Row, RowKey,
};
use crate::store::tables::{Tables, TablesModel};
use crate::text::{
    ascii_lower, ascii_lower_chars, char_views, chars_of, contains_chars, is_ascii_text, is_white,
    occurs_in, texts, trimmed, trimmed_end, trimmed_start,
};
use crate::types::{NodeId, SessionId, StoreError, StoreErrorModel};
use vstd::prelude::*;
use vstd::string::*;

verus! {

/// The words that tokens ask for: each without the blanks around it and in lower case. Those that
/// are empty ask for nothing.
pub open spec fn words(tokens: Seq<Seq<char>>) -> Seq<Seq<char>>
    decreases tokens.len(),
{
    if tokens.len() == 0 {
        Seq::empty()
    } else {
        let w = lowered(trimmed(tokens.last()));
        if w.len() == 0 {
            words(tokens.drop_last())
        } else {
            words(tokens.drop_last()).push(w)
        }
    }
}

proof fn lemma_trim_keeps_case(s: Seq<char>)
    requires
        is_ascii_text(s),
    ensures
        trimmed(ascii_lower(s)) == ascii_lower(trimmed(s)),
        is_ascii_text(trimmed(s)),
{
    lemma_start_keeps_case(s);
    lemma_end_keeps_case(trimmed_start(s));
}

proof fn lemma_start_keeps_case(s: Seq<char>)
    requires
        is_ascii_text(s),
    ensures
        trimmed_start(ascii_lower(s)) == ascii_lower(trimmed_start(s)),
        is_ascii_text(trimmed_start(s)),
    decreases s.len(),
{
    if s.len() > 0 && is_white(s[0]) {
        lemma_start_keeps_case(s.skip(1));
        assert(ascii_lower(s).skip(1) =~= ascii_lower(s.skip(1)));
    }
}

proof fn lemma_end_keeps_case(s: Seq<char>)
    requires
        is_ascii_text(s),
    ensures
        trimmed_end(ascii_lower(s)) == ascii_lower(trimmed_end(s)),
        is_ascii_text(trimmed_end(s)),
    decreases s.len(),
{
    if s.len() > 0 && is_white(s.last()) {
        lemma_end_keeps_case(s.drop_last());
        assert(ascii_lower(s).drop_last() =~= ascii_lower(s.drop_last()));
    }
}

/// ASCII tokens that differ only in the case of their letters ask for the same word.
pub proof fn letter_case_does_not_matter(a: Seq<char>, b: Seq<char>)
    requires
        is_ascii_text(a),
        is_ascii_text(b),
        ascii_lower(a) == ascii_lower(b),
    ensures
        words(seq![a]) == words(seq![b]),
{
    lemma_trim_keeps_case(a);
    lemma_trim_keeps_case(b);
    assert(seq![a].drop_last() =~= seq![b].drop_last());
}

fn words_of(tokens: &Vec<String>) -> (v: Vec<Vec<char>>)
    ensures
        char_views(v@) == words(texts(tokens@)),
{
    let mut v: Vec<Vec<char>> = Vec::new();
    let mut i: usize = 0;
    let ghost all = texts(tokens@);
    proof {
        assert(all.take(0) =~= Seq::empty());
        assert(char_views(v@) =~= Seq::empty());
    }
    while i < tokens.len()
        invariant
            all == texts(tokens@),
            i <= tokens@.len(),
            char_views(v@) == words(all.take(i as int)),
        decreases tokens@.len() - i,
    {
        let ghost before = v@;
        let w = boundary::lowercase(boundary::trim(tokens[i].as_str()));
        let chars = chars_of(w.as_str());
        proof {
            assert(all.take(i + 1).drop_last() =~= all.take(i as int));
            assert(all.take(i + 1).last() == tokens@[i as int]@);
        }
        if chars.len() > 0 {
            v.push(chars);
            proof {
                assert(char_views(v@) =~= char_views(before).push(w@));
            }
        }
        i = i + 1;
    }
    proof {
        assert(all.take(all.len() as int) =~= all);
    }
    v
}

/// Whether a word stands in a concept's content or in its key, whatever the case of the letters A
/// to Z.
pub open spec fn has_word(row: ConceptRowModel, word: Seq<char>) -> bool {
    occurs_in(word, ascii_lower(row.content)) || occurs_in(word, ascii_lower(row.key))
}

/// How many of the words a concept has.
pub open spec fn word_count(row: ConceptRowModel, words: Seq<Seq<char>>) -> nat
    decreases words.len(),
{
    if words.len() == 0 {
        0
    } else {
        word_count(row, words.drop_last()) + if has_word(row, words.last()) {
            1nat
        } else {
            0nat
        }
    }
}

proof fn lemma_count_bounded(row: ConceptRowModel, words: Seq<Seq<char>>)
    ensures
        word_count(row, words) <= words.len(),
    decreases words.len(),
{
    if words.len() > 0 {
        lemma_count_bounded(row, words.drop_last());
    }
}

fn count_words(row: &ConceptRow, words: &Vec<Vec<char>>) -> (n: usize)
    ensures
        n == word_count(row@, char_views(words@)),
{
    let content = ascii_lower_chars(row.content.as_str());
    let key = ascii_lower_chars(row.canonical_key.as_str());
    let ghost all = char_views(words@);
    let mut n: usize = 0;
    let mut i: usize = 0;
    proof {
        assert(all.take(0) =~= Seq::empty());
    }
    while i < words.len()
        invariant
            all == char_views(words@),
            content@ == ascii_lower(row@.content),
            key@ == ascii_lower(row@.key),
            n <= i <= words@.len(),
            n == word_count(row@, all.take(i as int)),
        decreases words@.len() - i,
    {
        proof {
            assert(all.take(i + 1).drop_last() =~= all.take(i as int));
            assert(all.take(i + 1).last() == words@[i as int]@);
        }
        if contains_chars(&content, &words[i]) || contains_chars(&key, &words[i]) {
            n = n + 1;
        }
        i = i + 1;
    }
    proof {
        assert(all.take(all.len() as int) =~= all);
    }
    n
}

/// The concepts of a session that have at least one of some words.
pub struct HasWords {
    pub session: String,
    pub words: Vec<Vec<char>>,
}

impl Pick<ConceptRow> for HasWords {
    open spec fn picks(&self, row: ConceptRowModel) -> bool {
        row.session == self.session@ && word_count(row, char_views(self.words@)) > 0
    }

    fn picks_row(&self, row: &ConceptRow) -> (r: bool) {
        row.session_id == self.session && count_words(row, &self.words) > 0
    }
}

/// The concepts of a session that have at least one of some words.
pub open spec fn matching(t: TablesModel, session: Seq<char>, ws: Seq<Seq<char>>) -> Map<
    RowKey,
    ConceptRowModel,
> {
    where_row(t.concepts, |r: ConceptRowModel| r.session == session && word_count(r, ws) > 0)
}

/// Whether a concept comes before another: it has more of the words, or as many and the smaller
/// identifier.
pub open spec fn matches_better(
    a: ConceptRowModel,
    b: ConceptRowModel,
    ws: Seq<Seq<char>>,
) -> bool {
    word_count(a, ws) > word_count(b, ws) || (word_count(a, ws) == word_count(b, ws)
        && text_no_later(a.id, b.id))
}

/// That rows stand with the better match first.
pub open spec fn best_first(rows: Seq<ConceptRow>, ws: Seq<Seq<char>>) -> bool {
    forall|i: int, j: int|
        0 <= i < j < rows.len() ==> matches_better(
            (#[trigger] rows[i])@,
            (#[trigger] rows[j])@,
            ws,
        )
}

/// A concept that was found, and how many of the words it has.
pub struct Found {
    pub id: NodeId,
    pub score: nat,
}

/// What is read of a concept that was found.
pub open spec fn found_read(ws: Seq<Seq<char>>) -> spec_fn(ConceptRowModel) -> Result<
    Found,
    StoreErrorModel,
> {
    |row: ConceptRowModel|
        match id_read(row.id, "concept id"@) {
            Ok(id) => Ok(Found { id, score: word_count(row, ws) }),
            Err(e) => Err(e),
        }
}

/// What was found, as values.
pub open spec fn founds(v: Seq<(NodeId, usize)>) -> Seq<Found> {
    Seq::new(v.len(), |i: int| Found { id: v[i].0, score: v[i].1 as nat })
}

/// What a search answers, or its error.
pub open spec fn found_seen(r: Result<Vec<(NodeId, usize)>, StoreError>) -> Result<
    Seq<Found>,
    StoreErrorModel,
> {
    match r {
        Ok(v) => Ok(founds(v@)),
        Err(e) => Err(e@),
    }
}

/// The first of some rows, as many as a limit allows.
pub open spec fn at_most<A>(rows: Seq<A>, limit: nat) -> Seq<A> {
    if limit < rows.len() {
        rows.take(limit as int)
    } else {
        rows
    }
}

/// What a search answers: nothing where no word is asked for or nothing may be answered; no session
/// where there is none; otherwise the concepts that have one of the words, the better match first,
/// up to the limit.
pub open spec fn keyword_answer(
    t: TablesModel,
    session: Seq<char>,
    ws: Seq<Seq<char>>,
    limit: nat,
    r: Result<Seq<Found>, StoreErrorModel>,
) -> bool {
    if ws.len() == 0 || limit == 0 {
        r == Ok::<Seq<Found>, StoreErrorModel>(Seq::empty())
    } else if !t.sessions.contains_key(seq![session]) {
        r == Err::<Seq<Found>, StoreErrorModel>(StoreErrorModel::SessionNotFound(session))
    } else {
        exists|rows: Seq<ConceptRow>|
            #![trigger best_first(rows, ws)]
            lists(rows, matching(t, session, ws)) && best_first(rows, ws) && r == read_all(
                at_most(concept_rows(rows), limit),
                found_read(ws),
            )
    }
}

/// Puts a row behind those that match better or as well.
fn insert_by_words(rows: &mut Vec<ConceptRow>, row: ConceptRow, words: &Vec<Vec<char>>)
    requires
        keys_differ(old(rows)@),
        best_first(old(rows)@, char_views(words@)),
        !by_key(old(rows)@).contains_key(ConceptRow::key_of(row@)),
        forall|i: int|
            0 <= i < old(rows)@.len() ==> text_no_later((#[trigger] old(rows)@[i])@.id, row@.id),
    ensures
        lists(final(rows)@, by_key(old(rows)@).insert(ConceptRow::key_of(row@), row@)),
        best_first(final(rows)@, char_views(words@)),
        exists|at: int|
            0 <= at <= old(rows)@.len() && final(rows)@ == #[trigger] old(rows)@.insert(at, row),
{
    let ghost ws = char_views(words@);
    let n: usize = count_words(&row, words);
    let mut at: usize = 0;
    while at < rows.len() && count_words(&rows[at], words) >= n
        invariant
            at <= rows@.len(),
            ws == char_views(words@),
            n == word_count(row@, ws),
            forall|j: int| 0 <= j < at ==> word_count((#[trigger] rows@[j])@, ws) >= n,
        decreases rows@.len() - at,
    {
        at = at + 1;
    }
    let ghost before = rows@;
    rows.insert(at, row);
    proof {
        let after = rows@;
        lemma_inserted(before, at as int, row);
        assert(after == before.insert(at as int, row));
        assert forall|i: int, j: int| 0 <= i < j < after.len() implies matches_better(
            (#[trigger] after[i])@,
            (#[trigger] after[j])@,
            ws,
        ) by {
            let i1 = if i < at { i } else { i - 1 };
            let j1 = if j < at { j } else { j - 1 };
            if i == at {
                assert(after[j] == before[j1]);
                if j1 > at {
                    assert(matches_better(before[at as int]@, before[j1]@, ws));
                }
            } else if j == at {
                assert(after[i] == before[i1]);
            } else {
                assert(after[i] == before[i1]);
                assert(after[j] == before[j1]);
            }
        }
    }
}

/// Puts rows that stand by their identifiers in order, the better match first.
fn sort_by_words(rows: Vec<ConceptRow>, words: &Vec<Vec<char>>) -> (out: Vec<ConceptRow>)
    requires
        keys_differ(rows@),
        ranked(rows@),
    ensures
        lists(out@, by_key(rows@)),
        best_first(out@, char_views(words@)),
{
    let ghost all = rows@;
    let mut out: Vec<ConceptRow> = Vec::new();
    proof {
        assert(all.take(0) =~= Seq::empty());
    }
    for row in iter: rows
        invariant
            keys_differ(all),
            ranked(all),
            iter.seq() == all,
            lists(out@, by_key(all.take(iter.index() as int))),
            best_first(out@, char_views(words@)),
            forall|a: int, j: int|
                0 <= a < out@.len() && iter.index() <= j < all.len() ==> text_no_later(
                    (#[trigger] out@[a])@.id,
                    (#[trigger] all[j])@.id,
                ),
    {
        let ghost at = iter.index() as int;
        let ghost upto = all.take(at);
        let ghost before = out@;
        proof {
            assert(row == all[at]);
            assert(keys_differ(upto)) by {
                assert forall|a: int, b: int| 0 <= a < b < upto.len() implies ConceptRow::key_of(
                    (#[trigger] upto[a])@,
                ) != ConceptRow::key_of((#[trigger] upto[b])@) by {
                    assert(upto[a] == all[a]);
                    assert(upto[b] == all[b]);
                }
            }
            assert(!by_key(upto).contains_key(ConceptRow::key_of(row@))) by {
                assert forall|a: int| !#[trigger] stands_at(
                    upto,
                    ConceptRow::key_of(row@),
                    a,
                ) by {
                    if stands_at(upto, ConceptRow::key_of(row@), a) {
                        assert(upto[a] == all[a]);
                    }
                }
            }
            lemma_inserted(upto, at, row);
            assert(upto.insert(at, row) =~= all.take(at + 1));
        }
        insert_by_words(&mut out, row, words);
        proof {
            let placed = choose|p: int|
                0 <= p <= before.len() && out@ == #[trigger] before.insert(p, row);
            assert forall|a: int, j: int| 0 <= a < out@.len() && at + 1 <= j < all.len() implies
                text_no_later((#[trigger] out@[a])@.id, (#[trigger] all[j])@.id) by {
                if a == placed {
                    assert(out@[a] == all[at]);
                    let x = ConceptRow::rank_of(all[at]@);
                    let y = ConceptRow::rank_of(all[j]@);
                    assert(list_no_later(x, y));
                    assert(x[0] == all[at]@.id && y[0] == all[j]@.id);
                    text_order_is_total(x[0], y[0]);
                } else {
                    let a1 = if a < placed { a } else { a - 1 };
                    assert(out@[a] == before[a1]);
                }
            }
        }
    }
    proof {
        assert(all.take(all.len() as int) =~= all);
    }
    out
}

/// Reads the first rows that were found, as many as a limit allows.
fn read_found(rows: &Vec<ConceptRow>, words: &Vec<Vec<char>>, limit: usize) -> (r: Result<
    Vec<(NodeId, usize)>,
    StoreError,
>)
    ensures
        found_seen(r) == read_all(
            at_most(concept_rows(rows@), limit as nat),
            found_read(char_views(words@)),
        ),
{
    let ghost all = at_most(concept_rows(rows@), limit as nat);
    let ghost read = found_read(char_views(words@));
    let mut out: Vec<(NodeId, usize)> = Vec::new();
    let mut i: usize = 0;
    proof {
        assert(all.take(0) =~= Seq::empty());
        assert(founds(out@) =~= Seq::empty());
    }
    while i < rows.len() && i < limit
        invariant
            all == at_most(concept_rows(rows@), limit as nat),
            read == found_read(char_views(words@)),
            i <= all.len(),
            read_all(all.take(i as int), read) == Ok::<Seq<Found>, StoreErrorModel>(
                founds(out@),
            ),
        decreases rows@.len() - i,
    {
        let ghost before = out@;
        proof {
            assert(all.take(i + 1).drop_last() =~= all.take(i as int));
            assert(all.take(i + 1).last() == rows@[i as int]@);
        }
        match node_id(rows[i].id.as_str(), "concept id") {
            Ok(id) => {
                let n: usize = count_words(&rows[i], words);
                out.push((id, n));
                proof {
                    assert(founds(out@) =~= founds(before).push(Found { id, score: n as nat }));
                }
            },
            Err(e) => {
                proof {
                    lemma_error_stays(all, read, i + 1, e@);
                }
                return Err(e);
            },
        }
        i = i + 1;
    }
    proof {
        assert(all.take(all.len() as int) =~= all);
    }
    Ok(out)
}

/// Finds concepts of a session by words.
pub fn keyword_candidates(t: &Tables, session: &SessionId, tokens: &Vec<String>, limit: usize) -> (r:
    Result<Vec<(NodeId, usize)>, StoreError>)
    requires
        t.wf(),
    ensures
        keyword_answer(t@, session@, words(texts(tokens@)), limit as nat, found_seen(r)),
{
    let ws = words_of(tokens);
    if ws.len() == 0 || limit == 0 {
        let none: Vec<(NodeId, usize)> = Vec::new();
        proof {
            assert(founds(none@) =~= Seq::empty());
            assert(char_views(ws@).len() == ws@.len());
        }
        return Ok(none);
    }
    proof {
        assert(char_views(ws@).len() == ws@.len());
    }
    if t.sessions.get(&key1(session.as_str())).is_none() {
        return Err(StoreError::SessionNotFound(session.0.clone()));
    }
    let p = HasWords { session: session.0.clone(), words: ws };
    let rows = t.concepts.select(&p);
    proof {
        assert(kept(t.concepts@, p) =~= matching(t@, session@, char_views(p.words@)));
    }
    let sorted = sort_by_words(rows, &p.words);
    read_found(&sorted, &p.words, limit)
}

} // verus!
