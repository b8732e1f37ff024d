//! What the structure of a session says of a concept: how much hangs on it alone, and over how
//! much of the session it was worked on.

use crate::store::codec::{age_out_of_range, cutoff, cutoff_text, text_to_ts, ts_read};
use crate::store::keys::key1;
use crate::store::load::{concepts_in, interactions_in, where_row, OfSession};
use crate::store::order::{no_later, text_no_later};
use crate::store::rows::{
    ConceptRow, ConceptRowModel, EdgeRow, EdgeRowModel, InteractionRow, InteractionRowModel,
};
use crate::store::table::{
    kept, lemma_counted, lemma_found, lists, ranked, stands_at, Pick, Row, RowKey,
};
use crate::store::tables::{id_text, Tables, TablesModel};
use crate::time::{age_of, elapsed, elapsed_is_bounded, reaches_back, too_old, Timestamp};
use crate::types::{NodeId, SessionId, StoreError, StoreErrorModel};
use vstd::prelude::*;
use vstd::string::*;

verus! {

/// Whether an edge type is structural: a dependency, a cause or a part.
pub open spec fn is_structural(edge_type: Seq<char>) -> bool {
    edge_type == "Dependency"@ || edge_type == "Causal"@ || edge_type == "Hierarchical"@
}

fn structural(edge_type: &String) -> (r: bool)
    ensures
        r == is_structural(edge_type@),
{
    *edge_type == "Dependency".to_owned() || *edge_type == "Causal".to_owned() || *edge_type
        == "Hierarchical".to_owned()
}

/// Whether a concept of a session has an identifier.
pub open spec fn concept_is_in(t: TablesModel, session: Seq<char>, id: Seq<char>) -> bool {
    t.concepts.contains_key(seq![id]) && t.concepts[seq![id]].session == session
}

/// Whether an edge supports its target: it is structural, it is no younger than the cutoff, and it
/// begins at a concept of the session.
pub open spec fn supports(
    t: TablesModel,
    session: Seq<char>,
    e: EdgeRowModel,
    cut: Seq<char>,
) -> bool {
    is_structural(e.edge_type) && text_no_later(e.created_at, cut) && concept_is_in(
        t,
        session,
        e.source,
    )
}

/// Whether a concept supports another.
pub open spec fn supported_by(
    t: TablesModel,
    session: Seq<char>,
    source: Seq<char>,
    target: Seq<char>,
    cut: Seq<char>,
) -> bool {
    exists|k: RowKey| #[trigger]
        t.edges.contains_key(k) && t.edges[k].source == source && t.edges[k].target == target
            && supports(t, session, t.edges[k], cut)
}

/// Whether a concept other than one supports another.
pub open spec fn supported_by_others(
    t: TablesModel,
    session: Seq<char>,
    but: Seq<char>,
    target: Seq<char>,
    cut: Seq<char>,
) -> bool {
    exists|k: RowKey| #[trigger]
        t.edges.contains_key(k) && t.edges[k].source != but && t.edges[k].target == target
            && supports(t, session, t.edges[k], cut)
}

/// Whether a concept hangs on a node alone.
pub open spec fn hangs_on(
    t: TablesModel,
    session: Seq<char>,
    node: Seq<char>,
    c: ConceptRowModel,
    cut: Seq<char>,
) -> bool {
    &&& c.session == session
    &&& c.id != node
    &&& supported_by(t, session, node, c.id, cut)
    &&& !supported_by_others(t, session, node, c.id, cut)
}

/// The concepts that hang on a node alone.
pub open spec fn dependents(
    t: TablesModel,
    session: Seq<char>,
    node: Seq<char>,
    cut: Seq<char>,
) -> Map<RowKey, ConceptRowModel> {
    where_row(t.concepts, |c: ConceptRowModel| hangs_on(t, session, node, c, cut))
}

/// Structural edges that are no younger than a cutoff and begin at one of some concepts.
struct SupportsFrom {
    cut: String,
    members: Vec<ConceptRow>,
}

spec fn is_among(members: Seq<ConceptRow>, id: Seq<char>) -> bool {
    exists|i: int| 0 <= i < members.len() && (#[trigger] members[i])@.id == id
}

fn among(members: &Vec<ConceptRow>, id: &String) -> (r: bool)
    ensures
        r == is_among(members@, id@),
{
    let mut i: usize = 0;
    while i < members.len()
        invariant
            i <= members@.len(),
            forall|j: int| 0 <= j < i ==> (#[trigger] members@[j])@.id != id@,
        decreases members@.len() - i,
    {
        if members[i].id == *id {
            proof {
                assert(members@[i as int]@.id == id@);
            }
            return true;
        }
        i = i + 1;
    }
    false
}

impl Pick<EdgeRow> for SupportsFrom {
    closed spec fn picks(&self, row: EdgeRowModel) -> bool {
        is_structural(row.edge_type) && text_no_later(row.created_at, self.cut@) && is_among(
            self.members@,
            row.source,
        )
    }

    fn picks_row(&self, row: &EdgeRow) -> (r: bool) {
        structural(&row.edge_type) && no_later(row.created_at.as_str(), self.cut.as_str())
            && among(&self.members, &row.source)
    }
}

/// The concepts of a session that some edges support from a node and from nowhere else.
struct Dependent {
    session: String,
    node: String,
    edges: Vec<EdgeRow>,
}

spec fn points_at(edges: Seq<EdgeRow>, target: Seq<char>, node: Seq<char>, from_it: bool) -> bool {
    exists|i: int|
        0 <= i < edges.len() && (#[trigger] edges[i])@.target == target && (edges[i]@.source
            == node) == from_it
}

fn pointing(edges: &Vec<EdgeRow>, target: &String, node: &String, from_it: bool) -> (r: bool)
    ensures
        r == points_at(edges@, target@, node@, from_it),
{
    let mut i: usize = 0;
    while i < edges.len()
        invariant
            i <= edges@.len(),
            forall|j: int|
                0 <= j < i ==> !((#[trigger] edges@[j])@.target == target@ && (edges@[j]@.source
                    == node@) == from_it),
        decreases edges@.len() - i,
    {
        if edges[i].target == *target && (edges[i].source == *node) == from_it {
            proof {
                assert(edges@[i as int]@.target == target@);
            }
            return true;
        }
        i = i + 1;
    }
    false
}

impl Pick<ConceptRow> for Dependent {
    closed spec fn picks(&self, row: ConceptRowModel) -> bool {
        &&& row.session == self.session@
        &&& row.id != self.node@
        &&& points_at(self.edges@, row.id, self.node@, true)
        &&& !points_at(self.edges@, row.id, self.node@, false)
    }

    fn picks_row(&self, row: &ConceptRow) -> (r: bool) {
        row.session_id == self.session && row.id != self.node && pointing(
            &self.edges,
            &row.id,
            &self.node,
            true,
        ) && !pointing(&self.edges, &row.id, &self.node, false)
    }
}

/// A row that is listed stands in the table.
proof fn lemma_listed<R: Row>(rows: Seq<R>, table: Map<RowKey, R::V>, i: int)
    requires
        lists(rows, table),
        0 <= i < rows.len(),
    ensures
        table.contains_key(R::key_of(rows[i]@)),
        table[R::key_of(rows[i]@)] == rows[i]@,
{
    lemma_found(rows, i);
}

/// A row of a table is listed, and its key is its own.
proof fn lemma_lists<R: Row>(rows: Seq<R>, table: Map<RowKey, R::V>, k: RowKey) -> (i: int)
    requires
        lists(rows, table),
        table.contains_key(k),
    ensures
        0 <= i < rows.len(),
        rows[i]@ == table[k],
        R::key_of(table[k]) == k,
{
    let i = choose|i: int| #[trigger] stands_at(rows, k, i);
    assert(stands_at(rows, k, i));
    lemma_found(rows, i);
    i
}

/// The concepts of a session that are listed are those that its table has.
proof fn lemma_members(t: TablesModel, session: Seq<char>, members: Seq<ConceptRow>, id: Seq<char>)
    requires
        lists(members, concepts_in(t, session)),
    ensures
        is_among(members, id) == concept_is_in(t, session, id),
{
    if is_among(members, id) {
        let i = choose|i: int| 0 <= i < members.len() && (#[trigger] members[i])@.id == id;
        lemma_listed(members, concepts_in(t, session), i);
    }
    if concept_is_in(t, session, id) {
        assert(concepts_in(t, session).contains_key(seq![id]));
        let i = lemma_lists(members, concepts_in(t, session), seq![id]);
        let k = ConceptRow::key_of(members[i]@);
        assert(k[0] == id);
    }
}

/// What the reach of a node answers.
pub open spec fn blast_answer(
    t: TablesModel,
    session: Seq<char>,
    node: NodeId,
    secs: u64,
    nanos: u32,
    now: Timestamp,
    r: Result<u64, StoreError>,
) -> bool {
    if !t.sessions.contains_key(seq![session]) {
        r matches Err(e) && e@ == StoreErrorModel::SessionNotFound(session)
    } else if too_old(secs, nanos) {
        r matches Err(e) && e@ == age_out_of_range()
    } else {
        let found = dependents(t, session, id_text(node), cutoff(now, secs, nanos)).dom();
        r matches Ok(n) && found.finite() && n == found.len()
    }
}

/// How many concepts of a session hang on a node alone, by edges that are at least so old.
pub fn blast_radius(
    t: &Tables,
    session: &SessionId,
    node: NodeId,
    min_age_secs: u64,
    min_age_nanos: u32,
    now: &Timestamp,
) -> (r: Result<u64, StoreError>)
    requires
        t.wf(),
        min_age_nanos < 1_000_000_000,
        too_old(min_age_secs, min_age_nanos) || reaches_back(
            *now,
            age_of(min_age_secs, min_age_nanos),
        ),
    ensures
        blast_answer(t@, session@, node, min_age_secs, min_age_nanos, *now, r),
{
    if t.sessions.get(&key1(session.as_str())).is_none() {
        return Err(StoreError::SessionNotFound(session.0.clone()));
    }
    let cut = match cutoff_text(now, min_age_secs, min_age_nanos) {
        Ok(cut) => cut,
        Err(e) => {
            return Err(e);
        },
    };
    let ghost c = cut@;
    let ghost s = session@;
    let of_session = OfSession { session: session.0.clone() };
    let members = t.concepts.select(&of_session);
    proof {
        assert(kept::<ConceptRow, OfSession>(t.concepts@, of_session) =~= concepts_in(t@, s));
    }
    let ghost listed = members@;
    let from = SupportsFrom { cut, members };
    let edges = t.edges.select(&from);
    let ghost held = edges@;
    let p = Dependent { session: session.0.clone(), node: node.to_string(), edges };
    let rows = t.concepts.select(&p);
    proof {
        let n = id_text(node);
        assert forall|e: EdgeRowModel| #[trigger] from.picks(e) == supports(t@, s, e, c) by {
            lemma_members(t@, s, listed, e.source);
        }
        let table = kept(t.edges@, from);
        assert forall|id: Seq<char>| #[trigger]
            points_at(held, id, n, true) == supported_by(t@, s, n, id, c) by {
            if points_at(held, id, n, true) {
                let i = choose|i: int|
                    0 <= i < held.len() && (#[trigger] held[i])@.target == id && (held[i]@.source
                        == n) == true;
                lemma_listed(held, table, i);
                let k = EdgeRow::key_of(held[i]@);
                assert(t@.edges.contains_key(k) && from.picks(t@.edges[k]));
            }
            if supported_by(t@, s, n, id, c) {
                let k = choose|k: RowKey| #[trigger]
                    t@.edges.contains_key(k) && t@.edges[k].source == n && t@.edges[k].target == id
                        && supports(t@, s, t@.edges[k], c);
                assert(from.picks(t@.edges[k]));
                assert(table.contains_key(k));
                let i = lemma_lists(held, table, k);
            }
        }
        assert forall|id: Seq<char>| #[trigger]
            points_at(held, id, n, false) == supported_by_others(t@, s, n, id, c) by {
            if points_at(held, id, n, false) {
                let i = choose|i: int|
                    0 <= i < held.len() && (#[trigger] held[i])@.target == id && (held[i]@.source
                        == n) == false;
                lemma_listed(held, table, i);
                let k = EdgeRow::key_of(held[i]@);
                assert(t@.edges.contains_key(k) && from.picks(t@.edges[k]));
            }
            if supported_by_others(t@, s, n, id, c) {
                let k = choose|k: RowKey| #[trigger]
                    t@.edges.contains_key(k) && t@.edges[k].source != n && t@.edges[k].target == id
                        && supports(t@, s, t@.edges[k], c);
                assert(from.picks(t@.edges[k]));
                assert(table.contains_key(k));
                let i = lemma_lists(held, table, k);
            }
        }
        assert(kept(t.concepts@, p) =~= dependents(t@, s, n, c));
        lemma_counted(rows@);
    }
    Ok(rows.len() as u64)
}

/// Whether an edge makes its source's origin part of a node's span: it is structural, of the
/// session, no younger than the cutoff, and ends at the node.
pub open spec fn spans(e: EdgeRowModel, session: Seq<char>, node: Seq<char>, cut: Seq<char>) -> bool {
    e.target == node && e.session == session && is_structural(e.edge_type) && text_no_later(
        e.created_at,
        cut,
    )
}

/// Whether a concept that supports a node came out of an interaction.
pub open spec fn brings_in(
    t: TablesModel,
    session: Seq<char>,
    node: Seq<char>,
    interaction: Seq<char>,
    cut: Seq<char>,
) -> bool {
    exists|k: RowKey| #[trigger]
        t.edges.contains_key(k) && spans(t.edges[k], session, node, cut) && t.concepts.contains_key(
            seq![t.edges[k].source],
        ) && t.concepts[seq![t.edges[k].source]].origin == interaction
}

/// The interactions of a session, no younger than the cutoff, that a node's supporting concepts
/// came out of.
pub open spec fn span_of(
    t: TablesModel,
    session: Seq<char>,
    node: Seq<char>,
    cut: Seq<char>,
) -> Map<RowKey, InteractionRowModel> {
    where_row(
        t.interactions,
        |i: InteractionRowModel|
            i.session == session && text_no_later(i.created_at, cut) && brings_in(
                t,
                session,
                node,
                i.id,
                cut,
            ),
    )
}

/// How many interactions a node's support came out of, and over how much of the session they lie:
/// `covered_ms` out of `extent_ms`.
#[derive(Clone, Copy, Debug, PartialEq, Eq, Structural)]
pub struct SpanMeasure {
    pub distinct: u64,
    pub covered_ms: u128,
    pub extent_ms: u128,
}

/// Whole milliseconds, none where there is less than nothing.
pub open spec fn whole_ms(nanos: int) -> int {
    if nanos <= 0 {
        0
    } else {
        nanos / 1_000_000
    }
}

/// What a span measures. `span` and `all` are the interactions of the span and of the session by
/// their times. Without a span nothing is covered; a session that is one point is covered whole.
pub open spec fn span_read(span: Seq<InteractionRow>, all: Seq<InteractionRow>) -> Result<
    SpanMeasure,
    StoreErrorModel,
> {
    if span.len() == 0 {
        Ok(SpanMeasure { distinct: 0, covered_ms: 0, extent_ms: 1 })
    } else {
        match ts_read(span.first()@.created_at) {
            Err(e) => Err(e),
            Ok(lo) => match ts_read(span.last()@.created_at) {
                Err(e) => Err(e),
                Ok(hi) => match ts_read(all.first()@.created_at) {
                    Err(e) => Err(e),
                    Ok(all_lo) => match ts_read(all.last()@.created_at) {
                        Err(e) => Err(e),
                        Ok(all_hi) => {
                            let extent = whole_ms(elapsed(all_lo, all_hi));
                            let covered = whole_ms(elapsed(lo, hi));
                            Ok(
                                if extent == 0 {
                                    SpanMeasure {
                                        distinct: span.len() as u64,
                                        covered_ms: 1,
                                        extent_ms: 1,
                                    }
                                } else {
                                    SpanMeasure {
                                        distinct: span.len() as u64,
                                        covered_ms: (if covered > extent {
                                            extent
                                        } else {
                                            covered
                                        }) as u128,
                                        extent_ms: extent as u128,
                                    }
                                },
                            )
                        },
                    },
                },
            },
        }
    }
}

/// A measure, or its error.
pub open spec fn span_seen(r: Result<SpanMeasure, StoreError>) -> Result<
    SpanMeasure,
    StoreErrorModel,
> {
    match r {
        Ok(m) => Ok(m),
        Err(e) => Err(e@),
    }
}

fn milliseconds(nanos: i128) -> (n: u128)
    ensures
        n == whole_ms(nanos as int),
{
    if nanos <= 0 {
        0
    } else {
        (nanos / 1_000_000) as u128
    }
}

/// Measures a span.
pub fn measure_span(span: &Vec<InteractionRow>, all: &Vec<InteractionRow>) -> (r: Result<
    SpanMeasure,
    StoreError,
>)
    requires
        span@.len() > 0 ==> all@.len() > 0,
    ensures
        span_seen(r) == span_read(span@, all@),
{
    if span.len() == 0 {
        return Ok(SpanMeasure { distinct: 0, covered_ms: 0, extent_ms: 1 });
    }
    let lo = match text_to_ts(span[0].created_at.as_str()) {
        Ok(t) => t,
        Err(e) => {
            return Err(e);
        },
    };
    let hi = match text_to_ts(span[span.len() - 1].created_at.as_str()) {
        Ok(t) => t,
        Err(e) => {
            return Err(e);
        },
    };
    let all_lo = match text_to_ts(all[0].created_at.as_str()) {
        Ok(t) => t,
        Err(e) => {
            return Err(e);
        },
    };
    let all_hi = match text_to_ts(all[all.len() - 1].created_at.as_str()) {
        Ok(t) => t,
        Err(e) => {
            return Err(e);
        },
    };
    let extent_ms: u128 = milliseconds(all_hi.since(&all_lo));
    let distinct: u64 = span.len() as u64;
    if extent_ms == 0 {
        return Ok(SpanMeasure { distinct, covered_ms: 1, extent_ms: 1 });
    }
    let covered: u128 = milliseconds(hi.since(&lo));
    let covered_ms: u128 = if covered > extent_ms {
        extent_ms
    } else {
        covered
    };
    Ok(SpanMeasure { distinct, covered_ms, extent_ms })
}

/// The edges that make a node's span.
struct SpanEdges {
    session: String,
    node: String,
    cut: String,
}

impl Pick<EdgeRow> for SpanEdges {
    closed spec fn picks(&self, row: EdgeRowModel) -> bool {
        spans(row, self.session@, self.node@, self.cut@)
    }

    fn picks_row(&self, row: &EdgeRow) -> (r: bool) {
        row.target == self.node && row.session_id == self.session && structural(&row.edge_type)
            && no_later(row.created_at.as_str(), self.cut.as_str())
    }
}

spec fn holds_text(v: Seq<String>, s: Seq<char>) -> bool {
    exists|i: int| 0 <= i < v.len() && (#[trigger] v[i])@ == s
}

fn has_text(v: &Vec<String>, s: &String) -> (r: bool)
    ensures
        r == holds_text(v@, s@),
{
    let mut i: usize = 0;
    while i < v.len()
        invariant
            i <= v@.len(),
            forall|j: int| 0 <= j < i ==> (#[trigger] v@[j])@ != s@,
        decreases v@.len() - i,
    {
        if v[i] == *s {
            proof {
                assert(v@[i as int]@ == s@);
            }
            return true;
        }
        i = i + 1;
    }
    false
}

/// The interactions of a session, no younger than a cutoff, with one of some identifiers.
struct InSpan {
    session: String,
    cut: String,
    ids: Vec<String>,
}

impl Pick<InteractionRow> for InSpan {
    closed spec fn picks(&self, row: InteractionRowModel) -> bool {
        row.session == self.session@ && text_no_later(row.created_at, self.cut@) && holds_text(
            self.ids@,
            row.id,
        )
    }

    fn picks_row(&self, row: &InteractionRow) -> (r: bool) {
        row.session_id == self.session && no_later(row.created_at.as_str(), self.cut.as_str())
            && has_text(&self.ids, &row.id)
    }
}

/// The interactions that the sources of edges came out of.
fn origins(t: &Tables, edges: &Vec<EdgeRow>) -> (ids: Vec<String>)
    requires
        t.wf(),
    ensures
        forall|id: Seq<char>| #[trigger]
            holds_text(ids@, id) <==> exists|i: int|
                0 <= i < edges@.len() && t@.concepts.contains_key(
                    seq![(#[trigger] edges@[i])@.source],
                ) && t@.concepts[seq![edges@[i]@.source]].origin == id,
{
    let mut ids: Vec<String> = Vec::new();
    let mut i: usize = 0;
    while i < edges.len()
        invariant
            t.wf(),
            i <= edges@.len(),
            forall|id: Seq<char>| #[trigger]
                holds_text(ids@, id) <==> exists|j: int|
                    0 <= j < i && t@.concepts.contains_key(seq![(#[trigger] edges@[j])@.source])
                        && t@.concepts[seq![edges@[j]@.source]].origin == id,
        decreases edges@.len() - i,
    {
        let ghost before = ids@;
        match t.concepts.get(&key1(edges[i].source.as_str())) {
            Some(c) => {
                ids.push(c.origin_interaction.clone());
                proof {
                    let new = ids@.last()@;
                    assert(new == t@.concepts[seq![edges@[i as int]@.source]].origin);
                    assert forall|id: Seq<char>| #[trigger] holds_text(ids@, id) <==> (holds_text(
                        before,
                        id,
                    ) || id == new) by {
                        if holds_text(before, id) {
                            let j = choose|j: int|
                                0 <= j < before.len() && (#[trigger] before[j])@ == id;
                            assert(ids@[j]@ == id);
                        }
                        if id == new {
                            assert(ids@[before.len() as int]@ == id);
                        }
                        if holds_text(ids@, id) {
                            let j = choose|j: int|
                                0 <= j < ids@.len() && (#[trigger] ids@[j])@ == id;
                            if j < before.len() {
                                assert(before[j]@ == id);
                            }
                        }
                    }
                }
            },
            None => {},
        }
        i = i + 1;
    }
    ids
}

/// What the span of a node answers.
pub open spec fn span_answer(
    t: TablesModel,
    session: Seq<char>,
    node: NodeId,
    secs: u64,
    nanos: u32,
    now: Timestamp,
    r: Result<SpanMeasure, StoreErrorModel>,
) -> bool {
    if !t.sessions.contains_key(seq![session]) {
        r == Err::<SpanMeasure, StoreErrorModel>(StoreErrorModel::SessionNotFound(session))
    } else if too_old(secs, nanos) {
        r == Err::<SpanMeasure, StoreErrorModel>(age_out_of_range())
    } else {
        exists|span: Seq<InteractionRow>, all: Seq<InteractionRow>|
            #![trigger span_read(span, all)]
            lists(span, span_of(t, session, id_text(node), cutoff(now, secs, nanos))) && ranked(
                span,
            ) && lists(all, interactions_in(t, session)) && ranked(all) && r == span_read(span, all)
    }
}

/// Over how much of a session a node was worked on, by edges and interactions that are at least so
/// old.
pub fn interaction_span(
    t: &Tables,
    session: &SessionId,
    node: NodeId,
    min_age_secs: u64,
    min_age_nanos: u32,
    now: &Timestamp,
) -> (r: Result<SpanMeasure, StoreError>)
    requires
        t.wf(),
        min_age_nanos < 1_000_000_000,
        too_old(min_age_secs, min_age_nanos) || reaches_back(
            *now,
            age_of(min_age_secs, min_age_nanos),
        ),
    ensures
        span_answer(t@, session@, node, min_age_secs, min_age_nanos, *now, span_seen(r)),
{
    if t.sessions.get(&key1(session.as_str())).is_none() {
        return Err(StoreError::SessionNotFound(session.0.clone()));
    }
    let cut = match cutoff_text(now, min_age_secs, min_age_nanos) {
        Ok(cut) => cut,
        Err(e) => {
            return Err(e);
        },
    };
    let ghost c = cut@;
    let ghost s = session@;
    let ghost n = id_text(node);
    let from = SpanEdges {
        session: session.0.clone(),
        node: node.to_string(),
        cut: cut.clone(),
    };
    let edges = t.edges.select(&from);
    let ids = origins(t, &edges);
    let p = InSpan { session: session.0.clone(), cut, ids };
    let span = t.interactions.select(&p);
    let of_session = OfSession { session: session.0.clone() };
    let all = t.interactions.select(&of_session);
    proof {
        assert(kept::<InteractionRow, OfSession>(t.interactions@, of_session) =~= interactions_in(
            t@,
            s,
        ));
        let table = kept(t.edges@, from);
        assert forall|id: Seq<char>| #[trigger] holds_text(p.ids@, id) == brings_in(
            t@,
            s,
            n,
            id,
            c,
        ) by {
            if holds_text(p.ids@, id) {
                let i = choose|i: int|
                    0 <= i < edges@.len() && t@.concepts.contains_key(
                        seq![(#[trigger] edges@[i])@.source],
                    ) && t@.concepts[seq![edges@[i]@.source]].origin == id;
                lemma_listed(edges@, table, i);
                let k = EdgeRow::key_of(edges@[i]@);
                assert(t@.edges.contains_key(k) && from.picks(t@.edges[k]));
            }
            if brings_in(t@, s, n, id, c) {
                let k = choose|k: RowKey| #[trigger]
                    t@.edges.contains_key(k) && spans(t@.edges[k], s, n, c)
                        && t@.concepts.contains_key(seq![t@.edges[k].source])
                        && t@.concepts[seq![t@.edges[k].source]].origin == id;
                assert(from.picks(t@.edges[k]));
                assert(table.contains_key(k));
                let i = lemma_lists(edges@, table, k);
                assert(edges@[i]@.source == t@.edges[k].source);
            }
        }
        assert(kept(t.interactions@, p) =~= span_of(t@, s, n, c));
        if span@.len() > 0 {
            lemma_listed(span@, span_of(t@, s, n, c), 0);
            let k = InteractionRow::key_of(span@[0]@);
            assert(interactions_in(t@, s).contains_key(k));
            let i = lemma_lists(all@, interactions_in(t@, s), k);
        }
    }
    measure_span(&span, &all)
}

/// A node never covers more than its session, its interactions are counted once each, and without
/// any it covers nothing.
pub proof fn a_span_lies_within_its_session(span: Seq<InteractionRow>, all: Seq<InteractionRow>)
    requires
        span.len() <= u64::MAX,
    ensures
        span_read(span, all) matches Ok(m) ==> m.covered_ms <= m.extent_ms && m.extent_ms > 0
            && m.distinct == span.len(),
        span.len() == 0 ==> span_read(span, all) == Ok::<SpanMeasure, StoreErrorModel>(
            SpanMeasure { distinct: 0, covered_ms: 0, extent_ms: 1 },
        ),
{
    if span.len() > 0 {
        let lo = ts_read(span.first()@.created_at);
        let hi = ts_read(span.last()@.created_at);
        let all_lo = ts_read(all.first()@.created_at);
        let all_hi = ts_read(all.last()@.created_at);
        elapsed_is_bounded(lo->Ok_0, hi->Ok_0);
        elapsed_is_bounded(all_lo->Ok_0, all_hi->Ok_0);
    }
}

} // verus!
