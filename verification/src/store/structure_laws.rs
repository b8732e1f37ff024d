//! What the two measures of a concept's standing mean: its reach and its span.

use crate::calendar::stored_texts_sort_by_time;
use crate::store::codec::{an_instant_reads_back, cutoff, ts_read};
use crate::store::laws::can_be_stored;
use crate::store::load::interactions_in;
use crate::store::order::{list_no_later, text_no_later, text_order_is_total};
use crate::store::rows::{EdgeRowModel, InteractionRow, InteractionRowModel};
use crate::store::structure::{
    blast_answer, brings_in, dependents, hangs_on, span_answer, span_of, span_read, spans,
    supported_by, supported_by_others, supports, SpanMeasure,
};
use crate::store::table::{
    by_key, lemma_counted, lemma_found, lists, ranked, stands_at, Row, RowKey,
};
use crate::store::tables::{id_text, TablesModel};
use crate::time::{
    age_of, earlier_by, elapsed, in_four_digit_years, stored_text, too_old, Timestamp,
};
use crate::types::{NodeId, StoreError, StoreErrorModel};
use vstd::prelude::*;

verus! {

/// That an instant can be stored, and lies in no leap second.
pub open spec fn is_plain_time(t: Timestamp) -> bool {
    can_be_stored(t) && t.sub_nanos() < 1_000_000_000
}

/// That a distance is the greatest between any two of some times.
pub open spec fn is_spread(times: Seq<Timestamp>, ms: int) -> bool {
    &&& forall|i: int, j: int|
        0 <= i < times.len() && 0 <= j < times.len() ==> (#[trigger] times[j]).millis() - (
        #[trigger] times[i]).millis() <= ms
    &&& exists|i: int, j: int|
        0 <= i < times.len() && 0 <= j < times.len() && (#[trigger] times[j]).millis() - (
        #[trigger] times[i]).millis() == ms
}

/// That interactions were made at some times.
pub open spec fn were_made_at(rows: Seq<InteractionRow>, times: Seq<Timestamp>) -> bool {
    &&& rows.len() == times.len()
    &&& forall|i: int|
        0 <= i < times.len() ==> is_plain_time(#[trigger] times[i]) && rows[i]@.created_at
            == stored_text(times[i])
}

/// An instant that is cut lies at its millisecond.
pub proof fn lemma_cut_instant(t: Timestamp)
    requires
        is_plain_time(t),
    ensures
        t.cut().instant() == t.millis() * 1_000_000,
        t.cut().sub_nanos() < 1_000_000_000,
{
    let nanos = t.sub_nanos() - t.sub_nanos() % 1_000_000;
    Timestamp::at_parts(t.secs(), nanos);
    assert(nanos == (t.sub_nanos() / 1_000_000) * 1_000_000);
}

proof fn lemma_ends_are_furthest(rows: Seq<InteractionRow>, times: Seq<Timestamp>, ms: int)
    requires
        ranked(rows),
        were_made_at(rows, times),
        times.len() > 0,
        is_spread(times, ms),
    ensures
        times.last().millis() - times.first().millis() == ms,
{
    let n = times.len() - 1;
    assert(times.last() == times[n] && times.first() == times[0]);
    let (a, b) = choose|i: int, j: int|
        0 <= i < times.len() && 0 <= j < times.len() && (#[trigger] times[j]).millis() - (
        #[trigger] times[i]).millis() == ms;
    assert(times[n].millis() - times[0].millis() <= ms);
    assert forall|i: int, j: int| 0 <= i < j < times.len() implies times[i].millis()
        <= times[j].millis() by {
        let x = InteractionRow::rank_of(rows[i]@);
        let y = InteractionRow::rank_of(rows[j]@);
        assert(list_no_later(x, y));
        assert(x[0] == stored_text(times[i]) && y[0] == stored_text(times[j]));
        text_order_is_total(x[0], y[0]);
        stored_texts_sort_by_time(
            times[i].secs(),
            times[i].sub_nanos(),
            times[j].secs(),
            times[j].sub_nanos(),
        );
    }
    if a > 0 {
        assert(times[0].millis() <= times[a].millis());
    }
    if b < n {
        assert(times[b].millis() <= times[n].millis());
    }
}

/// A span covers the time between its own first and last interaction, out of the time between the
/// session's first and last: nothing before its first counts. A session that is one point is
/// covered whole.
pub proof fn a_span_covers_its_own_time(
    span: Seq<InteractionRow>,
    all: Seq<InteractionRow>,
    span_times: Seq<Timestamp>,
    all_times: Seq<Timestamp>,
    covered: int,
    extent: int,
)
    requires
        0 < span.len() <= u64::MAX,
        all.len() > 0,
        ranked(span),
        ranked(all),
        were_made_at(span, span_times),
        were_made_at(all, all_times),
        is_spread(span_times, covered),
        is_spread(all_times, extent),
    ensures
        span_read(span, all) is Ok,
        ({
            let m = span_read(span, all)->Ok_0;
            &&& m.distinct == span.len()
            &&& extent > 0 ==> m.extent_ms == extent && m.covered_ms == if covered < extent {
                covered
            } else {
                extent
            }
            &&& extent == 0 ==> m.extent_ms == 1 && m.covered_ms == 1
        }),
{
    lemma_ends_are_furthest(span, span_times, covered);
    lemma_ends_are_furthest(all, all_times, extent);
    let (lo, hi) = (span_times.first(), span_times.last());
    let (all_lo, all_hi) = (all_times.first(), all_times.last());
    assert(lo == span_times[0] && hi == span_times[span.len() - 1]);
    assert(all_lo == all_times[0] && all_hi == all_times[all.len() - 1]);
    an_instant_reads_back(lo);
    an_instant_reads_back(hi);
    an_instant_reads_back(all_lo);
    an_instant_reads_back(all_hi);
    lemma_cut_instant(lo);
    lemma_cut_instant(hi);
    lemma_cut_instant(all_lo);
    lemma_cut_instant(all_hi);
    assert(elapsed(lo.cut(), hi.cut()) == covered * 1_000_000);
    assert(elapsed(all_lo.cut(), all_hi.cut()) == extent * 1_000_000);
    crate::time::elapsed_is_bounded(lo.cut(), hi.cut());
    crate::time::elapsed_is_bounded(all_lo.cut(), all_hi.cut());
    assert((covered * 1_000_000) / 1_000_000 == covered);
    assert((extent * 1_000_000) / 1_000_000 == extent);
    assert(covered >= 0) by {
        assert(span_times[0].millis() - span_times[0].millis() <= covered);
    }
    assert(extent >= 0) by {
        assert(all_times[0].millis() - all_times[0].millis() <= extent);
    }
}

/// A span of one interaction covers no time of a session that has any.
pub proof fn a_span_of_one_covers_nothing(
    span: Seq<InteractionRow>,
    all: Seq<InteractionRow>,
    at: Timestamp,
    all_times: Seq<Timestamp>,
    extent: int,
)
    requires
        span.len() == 1,
        all.len() > 0,
        ranked(all),
        were_made_at(span, seq![at]),
        were_made_at(all, all_times),
        is_spread(all_times, extent),
        extent > 0,
    ensures
        span_read(span, all) is Ok,
        span_read(span, all)->Ok_0.covered_ms == 0,
        span_read(span, all)->Ok_0.distinct == 1,
{
    let one = seq![at];
    assert(one[0].millis() - one[0].millis() == 0);
    a_span_covers_its_own_time(span, all, one, all_times, 0, extent);
}

/// What a span covers does not change when interactions outside it make the session longer.
pub proof fn a_longer_session_leaves_what_is_covered(
    span: Seq<InteractionRow>,
    all: Seq<InteractionRow>,
    more: Seq<InteractionRow>,
)
    requires
        span.len() <= u64::MAX,
        span_read(span, all) is Ok,
        span_read(span, more) is Ok,
        span_read(span, all)->Ok_0.covered_ms < span_read(span, all)->Ok_0.extent_ms,
        span_read(span, all)->Ok_0.extent_ms <= span_read(span, more)->Ok_0.extent_ms,
        span_read(span, more)->Ok_0.extent_ms > 1,
    ensures
        span_read(span, more)->Ok_0.covered_ms == span_read(span, all)->Ok_0.covered_ms,
        span_read(span, more)->Ok_0.distinct == span_read(span, all)->Ok_0.distinct,
{
    if span.len() > 0 {
        let lo = ts_read(span.first()@.created_at)->Ok_0;
        let hi = ts_read(span.last()@.created_at)->Ok_0;
        crate::time::elapsed_is_bounded(lo, hi);
        crate::time::elapsed_is_bounded(
            ts_read(all.first()@.created_at)->Ok_0,
            ts_read(all.last()@.created_at)->Ok_0,
        );
        crate::time::elapsed_is_bounded(
            ts_read(more.first()@.created_at)->Ok_0,
            ts_read(more.last()@.created_at)->Ok_0,
        );
    }
}

/// That an edge speaks for its target: it is a dependency, a cause or a part, and was made by then.
pub open spec fn speaks(e: EdgeRowModel, cut: Seq<char>) -> bool {
    (e.edge_type == "Dependency"@ || e.edge_type == "Causal"@ || e.edge_type == "Hierarchical"@)
        && text_no_later(e.created_at, cut)
}

/// That an interaction belongs to a node's span.
pub open spec fn in_span(
    t: TablesModel,
    session: Seq<char>,
    node: Seq<char>,
    cut: Seq<char>,
    k: RowKey,
) -> bool {
    &&& t.interactions.contains_key(k)
    &&& t.interactions[k].session == session
    &&& text_no_later(t.interactions[k].created_at, cut)
    &&& exists|e: RowKey| #[trigger]
        t.edges.contains_key(e) && t.edges[e].target == node && t.edges[e].session == session
            && speaks(t.edges[e], cut) && t.concepts.contains_key(seq![t.edges[e].source])
            && t.concepts[seq![t.edges[e].source]].origin == t.interactions[k].id
}

/// An interaction belongs to a node's span exactly where it is of the session, was made by then,
/// and a concept that came out of it speaks for the node by an edge of the session.
pub proof fn a_span_is_what_speaks_for_the_node(
    t: TablesModel,
    session: Seq<char>,
    node: Seq<char>,
    cut: Seq<char>,
    k: RowKey,
)
    ensures
        span_of(t, session, node, cut).contains_key(k) <==> in_span(t, session, node, cut, k),
        span_of(t, session, node, cut).contains_key(k) ==> span_of(t, session, node, cut)[k]
            == t.interactions[k],
{
    if t.interactions.contains_key(k) {
        let id = t.interactions[k].id;
        assert(brings_in(t, session, node, id, cut) <==> exists|e: RowKey| #[trigger]
            t.edges.contains_key(e) && t.edges[e].target == node && t.edges[e].session == session
                && speaks(t.edges[e], cut) && t.concepts.contains_key(seq![t.edges[e].source])
                && t.concepts[seq![t.edges[e].source]].origin == id) by {
            assert forall|e: RowKey| #[trigger] t.edges.contains_key(e) implies spans(
                t.edges[e],
                session,
                node,
                cut,
            ) == (t.edges[e].target == node && t.edges[e].session == session && speaks(
                t.edges[e],
                cut,
            )) by {}
        }
    }
}

/// That a distance is the greatest between any two of the times of some rows.
pub open spec fn spread_over(keys: Set<RowKey>, times: Map<RowKey, Timestamp>, ms: int) -> bool {
    &&& forall|a: RowKey, b: RowKey| #[trigger]
        keys.contains(a) && #[trigger] keys.contains(b) ==> times[b].millis() - times[a].millis()
            <= ms
    &&& exists|a: RowKey, b: RowKey| #[trigger]
        keys.contains(a) && #[trigger] keys.contains(b) && times[b].millis() - times[a].millis()
            == ms
}

proof fn lemma_spread_over(
    rows: Seq<InteractionRow>,
    table: Map<RowKey, InteractionRowModel>,
    times: Map<RowKey, Timestamp>,
    ms: int,
) -> (v: Seq<Timestamp>)
    requires
        lists(rows, table),
        spread_over(table.dom(), times, ms),
        forall|k: RowKey| #[trigger]
            table.contains_key(k) ==> is_plain_time(times[k]) && table[k].created_at == stored_text(
                times[k],
            ),
    ensures
        were_made_at(rows, v),
        is_spread(v, ms),
        v.len() > 0,
{
    let v = Seq::new(rows.len(), |i: int| times[InteractionRow::key_of(rows[i]@)]);
    assert forall|i: int| 0 <= i < rows.len() implies table.contains_key(
        InteractionRow::key_of((#[trigger] rows[i])@),
    ) && table[InteractionRow::key_of(rows[i]@)] == rows[i]@ by {
        lemma_found(rows, i);
    }
    assert forall|i: int| 0 <= i < v.len() implies is_plain_time(#[trigger] v[i])
        && rows[i]@.created_at == stored_text(v[i]) by {
        assert(table.contains_key(InteractionRow::key_of(rows[i]@)));
    }
    assert forall|i: int, j: int| 0 <= i < v.len() && 0 <= j < v.len() implies (
    #[trigger] v[j]).millis() - (#[trigger] v[i]).millis() <= ms by {
        assert(table.dom().contains(InteractionRow::key_of(rows[i]@)));
        assert(table.dom().contains(InteractionRow::key_of(rows[j]@)));
    }
    let (a, b) = choose|a: RowKey, b: RowKey| #[trigger]
        table.dom().contains(a) && #[trigger] table.dom().contains(b) && times[b].millis()
            - times[a].millis() == ms;
    assert(by_key(rows).contains_key(a) && by_key(rows).contains_key(b));
    let i = choose|i: int| #[trigger] stands_at(rows, a, i);
    let j = choose|j: int| #[trigger] stands_at(rows, b, j);
    assert(stands_at(rows, a, i) && stands_at(rows, b, j));
    assert(v[j].millis() - v[i].millis() == ms);
    v
}

/// What the span of a node measures: each interaction that belongs to it counts once, and it covers
/// the time between its own first and last, out of the time between the session's.
pub proof fn a_nodes_span_is_its_own_time(
    t: TablesModel,
    session: Seq<char>,
    node: NodeId,
    secs: u64,
    nanos: u32,
    now: Timestamp,
    r: Result<SpanMeasure, StoreErrorModel>,
    times: Map<RowKey, Timestamp>,
    covered: int,
    extent: int,
)
    requires
        span_answer(t, session, node, secs, nanos, now, r),
        t.sessions.contains_key(seq![session]),
        !too_old(secs, nanos),
        forall|k: RowKey| #[trigger]
            t.interactions.contains_key(k) && t.interactions[k].session == session
                ==> is_plain_time(times[k]) && t.interactions[k].created_at == stored_text(times[k]),
        spread_over(
            Set::new(|k: RowKey| in_span(t, session, id_text(node), cutoff(now, secs, nanos), k)),
            times,
            covered,
        ),
        spread_over(
            Set::new(
                |k: RowKey|
                    t.interactions.contains_key(k) && t.interactions[k].session == session,
            ),
            times,
            extent,
        ),
        Set::new(
            |k: RowKey| in_span(t, session, id_text(node), cutoff(now, secs, nanos), k),
        ).len() <= u64::MAX,
    ensures
        r is Ok,
        r->Ok_0.distinct == Set::new(
            |k: RowKey| in_span(t, session, id_text(node), cutoff(now, secs, nanos), k),
        ).len(),
        extent > 0 ==> r->Ok_0.extent_ms == extent && r->Ok_0.covered_ms == if covered < extent {
            covered
        } else {
            extent
        },
        extent == 0 ==> r->Ok_0.extent_ms == 1 && r->Ok_0.covered_ms == 1,
{
    let cut = cutoff(now, secs, nanos);
    let n = id_text(node);
    let (span, all) = choose|span: Seq<InteractionRow>, all: Seq<InteractionRow>|
        #![trigger span_read(span, all)]
        lists(span, span_of(t, session, n, cut)) && ranked(span) && lists(
            all,
            interactions_in(t, session),
        ) && ranked(all) && r == span_read(span, all);
    assert forall|k: RowKey| span_of(t, session, n, cut).dom().contains(k) == in_span(
        t,
        session,
        n,
        cut,
        k,
    ) by {
        a_span_is_what_speaks_for_the_node(t, session, n, cut, k);
    }
    assert(span_of(t, session, n, cut).dom() =~= Set::new(
        |k: RowKey| in_span(t, session, n, cut, k),
    ));
    assert(interactions_in(t, session).dom() =~= Set::new(
        |k: RowKey| t.interactions.contains_key(k) && t.interactions[k].session == session,
    ));
    assert forall|k: RowKey| #[trigger] span_of(t, session, n, cut).contains_key(k) implies
        is_plain_time(times[k]) && span_of(t, session, n, cut)[k].created_at == stored_text(
        times[k],
    ) by {
        a_span_is_what_speaks_for_the_node(t, session, n, cut, k);
        assert(t.interactions.contains_key(k));
    }
    assert forall|k: RowKey| #[trigger] interactions_in(t, session).contains_key(k) implies
        is_plain_time(times[k]) && interactions_in(t, session)[k].created_at == stored_text(
        times[k],
    ) by {
        assert(t.interactions.contains_key(k));
    }
    let a = lemma_spread_over(span, span_of(t, session, n, cut), times, covered);
    let b = lemma_spread_over(all, interactions_in(t, session), times, extent);
    lemma_counted(span);
    a_span_covers_its_own_time(span, all, a, b, covered, extent);
}

/// The span of a node is of its session alone: what other sessions hold does not matter.
pub proof fn a_span_is_of_its_session(
    t: TablesModel,
    u: TablesModel,
    session: Seq<char>,
    node: NodeId,
    secs: u64,
    nanos: u32,
    now: Timestamp,
    r: Result<SpanMeasure, StoreErrorModel>,
)
    requires
        span_answer(t, session, node, secs, nanos, now, r),
        t.edges == u.edges,
        t.concepts == u.concepts,
        t.sessions.contains_key(seq![session]) == u.sessions.contains_key(seq![session]),
        forall|k: RowKey|
            (#[trigger] t.interactions.contains_key(k) && t.interactions[k].session == session) <==> (
            u.interactions.contains_key(k) && u.interactions[k].session == session),
        forall|k: RowKey| #[trigger]
            t.interactions.contains_key(k) && t.interactions[k].session == session
                ==> u.interactions[k] == t.interactions[k],
    ensures
        span_answer(u, session, node, secs, nanos, now, r),
{
    let cut = cutoff(now, secs, nanos);
    let n = id_text(node);
    assert forall|id: Seq<char>| #[trigger]
        brings_in(t, session, n, id, cut) == brings_in(u, session, n, id, cut) by {}
    assert forall|k: RowKey| #[trigger]
        span_of(t, session, n, cut).contains_key(k) implies span_of(u, session, n, cut).contains_key(
        k,
    ) && span_of(u, session, n, cut)[k] == span_of(t, session, n, cut)[k] by {
        assert(t.interactions.contains_key(k));
        assert(brings_in(u, session, n, t.interactions[k].id, cut));
    }
    assert forall|k: RowKey| #[trigger]
        span_of(u, session, n, cut).contains_key(k) implies span_of(t, session, n, cut).contains_key(
        k,
    ) by {
        assert(u.interactions.contains_key(k) && u.interactions[k].session == session);
        assert(t.interactions.contains_key(k) && t.interactions[k].session == session);
        assert(brings_in(t, session, n, u.interactions[k].id, cut));
    }
    assert(span_of(t, session, n, cut) =~= span_of(u, session, n, cut));
    assert(interactions_in(t, session) =~= interactions_in(u, session));
}

/// That a row is a concept of a session that is not the node itself, that the node speaks for it,
/// and that no other concept of the session does.
pub open spec fn rests_on(
    t: TablesModel,
    session: Seq<char>,
    node: Seq<char>,
    cut: Seq<char>,
    k: RowKey,
) -> bool {
    &&& t.concepts.contains_key(k)
    &&& t.concepts[k].session == session
    &&& t.concepts[k].id != node
    &&& exists|e: RowKey| #[trigger]
        t.edges.contains_key(e) && t.edges[e].target == t.concepts[k].id && t.edges[e].source
            == node && speaks(t.edges[e], cut)
    &&& t.concepts.contains_key(seq![node]) && t.concepts[seq![node]].session == session
    &&& forall|e: RowKey| #[trigger]
        t.edges.contains_key(e) && t.edges[e].target == t.concepts[k].id && speaks(t.edges[e], cut)
            && t.concepts.contains_key(seq![t.edges[e].source])
            && t.concepts[seq![t.edges[e].source]].session == session ==> t.edges[e].source == node
}

proof fn lemma_dependents(
    t: TablesModel,
    session: Seq<char>,
    node: Seq<char>,
    cut: Seq<char>,
    k: RowKey,
)
    ensures
        dependents(t, session, node, cut).contains_key(k) <==> rests_on(t, session, node, cut, k),
{
    if t.concepts.contains_key(k) {
        let id = t.concepts[k].id;
        if supported_by(t, session, node, id, cut) {
            let e = choose|e: RowKey| #[trigger]
                t.edges.contains_key(e) && t.edges[e].source == node && t.edges[e].target == id
                    && supports(t, session, t.edges[e], cut);
            assert(t.edges.contains_key(e) && speaks(t.edges[e], cut));
        }
        if rests_on(t, session, node, cut, k) {
            let e = choose|e: RowKey| #[trigger]
                t.edges.contains_key(e) && t.edges[e].target == id && t.edges[e].source == node
                    && speaks(t.edges[e], cut);
            assert(supports(t, session, t.edges[e], cut));
            assert(supported_by(t, session, node, id, cut));
            if supported_by_others(t, session, node, id, cut) {
                let x = choose|x: RowKey| #[trigger]
                    t.edges.contains_key(x) && t.edges[x].source != node && t.edges[x].target == id
                        && supports(t, session, t.edges[x], cut);
                assert(speaks(t.edges[x], cut));
            }
        }
        if hangs_on(t, session, node, t.concepts[k], cut) {
            assert forall|e: RowKey| #[trigger]
                t.edges.contains_key(e) && t.edges[e].target == id && speaks(t.edges[e], cut)
                    && t.concepts.contains_key(seq![t.edges[e].source])
                    && t.concepts[seq![t.edges[e].source]].session == session implies
                t.edges[e].source == node by {
                if t.edges[e].source != node {
                    assert(supports(t, session, t.edges[e], cut));
                    assert(supported_by_others(t, session, node, id, cut));
                }
            }
        }
    }
}

/// The reach of a node is the number of concepts that rest on it alone. There is none where there
/// is no such session.
pub proof fn the_reach_counts_what_rests_on_the_node(
    t: TablesModel,
    session: Seq<char>,
    node: NodeId,
    secs: u64,
    nanos: u32,
    now: Timestamp,
    r: Result<u64, StoreError>,
)
    requires
        blast_answer(t, session, node, secs, nanos, now, r),
    ensures
        !t.sessions.contains_key(seq![session]) ==> r is Err && r->Err_0@
            == StoreErrorModel::SessionNotFound(session),
        t.sessions.contains_key(seq![session]) && !too_old(secs, nanos) ==> r is Ok && {
            let found = Set::new(
                |k: RowKey| rests_on(t, session, id_text(node), cutoff(now, secs, nanos), k),
            );
            found.finite() && r->Ok_0 == found.len()
        },
{
    let cut = cutoff(now, secs, nanos);
    let n = id_text(node);
    let found = Set::new(|k: RowKey| rests_on(t, session, n, cut, k));
    assert forall|k: RowKey| dependents(t, session, n, cut).dom().contains(k) == found.contains(
        k,
    ) by {
        lemma_dependents(t, session, n, cut, k);
    }
    assert(dependents(t, session, n, cut).dom() =~= found);
}

/// A concept that another concept of the session speaks for rests on no node but that one.
pub proof fn a_concept_rests_on_one_node_at_most(
    t: TablesModel,
    session: Seq<char>,
    a: Seq<char>,
    b: Seq<char>,
    cut: Seq<char>,
    k: RowKey,
)
    requires
        dependents(t, session, a, cut).contains_key(k),
        dependents(t, session, b, cut).contains_key(k),
    ensures
        a == b,
{
    lemma_dependents(t, session, a, cut, k);
    lemma_dependents(t, session, b, cut, k);
    let e = choose|e: RowKey| #[trigger]
        t.edges.contains_key(e) && t.edges[e].target == t.concepts[k].id && t.edges[e].source == a
            && speaks(t.edges[e], cut);
    assert(t.edges.contains_key(e));
}

/// What is old enough goes by milliseconds: something is no younger than an age exactly where it
/// was made at least that long before now.
pub proof fn an_age_goes_by_milliseconds(made: Timestamp, now: Timestamp, secs: u64, nanos: u32)
    requires
        is_plain_time(made),
        is_plain_time(now),
        nanos < 1_000_000_000,
        nanos % 1_000_000 == 0,
        secs <= 9_000_000_000_000,
        in_four_digit_years(now.secs() - secs - 1),
    ensures
        text_no_later(stored_text(made), cutoff(now, secs, nanos)) <==> made.millis()
            <= now.millis() - (secs * 1000 + nanos / 1_000_000),
{
    let age = age_of(secs, nanos);
    let total = now.instant() - age;
    let borrows = now.sub_nanos() < nanos;
    let s = now.secs() - secs - if borrows {
        1int
    } else {
        0
    };
    let ns = now.sub_nanos() - nanos + if borrows {
        1_000_000_000int
    } else {
        0
    };
    assert(total == s * 1_000_000_000 + ns);
    assert(total / 1_000_000_000 == s);
    assert(total % 1_000_000_000 == ns);
    assert(earlier_by(now, age) == Timestamp::at(s, ns));
    Timestamp::at_parts(s, ns);
    stored_texts_sort_by_time(made.secs(), made.sub_nanos(), s, ns);
    let q = nanos as int / 1_000_000;
    assert(nanos == q * 1_000_000);
    assert(s * 1000 + ns / 1_000_000 == now.millis() - (secs * 1000 + q)) by {
        if borrows {
            assert((now.sub_nanos() - nanos + 1_000_000_000) / 1_000_000 == now.sub_nanos()
                / 1_000_000 - q + 1000);
        } else {
            assert((now.sub_nanos() - nanos) / 1_000_000 == now.sub_nanos() / 1_000_000 - q);
        }
    }
}

} // verus!
