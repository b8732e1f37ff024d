//! What a lease promises to its holder, and to everyone else.

use crate::calendar::stored_texts_sort_by_time;
use crate::store::codec::an_instant_reads_back;
use crate::store::laws::can_be_stored;
use crate::store::lease::{
    fenced, lease_answer, lease_of, lease_read, leases_after, leases_released, LeaseOutcome,
    LeaseRequest, LeaseRowModel,
};
use crate::store::order::text_no_later;
use crate::store::structure_laws::is_plain_time;
use crate::store::table::RowKey;
use crate::time::{stored_text, Timestamp};
use crate::types::{opt_text, StoreError};
use vstd::prelude::*;

verus! {

/// That a request was granted.
pub open spec fn is_granted(
    leases: Map<RowKey, LeaseRowModel>,
    q: LeaseRequest,
    clock: Timestamp,
    r: Result<LeaseOutcome, StoreError>,
) -> bool {
    lease_answer(lease_of(leases, q.session@), q, clock, r) && r is Ok && r->Ok_0 is Acquired
}

/// A lease that is granted is the asker's, until the very time that was asked for, and reachable
/// where the asker said; the row and the answer say the same. Who has it already keeps the token
/// and the time at which it was taken; who takes it anew has it from now on.
pub proof fn a_granted_lease_is_as_it_was_asked_for(
    leases: Map<RowKey, LeaseRowModel>,
    q: LeaseRequest,
    clock: Timestamp,
    r: Result<LeaseOutcome, StoreError>,
)
    requires
        is_granted(leases, q, clock, r),
    ensures
        lease_of(leases_after(leases, q), q.session@) is Some,
        ({
            let before = lease_of(leases, q.session@);
            let row = lease_of(leases_after(leases, q), q.session@)->0;
            let info = r->Ok_0->Acquired_0@;
            let stays = before is Some && before->0.holder == q.holder@;
            &&& row.session == q.session@
            &&& row.holder == q.holder@
            &&& row.expires_at == q.expires_at@
            &&& row.endpoint == opt_text(q.endpoint)
            &&& row.acquired_at == if stays {
                before->0.acquired_at
            } else {
                q.now@
            }
            &&& row.token == if stays {
                before->0.token as int
            } else if before is Some {
                before->0.token + 1
            } else {
                1
            }
            &&& info.holder == q.holder@
            &&& info.endpoint == opt_text(q.endpoint)
            &&& info.token == row.token
        }),
{
}

/// The instants that a granted lease is answered with are those that were asked for, at whole
/// milliseconds.
pub proof fn a_granted_lease_lasts_as_long_as_asked(
    leases: Map<RowKey, LeaseRowModel>,
    q: LeaseRequest,
    clock: Timestamp,
    r: Result<LeaseOutcome, StoreError>,
    now: Timestamp,
    until: Timestamp,
)
    requires
        is_granted(leases, q, clock, r),
        can_be_stored(now),
        can_be_stored(until),
        now.sub_nanos() % 1_000_000 == 0,
        until.sub_nanos() % 1_000_000 == 0,
        q.now@ == stored_text(now),
        q.expires_at@ == stored_text(until),
    ensures
        r->Ok_0->Acquired_0@.expires_at == until,
        !(lease_of(leases, q.session@) is Some && lease_of(leases, q.session@)->0.holder
            == q.holder@) ==> r->Ok_0->Acquired_0@.acquired_at == now,
{
    an_instant_reads_back(now);
    an_instant_reads_back(until);
    now.a_whole_millisecond_is_kept();
    until.a_whole_millisecond_is_kept();
}

/// Whoever has a lease, or finds none, or finds one that has run out, is granted it; whoever finds
/// another's that has not run out is told whose it is, and changes nothing.
pub proof fn a_lease_is_granted_or_held(
    leases: Map<RowKey, LeaseRowModel>,
    q: LeaseRequest,
    clock: Timestamp,
    r: Result<LeaseOutcome, StoreError>,
)
    requires
        lease_answer(lease_of(leases, q.session@), q, clock, r),
        r is Ok,
    ensures
        ({
            let before = lease_of(leases, q.session@);
            let others = before is Some && before->0.holder != q.holder@ && !text_no_later(
                before->0.expires_at,
                q.now@,
            );
            &&& r->Ok_0 is Held <==> others
            &&& r->Ok_0 is Acquired <==> !others
            &&& others ==> leases_after(leases, q) == leases && r->Ok_0->Held_current@.holder
                == before->0.holder && r->Ok_0->Held_current@.token == before->0.token
        }),
{
}

/// Once a lease was granted, nobody else is granted it at any clock before the time that was asked
/// for: the request changes nothing, and is answered with the holder.
pub proof fn a_live_lease_excludes_every_other(
    leases: Map<RowKey, LeaseRowModel>,
    mine: LeaseRequest,
    clock: Timestamp,
    granted: Result<LeaseOutcome, StoreError>,
    theirs: LeaseRequest,
    later: Timestamp,
    r: Result<LeaseOutcome, StoreError>,
    until: Timestamp,
    asked: Timestamp,
)
    requires
        is_granted(leases, mine, clock, granted),
        theirs.session@ == mine.session@,
        theirs.holder@ != mine.holder@,
        can_be_stored(until),
        can_be_stored(asked),
        until.sub_nanos() < 1_000_000_000,
        asked.sub_nanos() < 1_000_000_000,
        mine.expires_at@ == stored_text(until),
        theirs.now@ == stored_text(asked),
        asked.millis() < until.millis(),
        lease_answer(
            lease_of(leases_after(leases, mine), theirs.session@),
            theirs,
            later,
            r,
        ),
    ensures
        leases_after(leases_after(leases, mine), theirs) == leases_after(leases, mine),
        !(r is Ok && r->Ok_0 is Acquired),
        r is Ok ==> r->Ok_0->Held_current@.holder == mine.holder@,
{
    stored_texts_sort_by_time(until.secs(), until.sub_nanos(), asked.secs(), asked.sub_nanos());
    stored_texts_sort_by_time(asked.secs(), asked.sub_nanos(), until.secs(), until.sub_nanos());
    crate::store::order::text_order_is_total(stored_text(until), stored_text(asked));
    crate::calendar::a_text_is_one_instant(
        until.secs(),
        until.sub_nanos(),
        asked.secs(),
        asked.sub_nanos(),
    );
}

/// A lease that has run out at the asker's clock is taken over, by a token one higher, so that the
/// holder before is fenced off and the new one is not.
pub proof fn a_lease_that_ran_out_is_taken_over(
    leases: Map<RowKey, LeaseRowModel>,
    q: LeaseRequest,
    row: LeaseRowModel,
    until: Timestamp,
    asked: Timestamp,
)
    requires
        lease_of(leases, q.session@) == Some(row),
        row.holder != q.holder@,
        0 <= row.token < i64::MAX,
        can_be_stored(until),
        can_be_stored(asked),
        until.sub_nanos() < 1_000_000_000,
        asked.sub_nanos() < 1_000_000_000,
        row.expires_at == stored_text(until),
        q.now@ == stored_text(asked),
        until.millis() <= asked.millis(),
    ensures
        ({
            let after = lease_of(leases_after(leases, q), q.session@);
            &&& after is Some
            &&& after->0.holder == q.holder@
            &&& after->0.token == row.token + 1
            &&& fenced(q.session@, Some(after->0.token), Some((row.token + 1) as u64)) is None
            &&& fenced(q.session@, Some(after->0.token), Some(row.token as u64)) is Some
        }),
{
    stored_texts_sort_by_time(until.secs(), until.sub_nanos(), asked.secs(), asked.sub_nanos());
    crate::store::order::text_order_is_total(stored_text(until), stored_text(asked));
    crate::calendar::a_text_is_one_instant(
        until.secs(),
        until.sub_nanos(),
        asked.secs(),
        asked.sub_nanos(),
    );
}

/// A write passes the fence exactly where its session has no lease, or the writer presents the
/// lease's own token, or the lease was never taken.
pub proof fn only_the_current_token_writes(session: Seq<char>, current: Option<i64>, token: Option<u64>)
    ensures
        fenced(session, current, token) is None <==> (current is None || current == Some(0i64) || (
        current->0 >= 0 && token is Some && token->0 == current->0)),
{
}

/// Every request is answered where the row that stands is one that was written and its token can
/// still grow: granted, or told who has the lease and for how long.
pub proof fn a_request_is_answered(
    leases: Map<RowKey, LeaseRowModel>,
    q: LeaseRequest,
    clock: Timestamp,
    r: Result<LeaseOutcome, StoreError>,
    now: Timestamp,
    until: Timestamp,
    from: Timestamp,
    end: Timestamp,
)
    requires
        lease_answer(lease_of(leases, q.session@), q, clock, r),
        can_be_stored(now),
        can_be_stored(until),
        q.now@ == stored_text(now),
        q.expires_at@ == stored_text(until),
        lease_of(leases, q.session@) matches Some(row) ==> 0 <= row.token < i64::MAX
            && can_be_stored(from) && can_be_stored(end) && row.acquired_at == stored_text(from)
            && row.expires_at == stored_text(end),
    ensures
        r is Ok,
        r->Ok_0 is Held && is_plain_time(from) && clock.sub_nanos() < 1_000_000_000
            ==> r->Ok_0->age_nanos == if clock.instant() > from.millis() * 1_000_000 {
            clock.instant() - from.millis() * 1_000_000
        } else {
            0
        },
{
    an_instant_reads_back(now);
    an_instant_reads_back(until);
    if lease_of(leases, q.session@) is Some {
        an_instant_reads_back(from);
        an_instant_reads_back(end);
        if is_plain_time(from) {
            crate::store::structure_laws::lemma_cut_instant(from);
        }
    }
}

/// Only the holder gives a lease up, and only its own; then nobody has it, and whoever asks next is
/// granted it.
pub proof fn only_the_holder_gives_a_lease_up(
    leases: Map<RowKey, LeaseRowModel>,
    session: Seq<char>,
    holder: Seq<char>,
    other: Seq<char>,
)
    ensures
        ({
            let before = lease_of(leases, session);
            let after = leases_released(leases, session, holder);
            &&& before is Some && before->0.holder == holder ==> lease_of(after, session) is None
            &&& before is Some && before->0.holder != holder ==> lease_of(after, session) == before
            &&& before is None ==> lease_of(after, session) is None
            &&& other != session ==> lease_of(after, other) == lease_of(leases, other)
        }),
{
    assert(seq![other][0] == other && seq![session][0] == session);
}

/// A lease is read as its row has it.
pub proof fn a_lease_reads_as_its_row(row: LeaseRowModel, from: Timestamp, until: Timestamp)
    requires
        row.token >= 0,
        can_be_stored(from),
        can_be_stored(until),
        from.sub_nanos() % 1_000_000 == 0,
        until.sub_nanos() % 1_000_000 == 0,
        row.acquired_at == stored_text(from),
        row.expires_at == stored_text(until),
    ensures
        lease_read(row) is Ok,
        lease_read(row)->Ok_0.holder == row.holder,
        lease_read(row)->Ok_0.token == row.token,
        lease_read(row)->Ok_0.acquired_at == from,
        lease_read(row)->Ok_0.expires_at == until,
        lease_read(row)->Ok_0.endpoint == row.endpoint,
{
    an_instant_reads_back(from);
    an_instant_reads_back(until);
    from.a_whole_millisecond_is_kept();
    until.a_whole_millisecond_is_kept();
}

} // verus!
