//! The lease on a session: who may write it, and the token that fences every other writer off.

use crate::store::codec::{text_to_ts, ts_read};
use crate::store::keys::key1;
use crate::store::order::{no_later, text_no_later};
use crate::store::table::{RowKey, Table};
use crate::text::{decimal, decimal_text};
use crate::time::{elapsed, Timestamp};
use crate::types::{clone_opt, opt_text, SessionId, StoreError, StoreErrorModel};
use vstd::prelude::*;
use vstd::string::*;

verus! {

/// A row of `session_leases`.
#[derive(Debug, PartialEq)]
pub struct LeaseRow {
    pub session_id: String,
    pub holder: String,
    pub acquired_at: String,
    pub expires_at: String,
    pub current_token: i64,
    pub endpoint: Option<String>,
}

/// A row of `session_leases`, as values.
pub struct LeaseRowModel {
    pub session: Seq<char>,
    pub holder: Seq<char>,
    pub acquired_at: Seq<char>,
    pub expires_at: Seq<char>,
    pub token: i64,
    pub endpoint: Option<Seq<char>>,
}

impl View for LeaseRow {
    type V = LeaseRowModel;

    open spec fn view(&self) -> LeaseRowModel {
        LeaseRowModel {
            session: self.session_id@,
            holder: self.holder@,
            acquired_at: self.acquired_at@,
            expires_at: self.expires_at@,
            token: self.current_token,
            endpoint: opt_text(self.endpoint),
        }
    }
}

/// A lease, as it is read.
#[derive(Debug, PartialEq)]
pub struct LeaseInfo {
    pub holder: String,
    pub token: u64,
    pub acquired_at: Timestamp,
    pub expires_at: Timestamp,
    /// Where the holder can be reached, if it says so.
    pub endpoint: Option<String>,
}

/// A lease that was read, as values.
pub struct LeaseModel {
    pub holder: Seq<char>,
    pub token: u64,
    pub acquired_at: Timestamp,
    pub expires_at: Timestamp,
    pub endpoint: Option<Seq<char>>,
}

impl View for LeaseInfo {
    type V = LeaseModel;

    open spec fn view(&self) -> LeaseModel {
        LeaseModel {
            holder: self.holder@,
            token: self.token,
            acquired_at: self.acquired_at,
            expires_at: self.expires_at,
            endpoint: opt_text(self.endpoint),
        }
    }
}

/// What is read of a row of `session_leases`.
pub open spec fn lease_read(row: LeaseRowModel) -> Result<LeaseModel, StoreErrorModel> {
    if row.token < 0 {
        Err(StoreErrorModel::Backend("lease row has a negative current_token"@))
    } else {
        match ts_read(row.acquired_at) {
            Err(e) => Err(e),
            Ok(acquired_at) => match ts_read(row.expires_at) {
                Err(e) => Err(e),
                Ok(expires_at) => Ok(
                    LeaseModel {
                        holder: row.holder,
                        token: row.token as u64,
                        acquired_at,
                        expires_at,
                        endpoint: row.endpoint,
                    },
                ),
            },
        }
    }
}

/// The model of a lease that was read, or of the error.
pub open spec fn lease_seen(r: Result<LeaseInfo, StoreError>) -> Result<
    LeaseModel,
    StoreErrorModel,
> {
    match r {
        Ok(info) => Ok(info@),
        Err(e) => Err(e@),
    }
}

/// Reads a row of `session_leases`.
pub fn lease_info_from_text(row: &LeaseRow) -> (r: Result<LeaseInfo, StoreError>)
    ensures
        lease_seen(r) == lease_read(row@),
{
    if row.current_token < 0 {
        return Err(StoreError::Backend("lease row has a negative current_token".to_owned()));
    }
    let acquired_at = match text_to_ts(row.acquired_at.as_str()) {
        Ok(t) => t,
        Err(e) => {
            return Err(e);
        },
    };
    let expires_at = match text_to_ts(row.expires_at.as_str()) {
        Ok(t) => t,
        Err(e) => {
            return Err(e);
        },
    };
    Ok(
        LeaseInfo {
            holder: row.holder.clone(),
            token: row.current_token as u64,
            acquired_at,
            expires_at,
            endpoint: clone_opt(&row.endpoint),
        },
    )
}

/// Whether a writer that presents `token` may write a session whose lease stands at `current`.
/// A lease that was taken has a token of at least one, and the writer must present it.
pub open spec fn permits_write(current: u64, token: Option<u64>) -> bool {
    current == 0 || token == Some(current)
}

/// Whether a writer that presents `token` may write a session whose lease stands at `current`.
pub fn lease_permits_write(current: u64, token: Option<u64>) -> (r: bool)
    ensures
        r == permits_write(current, token),
{
    current == 0 || match token {
        Some(t) => t == current,
        None => false,
    }
}

/// An optional token, as it is shown.
pub open spec fn shown_token(token: Option<u64>) -> Seq<char> {
    match token {
        Some(t) => "Some("@ + decimal(t as nat) + ")"@,
        None => "None"@,
    }
}

fn show_token(token: Option<u64>) -> (s: String)
    ensures
        s@ == shown_token(token),
{
    match token {
        Some(t) => {
            let mut s = "Some(".to_owned();
            s.append(decimal_text(t).as_str());
            s.append(")");
            s
        },
        None => "None".to_owned(),
    }
}

/// Why a write of a session is fenced off, if it is: its lease stands at a token other than the
/// one presented. A session without a lease takes every write.
pub open spec fn fenced(
    session: Seq<char>,
    current: Option<i64>,
    token: Option<u64>,
) -> Option<StoreErrorModel> {
    match current {
        None => None,
        Some(c) => if c < 0 {
            Some(
                StoreErrorModel::Invariant(
                    "session "@ + session + ": negative lease current_token"@,
                ),
            )
        } else if permits_write(c as u64, token) {
            None
        } else {
            Some(
                StoreErrorModel::StaleWrite(
                    "session "@ + session + ": presented token "@ + shown_token(token)
                        + " is stale (lease token "@ + decimal(c as nat)
                        + ") — single-writer fence (GitHub issue #1)"@,
                ),
            )
        },
    }
}

/// Tests a write of a session against its lease.
pub fn fence(session: &str, current: Option<i64>, token: Option<u64>) -> (r: Result<
    (),
    StoreError,
>)
    ensures
        match r {
            Ok(()) => fenced(session@, current, token) is None,
            Err(e) => fenced(session@, current, token) == Some(e@),
        },
{
    let c: i64 = match current {
        Some(c) => c,
        None => {
            return Ok(());
        },
    };
    let mut s = "session ".to_owned();
    s.append(session);
    if c < 0 {
        s.append(": negative lease current_token");
        return Err(StoreError::Invariant(s));
    }
    if lease_permits_write(c as u64, token) {
        return Ok(());
    }
    s.append(": presented token ");
    s.append(show_token(token).as_str());
    s.append(" is stale (lease token ");
    s.append(decimal_text(c as u64).as_str());
    s.append(") — single-writer fence (GitHub issue #1)");
    Err(StoreError::StaleWrite(s))
}

/// Who asks for a lease: the holder's name, and where it can be reached.
#[derive(Debug)]
pub struct LeaseRequest {
    pub session: SessionId,
    pub holder: String,
    pub endpoint: Option<String>,
    /// The store's clock, in its stored form.
    pub now: String,
    /// The store's clock with the lease's life added.
    pub expires_at: String,
}

/// What became of a request for a lease.
#[derive(Debug, PartialEq)]
pub enum LeaseOutcome {
    Acquired(LeaseInfo),
    /// Another holds it; `age_nanos` have passed since it was taken.
    Held { current: LeaseInfo, age_nanos: u128 },
}

impl LeaseOutcome {
    /// Whether the lease was taken or kept.
    pub fn is_acquired(&self) -> (r: bool)
        ensures
            r == (*self is Acquired),
    {
        match self {
            LeaseOutcome::Acquired(_) => true,
            LeaseOutcome::Held { .. } => false,
        }
    }
}

/// Whether a request takes the lease: nobody has it, it has run out, or the asker has it.
pub open spec fn lease_is_free(current: Option<LeaseRowModel>, q: LeaseRequest) -> bool {
    match current {
        None => true,
        Some(row) => text_no_later(row.expires_at, q.now@) || row.holder == q.holder@,
    }
}

/// The token with which a request takes a lease. It grows with every change of hands.
pub open spec fn next_token(current: Option<LeaseRowModel>, q: LeaseRequest) -> int {
    match current {
        None => 1,
        Some(row) => if row.holder == q.holder@ {
            row.token as int
        } else {
            row.token + 1
        },
    }
}

/// The lease as a request leaves it. One who has it keeps the time at which it was taken.
pub open spec fn lease_taken(current: Option<LeaseRowModel>, q: LeaseRequest) -> LeaseRowModel {
    LeaseRowModel {
        session: q.session@,
        holder: q.holder@,
        acquired_at: match current {
            Some(row) if row.holder == q.holder@ => row.acquired_at,
            _ => q.now@,
        },
        expires_at: q.expires_at@,
        token: next_token(current, q) as i64,
        endpoint: opt_text(q.endpoint),
    }
}

/// The lease of a session.
pub open spec fn lease_of(leases: Map<RowKey, LeaseRowModel>, session: Seq<char>) -> Option<
    LeaseRowModel,
> {
    if leases.contains_key(seq![session]) {
        Some(leases[seq![session]])
    } else {
        None
    }
}

/// What a request does to the leases.
pub open spec fn leases_after(leases: Map<RowKey, LeaseRowModel>, q: LeaseRequest) -> Map<
    RowKey,
    LeaseRowModel,
> {
    let current = lease_of(leases, q.session@);
    if lease_is_free(current, q) && next_token(current, q) <= i64::MAX {
        leases.insert(seq![q.session@], lease_taken(current, q))
    } else {
        leases
    }
}

/// The error of a lease whose token cannot grow.
pub open spec fn token_exhausted() -> StoreErrorModel {
    StoreErrorModel::Backend("acquire lease: the lease's current_token cannot grow"@)
}

/// How long ago a lease was taken; nothing where the clock says it is yet to be.
pub open spec fn lease_age(info: LeaseModel, clock: Timestamp) -> int {
    if elapsed(info.acquired_at, clock) > 0 {
        elapsed(info.acquired_at, clock)
    } else {
        0
    }
}

/// What is answered to a request, at the process's clock `clock`.
pub open spec fn lease_answer(
    current: Option<LeaseRowModel>,
    q: LeaseRequest,
    clock: Timestamp,
    r: Result<LeaseOutcome, StoreError>,
) -> bool {
    if !lease_is_free(current, q) {
        match lease_read(current->0) {
            Err(e) => (r matches Err(x) && x@ == e),
            Ok(info) => r matches Ok(LeaseOutcome::Held { current, age_nanos }) && current@ == info
                && age_nanos == lease_age(info, clock),
        }
    } else if next_token(current, q) > i64::MAX {
        r matches Err(x) && x@ == token_exhausted()
    } else {
        match lease_read(lease_taken(current, q)) {
            Err(e) => (r matches Err(x) && x@ == e),
            Ok(info) => r matches Ok(LeaseOutcome::Acquired(got)) && got@ == info,
        }
    }
}

/// Takes a lease or lives it on, where it is free or the asker has it, and otherwise says who has
/// it.
pub fn acquire_or_refresh(
    leases: &mut Table<LeaseRow>,
    q: &LeaseRequest,
    clock: &Timestamp,
) -> (r: Result<LeaseOutcome, StoreError>)
    requires
        old(leases).wf(),
    ensures
        final(leases).wf(),
        final(leases)@ == leases_after(old(leases)@, *q),
        lease_answer(lease_of(old(leases)@, q.session@), *q, *clock, r),
{
    let key = key1(q.session.as_str());
    let mut acquired_at = q.now.clone();
    let mut token: i64 = 1;
    let ghost current = lease_of(leases@, q.session@);
    match leases.get(&key) {
        Some(row) => {
            let ours = row.holder == q.holder;
            if !ours && !no_later(row.expires_at.as_str(), q.now.as_str()) {
                return match lease_info_from_text(row) {
                    Ok(info) => {
                        let age: i128 = clock.since(&info.acquired_at);
                        let age_nanos: u128 = if age > 0 {
                            age as u128
                        } else {
                            0
                        };
                        Ok(LeaseOutcome::Held { current: info, age_nanos })
                    },
                    Err(e) => Err(e),
                };
            }
            if ours {
                acquired_at = row.acquired_at.clone();
                token = row.current_token;
            } else {
                if row.current_token == i64::MAX {
                    return Err(
                        StoreError::Backend(
                            "acquire lease: the lease's current_token cannot grow".to_owned(),
                        ),
                    );
                }
                token = row.current_token + 1;
            }
        },
        None => {},
    }
    let row = LeaseRow {
        session_id: q.session.0.clone(),
        holder: q.holder.clone(),
        acquired_at,
        expires_at: q.expires_at.clone(),
        current_token: token,
        endpoint: clone_opt(&q.endpoint),
    };
    let answer = lease_info_from_text(&row);
    proof {
        assert(row@ == lease_taken(current, *q));
    }
    leases.put(row);
    match answer {
        Ok(info) => Ok(LeaseOutcome::Acquired(info)),
        Err(e) => Err(e),
    }
}

/// The lease of a session, if there is one.
pub fn read_lease(leases: &Table<LeaseRow>, session: &SessionId) -> (r: Result<
    Option<LeaseInfo>,
    StoreError,
>)
    requires
        leases.wf(),
    ensures
        match lease_of(leases@, session@) {
            None => r matches Ok(None),
            Some(row) => match lease_read(row) {
                Ok(info) => (r matches Ok(Some(got)) && got@ == info),
                Err(e) => (r matches Err(x) && x@ == e),
            },
        },
{
    match leases.get(&key1(session.as_str())) {
        Some(row) => match lease_info_from_text(row) {
            Ok(info) => Ok(Some(info)),
            Err(e) => Err(e),
        },
        None => Ok(None),
    }
}

/// The leases after a holder gave that of a session up.
pub open spec fn leases_released(
    leases: Map<RowKey, LeaseRowModel>,
    session: Seq<char>,
    holder: Seq<char>,
) -> Map<RowKey, LeaseRowModel> {
    match lease_of(leases, session) {
        Some(row) => if row.holder == holder {
            leases.remove(seq![session])
        } else {
            leases
        },
        None => leases,
    }
}

/// Gives a lease up. Only the one who has it can.
pub fn release_lease(leases: &mut Table<LeaseRow>, session: &SessionId, holder: &str)
    requires
        old(leases).wf(),
    ensures
        final(leases).wf(),
        final(leases)@ == (if (lease_of(old(leases)@, session@) matches Some(row) && row.holder
            == holder@) {
            old(leases)@.remove(seq![session@])
        } else {
            old(leases)@
        }),
        final(leases)@ == leases_released(old(leases)@, session@, holder@),
{
    let key = key1(session.as_str());
    let holder = holder.to_owned();
    let ours = match leases.get(&key) {
        Some(row) => row.holder == holder,
        None => false,
    };
    if ours {
        let gone = leases.take(&key);
    }
}

/// A lease changes hands only when it has run out, every change of hands raises its token, and a
/// holder that lives it on keeps its token and the time at which it was taken.
pub proof fn a_takeover_raises_the_token(
    leases: Map<RowKey, LeaseRowModel>,
    q: LeaseRequest,
    row: LeaseRowModel,
)
    requires
        lease_of(leases, q.session@) == Some(row),
    ensures
        ({
            let after = lease_of(leases_after(leases, q), q.session@);
            &&& after is Some
            &&& after->0.token >= row.token
            &&& after->0.holder != row.holder ==> after->0.token > row.token && text_no_later(
                row.expires_at,
                q.now@,
            )
            &&& after->0.holder == row.holder ==> after->0.token == row.token
                && after->0.acquired_at == row.acquired_at
        }),
{
}

/// Once a lease has been taken over, the token of the holder before it writes no more.
pub proof fn a_stale_token_is_fenced_off(
    leases: Map<RowKey, LeaseRowModel>,
    q: LeaseRequest,
    row: LeaseRowModel,
)
    requires
        lease_of(leases, q.session@) == Some(row),
        row.token >= 0,
        lease_of(leases_after(leases, q), q.session@)->0.holder != row.holder,
    ensures
        fenced(
            q.session@,
            Some(lease_of(leases_after(leases, q), q.session@)->0.token),
            Some(row.token as u64),
        ) is Some,
        fenced(
            q.session@,
            Some(lease_of(leases_after(leases, q), q.session@)->0.token),
            None,
        ) is Some,
{
}

/// A request for one session leaves the leases of the others.
pub proof fn a_lease_is_of_one_session(
    leases: Map<RowKey, LeaseRowModel>,
    q: LeaseRequest,
    other: Seq<char>,
)
    requires
        other != q.session@,
    ensures
        lease_of(leases_after(leases, q), other) == lease_of(leases, other),
{
    assert(seq![other][0] != seq![q.session@][0]);
}

} // verus!
