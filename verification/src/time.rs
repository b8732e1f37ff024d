//! Instants in UTC, as `chrono` holds them: whole seconds since the epoch and the nanoseconds
//! within the second.

use crate::boundary;
use crate::calendar::{a_text_is_one_instant, date_text};
use vstd::prelude::*;

verus! {

/// The first second that an instant can hold: year -262143 begins.
pub const MIN_SECS: i64 = -8_334_601_228_800;

/// The last second that an instant can hold: year 262142 ends.
pub const MAX_SECS: i64 = 8_210_266_876_799;

/// Seconds and nanoseconds that name an instant. Nanoseconds of a second or more stand for a
/// leap second, and only at the end of a minute.
pub open spec fn is_instant(secs: int, nanos: int) -> bool {
    &&& MIN_SECS <= secs <= MAX_SECS
    &&& 0 <= nanos < 2_000_000_000
    &&& nanos >= 1_000_000_000 ==> secs % 60 == 59
}

/// The seconds of the years 0 to 9999.
pub open spec fn in_four_digit_years(secs: int) -> bool {
    -62_167_219_200 <= secs <= 253_402_300_799
}

/// An instant in UTC.
#[derive(Clone, Copy, Debug, PartialEq, Eq, Structural)]
pub struct Timestamp {
    secs: i64,
    nanos: u32,
}

impl Timestamp {
    #[verifier::type_invariant]
    spec fn holds_an_instant(self) -> bool {
        self.valid()
    }

    /// Whole seconds since the epoch.
    pub closed spec fn secs(self) -> int {
        self.secs as int
    }

    /// Nanoseconds within the second.
    pub closed spec fn sub_nanos(self) -> int {
        self.nanos as int
    }

    /// The value names an instant.
    pub open spec fn valid(self) -> bool {
        is_instant(self.secs(), self.sub_nanos())
    }

    /// Nanoseconds since the epoch.
    pub open spec fn instant(self) -> int {
        self.secs() * 1_000_000_000 + self.sub_nanos()
    }

    /// Milliseconds since the epoch, cut downwards.
    pub open spec fn millis(self) -> int {
        self.secs() * 1000 + self.sub_nanos() / 1_000_000
    }

    /// The instant with these seconds and nanoseconds.
    pub closed spec fn at(secs: int, nanos: int) -> Timestamp {
        Timestamp { secs: secs as i64, nanos: nanos as u32 }
    }

    /// The instant cut to the millisecond.
    pub open spec fn cut(self) -> Timestamp {
        Timestamp::at(self.secs(), self.sub_nanos() - self.sub_nanos() % 1_000_000)
    }

    /// An instant made of parts has those parts.
    pub proof fn at_parts(secs: int, nanos: int)
        requires
            is_instant(secs, nanos),
        ensures
            Timestamp::at(secs, nanos).secs() == secs,
            Timestamp::at(secs, nanos).sub_nanos() == nanos,
    {
    }

    /// Parts that fit have themselves as parts, whether they name an instant or not.
    pub proof fn parts_of_at(secs: int, nanos: int)
        requires
            i64::MIN <= secs <= i64::MAX,
            0 <= nanos <= u32::MAX,
        ensures
            Timestamp::at(secs, nanos).secs() == secs,
            Timestamp::at(secs, nanos).sub_nanos() == nanos,
    {
    }

    /// An instant at a whole millisecond is cut to itself.
    pub proof fn a_whole_millisecond_is_kept(self)
        requires
            self.valid(),
            self.sub_nanos() % 1_000_000 == 0,
        ensures
            self.cut() == self,
    {
    }

    /// The instant with these seconds and nanoseconds, where they name one.
    pub fn from_parts(secs: i64, nanos: u32) -> (r: Option<Timestamp>)
        ensures
            r is Some <==> is_instant(secs as int, nanos as int),
            r matches Some(t) ==> t.secs() == secs && t.sub_nanos() == nanos,
            r matches Some(t) ==> t == Timestamp::at(secs as int, nanos as int),
    {
        if secs < MIN_SECS || secs > MAX_SECS || nanos >= 2_000_000_000 {
            return None;
        }
        if nanos >= 1_000_000_000 {
            let shifted: i64 = secs + 8_400_000_000_000;
            if shifted % 60 != 59 {
                return None;
            }
        }
        Some(Timestamp { secs, nanos })
    }

    /// The parts of an instant.
    pub fn parts(&self) -> (r: (i64, u32))
        ensures
            r.0 == self.secs(),
            r.1 == self.sub_nanos(),
            self.valid(),
    {
        proof {
            use_type_invariant(self);
        }
        (self.secs, self.nanos)
    }

    /// Milliseconds since the epoch.
    pub fn timestamp_millis(&self) -> (ms: i64)
        ensures
            ms == self.millis(),
            self.valid(),
    {
        proof {
            use_type_invariant(self);
        }
        self.secs * 1000 + (self.nanos / 1_000_000) as i64
    }

    /// Nanoseconds since the epoch.
    pub fn total_nanos(&self) -> (n: i128)
        ensures
            n == self.instant(),
            self.valid(),
    {
        proof {
            use_type_invariant(self);
        }
        self.secs as i128 * 1_000_000_000 + self.nanos as i128
    }
}

/// The longest age that can be taken from an instant: the milliseconds of an `i64`.
pub const MAX_AGE_SECS: u64 = 9_223_372_036_854_775;

/// The nanoseconds past [`MAX_AGE_SECS`] of the longest age.
pub const MAX_AGE_NANOS: u32 = 807_000_000;

/// An age in nanoseconds.
pub open spec fn age_of(secs: u64, nanos: u32) -> int {
    secs * 1_000_000_000 + nanos
}

/// Whether an age is too long to be taken from an instant.
pub open spec fn too_old(secs: u64, nanos: u32) -> bool {
    secs > MAX_AGE_SECS || (secs == MAX_AGE_SECS && nanos > MAX_AGE_NANOS)
}

/// The instant an age before another. Within a leap second it stays one; otherwise it has less
/// than a second of nanoseconds.
pub open spec fn earlier_by(t: Timestamp, age: int) -> Timestamp {
    if t.sub_nanos() - age >= 1_000_000_000 {
        Timestamp::at(t.secs(), t.sub_nanos() - age)
    } else {
        Timestamp::at((t.instant() - age) / 1_000_000_000, (t.instant() - age) % 1_000_000_000)
    }
}

/// That an instant comes before another: by the second, then by the nanoseconds within it. A leap
/// second comes before the second that follows it.
pub open spec fn is_before(a: Timestamp, b: Timestamp) -> bool {
    a.secs() < b.secs() || (a.secs() == b.secs() && a.sub_nanos() < b.sub_nanos())
}

/// Whether an age before an instant there is an instant still.
pub open spec fn reaches_back(t: Timestamp, age: int) -> bool {
    t.instant() - age >= MIN_SECS * 1_000_000_000
}

impl Timestamp {
    /// The instant an age before this one.
    pub fn minus(&self, secs: u64, nanos: u32) -> (r: Timestamp)
        requires
            nanos < 1_000_000_000,
            reaches_back(*self, age_of(secs, nanos)),
        ensures
            r == earlier_by(*self, age_of(secs, nanos)),
            r.instant() == self.instant() - age_of(secs, nanos),
    {
        proof {
            use_type_invariant(self);
        }
        let age: i128 = secs as i128 * 1_000_000_000 + nanos as i128;
        if self.nanos as i128 - age >= 1_000_000_000 {
            return Timestamp { secs: self.secs, nanos: (self.nanos as i128 - age) as u32 };
        }
        let total: i128 = self.total_nanos() - age;
        let shifted: i128 = total + 9_000_000_000_000_000_000_000;
        let whole: i128 = shifted / 1_000_000_000;
        let rest: i128 = shifted % 1_000_000_000;
        proof {
            assert(shifted == whole * 1_000_000_000 + rest);
            assert(total == (whole - 9_000_000_000_000) * 1_000_000_000 + rest);
            assert(total / 1_000_000_000 == whole - 9_000_000_000_000);
            assert(total % 1_000_000_000 == rest);
        }
        Timestamp { secs: (whole - 9_000_000_000_000) as i64, nanos: rest as u32 }
    }

    /// Whether this instant comes before the one that lies `span_secs` before `now`.
    pub fn older_than(&self, now: &Timestamp, span_secs: u64) -> (r: bool)
        requires
            span_secs <= MAX_AGE_SECS,
        ensures
            r == is_before(*self, earlier_by(*now, span_secs * 1_000_000_000)),
    {
        proof {
            use_type_invariant(now);
        }
        if span_secs == 0 {
            proof {
                let (secs, nanos) = (now.secs(), now.sub_nanos());
                if nanos < 1_000_000_000 {
                    assert((secs * 1_000_000_000 + nanos) / 1_000_000_000 == secs);
                    assert((secs * 1_000_000_000 + nanos) % 1_000_000_000 == nanos);
                }
            }
            return self.secs < now.secs || (self.secs == now.secs && self.nanos < now.nanos);
        }
        let leaps: bool = now.nanos >= 1_000_000_000;
        let cut_secs: i64 = now.secs - span_secs as i64 + if leaps {
            1
        } else {
            0
        };
        let cut_nanos: u32 = if leaps {
            now.nanos - 1_000_000_000
        } else {
            now.nanos
        };
        proof {
            let total = now.instant() - span_secs * 1_000_000_000;
            assert(total == cut_secs * 1_000_000_000 + cut_nanos);
            assert(total / 1_000_000_000 == cut_secs);
            assert(total % 1_000_000_000 == cut_nanos);
        }
        self.secs < cut_secs || (self.secs == cut_secs && self.nanos < cut_nanos)
    }

    /// The nanoseconds from an earlier instant to this one; below zero where the other is later.
    pub fn since(&self, earlier: &Timestamp) -> (n: i128)
        ensures
            n == elapsed(*earlier, *self),
    {
        proof {
            use_type_invariant(self);
            use_type_invariant(earlier);
        }
        let d = boundary::time_since(self.secs, self.nanos, earlier.secs, earlier.nanos);
        d.0 as i128 * 1_000_000_000 + d.1 as i128
    }
}

/// The nanoseconds between two instants: the plain difference, unless one lies in a leap second.
pub open spec fn elapsed(from: Timestamp, to: Timestamp) -> int {
    if from.sub_nanos() < 1_000_000_000 && to.sub_nanos() < 1_000_000_000 {
        to.instant() - from.instant()
    } else {
        let d = boundary::time_between(to.secs(), to.sub_nanos(), from.secs(), from.sub_nanos());
        d.0 * 1_000_000_000 + d.1
    }
}

/// The time between two instants fits a machine word.
pub proof fn elapsed_is_bounded(from: Timestamp, to: Timestamp)
    ensures
        -0x1_0000_0000_0000_0000_0000_0000_0000 < elapsed(from, to)
            < 0x1_0000_0000_0000_0000_0000_0000_0000,
{
}

/// The stored form of an instant: RFC 3339 in UTC, at milliseconds.
pub open spec fn stored_text(t: Timestamp) -> Seq<char> {
    if in_four_digit_years(t.secs()) {
        date_text(t.secs(), t.sub_nanos())
    } else {
        boundary::rfc3339_millis(t.secs(), t.sub_nanos())
    }
}

/// Writes an instant in its stored form.
pub fn ts_to_text(t: &Timestamp) -> (s: String)
    ensures
        s@ == stored_text(*t),
        t.valid(),
        in_four_digit_years(t.secs()) ==> s@.len() == 24,
{
    let parts = t.parts();
    proof {
        if in_four_digit_years(t.secs()) {
            a_text_is_one_instant(t.secs(), t.sub_nanos(), t.secs(), t.sub_nanos());
        }
    }
    boundary::write_rfc3339_millis(parts.0, parts.1)
}

/// An age before an instant lies the instant from which that age leads to it, in the same leap
/// second where it reaches no further back, and in none otherwise.
pub proof fn an_age_leads_back_by_itself(t: Timestamp, age: int)
    requires
        t.valid(),
        age >= 0,
        reaches_back(t, age),
    ensures
        earlier_by(t, age).valid(),
        earlier_by(t, age).instant() == t.instant() - age,
        earlier_by(t, age).sub_nanos() >= 1_000_000_000 <==> t.sub_nanos() - age >= 1_000_000_000,
        earlier_by(t, age).sub_nanos() >= 1_000_000_000 ==> earlier_by(t, age).secs() == t.secs(),
        age == 0 ==> earlier_by(t, age).secs() == t.secs() && earlier_by(t, age).sub_nanos()
            == t.sub_nanos(),
{
    let total = t.instant() - age;
    let (secs, nanos) = (total / 1_000_000_000, total % 1_000_000_000);
    assert(total == secs * 1_000_000_000 + nanos);
    if t.sub_nanos() - age >= 1_000_000_000 {
        Timestamp::at_parts(t.secs(), t.sub_nanos() - age);
    } else {
        assert(secs >= MIN_SECS);
        assert(secs <= t.secs() + 1);
        Timestamp::parts_of_at(secs, nanos);
    }
}

/// An age is too long exactly where it is longer than the milliseconds of a machine word.
pub proof fn an_age_is_bounded_by_milliseconds(secs: u64, nanos: u32)
    requires
        nanos < 1_000_000_000,
    ensures
        too_old(secs, nanos) <==> age_of(secs, nanos) > i64::MAX * 1_000_000,
{
}

} // verus!
