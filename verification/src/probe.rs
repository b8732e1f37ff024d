//! The startup probe of the embedder: which texts it embeds, how long it waits, and what it
//! concludes.

use crate::limits::{PROBE_CONCURRENCY, PROBE_EMBEDS, PROBE_TEXT_BYTES, PROBE_WARMUP_EMBEDS};
use crate::text::chars_of;
use vstd::prelude::*;
use vstd::string::*;

verus! {

/// The short text that a probe embeds.
pub const PROBE_TEXT: &'static str = "lambo write queue calibration probe";

/// The short text is thirty-five ASCII characters.
pub proof fn probe_text_is_short_ascii()
    ensures
        PROBE_TEXT@.len() == 35,
        ascii_only(PROBE_TEXT@),
{
    reveal_strlit("lambo write queue calibration probe");
}

/// Every character of a text is ASCII.
pub open spec fn ascii_only(s: Seq<char>) -> bool {
    forall|i: int| 0 <= i < s.len() ==> (#[trigger] s[i] as int) < 0x80
}

/// Whether every character of a text is ASCII.
pub fn is_ascii(s: &str) -> (r: bool)
    ensures
        r == ascii_only(s@),
{
    let v = chars_of(s);
    let mut i: usize = 0;
    while i < v.len()
        invariant
            i <= v@.len(),
            v@ == s@,
            forall|j: int| 0 <= j < i ==> (#[trigger] s@[j] as int) < 0x80,
        decreases v@.len() - i,
    {
        let c: char = v[i];
        if c >= '\u{80}' {
            assert(s@[i as int] as int >= 0x80);
            return false;
        }
        i += 1;
    }
    true
}

/// A text of this many characters: the short text, over and over, cut at the end.
pub open spec fn repeated_probe_text(bytes: nat) -> Seq<char> {
    Seq::new(bytes, |i: int| PROBE_TEXT@[i % 35])
}

/// A text of this many bytes: the short text, over and over, cut at the end.
pub fn probe_text_at(bytes: usize) -> (s: String)
    ensures
        s@ == repeated_probe_text(bytes as nat),
        ascii_only(s@),
{
    proof {
        probe_text_is_short_ascii();
    }
    let mut s: String = String::new();
    let mut n: usize = 0;
    while bytes - n >= 35
        invariant
            n <= bytes,
            n % 35 == 0,
            s@ == repeated_probe_text(n as nat),
            PROBE_TEXT@.len() == 35,
        decreases bytes - n,
    {
        s.append(PROBE_TEXT);
        proof {
            let goal = repeated_probe_text((n + 35) as nat);
            assert forall|i: int| 0 <= i < n + 35 implies #[trigger] s@[i] == goal[i] by {
                if i >= n {
                    assert(i % 35 == i - n);
                }
            }
            assert(s@ =~= goal);
        }
        n += 35;
    }
    let rest: usize = bytes - n;
    proof {
        assert(PROBE_TEXT.is_ascii()) by {
            reveal_strlit("lambo write queue calibration probe");
        }
    }
    s.append(PROBE_TEXT.substring_ascii(0, rest));
    proof {
        let goal = repeated_probe_text(bytes as nat);
        assert forall|i: int| 0 <= i < bytes implies #[trigger] s@[i] == goal[i] by {
            if i >= n {
                assert(i % 35 == i - n);
            }
        }
        assert(s@ =~= goal);
        assert forall|i: int| 0 <= i < s@.len() implies (#[trigger] s@[i] as int) < 0x80 by {
            assert(0 <= i % 35 < 35);
            assert((PROBE_TEXT@[i % 35] as int) < 0x80);
        }
    }
    s
}

/// The legs of a probe, in order.
#[derive(Clone, Copy, Debug, PartialEq, Eq, Structural)]
pub enum ProbeLeg {
    /// Embeds that are not timed.
    WarmUp,
    /// One embed of the short text.
    Serial,
    /// One embed of the long text.
    Representative,
    /// Several embeds at once.
    Concurrent,
}

/// What follows a leg.
#[derive(Clone, Copy, Debug, PartialEq, Eq, Structural)]
pub enum ProbeNext {
    Run(ProbeLeg),
    /// The probe gives no measurement.
    Unmeasured,
    /// The probe gives the measurement that its legs made.
    Measured,
}

/// What follows a leg that was or was not answered in time. Only the representative leg may fail.
pub open spec fn next_leg(leg: ProbeLeg, answered: bool) -> ProbeNext {
    match leg {
        ProbeLeg::WarmUp => if answered {
            ProbeNext::Run(ProbeLeg::Serial)
        } else {
            ProbeNext::Unmeasured
        },
        ProbeLeg::Serial => if answered {
            ProbeNext::Run(ProbeLeg::Representative)
        } else {
            ProbeNext::Unmeasured
        },
        ProbeLeg::Representative => ProbeNext::Run(ProbeLeg::Concurrent),
        ProbeLeg::Concurrent => if answered {
            ProbeNext::Measured
        } else {
            ProbeNext::Unmeasured
        },
    }
}

/// How many embeds a leg makes.
pub open spec fn leg_size(leg: ProbeLeg) -> usize {
    match leg {
        ProbeLeg::WarmUp => PROBE_WARMUP_EMBEDS,
        ProbeLeg::Serial => 1,
        ProbeLeg::Representative => 1,
        ProbeLeg::Concurrent => PROBE_CONCURRENCY,
    }
}

/// The text that a leg embeds. The concurrent leg takes the long one where that was answered.
pub open spec fn leg_text_spec(leg: ProbeLeg, representative_answered: bool) -> Seq<char> {
    match leg {
        ProbeLeg::WarmUp => PROBE_TEXT@,
        ProbeLeg::Serial => PROBE_TEXT@,
        ProbeLeg::Representative => repeated_probe_text(PROBE_TEXT_BYTES as nat),
        ProbeLeg::Concurrent => if representative_answered {
            repeated_probe_text(PROBE_TEXT_BYTES as nat)
        } else {
            PROBE_TEXT@
        },
    }
}

impl ProbeLeg {
    /// What follows this leg.
    pub fn next(self, answered: bool) -> (r: ProbeNext)
        ensures
            r == next_leg(self, answered),
    {
        match self {
            ProbeLeg::WarmUp => if answered {
                ProbeNext::Run(ProbeLeg::Serial)
            } else {
                ProbeNext::Unmeasured
            },
            ProbeLeg::Serial => if answered {
                ProbeNext::Run(ProbeLeg::Representative)
            } else {
                ProbeNext::Unmeasured
            },
            ProbeLeg::Representative => ProbeNext::Run(ProbeLeg::Concurrent),
            ProbeLeg::Concurrent => if answered {
                ProbeNext::Measured
            } else {
                ProbeNext::Unmeasured
            },
        }
    }

    /// How many embeds this leg makes.
    pub fn embeds(self) -> (n: usize)
        ensures
            n == leg_size(self),
    {
        match self {
            ProbeLeg::WarmUp => PROBE_WARMUP_EMBEDS,
            ProbeLeg::Serial => 1,
            ProbeLeg::Representative => 1,
            ProbeLeg::Concurrent => PROBE_CONCURRENCY,
        }
    }

    /// The text that this leg embeds.
    pub fn text(self, representative_answered: bool) -> (s: String)
        ensures
            s@ == leg_text_spec(self, representative_answered),
    {
        match self {
            ProbeLeg::WarmUp => PROBE_TEXT.to_owned(),
            ProbeLeg::Serial => PROBE_TEXT.to_owned(),
            ProbeLeg::Representative => probe_text_at(PROBE_TEXT_BYTES),
            ProbeLeg::Concurrent => if representative_answered {
                probe_text_at(PROBE_TEXT_BYTES)
            } else {
                PROBE_TEXT.to_owned()
            },
        }
    }

    /// When this leg is given up on, in nanoseconds of a running clock: the representative leg
    /// halfway from its start to the probe's deadline, so that the concurrent leg keeps the other
    /// half; every other leg at the deadline.
    pub fn deadline(self, started: u64, deadline: u64) -> (r: u64)
        ensures
            match self {
                ProbeLeg::Representative => if started <= deadline {
                    r == started + (deadline - started) / 2
                } else {
                    r == started
                },
                _ => r == deadline,
            },
    {
        match self {
            ProbeLeg::Representative => if started <= deadline {
                started + (deadline - started) / 2
            } else {
                started
            },
            _ => deadline,
        }
    }
}

/// A probe that is answered throughout runs every leg once and embeds as often as it says.
pub proof fn a_probe_runs_every_leg_once()
    ensures
        next_leg(ProbeLeg::WarmUp, true) == ProbeNext::Run(ProbeLeg::Serial),
        next_leg(ProbeLeg::Serial, true) == ProbeNext::Run(ProbeLeg::Representative),
        next_leg(ProbeLeg::Representative, true) == ProbeNext::Run(ProbeLeg::Concurrent),
        next_leg(ProbeLeg::Concurrent, true) == ProbeNext::Measured,
        leg_size(ProbeLeg::WarmUp) + leg_size(ProbeLeg::Serial) + leg_size(ProbeLeg::Representative)
            + leg_size(ProbeLeg::Concurrent) == PROBE_EMBEDS,
{
}

/// A representative leg that hangs leaves the concurrent one at least half of what was left.
pub proof fn a_hanging_leg_leaves_half(started: u64, deadline: u64, r: u64)
    requires
        started <= deadline,
        r == started + (deadline - started) / 2,
    ensures
        deadline - r >= (deadline - started) / 2,
        started <= r <= deadline,
{
}

/// Only the long text's leg may go unanswered: any other one that does ends the probe without a
/// measurement, and only the last one that is answered ends it with one.
pub proof fn only_the_representative_leg_may_fail(leg: ProbeLeg, answered: bool)
    ensures
        next_leg(leg, answered) is Unmeasured <==> !answered && leg != ProbeLeg::Representative,
        next_leg(leg, answered) is Measured <==> answered && leg == ProbeLeg::Concurrent,
        next_leg(ProbeLeg::Representative, answered) == ProbeNext::Run(ProbeLeg::Concurrent),
{
}

/// The legs are timed on the same texts: the concurrent one on the long text where that was
/// answered, and else on the one that the serial leg took.
pub proof fn the_concurrent_leg_takes_an_answered_text(answered: bool)
    ensures
        leg_text_spec(ProbeLeg::Concurrent, true) == leg_text_spec(
            ProbeLeg::Representative,
            answered,
        ),
        leg_text_spec(ProbeLeg::Concurrent, false) == leg_text_spec(ProbeLeg::Serial, answered),
        leg_text_spec(ProbeLeg::WarmUp, answered) == leg_text_spec(ProbeLeg::Serial, answered),
        leg_text_spec(ProbeLeg::Serial, answered) == PROBE_TEXT@,
        leg_text_spec(ProbeLeg::Representative, answered).len() == 1024,
{
}

} // verus!
