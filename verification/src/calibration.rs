//! How fast the embedder is, as far as it was measured. The bounds of the queue do not depend on
//! it.

use crate::limits::{OBSERVED_MIN_SAMPLES, PROBE_CLAMP_RPS, WRITE_QUEUE_LANE_MAX, WRITE_QUEUE_MAX};
use vstd::prelude::*;

verus! {

/// Where the serial rate comes from.
#[derive(Clone, Copy, Debug, PartialEq, Eq, Structural)]
pub enum CalibrationSource {
    Unmeasured,
    Probe,
    Observed,
}

impl CalibrationSource {
    /// The word for this source.
    pub fn tag(self) -> (s: &'static str)
        ensures
            s@ == match self {
                CalibrationSource::Unmeasured => "unmeasured"@,
                CalibrationSource::Probe => "probe"@,
                CalibrationSource::Observed => "observed"@,
            },
    {
        match self {
            CalibrationSource::Unmeasured => "unmeasured",
            CalibrationSource::Probe => "probe",
            CalibrationSource::Observed => "observed",
        }
    }
}

/// The rates that were measured, in whatever numbers they are held, beside the queue's bounds.
#[derive(Clone, Copy, Debug, PartialEq)]
pub struct Calibration<R> {
    pub serial_items_per_sec: Option<R>,
    pub probe_serial_items_per_sec: Option<R>,
    pub items_per_sec: Option<R>,
    pub lane_bound: usize,
    pub bound: usize,
    pub source: CalibrationSource,
}

/// A calibration with these rates. The bounds are the same for all of them.
pub open spec fn calibrated<R>(
    serial: Option<R>,
    concurrent: Option<R>,
    probe_serial: Option<R>,
    source: CalibrationSource,
) -> Calibration<R> {
    Calibration {
        serial_items_per_sec: serial,
        probe_serial_items_per_sec: probe_serial,
        items_per_sec: concurrent,
        lane_bound: WRITE_QUEUE_LANE_MAX,
        bound: WRITE_QUEUE_MAX,
        source,
    }
}

impl<R: Copy> Calibration<R> {
    fn from_rates(
        serial: Option<R>,
        concurrent: Option<R>,
        probe_serial: Option<R>,
        source: CalibrationSource,
    ) -> (c: Calibration<R>)
        ensures
            c == calibrated(serial, concurrent, probe_serial, source),
    {
        Calibration {
            serial_items_per_sec: serial,
            probe_serial_items_per_sec: probe_serial,
            items_per_sec: concurrent,
            lane_bound: WRITE_QUEUE_LANE_MAX,
            bound: WRITE_QUEUE_MAX,
            source,
        }
    }

    /// Nothing was measured.
    pub fn unmeasured() -> (c: Calibration<R>)
        ensures
            c == calibrated::<R>(None, None, None, CalibrationSource::Unmeasured),
    {
        Calibration::from_rates(None, None, None, CalibrationSource::Unmeasured)
    }

    /// What a probe measured: the rate of the slower of its serial legs, and that of its
    /// concurrent one.
    pub fn from_probe(serial: R, concurrent: R) -> (c: Calibration<R>)
        ensures
            c == calibrated(
                Some(serial),
                Some(concurrent),
                Some(serial),
                CalibrationSource::Probe,
            ),
    {
        Calibration::from_rates(
            Some(serial),
            Some(concurrent),
            Some(serial),
            CalibrationSource::Probe,
        )
    }

    /// The same, with the serial rate that the session's own writes showed.
    pub fn with_observed_serial(&self, serial_items_per_sec: R) -> (c: Calibration<R>)
        ensures
            c == calibrated(
                Some(serial_items_per_sec),
                self.items_per_sec,
                self.probe_serial_items_per_sec,
                CalibrationSource::Observed,
            ),
    {
        Calibration::from_rates(
            Some(serial_items_per_sec),
            self.items_per_sec,
            self.probe_serial_items_per_sec,
            CalibrationSource::Observed,
        )
    }

    /// Whether anything was measured.
    pub fn measured(&self) -> (r: bool)
        ensures
            r == !(self.source is Unmeasured),
    {
        match self.source {
            CalibrationSource::Unmeasured => false,
            _ => true,
        }
    }

    /// The probe's serial rate and the one that was observed since, where there are both.
    pub fn probe_and_observed(&self) -> (r: Option<(R, R)>)
        ensures
            r is Some <==> self.source is Observed && self.probe_serial_items_per_sec is Some
                && self.serial_items_per_sec is Some,
            r matches Some(p) ==> p == (
                self.probe_serial_items_per_sec->0,
                self.serial_items_per_sec->0,
            ),
    {
        match (self.probe_serial_items_per_sec, self.serial_items_per_sec) {
            (Some(probe), Some(now)) => match self.source {
                CalibrationSource::Observed => Some((probe, now)),
                _ => None,
            },
            _ => None,
        }
    }
}

/// The probe's measurement together with an observed serial rate.
pub open spec fn combination<R>(probe: Option<Calibration<R>>, observed: Option<R>) -> Option<
    Calibration<R>,
> {
    match (probe, observed) {
        (Some(p), Some(rate)) => Some(
            calibrated(
                Some(rate),
                p.items_per_sec,
                p.probe_serial_items_per_sec,
                CalibrationSource::Observed,
            ),
        ),
        (Some(p), None) => Some(p),
        (None, Some(rate)) => Some(
            calibrated(Some(rate), None, None, CalibrationSource::Observed),
        ),
        (None, None) => None,
    }
}

/// What is known of the embedder's rate: the probe's measurement, with the observed serial rate in
/// place of its own as soon as there is one.
pub fn combined<R: Copy>(probe: Option<Calibration<R>>, observed: Option<R>) -> (r: Option<
    Calibration<R>,
>)
    ensures
        r == combination(probe, observed),
        match (probe, observed) {
            (Some(p), Some(rate)) => r == Some(
                calibrated(
                    Some(rate),
                    p.items_per_sec,
                    p.probe_serial_items_per_sec,
                    CalibrationSource::Observed,
                ),
            ),
            (Some(p), None) => r == Some(p),
            (None, Some(rate)) => r == Some(
                calibrated(Some(rate), None, None, CalibrationSource::Observed),
            ),
            (None, None) => r is None,
        },
{
    match (probe, observed) {
        (Some(p), Some(rate)) => Some(p.with_observed_serial(rate)),
        (Some(p), None) => Some(p),
        (None, Some(rate)) => Some(Calibration::unmeasured().with_observed_serial(rate)),
        (None, None) => None,
    }
}

/// No rate, however fast, slow or absent, and no source moves the bounds.
pub proof fn no_rate_moves_the_bounds<R>(
    serial: Option<R>,
    concurrent: Option<R>,
    probe_serial: Option<R>,
    source: CalibrationSource,
)
    ensures
        calibrated(serial, concurrent, probe_serial, source).lane_bound == WRITE_QUEUE_LANE_MAX,
        calibrated(serial, concurrent, probe_serial, source).bound == WRITE_QUEUE_MAX,
{
}

/// One item in `a` nanoseconds is at most as fast as one in `b`. Work too quick to time counts as
/// the clamp's rate.
pub open spec fn no_faster(a: nat, b: nat) -> bool {
    if a == 0 {
        b == 0 || b * PROBE_CLAMP_RPS <= 1_000_000_000
    } else if b == 0 {
        a * PROBE_CLAMP_RPS >= 1_000_000_000
    } else {
        a >= b
    }
}

/// The wall time of the slower of a probe's serial legs: the short text's, or the representative
/// text's where that leg was answered.
pub fn slower_wall(serial: u64, representative: Option<u64>) -> (w: u64)
    ensures
        representative is None ==> w == serial,
        representative matches Some(r) ==> {
            &&& w == serial || w == r
            &&& no_faster(w as nat, serial as nat)
            &&& no_faster(w as nat, r as nat)
        },
{
    match representative {
        None => serial,
        Some(r) => {
            if serial == 0 && r == 0 {
                serial
            } else if serial == 0 {
                if r as u128 * PROBE_CLAMP_RPS as u128 <= 1_000_000_000 {
                    serial
                } else {
                    r
                }
            } else if r == 0 {
                if serial as u128 * PROBE_CLAMP_RPS as u128 >= 1_000_000_000 {
                    serial
                } else {
                    r
                }
            } else if serial >= r {
                serial
            } else {
                r
            }
        },
    }
}

/// How many of the session's own writes were timed.
#[derive(Clone, Copy, Debug, PartialEq, Eq, Structural)]
pub struct ObservedSamples {
    pub samples: u64,
}

/// What is done with a timed write.
#[derive(Clone, Copy, Debug, PartialEq, Eq, Structural)]
pub enum SampleUse {
    /// It is no time that can be averaged.
    Ignored,
    /// It is the first: the mean is this time.
    First,
    /// It moves the running mean.
    Averaged,
}

impl Default for ObservedSamples {
    fn default() -> (r: ObservedSamples)
        ensures
            r.samples == 0,
    {
        ObservedSamples { samples: 0 }
    }
}

impl ObservedSamples {
    /// Counts a timed write, where its time is a finite number that is not negative.
    pub fn sample(&mut self, usable: bool) -> (r: SampleUse)
        ensures
            !usable ==> r is Ignored && *final(self) == *old(self),
            usable ==> {
                &&& r == (if old(self).samples == 0 {
                    SampleUse::First
                } else {
                    SampleUse::Averaged
                })
                &&& final(self).samples == if old(self).samples == u64::MAX {
                    u64::MAX as int
                } else {
                    old(self).samples + 1
                }
            },
    {
        if !usable {
            return SampleUse::Ignored;
        }
        self.samples = self.samples.saturating_add(1);
        if self.samples == 1 {
            SampleUse::First
        } else {
            SampleUse::Averaged
        }
    }

    /// Whether there are enough timed writes for their mean to stand in for the probe's rate.
    pub fn enough(&self) -> (r: bool)
        ensures
            r == (self.samples >= OBSERVED_MIN_SAMPLES),
    {
        self.samples >= OBSERVED_MIN_SAMPLES
    }
}

/// Each rate is reported where it was measured, and the source as it was.
pub proof fn each_rate_has_its_place<R>(
    serial: Option<R>,
    concurrent: Option<R>,
    probe_serial: Option<R>,
    source: CalibrationSource,
)
    ensures
        calibrated(serial, concurrent, probe_serial, source).serial_items_per_sec == serial,
        calibrated(serial, concurrent, probe_serial, source).items_per_sec == concurrent,
        calibrated(serial, concurrent, probe_serial, source).probe_serial_items_per_sec
            == probe_serial,
        calibrated(serial, concurrent, probe_serial, source).source == source,
{
}

/// An observed rate is the serial one from then on, and takes nothing else of what the probe
/// measured. Without one the probe's word stands, and without both nothing is known.
pub proof fn an_observed_rate_takes_only_the_serial_ones_place<R>(
    probe: Option<Calibration<R>>,
    observed: Option<R>,
)
    ensures
        combination(probe, observed) is None <==> probe is None && observed is None,
        observed is None ==> combination(probe, observed) == probe,
        observed is Some ==> ({
            let c = combination(probe, observed)->0;
            c.serial_items_per_sec == observed && c.source is Observed
        }),
        probe is Some ==> ({
            let c = combination(probe, observed)->0;
            &&& c.items_per_sec == probe->0.items_per_sec
            &&& c.probe_serial_items_per_sec == probe->0.probe_serial_items_per_sec
        }),
        probe is None && observed is Some ==> ({
            let c = combination(probe, observed)->0;
            c.items_per_sec is None && c.probe_serial_items_per_sec is None
        }),
{
}

} // verus!
