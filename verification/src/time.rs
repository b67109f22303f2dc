//! Instants of UTC and the six-hourly grid on which GFS runs start.

use chrono::Datelike;
use vstd::prelude::*;

verus! {

/// Hours between two consecutive runs of the model.
pub const MODEL_HOUR_INTERVAL: i64 = 6;

/// Seconds between two consecutive runs of the model.
pub const RUN_INTERVAL_SECS: i64 = MODEL_HOUR_INTERVAL * 3600;

/// Seconds in a day of UTC.
pub const SECS_PER_DAY: i64 = 86400;

/// An instant of UTC: whole seconds since 1970-01-01 00:00:00, leap seconds
/// not counted, and the nanoseconds into that second.
#[derive(Clone, Copy, Debug, PartialEq, Eq, Structural)]
pub struct UtcInstant {
    pub secs: i64,
    pub nanos: u32,
}

/// The hour of the day, 0 to 23, in which second `secs` falls.
pub open spec fn hour_of(secs: int) -> int {
    (secs % 86400) / 3600
}

/// The start of the six-hour interval in which second `secs` falls.
pub open spec fn aligned_secs(secs: int) -> int {
    secs - secs % 21600
}

impl UtcInstant {
    /// The hour of the day, 0 to 23.
    pub open spec fn hour(&self) -> int {
        hour_of(self.secs as int)
    }

    /// The minute of the hour, 0 to 59.
    pub open spec fn minute(&self) -> int {
        (self.secs as int % 3600) / 60
    }

    /// The second of the minute, 0 to 59.
    pub open spec fn second(&self) -> int {
        self.secs as int % 60
    }

    /// Whether this instant is not later than `other`.
    pub open spec fn at_or_before(&self, other: UtcInstant) -> bool {
        self.secs < other.secs || (self.secs == other.secs && self.nanos <= other.nanos)
    }

    /// Whether a run of the model can start at this instant: on a full hour
    /// that is a multiple of six.
    pub open spec fn is_run_start(&self) -> bool {
        &&& self.hour() % 6 == 0
        &&& self.minute() == 0
        &&& self.second() == 0
        &&& self.nanos == 0
    }

    /// The hour of the day, 0 to 23.
    pub fn hour_of_day(&self) -> (hour: i64)
        ensures
            hour == self.hour(),
            0 <= hour < 24,
    {
        match self.secs.checked_rem_euclid(SECS_PER_DAY) {
            Some(in_day) => in_day / 3600,
            None => 0,
        }
    }
}

/// The start of the latest run at or before `now`, as a spec value: `now`
/// with its hour lowered to a multiple of six and all smaller units zero.
/// There is none where that instant lies before the first second an `i64`
/// can count.
pub open spec fn latest_run_spec(now: UtcInstant) -> Option<UtcInstant> {
    if aligned_secs(now.secs as int) >= i64::MIN {
        Some(UtcInstant { secs: aligned_secs(now.secs as int) as i64, nanos: 0 })
    } else {
        None
    }
}

/// The run that started `steps` intervals before the latest run at or
/// before `now`, where an `i64` can count its second.
pub open spec fn candidate_run(now: UtcInstant, steps: nat) -> Option<UtcInstant> {
    let secs = aligned_secs(now.secs as int) - 21600 * steps;
    if secs >= i64::MIN {
        Some(UtcInstant { secs: secs as i64, nanos: 0 })
    } else {
        None
    }
}

/// The start of the latest run at or before `now`.
pub fn determine_latest_possible_run(now: UtcInstant) -> (run: Option<UtcInstant>)
    ensures
        run == latest_run_spec(now),
        run matches Some(r) ==> r.is_run_start() && r.at_or_before(now) && now.secs - r.secs
            < 21600,
        now.secs >= i64::MIN + 21600 ==> run is Some,
{
    match now.secs.checked_rem_euclid(RUN_INTERVAL_SECS) {
        Some(into_interval) => {
            match now.secs.checked_sub(into_interval) {
                Some(secs) => {
                    let run = UtcInstant { secs, nanos: 0 };
                    proof {
                        lemma_aligned_is_run_start(now.secs as int);
                    }
                    Some(run)
                },
                None => None,
            }
        },
        None => None,
    }
}

/// The start of the run one interval before the run that starts at `run`,
/// where an `i64` can count its second.
pub open spec fn previous_run_spec(run: UtcInstant) -> Option<UtcInstant> {
    if run.secs - 21600 >= i64::MIN {
        Some(UtcInstant { secs: (run.secs - 21600) as i64, nanos: 0 })
    } else {
        None
    }
}

/// The run one interval before `run`, where an `i64` can count its second.
pub fn previous_run(run: UtcInstant) -> (earlier: Option<UtcInstant>)
    ensures
        earlier == previous_run_spec(run),
{
    match run.secs.checked_sub(RUN_INTERVAL_SECS) {
        Some(secs) => Some(UtcInstant { secs, nanos: 0 }),
        None => None,
    }
}

/// A second count that is a multiple of the run interval falls on a full
/// hour that is a multiple of six.
pub proof fn lemma_multiple_is_run_start(secs: int)
    requires
        secs % 21600 == 0,
    ensures
        hour_of(secs) % 6 == 0,
        (secs % 3600) / 60 == 0,
        secs % 60 == 0,
{
    let in_day = secs % 86400;
    assert(in_day % 21600 == 0);
    assert(in_day == 0 || in_day == 21600 || in_day == 43200 || in_day == 64800);
}

/// Lowering a second count to the run grid gives a multiple of the run
/// interval that is at most one interval below it.
pub proof fn lemma_aligned_is_run_start(secs: int)
    ensures
        aligned_secs(secs) % 21600 == 0,
        aligned_secs(secs) <= secs < aligned_secs(secs) + 21600,
        hour_of(aligned_secs(secs)) % 6 == 0,
        (aligned_secs(secs) % 3600) / 60 == 0,
        aligned_secs(secs) % 60 == 0,
{
    lemma_multiple_is_run_start(aligned_secs(secs));
}

/// The latest run at or before any instant starts on a full hour that is a
/// multiple of six, is not later than the instant, and is less than one run
/// interval before it.
pub proof fn lemma_latest_run_is_aligned(now: UtcInstant)
    requires
        latest_run_spec(now) is Some,
    ensures
        latest_run_spec(now)->0.is_run_start(),
        latest_run_spec(now)->0.hour() % 6 == 0,
        latest_run_spec(now)->0.at_or_before(now),
        now.secs - latest_run_spec(now)->0.secs < 21600,
{
    lemma_aligned_is_run_start(now.secs as int);
}

/// Every candidate run of a search starts on the run grid, and each one
/// starts exactly one interval before the one tried before it.
pub proof fn lemma_candidates_descend(now: UtcInstant, steps: nat)
    requires
        candidate_run(now, steps + 1) is Some,
    ensures
        candidate_run(now, steps) is Some,
        candidate_run(now, steps + 1)->0.is_run_start(),
        candidate_run(now, steps + 1)->0.secs + 21600 == candidate_run(now, steps)->0.secs,
        candidate_run(now, steps + 1) == previous_run_spec(candidate_run(now, steps)->0),
        candidate_run(now, steps + 1)->0.at_or_before(now),
{
    lemma_aligned_is_run_start(now.secs as int);
    let secs = aligned_secs(now.secs as int) - 21600 * (steps + 1);
    assert(secs % 21600 == 0);
    lemma_multiple_is_run_start(secs);
}

/// The calendar date of UTC, as year, month and day of the month, on which
/// the second `secs` falls, where the calendar library can represent it.
pub uninterp spec fn utc_calendar_date(secs: i64) -> Option<(i32, u32, u32)>;

/// Asks chrono for the calendar date of a second count:
/// `DateTime::from_timestamp` with no nanoseconds, then `year`, `month` and
/// `day` of `Datelike`. Nothing is proved of it; the contract only names
/// the date that chrono gives, or its refusal of a second count outside
/// the dates it can represent.
#[verifier::external_body]
pub(crate) fn calendar_date(secs: i64) -> (date: Option<(i32, u32, u32)>)
    ensures
        date == utc_calendar_date(secs),
{
    match chrono::DateTime::from_timestamp(secs, 0) {
        Some(instant) => Some((instant.year(), instant.month(), instant.day())),
        None => None,
    }
}

} // verus!
