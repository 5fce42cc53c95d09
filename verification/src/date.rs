use vstd::prelude::*;
use chrono::Datelike;
use chrono::TimeZone;

verus! {

/// A calendar date in the local time zone, held as plain year, month and day.
#[derive(Clone, Copy, PartialEq, Eq, Structural, Debug)]
pub struct LocalDate {
    /// Calendar year.
    pub year: i32,
    /// Month of the year, 1 through 12.
    pub month: u32,
    /// Day of the month, 1 through 31.
    pub day: u32,
}

impl LocalDate {
    /// A date is well formed when its month and day lie in calendar range.
    pub open spec fn wf(&self) -> bool {
        1 <= self.month <= 12 && 1 <= self.day <= 31
    }
}

/// Relies on `chrono::Local::now` and `chrono::DateTime::date_naive` for the
/// current calendar date in the machine's time zone; `chrono::Datelike`
/// documents `month` as ranging over 1..=12 and `day` over 1..=31.
#[verifier::external_body]
fn now_local_date() -> (d: LocalDate)
    ensures
        d.wf(),
{
    let nd = chrono::Local::now().date_naive();
    LocalDate { year: nd.year(), month: nd.month(), day: nd.day() }
}

/// Bounds, in seconds relative to the Unix epoch, inside which the chrono
/// conversion below always succeeds: about 253,000 years either way, several
/// thousand years inside chrono's own calendar boundary, so that no
/// time-zone offset can push an instant over it.
pub const MIN_DATABLE_SECS: i64 = -8_000_000_000_000;

/// The late counterpart of `MIN_DATABLE_SECS`.
pub const MAX_DATABLE_SECS: i64 = 8_000_000_000_000;

/// An instant that may be handed to the local-date conversion: seconds
/// within the guarded bounds and a proper subsecond nanosecond part.
pub open spec fn datable(secs: i64, nanos: u32) -> bool {
    &&& MIN_DATABLE_SECS <= secs <= MAX_DATABLE_SECS
    &&& nanos < 1_000_000_000
}

/// Relies on `chrono::TimeZone::timestamp_opt` on `chrono::Local` and
/// `chrono::DateTime::date_naive`: the calendar date, in the machine's time
/// zone, of the instant the given seconds and nanoseconds after the Unix
/// epoch. chrono documents the timestamp conversion as failing only on
/// out-of-range seconds or an invalid nanosecond, and its calendar as
/// spanning roughly 262,000 years either side of the epoch; near that
/// boundary `date_naive` can panic once a time-zone offset is applied, so
/// callers stay inside the thousands-of-years-narrower `datable` range, on
/// which both steps always succeed. Which date comes back depends on the
/// machine's time zone, so beyond well-formedness nothing is claimed of it.
/// `chrono::Datelike` documents `month` as 1..=12 and `day` as 1..=31.
#[verifier::external_body]
pub(crate) fn local_date_of_timestamp(secs: i64, nanos: u32) -> (r: Option<LocalDate>)
    requires
        datable(secs, nanos),
    ensures
        r.is_some(),
        r matches Some(d) ==> d.wf(),
{
    match chrono::Local.timestamp_opt(secs, nanos).single() {
        Some(dt) => {
            let nd = dt.date_naive();
            Some(LocalDate { year: nd.year(), month: nd.month(), day: nd.day() })
        },
        None => None,
    }
}

/// The invocation's local calendar date, as the system clock reports it.
/// Whatever the clock and time zone say, the date is well formed.
pub fn local_today() -> (d: LocalDate)
    ensures
        d.wf(),
{
    now_local_date()
}

/// Whether a file's modification date falls on the given current date.
pub fn is_from_today(date: &LocalDate, today: &LocalDate) -> (r: bool)
    ensures
        r == (date == today),
{
    *date == *today
}

} // verus!
