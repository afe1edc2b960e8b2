//! Time zones and instants.
//!
//! A zone is known by its IANA name; what the name means is the business of
//! `chrono-tz`. The library asks one thing of a zone: the instant of local noon
//! on a date.

use chrono::NaiveDate;
use chrono::TimeZone;
use chrono_tz::Tz;

use vstd::prelude::*;

use crate::date::Date;

verus! {

/// Whether `chrono-tz` has a zone with this name.
pub uninterp spec fn timezone_known(name: Seq<char>) -> bool;

/// The instant of noon, local time of the zone with this name, on a day, in
/// seconds since 1970; `None` where local noon does not name one instant.
pub uninterp spec fn noon_instant(name: Seq<char>, day: int) -> Option<int>;

/// Noon on a day in UTC, in seconds since 1970.
pub open spec fn utc_noon(day: int) -> int {
    (day - 719_163) * 86_400 + 43_200
}

/// The result of a noon lookup, as a specification value.
pub open spec fn as_seconds(noon: Option<i64>) -> Option<int> {
    match noon {
        Some(seconds) => Some(seconds as int),
        None => None,
    }
}

/// Calls `parse::<chrono_tz::Tz>` on `name` and says whether it succeeded.
///
/// The result is named `timezone_known`; which names the database holds is not
/// described.
#[verifier::external_body]
fn has_timezone(name: &str) -> (r: bool)
    ensures
        r == timezone_known(name@),
{
    name.parse::<Tz>().is_ok()
}

/// Calls `from_local_datetime` of the `chrono_tz::Tz` called `name` on noon of
/// the date with day number `day`, and returns the timestamp of the one instant
/// it maps to, if there is exactly one.
///
/// The result is named `noon_instant`. What is stated of it beside the name is
/// that an offset from UTC is shorter than a day, as `chrono::FixedOffset`
/// demands of every offset. A name or a day that the crates do not know gives
/// `None`.
#[verifier::external_body]
pub(crate) fn local_noon(name: &str, day: i32) -> (r: Option<i64>)
    ensures
        as_seconds(r) == noon_instant(name@, day as int),
        r matches Some(seconds) ==> -86_400 < seconds - utc_noon(day as int) < 86_400,
{
    let tz: Tz = name.parse().ok()?;
    let noon = NaiveDate::from_num_days_from_ce_opt(day)?.and_hms_opt(12, 0, 0)?;
    let instant = tz.from_local_datetime(&noon).single()?;
    Some(instant.timestamp())
}

/// A time zone that `chrono-tz` knows.
#[derive(Debug, PartialEq, Eq)]
pub struct Timezone {
    name: String,
}

impl View for Timezone {
    type V = Seq<char>;

    closed spec fn view(&self) -> Seq<char> {
        self.name@
    }
}

impl Timezone {
    #[verifier::type_invariant]
    spec fn known(self) -> bool {
        timezone_known(self.name@)
    }

    /// The zone called `name`, if there is one.
    pub fn named(name: &str) -> (r: Option<Timezone>)
        ensures
            match r {
                Some(zone) => timezone_known(name@) && zone@ == name@,
                None => !timezone_known(name@),
            },
    {
        if has_timezone(name) {
            Some(Timezone { name: name.to_string() })
        } else {
            None
        }
    }

    /// The name of the zone.
    pub fn name(&self) -> (r: &str)
        ensures
            r@ == self@,
    {
        self.name.as_str()
    }

    /// The instant of local noon on `date`, in seconds since 1970.
    pub fn noon_on(&self, date: Date) -> (r: Option<i64>)
        ensures
            as_seconds(r) == noon_instant(self@, date@),
            r matches Some(seconds) ==> near_noon(seconds as int),
    {
        local_noon(self.name.as_str(), date.day())
    }
}

/// The seconds since 1970 that an instant may have. Every date has its noon
/// well within them, and their microseconds fit 64 bits.
pub open spec fn is_instant(seconds: int) -> bool {
    -9_000_000_000_000 <= seconds <= 9_000_000_000_000
}

/// The seconds since 1970 that a local noon may have.
pub open spec fn near_noon(seconds: int) -> bool {
    -8_900_000_000_000 <= seconds <= 8_900_000_000_000
}

/// An instant, in whole seconds since the start of 1970, UTC.
#[derive(Debug, Clone, Copy, PartialEq, Eq, PartialOrd, Ord, Hash, Structural)]
pub struct UtcInstant {
    seconds: i64,
}

impl View for UtcInstant {
    type V = int;

    closed spec fn view(&self) -> int {
        self.seconds as int
    }
}

impl UtcInstant {
    #[verifier::type_invariant]
    spec fn in_range(self) -> bool {
        is_instant(self.seconds as int)
    }

    /// The instant `seconds` after the start of 1970, if it is in range.
    pub fn from_seconds(seconds: i64) -> (r: Option<UtcInstant>)
        ensures
            match r {
                Some(instant) => is_instant(seconds as int) && instant@ == seconds,
                None => !is_instant(seconds as int),
            },
    {
        if -9_000_000_000_000 <= seconds && seconds <= 9_000_000_000_000 {
            Some(UtcInstant { seconds })
        } else {
            None
        }
    }

    /// Seconds since the start of 1970.
    pub fn seconds(self) -> (r: i64)
        ensures
            r == self@,
            is_instant(r as int),
    {
        proof {
            use_type_invariant(&self);
        }
        self.seconds
    }

    /// Microseconds since the start of 1970.
    pub fn micros(self) -> (r: i64)
        ensures
            r == self@ * 1_000_000,
    {
        self.seconds() * 1_000_000
    }
}

} // verus!
