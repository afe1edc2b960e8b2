//! Resolving a parsed static feed into scheduled stop events.
//!
//! This is the join GTFS leaves to the reader. A `stop_times.txt` row says
//! "trip T calls at stop S at 25:14:00", which is neither a date nor a time
//! anyone can subtract. Turning it into a fact row means walking from
//! `stop_times` over trips and services to service dates, and resolving each
//! time against each date in the agency's timezone.
//!
//! Resolution is per service date, so that one date's events can be written out
//! before the next date's are made. The indexes are built once.

use vstd::prelude::*;
use vstd::relations::*;
use vstd::utf8::*;

use crate::config;
use crate::config::Agency;
use crate::date;
use crate::date::Date;
use crate::error::{Error, ErrorView};
use crate::fnv;
use crate::gtfs::archive::StaticFeed;
use crate::gtfs::calendar;
use crate::gtfs::calendar::ServiceCalendar;
use crate::gtfs::records;
use crate::gtfs::records::{StopTimeRow, StopTimeView, TripRow};
use crate::gtfs::time;
use crate::gtfs::time::GtfsTime;
use crate::keys;
use crate::keys::KeyIndex;
use crate::sort;
use crate::sort::Order;
use crate::text;
use crate::zone;
use crate::zone::{Timezone, UtcInstant};

verus! {

// ---------------------------------------------------------------------------
// Identifiers
// ---------------------------------------------------------------------------

/// The four bytes of a number below 2^32, least significant first.
pub open spec fn little_endian(n: u32) -> Seq<u8> {
    seq![
        (n % 256) as u8,
        (n / 256 % 256) as u8,
        (n / 65_536 % 256) as u8,
        (n / 16_777_216) as u8,
    ]
}

/// The byte that stands between the parts of an event's key.
pub const SEPARATOR: u8 = 0x1f;

/// What identifies a scheduled call: agency, service date, trip and position
/// along the trip, with a separator between them.
pub open spec fn event_key(agency: Seq<char>, day: int, trip: Seq<char>, sequence: u32) -> Seq<u8> {
    encode_utf8(agency).push(SEPARATOR) + encode_utf8(date::day_text(day)).push(SEPARATOR)
        + encode_utf8(trip).push(SEPARATOR) + little_endian(sequence)
}

/// The identifier of a scheduled call: the hash of its key, in hexadecimal.
pub open spec fn event_id_of(agency: Seq<char>, day: int, trip: Seq<char>, sequence: u32) -> Seq<
    char,
> {
    text::hex(fnv::hash_of(event_key(agency, day, trip, sequence)) as nat, 16)
}

/// The four bytes of a number, least significant first.
fn little_endian_bytes(n: u32) -> (r: Vec<u8>)
    ensures
        r@ == little_endian(n),
{
    let mut r: Vec<u8> = Vec::new();
    r.push((n % 256) as u8);
    r.push((n / 256 % 256) as u8);
    r.push((n / 65_536 % 256) as u8);
    r.push((n / 16_777_216) as u8);
    assert(r@ =~= little_endian(n));
    r
}

/// The hash after a text and a separator.
fn absorb_text(hash: u64, part: &str) -> (r: u64)
    ensures
        r == fnv::hash_from(hash, encode_utf8(part@).push(SEPARATOR)),
{
    let bytes: &[u8] = part.as_bytes();
    let mut end: Vec<u8> = Vec::new();
    end.push(SEPARATOR);
    proof {
        fnv::lemma_hash_concat(hash, encode_utf8(part@), end@);
        assert(encode_utf8(part@) + end@ =~= encode_utf8(part@).push(SEPARATOR));
    }
    fnv::absorb(fnv::absorb(hash, bytes), end.as_slice())
}

/// A stable identifier for one scheduled call.
///
/// Keyed on `stop_sequence` rather than `stop_id` because a trip may call at
/// the same stop twice.
pub fn event_id(agency_id: &str, service_date: Date, trip_id: &str, stop_sequence: u32) -> (r:
    String)
    ensures
        r@ == event_id_of(agency_id@, service_date@, trip_id@, stop_sequence),
{
    let date_text: String = service_date.to_text();
    let position: Vec<u8> = little_endian_bytes(stop_sequence);
    proof {
        let a = encode_utf8(agency_id@).push(SEPARATOR);
        let b = encode_utf8(date_text@).push(SEPARATOR);
        let c = encode_utf8(trip_id@).push(SEPARATOR);
        fnv::lemma_hash_concat(fnv::OFFSET_BASIS, a, b);
        fnv::lemma_hash_concat(fnv::OFFSET_BASIS, a + b, c);
        fnv::lemma_hash_concat(fnv::OFFSET_BASIS, a + b + c, position@);
    }
    let with_agency: u64 = absorb_text(fnv::OFFSET_BASIS, agency_id);
    let with_date: u64 = absorb_text(with_agency, date_text.as_str());
    let with_trip: u64 = absorb_text(with_date, trip_id);
    text::hex_text(fnv::absorb(with_trip, position.as_slice()), 16)
}

// ---------------------------------------------------------------------------
// Calls
// ---------------------------------------------------------------------------

/// The order of calls along a trip: by `stop_sequence`, and among equal ones as
/// in the file.
pub open spec fn call_leq(stop_times: Seq<StopTimeRow>, a: int, b: int) -> bool {
    stop_times[a].stop_sequence < stop_times[b].stop_sequence || (stop_times[a].stop_sequence
        == stop_times[b].stop_sequence && a <= b)
}

/// The stop times of a trip, in the order of calls.
pub open spec fn trip_calls(stop_times: Seq<StopTimeRow>, trip_id: Seq<char>) -> Seq<int> {
    keys::rows_with(records::stop_time_trips(stop_times), trip_id).sort_by(
        |a: int, b: int| call_leq(stop_times, a, b),
    )
}

/// Calls of one trip, each as the trip's row and the stop time's row.
pub open spec fn paired(trip: int, stop_times: Seq<int>) -> Seq<(int, int)> {
    stop_times.map_values(|stop_time: int| (trip, stop_time))
}

/// The calls of a list of trips, trip by trip.
pub open spec fn calls_of_trips(
    trips: Seq<TripRow>,
    stop_times: Seq<StopTimeRow>,
    rows: Seq<int>,
) -> Seq<(int, int)>
    decreases rows.len(),
{
    if rows.len() == 0 {
        Seq::empty()
    } else {
        calls_of_trips(trips, stop_times, rows.drop_last()) + paired(
            rows.last(),
            trip_calls(stop_times, trips[rows.last()].trip_id@),
        )
    }
}

/// The trips whose service runs on a day, in feed order.
pub open spec fn running_trips(
    trips: Seq<TripRow>,
    days: Map<Seq<char>, Set<int>>,
    day: int,
) -> Seq<int>
    decreases trips.len(),
{
    if trips.len() == 0 {
        Seq::empty()
    } else {
        let before = running_trips(trips.drop_last(), days, day);
        if calendar::runs(days, trips.last().service_id@, day) {
            before.push(trips.len() - 1)
        } else {
            before
        }
    }
}

/// The calls on a day: trips in feed order, and along each trip by
/// `stop_sequence`.
pub open spec fn calls_of_day(
    trips: Seq<TripRow>,
    stop_times: Seq<StopTimeRow>,
    days: Map<Seq<char>, Set<int>>,
    day: int,
) -> Seq<(int, int)> {
    calls_of_trips(trips, stop_times, running_trips(trips, days, day))
}

/// How many trips of a list have calls.
pub open spec fn trips_with_calls(
    trips: Seq<TripRow>,
    stop_times: Seq<StopTimeRow>,
    rows: Seq<int>,
) -> nat
    decreases rows.len(),
{
    if rows.len() == 0 {
        0
    } else {
        trips_with_calls(trips, stop_times, rows.drop_last()) + if trip_calls(
            stop_times,
            trips[rows.last()].trip_id@,
        ).len() > 0 {
            1nat
        } else {
            0nat
        }
    }
}

/// How many of the trips that run on a day have calls.
pub open spec fn resolved_trips(
    trips: Seq<TripRow>,
    stop_times: Seq<StopTimeRow>,
    days: Map<Seq<char>, Set<int>>,
    day: int,
) -> nat {
    trips_with_calls(trips, stop_times, running_trips(trips, days, day))
}

/// What a call's two time fields say.
pub enum CallTimes {
    /// At least one of them cannot be read.
    Malformed,
    /// Both are blank.
    Untimed,
    /// Arrival and departure, one standing for the other where it is blank.
    Timed { arrival: int, departure: int },
}

/// What the time fields of a stop time say.
pub open spec fn call_times(stop_time: StopTimeRow) -> CallTimes {
    match (time::time_reading(stop_time.arrival_time@), time::time_reading(
        stop_time.departure_time@,
    )) {
        (Ok(Some(a)), Ok(Some(d))) => CallTimes::Timed { arrival: a, departure: d },
        (Ok(Some(a)), Ok(None)) => CallTimes::Timed { arrival: a, departure: a },
        (Ok(None), Ok(Some(d))) => CallTimes::Timed { arrival: d, departure: d },
        (Ok(None), Ok(None)) => CallTimes::Untimed,
        _ => CallTimes::Malformed,
    }
}

// ---------------------------------------------------------------------------
// Events
// ---------------------------------------------------------------------------

/// One scheduled call at one stop, on one service date.
#[derive(Debug, Clone, PartialEq, Eq)]
pub struct ScheduledEvent {
    /// Stable across runs: see [`event_id`].
    pub event_id: String,
    pub service_date: Date,
    pub agency_id: String,
    pub route_id: String,
    pub route_key: String,
    pub trip_id: String,
    pub stop_id: String,
    pub stop_key: String,
    pub stop_sequence: u32,
    pub direction_id: Option<i32>,
    pub scheduled_arrival: UtcInstant,
    pub scheduled_departure: UtcInstant,
    /// Scheduled departure minus arrival, and never negative.
    pub dwell_seconds: i32,
    /// True when the arrival time was 24:00:00 or later, so that this call
    /// happens on the calendar day after its service date.
    pub crosses_midnight: bool,
}

/// The view of a [`ScheduledEvent`].
#[verifier::ext_equal]
pub struct EventView {
    pub event_id: Seq<char>,
    pub service_date: int,
    pub agency_id: Seq<char>,
    pub route_id: Seq<char>,
    pub route_key: Seq<char>,
    pub trip_id: Seq<char>,
    pub stop_id: Seq<char>,
    pub stop_key: Seq<char>,
    pub stop_sequence: u32,
    pub direction_id: Option<i32>,
    pub scheduled_arrival: int,
    pub scheduled_departure: int,
    pub dwell_seconds: int,
    pub crosses_midnight: bool,
}

impl View for ScheduledEvent {
    type V = EventView;

    open spec fn view(&self) -> EventView {
        EventView {
            event_id: self.event_id@,
            service_date: self.service_date@,
            agency_id: self.agency_id@,
            route_id: self.route_id@,
            route_key: self.route_key@,
            trip_id: self.trip_id@,
            stop_id: self.stop_id@,
            stop_key: self.stop_key@,
            stop_sequence: self.stop_sequence,
            direction_id: self.direction_id,
            scheduled_arrival: self.scheduled_arrival@,
            scheduled_departure: self.scheduled_departure@,
            dwell_seconds: self.dwell_seconds as int,
            crosses_midnight: self.crosses_midnight,
        }
    }
}

/// The views of a list of events.
pub open spec fn event_views(events: Seq<ScheduledEvent>) -> Seq<EventView> {
    events.map_values(|event: ScheduledEvent| event@)
}

/// The event of a timed call on a day, given the instant of local noon.
pub open spec fn event_of(
    agency: Seq<char>,
    day: int,
    noon: int,
    trip: TripRow,
    stop_time: StopTimeRow,
    arrival: int,
    departure: int,
) -> EventView {
    EventView {
        event_id: event_id_of(agency, day, trip.trip_id@, stop_time.stop_sequence),
        service_date: day,
        agency_id: agency,
        route_id: trip.route_id@,
        route_key: config::namespaced(agency, trip.route_id@),
        trip_id: trip.trip_id@,
        stop_id: stop_time.stop_id@,
        stop_key: config::namespaced(agency, stop_time.stop_id@),
        stop_sequence: stop_time.stop_sequence,
        direction_id: trip.direction_id,
        scheduled_arrival: noon - 43_200 + arrival,
        scheduled_departure: noon - 43_200 + departure,
        dwell_seconds: if departure > arrival {
            departure - arrival
        } else {
            0
        },
        crosses_midnight: arrival >= 86_400,
    }
}

/// The events of a list of calls: one for each timed call, in order.
pub open spec fn events_of(
    agency: Seq<char>,
    day: int,
    noon: int,
    trips: Seq<TripRow>,
    stop_times: Seq<StopTimeRow>,
    calls: Seq<(int, int)>,
) -> Seq<EventView>
    decreases calls.len(),
{
    if calls.len() == 0 {
        Seq::empty()
    } else {
        let before = events_of(agency, day, noon, trips, stop_times, calls.drop_last());
        let trip = trips[calls.last().0];
        let stop_time = stop_times[calls.last().1];
        match call_times(stop_time) {
            CallTimes::Timed { arrival, departure } => before.push(
                event_of(agency, day, noon, trip, stop_time, arrival, departure),
            ),
            _ => before,
        }
    }
}

/// What resolving a date did.
#[derive(Debug, Clone, Copy, PartialEq, Eq, Structural)]
pub struct Stats {
    pub events: usize,
    pub trips: usize,
    /// Stop times carrying neither an arrival nor a departure. An interpolated
    /// time would be a guess, so they are counted and dropped.
    pub untimed_stop_times: usize,
    /// Stop times whose arrival or departure could not be read. Counted and
    /// dropped like an untimed row, so that one bad cell does not take down a
    /// whole build.
    pub malformed_times: usize,
    pub crossing_midnight: usize,
}

impl Default for Stats {
    fn default() -> (r: Stats)
        ensures
            r.events == 0,
            r.trips == 0,
            r.untimed_stop_times == 0,
            r.malformed_times == 0,
            r.crossing_midnight == 0,
    {
        Stats {
            events: 0,
            trips: 0,
            untimed_stop_times: 0,
            malformed_times: 0,
            crossing_midnight: 0,
        }
    }
}

/// How many calls are malformed.
pub open spec fn malformed_calls(stop_times: Seq<StopTimeRow>, calls: Seq<(int, int)>) -> nat
    decreases calls.len(),
{
    if calls.len() == 0 {
        0
    } else {
        malformed_calls(stop_times, calls.drop_last()) + if call_times(
            stop_times[calls.last().1],
        ) is Malformed {
            1nat
        } else {
            0nat
        }
    }
}

/// How many calls have no time.
pub open spec fn untimed_calls(stop_times: Seq<StopTimeRow>, calls: Seq<(int, int)>) -> nat
    decreases calls.len(),
{
    if calls.len() == 0 {
        0
    } else {
        untimed_calls(stop_times, calls.drop_last()) + if call_times(
            stop_times[calls.last().1],
        ) is Untimed {
            1nat
        } else {
            0nat
        }
    }
}

/// How many calls arrive on the calendar day after their service date.
pub open spec fn crossing_calls(stop_times: Seq<StopTimeRow>, calls: Seq<(int, int)>) -> nat
    decreases calls.len(),
{
    if calls.len() == 0 {
        0
    } else {
        crossing_calls(stop_times, calls.drop_last()) + match call_times(
            stop_times[calls.last().1],
        ) {
            CallTimes::Timed { arrival, .. } if arrival >= 86_400 => 1nat,
            _ => 0nat,
        }
    }
}

/// Whether some call has a time.
pub open spec fn any_timed(stop_times: Seq<StopTimeRow>, calls: Seq<(int, int)>) -> bool {
    exists|i: int| 0 <= i < calls.len() && call_times(stop_times[(#[trigger] calls[i]).1]) is Timed
}

/// How many stop times arrive at 24:00:00 or later.
pub open spec fn rolled_over(stop_times: Seq<StopTimeRow>) -> nat
    decreases stop_times.len(),
{
    if stop_times.len() == 0 {
        0
    } else {
        rolled_over(stop_times.drop_last()) + match time::time_reading(
            stop_times.last().arrival_time@,
        ) {
            Ok(Some(seconds)) if seconds >= 86_400 => 1nat,
            _ => 0nat,
        }
    }
}

/// The number of stop times that arrive at 24:00:00 or later. Times that cannot
/// be read are not counted.
pub fn rollovers(stop_times: &Vec<StopTimeRow>) -> (r: usize)
    ensures
        r == rolled_over(stop_times@),
{
    let mut r: usize = 0;
    let mut i: usize = 0;
    while i < stop_times.len()
        invariant
            i <= stop_times@.len(),
            r == rolled_over(stop_times@.take(i as int)),
            r <= i,
        decreases stop_times@.len() - i,
    {
        assert(stop_times@.take(i + 1).drop_last() =~= stop_times@.take(i as int));
        let arrival: &str = stop_times[i].arrival_time.as_str();
        if let Ok(Some(t)) = GtfsTime::parse(arrival, "stop_times.txt") {
            if t.rolls_over() {
                r = r + 1;
            }
        }
        i = i + 1;
    }
    assert(stop_times@.take(stop_times@.len() as int) =~= stop_times@);
    r
}

// ---------------------------------------------------------------------------
// The schedule
// ---------------------------------------------------------------------------

/// The order of calls along a trip.
struct BySequence<'a> {
    stop_times: &'a Vec<StopTimeRow>,
}

impl<'a> Order for BySequence<'a> {
    closed spec fn leq(&self, a: int, b: int) -> bool {
        call_leq(self.stop_times@, a, b)
    }

    closed spec fn has(&self, row: int) -> bool {
        0 <= row < self.stop_times@.len()
    }

    proof fn lemma_total(&self) {
    }

    fn not_after(&self, a: usize, b: usize) -> (r: bool) {
        let first: u32 = self.stop_times[a].stop_sequence;
        let second: u32 = self.stop_times[b].stop_sequence;
        first < second || (first == second && a <= b)
    }
}

/// A feed indexed for date-by-date resolution.
pub struct Schedule<'a> {
    agency: &'a Agency,
    feed: &'a StaticFeed,
    tz: Timezone,
    calendar: ServiceCalendar,
    /// Stop times grouped by trip.
    stop_times_by_trip: KeyIndex,
    /// The stop times of each group, in the order of calls.
    calls: Vec<Vec<usize>>,
}

/// Calls as row numbers, as specification values.
pub open spec fn call_views(calls: Seq<(usize, usize)>) -> Seq<(int, int)> {
    calls.map_values(|call: (usize, usize)| (call.0 as int, call.1 as int))
}

/// What the time fields of a stop time say: an error where one cannot be read,
/// nothing where both are blank.
fn read_times(stop_time: &StopTimeRow) -> (r: Result<Option<(GtfsTime, GtfsTime)>, ()>)
    ensures
        match r {
            Err(_) => call_times(*stop_time) is Malformed,
            Ok(None) => call_times(*stop_time) is Untimed,
            Ok(Some((arrival, departure))) => call_times(*stop_time) == (CallTimes::Timed {
                arrival: arrival@,
                departure: departure@,
            }),
        },
{
    let arrival: Option<GtfsTime> = match GtfsTime::parse(
        stop_time.arrival_time.as_str(),
        "stop_times.txt",
    ) {
        Ok(t) => t,
        Err(_) => return Err(()),
    };
    let departure: Option<GtfsTime> = match GtfsTime::parse(
        stop_time.departure_time.as_str(),
        "stop_times.txt",
    ) {
        Ok(t) => t,
        Err(_) => return Err(()),
    };
    // One time standing in for the other is the common case at stops where a
    // vehicle does not wait.
    match (arrival, departure) {
        (Some(a), Some(d)) => Ok(Some((a, d))),
        (Some(a), None) => Ok(Some((a, a))),
        (None, Some(d)) => Ok(Some((d, d))),
        (None, None) => Ok(None),
    }
}

impl<'a> Schedule<'a> {
    #[verifier::type_invariant]
    spec fn sound(self) -> bool {
        &&& self.stop_times_by_trip.well_formed()
        &&& self.stop_times_by_trip@ == records::stop_time_trips(self.feed.stop_times@)
        &&& self.calls@.len() == self.stop_times_by_trip.distinct().len()
        &&& forall|slot: int|
            0 <= slot < self.calls@.len() ==> keys::ints((#[trigger] self.calls@[slot])@)
                == trip_calls(
                self.feed.stop_times@,
                self.stop_times_by_trip.distinct()[slot],
            )
    }

    /// The agency whose schedule this is.
    pub closed spec fn agency(self) -> Agency {
        *self.agency
    }

    /// The feed that is indexed.
    pub closed spec fn feed(self) -> StaticFeed {
        *self.feed
    }

    /// The name of the timezone in which times are resolved.
    pub closed spec fn timezone(self) -> Seq<char> {
        self.tz@
    }

    /// The days of each service.
    pub closed spec fn days(self) -> Map<Seq<char>, Set<int>> {
        self.calendar@
    }

    /// The calls on a day, in order.
    pub open spec fn calls_on(self, day: int) -> Seq<(int, int)> {
        calls_of_day(self.feed().trips@, self.feed().stop_times@, self.days(), day)
    }

    /// The events on a day, given the instant of local noon.
    pub open spec fn events_on(self, day: int, noon: int) -> Seq<EventView> {
        events_of(
            self.agency().id@,
            day,
            noon,
            self.feed().trips@,
            self.feed().stop_times@,
            self.calls_on(day),
        )
    }

    /// Whether `stats` counts what there is on a day.
    pub open spec fn counts(self, day: int, stats: Stats) -> bool {
        let stop_times = self.feed().stop_times@;
        let calls = self.calls_on(day);
        &&& stats.trips == resolved_trips(
            self.feed().trips@,
            stop_times,
            self.days(),
            day,
        )
        &&& stats.untimed_stop_times == untimed_calls(stop_times, calls)
        &&& stats.malformed_times == malformed_calls(stop_times, calls)
        &&& stats.crossing_midnight == crossing_calls(stop_times, calls)
    }

    /// Builds the indexes. The cost is proportional to the size of the feed and
    /// paid once.
    pub fn index(feed: &'a StaticFeed, agency: &'a Agency) -> (r: Result<Schedule<'a>, Error>)
        ensures
            match r {
                Ok(schedule) => {
                    &&& zone::timezone_known(agency.timezone@)
                    &&& calendar::feed_calendar_fault(
                        feed.calendar@,
                        feed.calendar_dates@,
                    ) is None
                    &&& schedule.agency() == *agency
                    &&& schedule.feed() == *feed
                    &&& schedule.timezone() == agency.timezone@
                    &&& schedule.days() == calendar::feed_expansion(
                        feed.calendar@,
                        feed.calendar_dates@,
                    )
                },
                Err(e) => if !zone::timezone_known(agency.timezone@) {
                    e@ == ErrorView::Config(config::unknown_timezone(*agency))
                } else {
                    e@ matches ErrorView::Feed(fault) && calendar::feed_calendar_fault(
                        feed.calendar@,
                        feed.calendar_dates@,
                    ) == Some(fault)
                },
            },
    {
        let tz: Timezone = match agency.tz() {
            Ok(tz) => tz,
            Err(e) => return Err(e),
        };
        let calendar: ServiceCalendar = match ServiceCalendar::build(feed) {
            Ok(calendar) => calendar,
            Err(e) => return Err(e),
        };
        Ok(Schedule::index_with(feed, agency, tz, calendar))
    }

    /// Builds the indexes, given the agency's timezone and the feed's calendar.
    pub fn index_with(
        feed: &'a StaticFeed,
        agency: &'a Agency,
        tz: Timezone,
        calendar: ServiceCalendar,
    ) -> (r: Schedule<'a>)
        ensures
            r.agency() == *agency,
            r.feed() == *feed,
            r.timezone() == tz@,
            r.days() == calendar@,
    {
        let mut stop_times_by_trip: KeyIndex = KeyIndex::new();
        let mut j: usize = 0;
        assert(records::stop_time_trips(feed.stop_times@.take(0)) =~= Seq::<Seq<char>>::empty());
        while j < feed.stop_times.len()
            invariant
                j <= feed.stop_times@.len(),
                stop_times_by_trip.well_formed(),
                stop_times_by_trip@ == records::stop_time_trips(feed.stop_times@.take(j as int)),
            decreases feed.stop_times@.len() - j,
        {
            stop_times_by_trip.push(feed.stop_times[j].trip_id.as_str(), j);
            assert(records::stop_time_trips(feed.stop_times@.take(j + 1)) =~= records::stop_time_trips(
                feed.stop_times@.take(j as int),
            ).push(feed.stop_times@[j as int].trip_id@));
            j = j + 1;
        }
        assert(feed.stop_times@.take(feed.stop_times@.len() as int) =~= feed.stop_times@);

        // The order of calls along a trip is load-bearing and the file need not
        // be sorted. Sorting once here is cheaper than sorting per date.
        let order: BySequence = BySequence { stop_times: &feed.stop_times };
        let mut calls: Vec<Vec<usize>> = Vec::new();
        let groups: usize = stop_times_by_trip.key_count();
        let mut k: usize = 0;
        while k < groups
            invariant
                groups == stop_times_by_trip.distinct().len(),
                stop_times_by_trip.well_formed(),
                stop_times_by_trip@ == records::stop_time_trips(feed.stop_times@),
                order.stop_times == &feed.stop_times,
                k <= groups,
                calls@.len() == k,
                forall|slot: int|
                    0 <= slot < k ==> keys::ints((#[trigger] calls@[slot])@) == trip_calls(
                        feed.stop_times@,
                        stop_times_by_trip.distinct()[slot],
                    ),
            decreases groups - k,
        {
            let rows: &Vec<usize> = stop_times_by_trip.rows_at(k);
            proof {
                let key = stop_times_by_trip.distinct()[k as int];
                keys::lemma_rows_with(records::stop_time_trips(feed.stop_times@), key);
                assert forall|x: int| 0 <= x < rows@.len() implies order.has(
                    #[trigger] rows@[x] as int,
                ) by {
                    assert(keys::ints(rows@)[x] == rows@[x]);
                }
                assert((|a: int, b: int| order.leq(a, b)) =~= (|a: int, b: int|
                    call_leq(feed.stop_times@, a, b)));
            }
            calls.push(sort::sorted(&order, rows));
            k = k + 1;
        }
        Schedule { agency, feed, tz, calendar, stop_times_by_trip, calls }
    }

    /// The calendar of the feed.
    pub fn calendar(&self) -> (r: &ServiceCalendar)
        ensures
            r@ == self.days(),
    {
        &self.calendar
    }

    /// Dates this feed has service on, ascending.
    pub fn service_dates(&self) -> (r: Vec<Date>)
        ensures
            crate::date_set::ascending(crate::date_set::days_of(r@)),
            crate::date_set::days_of(r@).to_set() == calendar::active_days(self.days()),
    {
        self.calendar.active_dates().to_vec()
    }

    /// Adds the calls of one trip to `calls`, and says whether there were any.
    fn add_trip(&self, trip: usize, calls: &mut Vec<(usize, usize)>) -> (r: bool)
        requires
            trip < self.feed().trips@.len(),
        ensures
            call_views(final(calls)@) == call_views(old(calls)@) + paired(
                trip as int,
                trip_calls(self.feed().stop_times@, self.feed().trips@[trip as int].trip_id@),
            ),
            r == (trip_calls(
                self.feed().stop_times@,
                self.feed().trips@[trip as int].trip_id@,
            ).len() > 0),
            old(calls)@.len() <= final(calls)@.len(),
            r ==> old(calls)@.len() < final(calls)@.len(),
    {
        proof {
            use_type_invariant(self);
        }
        let ghost stop_times = self.feed.stop_times@;
        let ghost trip_id = self.feed.trips@[trip as int].trip_id@;
        let ghost rows = trip_calls(stop_times, trip_id);
        let ghost before = call_views(calls@);
        match self.stop_times_by_trip.slot_of(self.feed.trips[trip].trip_id.as_str()) {
            None => {
                proof {
                    lemma_trip_calls(stop_times, trip_id);
                    if rows.len() > 0 {
                        assert(stop_times[rows[0]].trip_id@ == trip_id);
                        assert(records::stop_time_trips(stop_times)[rows[0]] == trip_id);
                    }
                    assert(rows =~= Seq::<int>::empty());
                    assert(before + paired(trip as int, rows) =~= before);
                }
                false
            },
            Some(slot) => {
                let group: &Vec<usize> = &self.calls[slot];
                assert(keys::ints(group@) == rows);
                let mut i: usize = 0;
                assert(before + paired(trip as int, rows.take(0)) =~= before);
                while i < group.len()
                    invariant
                        i <= group@.len(),
                        rows == keys::ints(group@),
                        call_views(calls@) == before + paired(trip as int, rows.take(i as int)),
                        calls@.len() == before.len() + i,
                    decreases group@.len() - i,
                {
                    let ghost now = calls@;
                    calls.push((trip, group[i]));
                    proof {
                        assert(rows[i as int] == group@[i as int] as int);
                        assert(call_views(calls@) =~= call_views(now).push(
                            (trip as int, rows[i as int]),
                        ));
                        assert(paired(trip as int, rows.take(i + 1)) =~= paired(
                            trip as int,
                            rows.take(i as int),
                        ).push((trip as int, rows[i as int])));
                        assert(call_views(calls@) =~= before + paired(
                            trip as int,
                            rows.take(i + 1),
                        ));
                    }
                    i = i + 1;
                }
                assert(rows.take(rows.len() as int) =~= rows);
                group.len() > 0
            },
        }
    }

    /// The calls on a date, in order, and the number of trips that have any.
    fn calls_for(&self, service_date: Date) -> (r: (Vec<(usize, usize)>, usize))
        ensures
            call_views(r.0@) == self.calls_on(service_date@),
            r.1 == resolved_trips(
                self.feed().trips@,
                self.feed().stop_times@,
                self.days(),
                service_date@,
            ),
    {
        let ghost trips = self.feed.trips@;
        let ghost stop_times = self.feed.stop_times@;
        let ghost days = self.days();
        let ghost day = service_date@;
        let mut calls: Vec<(usize, usize)> = Vec::new();
        let mut count: usize = 0;
        let mut i: usize = 0;
        assert(call_views(calls@) =~= calls_of_trips(
            trips,
            stop_times,
            running_trips(trips.take(0), days, day),
        ));
        while i < self.feed.trips.len()
            invariant
                i <= trips.len(),
                trips == self.feed.trips@,
                stop_times == self.feed.stop_times@,
                days == self.days(),
                day == service_date@,
                call_views(calls@) == calls_of_trips(
                    trips,
                    stop_times,
                    running_trips(trips.take(i as int), days, day),
                ),
                count == trips_with_calls(
                    trips,
                    stop_times,
                    running_trips(trips.take(i as int), days, day),
                ),
                count <= calls@.len(),
            decreases trips.len() - i,
        {
            let ghost before = running_trips(trips.take(i as int), days, day);
            let ghost rows = running_trips(trips.take(i + 1), days, day);
            assert(trips.take(i + 1).drop_last() =~= trips.take(i as int));
            if self.calendar.runs_on(self.feed.trips[i].service_id.as_str(), service_date) {
                assert(rows.drop_last() =~= before);
                assert(rows.last() == i);
                if self.add_trip(i, &mut calls) {
                    assert(count < calls.len());
                    count = count + 1;
                }
            } else {
                assert(rows == before);
            }
            i = i + 1;
        }
        assert(trips.take(trips.len() as int) =~= trips);
        (calls, count)
    }

    /// The id of the agency.
    pub fn agency_id(&self) -> (r: &str)
        ensures
            r@ == self.agency().id@,
    {
        self.agency.id.as_str()
    }

    /// The number of routes and of stops in the feed.
    pub fn dimension_sizes(&self) -> (r: (usize, usize))
        ensures
            r.0 == self.feed().routes@.len(),
            r.1 == self.feed().stops@.len(),
    {
        (self.feed.routes.len(), self.feed.stops.len())
    }

    /// The number of calls on a date.
    pub fn call_count(&self, service_date: Date) -> (r: usize)
        ensures
            r == self.calls_on(service_date@).len(),
    {
        let (calls, _) = self.calls_for(service_date);
        assert(call_views(calls@).len() == calls@.len());
        calls.len()
    }

    /// The instant of local noon on a date, in seconds since 1970.
    pub fn noon_on(&self, service_date: Date) -> (r: Option<i64>)
        ensures
            zone::as_seconds(r) == zone::noon_instant(self.timezone(), service_date@),
            r matches Some(seconds) ==> zone::near_noon(seconds as int),
    {
        self.tz.noon_on(service_date)
    }

    /// Every scheduled call on `service_date`, plus what it took to get there.
    ///
    /// Ordered by trip, in feed order, then by `stop_sequence`.
    pub fn for_date(&self, service_date: Date) -> (r: Result<(Vec<ScheduledEvent>, Stats), Error>)
        ensures
            match r {
                Ok((events, stats)) => {
                    let noon = zone::noon_instant(self.timezone(), service_date@);
                    &&& noon is Some || !any_timed(
                        self.feed().stop_times@,
                        self.calls_on(service_date@),
                    )
                    &&& event_views(events@) == self.events_on(service_date@, noon->0)
                    &&& stats.events == events@.len()
                    &&& self.counts(service_date@, stats)
                },
                Err(e) => {
                    &&& zone::noon_instant(self.timezone(), service_date@) is None
                    &&& any_timed(self.feed().stop_times@, self.calls_on(service_date@))
                    &&& e@ == ErrorView::Feed(time::no_noon(service_date@, self.timezone()))
                },
            },
    {
        self.for_date_at(service_date, self.noon_on(service_date))
    }

    /// Every scheduled call on `service_date`, given the instant of local noon
    /// on that date.
    pub fn for_date_at(&self, service_date: Date, noon: Option<i64>) -> (r: Result<
        (Vec<ScheduledEvent>, Stats),
        Error,
    >)
        requires
            noon matches Some(seconds) ==> zone::near_noon(seconds as int),
        ensures
            match r {
                Ok((events, stats)) => {
                    &&& noon is Some || !any_timed(
                        self.feed().stop_times@,
                        self.calls_on(service_date@),
                    )
                    &&& event_views(events@) == self.events_on(
                        service_date@,
                        zone::as_seconds(noon)->0,
                    )
                    &&& stats.events == events@.len()
                    &&& self.counts(service_date@, stats)
                },
                Err(e) => {
                    &&& noon is None
                    &&& any_timed(self.feed().stop_times@, self.calls_on(service_date@))
                    &&& e@ == ErrorView::Feed(time::no_noon(service_date@, self.timezone()))
                },
            },
    {
        let ghost trips = self.feed.trips@;
        let ghost stop_times = self.feed.stop_times@;
        let ghost agency = self.agency.id@;
        let ghost day = service_date@;
        let ghost at = zone::as_seconds(noon)->0;
        let (calls, trip_count) = self.calls_for(service_date);
        let ghost pairs = call_views(calls@);
        proof {
            lemma_call_rows(trips, stop_times, self.days(), day);
        }
        let mut events: Vec<ScheduledEvent> = Vec::new();
        let mut stats: Stats = Stats::default();
        stats.trips = trip_count;
        let mut i: usize = 0;
        assert(event_views(events@) =~= events_of(agency, day, at, trips, stop_times, pairs.take(0)));
        while i < calls.len()
            invariant
                i <= calls@.len(),
                trips == self.feed.trips@,
                stop_times == self.feed.stop_times@,
                agency == self.agency.id@,
                day == service_date@,
                at == zone::as_seconds(noon)->0,
                noon matches Some(seconds) ==> zone::near_noon(seconds as int),
                pairs == call_views(calls@),
                pairs == self.calls_on(day),
                forall|k: int|
                    0 <= k < pairs.len() ==> 0 <= (#[trigger] pairs[k]).0 < trips.len() && 0
                        <= pairs[k].1 < stop_times.len(),
                event_views(events@) == events_of(
                    agency,
                    day,
                    at,
                    trips,
                    stop_times,
                    pairs.take(i as int),
                ),
                stats.trips == trip_count,
                stats.events == 0,
                stats.untimed_stop_times == untimed_calls(stop_times, pairs.take(i as int)),
                stats.malformed_times == malformed_calls(stop_times, pairs.take(i as int)),
                stats.crossing_midnight == crossing_calls(stop_times, pairs.take(i as int)),
                stats.untimed_stop_times <= i,
                stats.malformed_times <= i,
                stats.crossing_midnight <= i,
                noon is None ==> !any_timed(stop_times, pairs.take(i as int)),
            decreases calls@.len() - i,
        {
            let ghost upto = pairs.take(i + 1);
            proof {
                assert(upto.drop_last() =~= pairs.take(i as int));
                assert(upto.last() == pairs[i as int]);
                assert(pairs[i as int] == (calls@[i as int].0 as int, calls@[i as int].1 as int));
            }
            let trip: &TripRow = &self.feed.trips[calls[i].0];
            let stop_time: &StopTimeRow = &self.feed.stop_times[calls[i].1];
            match read_times(stop_time) {
                Err(_) => {
                    stats.malformed_times = stats.malformed_times + 1;
                },
                Ok(None) => {
                    stats.untimed_stop_times = stats.untimed_stop_times + 1;
                },
                Ok(Some((arrival, departure))) => {
                    proof {
                        assert(upto[i as int] == pairs[i as int]);
                        assert(pairs.contains(pairs[i as int]));
                        lemma_timed_bounds(*stop_time);
                    }
                    let crosses_midnight: bool = arrival.rolls_over();
                    if crosses_midnight {
                        stats.crossing_midnight = stats.crossing_midnight + 1;
                    }
                    let scheduled_arrival: UtcInstant = match arrival.resolve_from(
                        noon,
                        service_date,
                        self.tz.name(),
                    ) {
                        Ok(instant) => instant,
                        Err(e) => return Err(Error::Feed(e)),
                    };
                    let scheduled_departure: UtcInstant = match departure.resolve_from(
                        noon,
                        service_date,
                        self.tz.name(),
                    ) {
                        Ok(instant) => instant,
                        Err(e) => return Err(Error::Feed(e)),
                    };
                    // A vehicle cannot depart before it arrives; feeds that say
                    // so have made a slip that is not worth a day's ingest.
                    let wait: i32 = departure.seconds() - arrival.seconds();
                    let event: ScheduledEvent = ScheduledEvent {
                        event_id: event_id(
                            self.agency.id.as_str(),
                            service_date,
                            trip.trip_id.as_str(),
                            stop_time.stop_sequence,
                        ),
                        service_date,
                        agency_id: self.agency.id.clone(),
                        route_id: trip.route_id.clone(),
                        route_key: self.agency.route_key(trip.route_id.as_str()),
                        trip_id: trip.trip_id.clone(),
                        stop_id: stop_time.stop_id.clone(),
                        stop_key: self.agency.stop_key(stop_time.stop_id.as_str()),
                        stop_sequence: stop_time.stop_sequence,
                        direction_id: trip.direction_id,
                        scheduled_arrival,
                        scheduled_departure,
                        dwell_seconds: if wait > 0 {
                            wait
                        } else {
                            0
                        },
                        crosses_midnight,
                    };
                    let ghost before = events@;
                    events.push(event);
                    assert(event_views(events@) =~= event_views(before).push(event@));
                },
            }
            proof {
                if noon is None {
                    assert forall|k: int| 0 <= k < upto.len() implies !(call_times(
                        stop_times[(#[trigger] upto[k]).1],
                    ) is Timed) by {
                        if k < i {
                            assert(pairs.take(i as int)[k] == upto[k]);
                        }
                    }
                }
            }
            i = i + 1;
        }
        assert(pairs.take(pairs.len() as int) =~= pairs);
        stats.events = events.len();
        Ok((events, stats))
    }
}

/// There are no more trips with calls than calls.
pub proof fn lemma_resolved_bounded(
    trips: Seq<TripRow>,
    stop_times: Seq<StopTimeRow>,
    days: Map<Seq<char>, Set<int>>,
    day: int,
)
    ensures
        resolved_trips(trips, stop_times, days, day) <= calls_of_day(
            trips,
            stop_times,
            days,
            day,
        ).len(),
{
    lemma_trips_bounded(trips, stop_times, running_trips(trips, days, day));
}

proof fn lemma_trips_bounded(trips: Seq<TripRow>, stop_times: Seq<StopTimeRow>, rows: Seq<int>)
    ensures
        trips_with_calls(trips, stop_times, rows) <= calls_of_trips(trips, stop_times, rows).len(),
    decreases rows.len(),
{
    if rows.len() > 0 {
        lemma_trips_bounded(trips, stop_times, rows.drop_last());
    }
}

/// The bounds of the times of a call.
proof fn lemma_timed_bounds(stop_time: StopTimeRow)
    ensures
        call_times(stop_time) matches CallTimes::Timed { arrival, departure } ==> 0 <= arrival
            < 172_800 && 0 <= departure < 172_800,
{
}

/// What the trips of a day are: those whose service runs, in feed order.
proof fn lemma_running_trips(trips: Seq<TripRow>, days: Map<Seq<char>, Set<int>>, day: int)
    ensures
        forall|row: int| #[trigger]
            running_trips(trips, days, day).contains(row) <==> 0 <= row < trips.len()
                && calendar::runs(days, trips[row].service_id@, day),
        forall|i: int|
            #![trigger running_trips(trips, days, day)[i]]
            0 <= i < running_trips(trips, days, day).len() ==> 0 <= running_trips(
                trips,
                days,
                day,
            )[i] < trips.len(),
        forall|i: int, j: int|
            #![trigger running_trips(trips, days, day)[i], running_trips(trips, days, day)[j]]
            0 <= i < j < running_trips(trips, days, day).len() ==> running_trips(
                trips,
                days,
                day,
            )[i] < running_trips(trips, days, day)[j],
    decreases trips.len(),
{
    let rows = running_trips(trips, days, day);
    if trips.len() > 0 {
        let before = running_trips(trips.drop_last(), days, day);
        let last = trips.len() - 1;
        lemma_running_trips(trips.drop_last(), days, day);
        assert forall|row: int| #[trigger]
            rows.contains(row) <==> 0 <= row < trips.len() && calendar::runs(
                days,
                trips[row].service_id@,
                day,
            ) by {
            assert(before.contains(row) <==> 0 <= row < last && calendar::runs(
                days,
                trips.drop_last()[row].service_id@,
                day,
            ));
            if rows.contains(row) {
                let k = choose|k: int| 0 <= k < rows.len() && rows[k] == row;
                assert(k < before.len() ==> before[k] == row);
            }
            if before.contains(row) {
                let k = choose|k: int| 0 <= k < before.len() && before[k] == row;
                assert(rows[k] == row);
            }
            if row == last && calendar::runs(days, trips[row].service_id@, day) {
                assert(rows[before.len() as int] == row);
            }
        }
        assert forall|i: int| 0 <= i < rows.len() implies 0 <= #[trigger] rows[i]
            < trips.len() by {
            assert(i < before.len() ==> rows[i] == before[i]);
        }
        assert forall|i: int, j: int| 0 <= i < j < rows.len() implies (#[trigger] rows[i])
            < #[trigger] rows[j] by {
            assert(rows[i] == before[i]);
            assert(j < before.len() ==> rows[j] == before[j]);
        }
    }
}

/// The rows that the calls on a day name are there.
pub proof fn lemma_call_rows(
    trips: Seq<TripRow>,
    stop_times: Seq<StopTimeRow>,
    days: Map<Seq<char>, Set<int>>,
    day: int,
)
    ensures
        forall|i: int|
            #![trigger calls_of_day(trips, stop_times, days, day)[i]]
            0 <= i < calls_of_day(trips, stop_times, days, day).len() ==> {
                let call = calls_of_day(trips, stop_times, days, day)[i];
                &&& 0 <= call.0 < trips.len()
                &&& 0 <= call.1 < stop_times.len()
                &&& calendar::runs(days, trips[call.0].service_id@, day)
                &&& stop_times[call.1].trip_id@ == trips[call.0].trip_id@
            },
{
    let rows = running_trips(trips, days, day);
    lemma_running_trips(trips, days, day);
    lemma_trip_call_rows(trips, stop_times, rows);
    let calls = calls_of_day(trips, stop_times, days, day);
    assert forall|i: int| 0 <= i < calls.len() implies {
        let call = #[trigger] calls[i];
        &&& 0 <= call.0 < trips.len()
        &&& 0 <= call.1 < stop_times.len()
        &&& calendar::runs(days, trips[call.0].service_id@, day)
        &&& stop_times[call.1].trip_id@ == trips[call.0].trip_id@
    } by {
        assert(calls[i] == calls_of_trips(trips, stop_times, rows)[i]);
        assert(rows.contains(calls[i].0));
    }
}

proof fn lemma_trip_call_rows(trips: Seq<TripRow>, stop_times: Seq<StopTimeRow>, rows: Seq<int>)
    requires
        forall|i: int| 0 <= i < rows.len() ==> 0 <= #[trigger] rows[i] < trips.len(),
    ensures
        forall|i: int|
            #![trigger calls_of_trips(trips, stop_times, rows)[i]]
            0 <= i < calls_of_trips(trips, stop_times, rows).len() ==> {
                let call = calls_of_trips(trips, stop_times, rows)[i];
                &&& rows.contains(call.0)
                &&& 0 <= call.1 < stop_times.len()
                &&& stop_times[call.1].trip_id@ == trips[call.0].trip_id@
            },
    decreases rows.len(),
{
    let calls = calls_of_trips(trips, stop_times, rows);
    if rows.len() > 0 {
        let before = rows.drop_last();
        assert forall|i: int| 0 <= i < before.len() implies 0 <= #[trigger] before[i]
            < trips.len() by {
            assert(before[i] == rows[i]);
        }
        lemma_trip_call_rows(trips, stop_times, before);
        let trip_id = trips[rows.last()].trip_id@;
        lemma_trip_calls(stop_times, trip_id);
        let earlier = calls_of_trips(trips, stop_times, before);
        assert forall|i: int| 0 <= i < calls.len() implies {
            let call = #[trigger] calls[i];
            &&& rows.contains(call.0)
            &&& 0 <= call.1 < stop_times.len()
            &&& stop_times[call.1].trip_id@ == trips[call.0].trip_id@
        } by {
            if i < earlier.len() {
                assert(calls[i] == earlier[i]);
                let k = choose|k: int| 0 <= k < before.len() && before[k] == earlier[i].0;
                assert(rows[k] == earlier[i].0);
            } else {
                let found = trip_calls(stop_times, trip_id);
                assert(calls[i] == (rows.last(), found[i - earlier.len()]));
                assert(rows[rows.len() - 1] == rows.last());
            }
        }
    }
}

/// The call that an event comes from.
pub proof fn lemma_event_has_call(
    agency: Seq<char>,
    day: int,
    noon: int,
    trips: Seq<TripRow>,
    stop_times: Seq<StopTimeRow>,
    calls: Seq<(int, int)>,
    i: int,
) -> (k: int)
    requires
        0 <= i < events_of(agency, day, noon, trips, stop_times, calls).len(),
    ensures
        0 <= k < calls.len(),
        call_times(stop_times[calls[k].1]) matches CallTimes::Timed { arrival, departure }
            && events_of(agency, day, noon, trips, stop_times, calls)[i] == event_of(
            agency,
            day,
            noon,
            trips[calls[k].0],
            stop_times[calls[k].1],
            arrival,
            departure,
        ),
    decreases calls.len(),
{
    let before = events_of(agency, day, noon, trips, stop_times, calls.drop_last());
    if i < before.len() {
        let k = lemma_event_has_call(
            agency,
            day,
            noon,
            trips,
            stop_times,
            calls.drop_last(),
            i,
        );
        assert(calls.drop_last()[k] == calls[k]);
        k
    } else {
        calls.len() - 1
    }
}

/// What the calls of a trip are: its stop times, each once, in ascending order
/// of `stop_sequence`.
pub proof fn lemma_trip_calls(stop_times: Seq<StopTimeRow>, trip_id: Seq<char>)
    ensures
        forall|row: int| #[trigger]
            trip_calls(stop_times, trip_id).contains(row) <==> 0 <= row < stop_times.len()
                && stop_times[row].trip_id@ == trip_id,
        forall|i: int|
            #![trigger trip_calls(stop_times, trip_id)[i]]
            0 <= i < trip_calls(stop_times, trip_id).len() ==> 0 <= trip_calls(
                stop_times,
                trip_id,
            )[i] < stop_times.len() && stop_times[trip_calls(stop_times, trip_id)[i]].trip_id@
                == trip_id,
        forall|i: int, j: int|
            #![trigger trip_calls(stop_times, trip_id)[i], trip_calls(stop_times, trip_id)[j]]
            0 <= i < j < trip_calls(stop_times, trip_id).len() ==> call_leq(
                stop_times,
                trip_calls(stop_times, trip_id)[i],
                trip_calls(stop_times, trip_id)[j],
            ),
        trip_calls(stop_times, trip_id).no_duplicates(),
{
    broadcast use vstd::seq_lib::group_to_multiset_ensures;

    let leq = |a: int, b: int| call_leq(stop_times, a, b);
    let names = records::stop_time_trips(stop_times);
    let found = keys::rows_with(names, trip_id);
    let calls = trip_calls(stop_times, trip_id);
    keys::lemma_rows_with(names, trip_id);
    assert(total_ordering(leq));
    found.lemma_sort_by_ensures(leq);
    assert forall|row: int| #[trigger] calls.contains(row) <==> found.contains(row) by {
        assert(calls.to_multiset().count(row) == found.to_multiset().count(row));
    }
    assert forall|i: int| 0 <= i < calls.len() implies 0 <= (#[trigger] calls[i])
        < stop_times.len() && stop_times[calls[i]].trip_id@ == trip_id by {
        assert(calls.contains(calls[i]));
        assert(found.contains(calls[i]));
        assert(names[calls[i]] == trip_id);
    }
    assert forall|row: int| #[trigger]
        calls.contains(row) <==> 0 <= row < stop_times.len() && stop_times[row].trip_id@
            == trip_id by {
        if 0 <= row < stop_times.len() {
            assert(names[row] == stop_times[row].trip_id@);
        }
        assert(found.contains(row) <==> 0 <= row < names.len() && names[row] == trip_id);
    }
    assert forall|i: int, j: int| 0 <= i < j < calls.len() implies call_leq(
        stop_times,
        #[trigger] calls[i],
        #[trigger] calls[j],
    ) by {
        assert(leq(calls[i], calls[j]));
    }
    assert(found.no_duplicates());
    found.lemma_multiset_has_no_duplicates();
    calls.lemma_multiset_has_no_duplicates_conv();
}

// ---------------------------------------------------------------------------
// Laws
// ---------------------------------------------------------------------------

/// A trip's calls come in ascending order of `stop_sequence`, and are all of
/// its stop times, each once.
pub proof fn law_trip_calls_follow_the_sequence(stop_times: Seq<StopTimeRow>, trip_id: Seq<char>)
    ensures
        forall|i: int, j: int|
            #![trigger trip_calls(stop_times, trip_id)[i], trip_calls(stop_times, trip_id)[j]]
            0 <= i < j < trip_calls(stop_times, trip_id).len() ==> stop_times[trip_calls(
                stop_times,
                trip_id,
            )[i]].stop_sequence <= stop_times[trip_calls(stop_times, trip_id)[j]].stop_sequence,
        forall|row: int| #[trigger]
            trip_calls(stop_times, trip_id).contains(row) <==> 0 <= row < stop_times.len()
                && stop_times[row].trip_id@ == trip_id,
        trip_calls(stop_times, trip_id).no_duplicates(),
{
    lemma_trip_calls(stop_times, trip_id);
}

/// The calls on a day are exactly the stop times of the trips whose service
/// runs.
pub proof fn law_calls_are_complete(
    trips: Seq<TripRow>,
    stop_times: Seq<StopTimeRow>,
    days: Map<Seq<char>, Set<int>>,
    day: int,
    trip: int,
    stop_time: int,
)
    ensures
        calls_of_day(trips, stop_times, days, day).contains((trip, stop_time)) <==> {
            &&& 0 <= trip < trips.len()
            &&& 0 <= stop_time < stop_times.len()
            &&& calendar::runs(days, trips[trip].service_id@, day)
            &&& stop_times[stop_time].trip_id@ == trips[trip].trip_id@
        },
{
    let calls = calls_of_day(trips, stop_times, days, day);
    let rows = running_trips(trips, days, day);
    let call = (trip, stop_time);
    lemma_running_trips(trips, days, day);
    lemma_call_rows(trips, stop_times, days, day);
    if calls.contains(call) {
        let i = choose|i: int| 0 <= i < calls.len() && calls[i] == call;
        assert(calls[i] == call);
    }
    if 0 <= trip < trips.len() && 0 <= stop_time < stop_times.len() && calendar::runs(
        days,
        trips[trip].service_id@,
        day,
    ) && stop_times[stop_time].trip_id@ == trips[trip].trip_id@ {
        assert(rows.contains(trip));
        lemma_trips_complete(trips, stop_times, rows, trip, stop_time);
    }
}

/// The calls on a day come trip by trip in feed order, whatever service each
/// trip belongs to, and along a trip in ascending order of `stop_sequence`.
pub proof fn law_calls_come_in_feed_order(
    trips: Seq<TripRow>,
    stop_times: Seq<StopTimeRow>,
    days: Map<Seq<char>, Set<int>>,
    day: int,
)
    ensures
        forall|i: int, j: int|
            #![trigger calls_of_day(trips, stop_times, days, day)[i], calls_of_day(trips, stop_times, days, day)[j]]
            0 <= i < j < calls_of_day(trips, stop_times, days, day).len() ==> {
                let call = calls_of_day(trips, stop_times, days, day)[i];
                let later = calls_of_day(trips, stop_times, days, day)[j];
                ||| call.0 < later.0
                ||| call.0 == later.0 && stop_times[call.1].stop_sequence
                    <= stop_times[later.1].stop_sequence
            },
{
    lemma_running_trips(trips, days, day);
    lemma_feed_order(trips, stop_times, running_trips(trips, days, day));
}

proof fn lemma_feed_order(trips: Seq<TripRow>, stop_times: Seq<StopTimeRow>, rows: Seq<int>)
    requires
        forall|i: int| 0 <= i < rows.len() ==> 0 <= #[trigger] rows[i] < trips.len(),
        forall|i: int, j: int|
            0 <= i < j < rows.len() ==> (#[trigger] rows[i]) < #[trigger] rows[j],
    ensures
        forall|i: int, j: int|
            #![trigger calls_of_trips(trips, stop_times, rows)[i], calls_of_trips(trips, stop_times, rows)[j]]
            0 <= i < j < calls_of_trips(trips, stop_times, rows).len() ==> {
                let call = calls_of_trips(trips, stop_times, rows)[i];
                let later = calls_of_trips(trips, stop_times, rows)[j];
                ||| call.0 < later.0
                ||| call.0 == later.0 && stop_times[call.1].stop_sequence
                    <= stop_times[later.1].stop_sequence
            },
    decreases rows.len(),
{
    let calls = calls_of_trips(trips, stop_times, rows);
    if rows.len() > 0 {
        let before = rows.drop_last();
        let earlier = calls_of_trips(trips, stop_times, before);
        let own = trip_calls(stop_times, trips[rows.last()].trip_id@);
        lemma_feed_order(trips, stop_times, before);
        lemma_trip_call_rows(trips, stop_times, before);
        lemma_trip_calls(stop_times, trips[rows.last()].trip_id@);
        assert forall|i: int, j: int| 0 <= i < j < calls.len() implies {
            let call = #[trigger] calls[i];
            let later = #[trigger] calls[j];
            ||| call.0 < later.0
            ||| call.0 == later.0 && stop_times[call.1].stop_sequence
                <= stop_times[later.1].stop_sequence
        } by {
            if j < earlier.len() {
                assert(calls[i] == earlier[i] && calls[j] == earlier[j]);
            } else {
                assert(calls[j] == (rows.last(), own[j - earlier.len()]));
                if i < earlier.len() {
                    assert(calls[i] == earlier[i]);
                    let k = choose|k: int| 0 <= k < before.len() && before[k] == earlier[i].0;
                    assert(rows[k] < rows[rows.len() - 1]);
                } else {
                    assert(calls[i] == (rows.last(), own[i - earlier.len()]));
                    assert(call_leq(
                        stop_times,
                        own[i - earlier.len()],
                        own[j - earlier.len()],
                    ));
                }
            }
        }
    }
}

proof fn lemma_trips_complete(
    trips: Seq<TripRow>,
    stop_times: Seq<StopTimeRow>,
    rows: Seq<int>,
    trip: int,
    stop_time: int,
)
    requires
        rows.contains(trip),
        0 <= stop_time < stop_times.len(),
        stop_times[stop_time].trip_id@ == trips[trip].trip_id@,
    ensures
        calls_of_trips(trips, stop_times, rows).contains((trip, stop_time)),
    decreases rows.len(),
{
    let call = (trip, stop_time);
    let calls = calls_of_trips(trips, stop_times, rows);
    let before = rows.drop_last();
    let earlier = calls_of_trips(trips, stop_times, before);
    let own = trip_calls(stop_times, trips[rows.last()].trip_id@);
    let later = paired(rows.last(), own);
    assert(calls == earlier + later);
    if rows.last() == trip {
        lemma_trip_calls(stop_times, trips[trip].trip_id@);
        assert(own.contains(stop_time));
        let k = choose|k: int| 0 <= k < own.len() && own[k] == stop_time;
        assert(later[k] == call);
        assert(calls[earlier.len() + k] == call);
    } else {
        let k = choose|k: int| 0 <= k < rows.len() && rows[k] == trip;
        assert(before[k] == trip);
        lemma_trips_complete(trips, stop_times, before, trip, stop_time);
        let l = choose|l: int| 0 <= l < earlier.len() && earlier[l] == call;
        assert(calls[l] == call);
    }
}

/// Every call is accounted for: it becomes an event, or is counted as malformed
/// or as untimed.
pub proof fn law_calls_are_accounted_for(
    agency: Seq<char>,
    day: int,
    noon: int,
    trips: Seq<TripRow>,
    stop_times: Seq<StopTimeRow>,
    calls: Seq<(int, int)>,
)
    ensures
        events_of(agency, day, noon, trips, stop_times, calls).len() + malformed_calls(
            stop_times,
            calls,
        ) + untimed_calls(stop_times, calls) == calls.len(),
    decreases calls.len(),
{
    if calls.len() > 0 {
        law_calls_are_accounted_for(agency, day, noon, trips, stop_times, calls.drop_last());
    }
}

/// Every event keeps the service date it was resolved for, whatever calendar
/// day it happens on: it crosses midnight exactly when it arrives twelve hours
/// or more after local noon. No vehicle departs before it arrives.
pub proof fn law_events_keep_their_service_date(
    agency: Seq<char>,
    day: int,
    noon: int,
    trips: Seq<TripRow>,
    stop_times: Seq<StopTimeRow>,
    calls: Seq<(int, int)>,
)
    ensures
        forall|i: int|
            #![trigger events_of(agency, day, noon, trips, stop_times, calls)[i]]
            0 <= i < events_of(agency, day, noon, trips, stop_times, calls).len() ==> {
                let event = events_of(agency, day, noon, trips, stop_times, calls)[i];
                &&& event.service_date == day
                &&& event.agency_id == agency
                &&& event.dwell_seconds >= 0
                &&& event.crosses_midnight <==> event.scheduled_arrival >= noon + 43_200
            },
    decreases calls.len(),
{
    if calls.len() > 0 {
        let before = events_of(agency, day, noon, trips, stop_times, calls.drop_last());
        let all = events_of(agency, day, noon, trips, stop_times, calls);
        law_events_keep_their_service_date(
            agency,
            day,
            noon,
            trips,
            stop_times,
            calls.drop_last(),
        );
        assert forall|i: int| 0 <= i < all.len() implies {
            let event = #[trigger] all[i];
            &&& event.service_date == day
            &&& event.agency_id == agency
            &&& event.dwell_seconds >= 0
            &&& event.crosses_midnight <==> event.scheduled_arrival >= noon + 43_200
        } by {
            if i < before.len() {
                assert(all[i] == before[i]);
            }
        }
    }
}

/// Whether no trip has two stop times with the same `stop_sequence`.
pub open spec fn distinct_positions(stop_times: Seq<StopTimeRow>) -> bool {
    forall|i: int, j: int|
        0 <= i < j < stop_times.len() && (#[trigger] stop_times[i]).trip_id@ == (
        #[trigger] stop_times[j]).trip_id@ ==> stop_times[i].stop_sequence
            != stop_times[j].stop_sequence
}

/// The order of the rows in `stop_times.txt` is irrelevant: two files with the
/// same rows in different orders, in which no trip has two stop times with the
/// same `stop_sequence`, give the same events in the same order and the same
/// counts on every day.
pub proof fn law_order_of_stop_times_is_irrelevant(
    agency: Seq<char>,
    day: int,
    noon: int,
    trips: Seq<TripRow>,
    days: Map<Seq<char>, Set<int>>,
    stop_times: Seq<StopTimeRow>,
    others: Seq<StopTimeRow>,
)
    requires
        records::stop_time_views(stop_times).to_multiset() == records::stop_time_views(
            others,
        ).to_multiset(),
        distinct_positions(stop_times),
    ensures
        ({
            let calls = calls_of_day(trips, stop_times, days, day);
            let other_calls = calls_of_day(trips, others, days, day);
            &&& events_of(agency, day, noon, trips, stop_times, calls) == events_of(
                agency,
                day,
                noon,
                trips,
                others,
                other_calls,
            )
            &&& resolved_trips(trips, stop_times, days, day) == resolved_trips(
                trips,
                others,
                days,
                day,
            )
            &&& untimed_calls(stop_times, calls) == untimed_calls(others, other_calls)
            &&& malformed_calls(stop_times, calls) == malformed_calls(others, other_calls)
            &&& crossing_calls(stop_times, calls) == crossing_calls(others, other_calls)
            &&& any_timed(stop_times, calls) == any_timed(others, other_calls)
        }),
{
    let rows = running_trips(trips, days, day);
    let calls = calls_of_day(trips, stop_times, days, day);
    let other_calls = calls_of_day(trips, others, days, day);
    lemma_positions_stay_distinct(stop_times, others);
    lemma_same_calls(trips, stop_times, others, rows);
    lemma_same_events(agency, day, noon, trips, stop_times, others, calls, other_calls);
    lemma_same_counts(stop_times, others, calls, other_calls);
}

/// What a list of calls says: the trip's row and the stop time of each.
spec fn call_rows(stop_times: Seq<StopTimeRow>, calls: Seq<(int, int)>) -> Seq<
    (int, StopTimeView),
> {
    calls.map_values(|call: (int, int)| (call.0, stop_times[call.1]@))
}

/// The stop times of a trip, in the order of calls.
spec fn trip_rows(stop_times: Seq<StopTimeRow>, trip_id: Seq<char>) -> Seq<StopTimeView> {
    trip_calls(stop_times, trip_id).map_values(|row: int| stop_times[row]@)
}

/// Rows that occur in one order occur in the other.
proof fn lemma_same_rows(stop_times: Seq<StopTimeRow>, others: Seq<StopTimeRow>, i: int) -> (k: int)
    requires
        records::stop_time_views(stop_times).to_multiset() == records::stop_time_views(
            others,
        ).to_multiset(),
        0 <= i < stop_times.len(),
    ensures
        0 <= k < others.len(),
        others[k]@ == stop_times[i]@,
{
    broadcast use vstd::seq_lib::group_to_multiset_ensures;

    let a = records::stop_time_views(stop_times);
    let b = records::stop_time_views(others);
    assert(a[i] == stop_times[i]@);
    assert(a.contains(a[i]));
    assert(a.to_multiset().count(a[i]) > 0);
    assert(b.to_multiset().count(a[i]) > 0);
    assert(b.contains(a[i]));
    choose|k: int| 0 <= k < b.len() && b[k] == a[i]
}

/// Positions that are distinct in one order are distinct in the other.
proof fn lemma_positions_stay_distinct(stop_times: Seq<StopTimeRow>, others: Seq<StopTimeRow>)
    requires
        records::stop_time_views(stop_times).to_multiset() == records::stop_time_views(
            others,
        ).to_multiset(),
        distinct_positions(stop_times),
    ensures
        distinct_positions(others),
{
    let a = records::stop_time_views(stop_times);
    let b = records::stop_time_views(others);
    assert(a.no_duplicates()) by {
        assert forall|i: int, j: int| 0 <= i < a.len() && 0 <= j < a.len() && i != j implies a[i]
            != a[j] by {
            assert(a[i] == stop_times[i]@ && a[j] == stop_times[j]@);
        }
    }
    a.lemma_multiset_has_no_duplicates();
    b.lemma_multiset_has_no_duplicates_conv();
    assert forall|i: int, j: int|
        0 <= i < j < others.len() && (#[trigger] others[i]).trip_id@ == (
        #[trigger] others[j]).trip_id@ implies others[i].stop_sequence
        != others[j].stop_sequence by {
        let k = lemma_same_rows(others, stop_times, i);
        let l = lemma_same_rows(others, stop_times, j);
        assert(b[i] == others[i]@ && b[j] == others[j]@);
        assert(b[i] != b[j]);
        assert(k != l);
        assert(stop_times[k].trip_id@ == stop_times[l].trip_id@);
        assert(stop_times[k]@.stop_sequence != stop_times[l]@.stop_sequence);
    }
}

/// The stop times of a trip: which they are, in strict order.
proof fn lemma_trip_rows(stop_times: Seq<StopTimeRow>, trip_id: Seq<char>)
    requires
        distinct_positions(stop_times),
    ensures
        trip_rows(stop_times, trip_id).len() == trip_calls(stop_times, trip_id).len(),
        forall|x: StopTimeView| #[trigger]
            trip_rows(stop_times, trip_id).contains(x) <==> exists|row: int|
                0 <= row < stop_times.len() && (#[trigger] stop_times[row])@ == x && x.trip_id
                    == trip_id,
        forall|i: int, j: int|
            #![trigger trip_rows(stop_times, trip_id)[i], trip_rows(stop_times, trip_id)[j]]
            0 <= i < j < trip_rows(stop_times, trip_id).len() ==> trip_rows(
                stop_times,
                trip_id,
            )[i].stop_sequence < trip_rows(stop_times, trip_id)[j].stop_sequence,
{
    let calls = trip_calls(stop_times, trip_id);
    let rows = trip_rows(stop_times, trip_id);
    lemma_trip_calls(stop_times, trip_id);
    assert forall|x: StopTimeView| #[trigger]
        rows.contains(x) <==> exists|row: int|
            0 <= row < stop_times.len() && (#[trigger] stop_times[row])@ == x && x.trip_id
                == trip_id by {
        if rows.contains(x) {
            let k = choose|k: int| 0 <= k < rows.len() && rows[k] == x;
            assert(stop_times[calls[k]]@ == x);
        }
        if exists|row: int|
            0 <= row < stop_times.len() && (#[trigger] stop_times[row])@ == x && x.trip_id
                == trip_id {
            let row = choose|row: int|
                0 <= row < stop_times.len() && (#[trigger] stop_times[row])@ == x && x.trip_id
                    == trip_id;
            assert(calls.contains(row));
            let k = choose|k: int| 0 <= k < calls.len() && calls[k] == row;
            assert(rows[k] == x);
        }
    }
    assert forall|i: int, j: int| 0 <= i < j < rows.len() implies (
    #[trigger] rows[i]).stop_sequence < (#[trigger] rows[j]).stop_sequence by {
        let first = calls[i];
        let second = calls[j];
        assert(call_leq(stop_times, first, second));
        assert(first != second);
        assert(rows[i] == stop_times[first]@ && rows[j] == stop_times[second]@);
        assert(stop_times[first].trip_id@ == stop_times[second].trip_id@);
    }
}

/// The stop times of a trip are the same in either order.
proof fn lemma_same_trip_rows(
    stop_times: Seq<StopTimeRow>,
    others: Seq<StopTimeRow>,
    trip_id: Seq<char>,
)
    requires
        records::stop_time_views(stop_times).to_multiset() == records::stop_time_views(
            others,
        ).to_multiset(),
        distinct_positions(stop_times),
        distinct_positions(others),
    ensures
        trip_rows(stop_times, trip_id) == trip_rows(others, trip_id),
{
    let a = trip_rows(stop_times, trip_id);
    let b = trip_rows(others, trip_id);
    lemma_trip_rows(stop_times, trip_id);
    lemma_trip_rows(others, trip_id);
    assert forall|x: StopTimeView| #[trigger] a.contains(x) <==> b.contains(x) by {
        if a.contains(x) {
            let row = choose|row: int|
                0 <= row < stop_times.len() && (#[trigger] stop_times[row])@ == x && x.trip_id
                    == trip_id;
            let k = lemma_same_rows(stop_times, others, row);
            assert(others[k]@ == x);
        }
        if b.contains(x) {
            let row = choose|row: int|
                0 <= row < others.len() && (#[trigger] others[row])@ == x && x.trip_id == trip_id;
            let k = lemma_same_rows(others, stop_times, row);
            assert(stop_times[k]@ == x);
        }
    }
    sort::lemma_ascending_unique(
        a,
        b,
        |x: StopTimeView, y: StopTimeView| x.stop_sequence < y.stop_sequence,
    );
}

/// The calls of a list of trips say the same in either order.
proof fn lemma_same_calls(
    trips: Seq<TripRow>,
    stop_times: Seq<StopTimeRow>,
    others: Seq<StopTimeRow>,
    rows: Seq<int>,
)
    requires
        records::stop_time_views(stop_times).to_multiset() == records::stop_time_views(
            others,
        ).to_multiset(),
        distinct_positions(stop_times),
        distinct_positions(others),
    ensures
        call_rows(stop_times, calls_of_trips(trips, stop_times, rows)) == call_rows(
            others,
            calls_of_trips(trips, others, rows),
        ),
        trips_with_calls(trips, stop_times, rows) == trips_with_calls(trips, others, rows),
    decreases rows.len(),
{
    let a = calls_of_trips(trips, stop_times, rows);
    let b = calls_of_trips(trips, others, rows);
    if rows.len() == 0 {
        assert(call_rows(stop_times, a) =~= call_rows(others, b));
    } else {
        let before = rows.drop_last();
        let trip_id = trips[rows.last()].trip_id@;
        lemma_same_calls(trips, stop_times, others, before);
        lemma_same_trip_rows(stop_times, others, trip_id);
        lemma_added_rows(
            stop_times,
            calls_of_trips(trips, stop_times, before),
            rows.last(),
            trip_id,
        );
        lemma_added_rows(others, calls_of_trips(trips, others, before), rows.last(), trip_id);
        assert(trip_rows(stop_times, trip_id).len() == trip_calls(stop_times, trip_id).len());
        assert(trip_rows(others, trip_id).len() == trip_calls(others, trip_id).len());
    }
}

/// What the calls of one more trip add.
proof fn lemma_added_rows(
    stop_times: Seq<StopTimeRow>,
    calls: Seq<(int, int)>,
    trip: int,
    trip_id: Seq<char>,
)
    ensures
        call_rows(stop_times, calls + paired(trip, trip_calls(stop_times, trip_id))) == call_rows(
            stop_times,
            calls,
        ) + trip_rows(stop_times, trip_id).map_values(|row: StopTimeView| (trip, row)),
{
    assert(call_rows(stop_times, calls + paired(trip, trip_calls(stop_times, trip_id)))
        =~= call_rows(stop_times, calls) + trip_rows(stop_times, trip_id).map_values(
        |row: StopTimeView| (trip, row),
    ));
}

/// Stop times that say the same have the same times.
proof fn lemma_same_times(stop_time: StopTimeRow, other: StopTimeRow)
    requires
        stop_time@ == other@,
    ensures
        call_times(stop_time) == call_times(other),
        stop_time.stop_id@ == other.stop_id@,
        stop_time.stop_sequence == other.stop_sequence,
{
    assert(stop_time@.arrival_time == other@.arrival_time);
    assert(stop_time@.departure_time == other@.departure_time);
    assert(stop_time@.stop_id == other@.stop_id);
    assert(stop_time@.stop_sequence == other@.stop_sequence);
}

/// The last of two lists of calls that say the same, and what comes before.
proof fn lemma_same_last(
    stop_times: Seq<StopTimeRow>,
    others: Seq<StopTimeRow>,
    calls: Seq<(int, int)>,
    other_calls: Seq<(int, int)>,
)
    requires
        call_rows(stop_times, calls) == call_rows(others, other_calls),
        calls.len() > 0,
    ensures
        other_calls.len() == calls.len(),
        call_rows(stop_times, calls.drop_last()) == call_rows(others, other_calls.drop_last()),
        calls.last().0 == other_calls.last().0,
        stop_times[calls.last().1]@ == others[other_calls.last().1]@,
{
    let a = call_rows(stop_times, calls);
    let b = call_rows(others, other_calls);
    assert(a.len() == calls.len() && b.len() == other_calls.len());
    assert(call_rows(stop_times, calls.drop_last()) =~= a.drop_last());
    assert(call_rows(others, other_calls.drop_last()) =~= b.drop_last());
    assert(a.last() == (calls.last().0, stop_times[calls.last().1]@));
    assert(b.last() == (other_calls.last().0, others[other_calls.last().1]@));
}

/// Calls that say the same give the same events.
proof fn lemma_same_events(
    agency: Seq<char>,
    day: int,
    noon: int,
    trips: Seq<TripRow>,
    stop_times: Seq<StopTimeRow>,
    others: Seq<StopTimeRow>,
    calls: Seq<(int, int)>,
    other_calls: Seq<(int, int)>,
)
    requires
        call_rows(stop_times, calls) == call_rows(others, other_calls),
    ensures
        events_of(agency, day, noon, trips, stop_times, calls) == events_of(
            agency,
            day,
            noon,
            trips,
            others,
            other_calls,
        ),
    decreases calls.len(),
{
    assert(call_rows(stop_times, calls).len() == calls.len());
    assert(call_rows(others, other_calls).len() == other_calls.len());
    if calls.len() > 0 {
        lemma_same_last(stop_times, others, calls, other_calls);
        lemma_same_times(stop_times[calls.last().1], others[other_calls.last().1]);
        lemma_same_events(
            agency,
            day,
            noon,
            trips,
            stop_times,
            others,
            calls.drop_last(),
            other_calls.drop_last(),
        );
    }
}

/// Calls that say the same have the same counts.
proof fn lemma_same_counts(
    stop_times: Seq<StopTimeRow>,
    others: Seq<StopTimeRow>,
    calls: Seq<(int, int)>,
    other_calls: Seq<(int, int)>,
)
    requires
        call_rows(stop_times, calls) == call_rows(others, other_calls),
    ensures
        untimed_calls(stop_times, calls) == untimed_calls(others, other_calls),
        malformed_calls(stop_times, calls) == malformed_calls(others, other_calls),
        crossing_calls(stop_times, calls) == crossing_calls(others, other_calls),
        any_timed(stop_times, calls) == any_timed(others, other_calls),
    decreases calls.len(),
{
    assert(call_rows(stop_times, calls).len() == calls.len());
    assert(call_rows(others, other_calls).len() == other_calls.len());
    if calls.len() > 0 {
        lemma_same_last(stop_times, others, calls, other_calls);
        lemma_same_times(stop_times[calls.last().1], others[other_calls.last().1]);
        lemma_same_counts(stop_times, others, calls.drop_last(), other_calls.drop_last());
        lemma_any_timed_last(stop_times, calls);
        lemma_any_timed_last(others, other_calls);
    }
}

/// Some call has a time if one before the last has, or the last.
proof fn lemma_any_timed_last(stop_times: Seq<StopTimeRow>, calls: Seq<(int, int)>)
    requires
        calls.len() > 0,
    ensures
        any_timed(stop_times, calls) <==> any_timed(stop_times, calls.drop_last()) || call_times(
            stop_times[calls.last().1],
        ) is Timed,
{
    let before = calls.drop_last();
    if any_timed(stop_times, before) {
        let i = choose|i: int|
            0 <= i < before.len() && call_times(stop_times[(#[trigger] before[i]).1]) is Timed;
        assert(calls[i] == before[i]);
    }
    if any_timed(stop_times, calls) {
        let i = choose|i: int|
            0 <= i < calls.len() && call_times(stop_times[(#[trigger] calls[i]).1]) is Timed;
        assert(i < before.len() ==> before[i] == calls[i]);
    }
    if call_times(stop_times[calls.last().1]) is Timed {
        assert(calls[calls.len() - 1] == calls.last());
    }
}

/// A text without the separator character has an encoding without the
/// separator byte.
proof fn lemma_no_separator(s: Seq<char>)
    requires
        !s.contains('\u{1f}'),
    ensures
        !encode_utf8(s).contains(SEPARATOR),
    decreases s.len(),
{
    if s.len() > 0 {
        let c = s[0] as u32;
        let rest = s.drop_first();
        assert(s.contains(s[0]));
        assert(!rest.contains('\u{1f}')) by {
            if rest.contains('\u{1f}') {
                let i = choose|i: int| 0 <= i < rest.len() && rest[i] == '\u{1f}';
                assert(s[i + 1] == '\u{1f}');
            }
        }
        lemma_no_separator(rest);
        assert(c <= 0x7f && c != 0x1f ==> (c & 0x7f) as u8 != 0x1f) by (bit_vector);
        assert(0xc0u8 | ((c >> 6) & 0x1f) as u8 != 0x1f) by (bit_vector);
        assert(0xe0u8 | ((c >> 12) & 0x0f) as u8 != 0x1f) by (bit_vector);
        assert(0xf0u8 | ((c >> 18) & 0x7) as u8 != 0x1f) by (bit_vector);
        assert(0x80u8 | (c & 0x3f) as u8 != 0x1f) by (bit_vector);
        assert(0x80u8 | ((c >> 6) & 0x3f) as u8 != 0x1f) by (bit_vector);
        assert(0x80u8 | ((c >> 12) & 0x3f) as u8 != 0x1f) by (bit_vector);
        char_is_scalar(s[0]);
        char_u32_cast(s[0], c);
        assert(c != 0x1f);
        let head = encode_scalar(c);
        assert(leading_byte_width_1(c) != 0x1f || c > 0x7f);
        assert(leading_byte_width_2(c) != 0x1f);
        assert(leading_byte_width_3(c) != 0x1f);
        assert(leading_byte_width_4(c) != 0x1f);
        assert(last_continuation_byte(c) != 0x1f);
        assert(second_last_continuation_byte(c) != 0x1f);
        assert(third_last_continuation_byte(c) != 0x1f);
        assert forall|i: int| 0 <= i < head.len() implies head[i] != SEPARATOR by {}
        let all = encode_utf8(s);
        assert(all == head + encode_utf8(rest));
        if all.contains(SEPARATOR) {
            let i = choose|i: int| 0 <= i < all.len() && all[i] == SEPARATOR;
            if i < head.len() {
                assert(head[i] == SEPARATOR);
            } else {
                assert(encode_utf8(rest)[i - head.len()] == SEPARATOR);
            }
        }
    } else {
        assert(encode_utf8(s) =~= Seq::<u8>::empty());
    }
}

/// Two sequences that start with a field and a separator, where the field is
/// free of separators, start with the same field.
proof fn lemma_same_field(a: Seq<u8>, rest_a: Seq<u8>, b: Seq<u8>, rest_b: Seq<u8>)
    requires
        !a.contains(SEPARATOR),
        !b.contains(SEPARATOR),
        a.push(SEPARATOR) + rest_a == b.push(SEPARATOR) + rest_b,
    ensures
        a == b,
        rest_a == rest_b,
{
    let whole = a.push(SEPARATOR) + rest_a;
    let n = a.len() as int;
    let k = b.len() as int;
    assert(whole[n] == SEPARATOR);
    assert((b.push(SEPARATOR) + rest_b)[k] == SEPARATOR);
    if n < k {
        assert(b[n] == whole[n]);
        assert(b.contains(SEPARATOR));
    }
    if k < n {
        assert(a[k] == whole[k]);
        assert(a.contains(SEPARATOR));
    }
    assert(a =~= whole.take(n));
    assert(b =~= whole.take(n));
    assert(rest_a =~= whole.skip(n + 1));
    assert(rest_b =~= whole.skip(n + 1));
}

/// Two calls that differ in agency, service date, trip or position have
/// different keys, as long as agency ids are free of the separator. No two
/// fields can run into each other.
pub proof fn law_event_keys_are_distinct(
    agency: Seq<char>,
    day: int,
    trip: Seq<char>,
    sequence: u32,
    other_agency: Seq<char>,
    other_day: int,
    other_trip: Seq<char>,
    other_sequence: u32,
)
    requires
        !agency.contains('\u{1f}'),
        !other_agency.contains('\u{1f}'),
        event_key(agency, day, trip, sequence) == event_key(
            other_agency,
            other_day,
            other_trip,
            other_sequence,
        ),
    ensures
        agency == other_agency,
        day == other_day,
        trip == other_trip,
        sequence == other_sequence,
{
    lemma_no_separator(agency);
    lemma_no_separator(other_agency);
    date::lemma_day_text_plain(day);
    date::lemma_day_text_plain(other_day);
    lemma_no_separator(date::day_text(day));
    lemma_no_separator(date::day_text(other_day));
    lemma_same_parts(
        encode_utf8(agency),
        encode_utf8(date::day_text(day)),
        encode_utf8(trip),
        little_endian(sequence),
        encode_utf8(other_agency),
        encode_utf8(date::day_text(other_day)),
        encode_utf8(other_trip),
        little_endian(other_sequence),
    );
    lemma_same_text(agency, other_agency);
    lemma_same_text(date::day_text(day), date::day_text(other_day));
    lemma_same_text(trip, other_trip);
    date::law_dates_have_distinct_texts(day, other_day);
    lemma_same_number(sequence, other_sequence);
}

proof fn lemma_same_text(a: Seq<char>, b: Seq<char>)
    requires
        encode_utf8(a) == encode_utf8(b),
    ensures
        a == b,
{
    encode_utf8_decode_utf8(a);
    encode_utf8_decode_utf8(b);
}

proof fn lemma_same_number(a: u32, b: u32)
    requires
        little_endian(a) == little_endian(b),
    ensures
        a == b,
{
    let x = little_endian(a);
    let y = little_endian(b);
    assert(x[0] == y[0] && x[1] == y[1] && x[2] == y[2] && x[3] == y[3]);
    lemma_bytes_make_number(a);
    lemma_bytes_make_number(b);
}

proof fn lemma_bytes_make_number(n: u32)
    ensures
        n == (n % 256) + 256 * (n / 256 % 256) + 65_536 * (n / 65_536 % 256) + 16_777_216 * (n
            / 16_777_216),
        n / 16_777_216 < 256,
{
    assert(n == (n % 256) + 256 * (n / 256 % 256) + 65_536 * (n / 65_536 % 256) + 16_777_216 * (n
        / 16_777_216)) by (bit_vector);
}

proof fn lemma_same_parts(
    a1: Seq<u8>,
    d1: Seq<u8>,
    t1: Seq<u8>,
    s1: Seq<u8>,
    a2: Seq<u8>,
    d2: Seq<u8>,
    t2: Seq<u8>,
    s2: Seq<u8>,
)
    requires
        !a1.contains(SEPARATOR),
        !a2.contains(SEPARATOR),
        !d1.contains(SEPARATOR),
        !d2.contains(SEPARATOR),
        s1.len() == 4,
        s2.len() == 4,
        a1.push(SEPARATOR) + d1.push(SEPARATOR) + t1.push(SEPARATOR) + s1 == a2.push(SEPARATOR)
            + d2.push(SEPARATOR) + t2.push(SEPARATOR) + s2,
    ensures
        a1 == a2,
        d1 == d2,
        t1 == t2,
        s1 == s2,
{
    let key = a1.push(SEPARATOR) + d1.push(SEPARATOR) + t1.push(SEPARATOR) + s1;
    let tail1 = t1.push(SEPARATOR) + s1;
    let tail2 = t2.push(SEPARATOR) + s2;
    let r1 = d1.push(SEPARATOR) + tail1;
    let r2 = d2.push(SEPARATOR) + tail2;
    assert(key =~= a1.push(SEPARATOR) + r1);
    assert(key =~= a2.push(SEPARATOR) + r2);
    lemma_same_field(a1, r1, a2, r2);
    lemma_same_field(d1, tail1, d2, tail2);
    let n = tail1.len() as int;
    assert(t1 =~= tail1.take(n - 5));
    assert(t2 =~= tail1.take(n - 5));
    assert(s1 =~= tail1.skip(n - 4));
    assert(s2 =~= tail1.skip(n - 4));
}

/// Whether the trip in row `trip` runs on a day and the stop time in row
/// `stop_time` is one of its own.
pub open spec fn is_call(schedule: Schedule, day: int, trip: int, stop_time: int) -> bool {
    let trips = schedule.feed().trips@;
    let stop_times = schedule.feed().stop_times@;
    &&& 0 <= trip < trips.len()
    &&& 0 <= stop_time < stop_times.len()
    &&& stop_times[stop_time].trip_id@ == trips[trip].trip_id@
    &&& schedule.days().contains_key(trips[trip].service_id@)
    &&& schedule.days()[trips[trip].service_id@].contains(day)
}

/// Whether a stop time says when its call is: both times can be read, and at
/// least one of them is there.
pub open spec fn has_time(stop_time: StopTimeRow) -> bool {
    match (
        time::time_reading(stop_time.arrival_time@),
        time::time_reading(stop_time.departure_time@),
    ) {
        (Ok(arrival), Ok(departure)) => arrival is Some || departure is Some,
        _ => false,
    }
}

/// Whether neither time of a stop time is there.
pub open spec fn has_no_time(stop_time: StopTimeRow) -> bool {
    &&& time::time_reading(stop_time.arrival_time@) == Ok::<Option<int>, ()>(None)
    &&& time::time_reading(stop_time.departure_time@) == Ok::<Option<int>, ()>(None)
}

/// Whether a time of a stop time cannot be read.
pub open spec fn has_bad_time(stop_time: StopTimeRow) -> bool {
    time::time_reading(stop_time.arrival_time@) is Err || time::time_reading(
        stop_time.departure_time@,
    ) is Err
}

/// Whether a stop time arrives a day or more after the start of its service
/// date, by its departure where it does not say when it arrives.
pub open spec fn arrives_next_day(stop_time: StopTimeRow) -> bool {
    match (
        time::time_reading(stop_time.arrival_time@),
        time::time_reading(stop_time.departure_time@),
    ) {
        (Ok(Some(arrival)), Ok(_)) => arrival >= 24 * 3600,
        (Ok(None), Ok(Some(departure))) => departure >= 24 * 3600,
        _ => false,
    }
}

/// The calls on a day are exactly the stop times of the trips that run, each
/// once: trips in feed order, along a trip by `stop_sequence`, and among equal
/// ones in the order of the file.
pub proof fn law_calls_on_a_day(schedule: Schedule, day: int)
    ensures
        forall|trip: int, stop_time: int| #[trigger]
            schedule.calls_on(day).contains((trip, stop_time)) <==> is_call(
                schedule,
                day,
                trip,
                stop_time,
            ),
        forall|i: int, j: int|
            #![trigger schedule.calls_on(day)[i], schedule.calls_on(day)[j]]
            0 <= i < j < schedule.calls_on(day).len() ==> {
                let stop_times = schedule.feed().stop_times@;
                let call = schedule.calls_on(day)[i];
                let later = schedule.calls_on(day)[j];
                let position = stop_times[call.1].stop_sequence;
                let later_position = stop_times[later.1].stop_sequence;
                ||| call.0 < later.0
                ||| call.0 == later.0 && position < later_position
                ||| call.0 == later.0 && position == later_position && call.1 < later.1
            },
{
    let trips = schedule.feed().trips@;
    let stop_times = schedule.feed().stop_times@;
    let days = schedule.days();
    let rows = running_trips(trips, days, day);
    assert forall|trip: int, stop_time: int| #[trigger]
        schedule.calls_on(day).contains((trip, stop_time)) <==> is_call(
            schedule,
            day,
            trip,
            stop_time,
        ) by {
        law_calls_are_complete(trips, stop_times, days, day, trip, stop_time);
    }
    lemma_running_trips(trips, days, day);
    lemma_strict_order(trips, stop_times, rows);
}

proof fn lemma_strict_order(trips: Seq<TripRow>, stop_times: Seq<StopTimeRow>, rows: Seq<int>)
    requires
        forall|i: int| 0 <= i < rows.len() ==> 0 <= #[trigger] rows[i] < trips.len(),
        forall|i: int, j: int|
            0 <= i < j < rows.len() ==> (#[trigger] rows[i]) < #[trigger] rows[j],
    ensures
        forall|i: int, j: int|
            #![trigger calls_of_trips(trips, stop_times, rows)[i], calls_of_trips(trips, stop_times, rows)[j]]
            0 <= i < j < calls_of_trips(trips, stop_times, rows).len() ==> {
                let call = calls_of_trips(trips, stop_times, rows)[i];
                let later = calls_of_trips(trips, stop_times, rows)[j];
                ||| call.0 < later.0
                ||| call.0 == later.0 && call.1 != later.1 && call_leq(
                    stop_times,
                    call.1,
                    later.1,
                )
            },
    decreases rows.len(),
{
    let calls = calls_of_trips(trips, stop_times, rows);
    if rows.len() > 0 {
        let before = rows.drop_last();
        let earlier = calls_of_trips(trips, stop_times, before);
        let own = trip_calls(stop_times, trips[rows.last()].trip_id@);
        lemma_strict_order(trips, stop_times, before);
        lemma_trip_call_rows(trips, stop_times, before);
        lemma_trip_calls(stop_times, trips[rows.last()].trip_id@);
        assert forall|i: int, j: int| 0 <= i < j < calls.len() implies {
            let call = #[trigger] calls[i];
            let later = #[trigger] calls[j];
            ||| call.0 < later.0
            ||| call.0 == later.0 && call.1 != later.1 && call_leq(stop_times, call.1, later.1)
        } by {
            if j < earlier.len() {
                assert(calls[i] == earlier[i] && calls[j] == earlier[j]);
            } else {
                assert(calls[j] == (rows.last(), own[j - earlier.len()]));
                if i < earlier.len() {
                    assert(calls[i] == earlier[i]);
                    let k = choose|k: int| 0 <= k < before.len() && before[k] == earlier[i].0;
                    assert(rows[k] < rows[rows.len() - 1]);
                } else {
                    assert(calls[i] == (rows.last(), own[i - earlier.len()]));
                    assert(call_leq(
                        stop_times,
                        own[i - earlier.len()],
                        own[j - earlier.len()],
                    ));
                }
            }
        }
    }
}

/// Whether an event tells of a call on a day: of its trip, its stop, its
/// position, and its times as they stand in the feed, counted from twelve hours
/// before local noon. One time stands for the other where that is blank, and a
/// vehicle that would depart before it arrives does not wait.
pub open spec fn tells_of(
    event: ScheduledEvent,
    agency: Agency,
    day: int,
    noon: int,
    trip: TripRow,
    stop_time: StopTimeRow,
) -> bool {
    let arrives = event.scheduled_arrival@ - (noon - 12 * 3600);
    let departs = event.scheduled_departure@ - (noon - 12 * 3600);
    let arrival = time::time_reading(stop_time.arrival_time@);
    let departure = time::time_reading(stop_time.departure_time@);
    &&& event.service_date@ == day
    &&& event.agency_id@ == agency.id@
    &&& event.trip_id@ == trip.trip_id@
    &&& event.route_id@ == trip.route_id@
    &&& event.direction_id == trip.direction_id
    &&& event.stop_id@ == stop_time.stop_id@
    &&& event.stop_sequence == stop_time.stop_sequence
    &&& event.route_key@ == agency.id@ + ":"@ + trip.route_id@
    &&& event.stop_key@ == agency.id@ + ":"@ + stop_time.stop_id@
    &&& event.event_id@ == event_id_of(
        agency.id@,
        day,
        trip.trip_id@,
        stop_time.stop_sequence,
    )
    &&& has_time(stop_time)
    &&& arrival matches Ok(Some(seconds)) ==> arrives == seconds
    &&& departure matches Ok(Some(seconds)) ==> departs == seconds
    &&& arrival == Ok::<Option<int>, ()>(None) ==> arrives == departs
    &&& departure == Ok::<Option<int>, ()>(None) ==> departs == arrives
    &&& departs >= arrives ==> event.dwell_seconds == departs - arrives
    &&& departs < arrives ==> event.dwell_seconds == 0
    &&& event.crosses_midnight <==> arrives >= 24 * 3600
}

/// The events on a day are the calls that say when they are, in the order of
/// calls, and each tells of its call. `calls` gives the number of each event's
/// call.
pub proof fn law_events_tell_of_their_calls(
    schedule: Schedule,
    day: int,
    noon: int,
    events: Seq<ScheduledEvent>,
) -> (calls: Seq<int>)
    requires
        event_views(events) == schedule.events_on(day, noon),
    ensures
        calls.len() == events.len(),
        forall|i: int, j: int|
            0 <= i < j < calls.len() ==> (#[trigger] calls[i]) < #[trigger] calls[j],
        forall|k: int| #[trigger]
            calls.contains(k) <==> 0 <= k < schedule.calls_on(day).len() && has_time(
                schedule.feed().stop_times@[schedule.calls_on(day)[k].1],
            ),
        forall|i: int|
            0 <= i < events.len() ==> tells_of(
                #[trigger] events[i],
                schedule.agency(),
                day,
                noon,
                schedule.feed().trips@[schedule.calls_on(day)[calls[i]].0],
                schedule.feed().stop_times@[schedule.calls_on(day)[calls[i]].1],
            ),
{
    let agency = schedule.agency();
    let trips = schedule.feed().trips@;
    let stop_times = schedule.feed().stop_times@;
    let pairs = schedule.calls_on(day);
    let calls = timed_positions(stop_times, pairs);
    let views = schedule.events_on(day, noon);
    lemma_timed_positions(stop_times, pairs);
    lemma_events_at_positions(agency.id@, day, noon, trips, stop_times, pairs);
    assert(event_views(events).len() == events.len());
    assert forall|i: int| 0 <= i < events.len() implies tells_of(
        #[trigger] events[i],
        agency,
        day,
        noon,
        trips[pairs[calls[i]].0],
        stop_times[pairs[calls[i]].1],
    ) by {
        assert(views[i] == events[i]@);
        assert(calls.contains(calls[i]));
        let stop_time = stop_times[pairs[calls[i]].1];
        assert(call_times(stop_time) is Timed);
    }
    calls
}

/// The numbers of the calls that say when they are.
spec fn timed_positions(stop_times: Seq<StopTimeRow>, calls: Seq<(int, int)>) -> Seq<int>
    decreases calls.len(),
{
    if calls.len() == 0 {
        Seq::empty()
    } else {
        let before = timed_positions(stop_times, calls.drop_last());
        if call_times(stop_times[calls.last().1]) is Timed {
            before.push(calls.len() - 1)
        } else {
            before
        }
    }
}

proof fn lemma_timed_positions(stop_times: Seq<StopTimeRow>, calls: Seq<(int, int)>)
    ensures
        forall|i: int, j: int|
            #![trigger timed_positions(stop_times, calls)[i], timed_positions(stop_times, calls)[j]]
            0 <= i < j < timed_positions(stop_times, calls).len() ==> timed_positions(
                stop_times,
                calls,
            )[i] < timed_positions(stop_times, calls)[j],
        forall|k: int| #[trigger]
            timed_positions(stop_times, calls).contains(k) <==> 0 <= k < calls.len() && call_times(
                stop_times[calls[k].1],
            ) is Timed,
    decreases calls.len(),
{
    let all = timed_positions(stop_times, calls);
    if calls.len() > 0 {
        let shorter = calls.drop_last();
        let before = timed_positions(stop_times, shorter);
        lemma_timed_positions(stop_times, shorter);
        assert forall|k: int| #[trigger]
            all.contains(k) <==> 0 <= k < calls.len() && call_times(stop_times[calls[k].1]) is Timed by {
            assert(before.contains(k) <==> 0 <= k < shorter.len() && call_times(
                stop_times[shorter[k].1],
            ) is Timed);
            if all.contains(k) {
                let i = choose|i: int| 0 <= i < all.len() && all[i] == k;
                assert(i < before.len() ==> before[i] == k);
            }
            if before.contains(k) {
                let i = choose|i: int| 0 <= i < before.len() && before[i] == k;
                assert(all[i] == k);
            }
            if k == shorter.len() && call_times(stop_times[calls[k].1]) is Timed {
                assert(all[before.len() as int] == k);
            }
        }
        assert forall|i: int, j: int| 0 <= i < j < all.len() implies (#[trigger] all[i])
            < #[trigger] all[j] by {
            assert(all[i] == before[i]);
            assert(before.contains(before[i]));
            assert(j < before.len() ==> all[j] == before[j]);
        }
    }
}

proof fn lemma_events_at_positions(
    agency: Seq<char>,
    day: int,
    noon: int,
    trips: Seq<TripRow>,
    stop_times: Seq<StopTimeRow>,
    calls: Seq<(int, int)>,
)
    ensures
        events_of(agency, day, noon, trips, stop_times, calls).len() == timed_positions(
            stop_times,
            calls,
        ).len(),
        forall|i: int|
            #![trigger timed_positions(stop_times, calls)[i]]
            0 <= i < timed_positions(stop_times, calls).len() ==> {
                let call = calls[timed_positions(stop_times, calls)[i]];
                call_times(stop_times[call.1]) matches CallTimes::Timed { arrival, departure }
                    && events_of(agency, day, noon, trips, stop_times, calls)[i] == event_of(
                    agency,
                    day,
                    noon,
                    trips[call.0],
                    stop_times[call.1],
                    arrival,
                    departure,
                )
            },
    decreases calls.len(),
{
    if calls.len() > 0 {
        let shorter = calls.drop_last();
        let all = timed_positions(stop_times, calls);
        let before = timed_positions(stop_times, shorter);
        lemma_events_at_positions(agency, day, noon, trips, stop_times, shorter);
        lemma_timed_positions(stop_times, shorter);
        let events = events_of(agency, day, noon, trips, stop_times, calls);
        let earlier = events_of(agency, day, noon, trips, stop_times, shorter);
        assert forall|i: int| 0 <= i < all.len() implies {
            let call = calls[#[trigger] all[i]];
            call_times(stop_times[call.1]) matches CallTimes::Timed { arrival, departure }
                && events[i] == event_of(
                agency,
                day,
                noon,
                trips[call.0],
                stop_times[call.1],
                arrival,
                departure,
            )
        } by {
            if i < before.len() {
                assert(all[i] == before[i]);
                assert(before.contains(before[i]));
                assert(shorter[before[i]] == calls[before[i]]);
                assert(events[i] == earlier[i]);
            }
        }
    }
}

/// The instants of an event are as far apart as the times of its call, whatever
/// hours those have: a call that departs no earlier than it arrives has an event
/// that does, and the two instants differ by the dwell.
pub proof fn law_instants_are_as_far_apart_as_times(
    schedule: Schedule,
    day: int,
    noon: int,
    events: Seq<ScheduledEvent>,
    i: int,
) -> (k: int)
    requires
        event_views(events) == schedule.events_on(day, noon),
        0 <= i < events.len(),
    ensures
        0 <= k < schedule.calls_on(day).len(),
        ({
            let stop_time = schedule.feed().stop_times@[schedule.calls_on(day)[k].1];
            let apart = events[i].scheduled_departure@ - events[i].scheduled_arrival@;
            &&& events[i].stop_sequence == stop_time.stop_sequence
            &&& events[i].trip_id@ == stop_time.trip_id@
            &&& match (
                time::time_reading(stop_time.arrival_time@),
                time::time_reading(stop_time.departure_time@),
            ) {
                (Ok(Some(arrival)), Ok(Some(departure))) => {
                    &&& apart == departure - arrival
                    &&& arrival <= departure ==> events[i].scheduled_arrival@
                        <= events[i].scheduled_departure@
                },
                (Ok(Some(_)), Ok(None)) => apart == 0,
                (Ok(None), Ok(Some(_))) => apart == 0,
                _ => false,
            }
            &&& apart >= 0 ==> apart == events[i].dwell_seconds
        }),
{
    let calls = law_events_tell_of_their_calls(schedule, day, noon, events);
    assert(calls.contains(calls[i]));
    lemma_call_rows(
        schedule.feed().trips@,
        schedule.feed().stop_times@,
        schedule.days(),
        day,
    );
    assert(tells_of(
        events[i],
        schedule.agency(),
        day,
        noon,
        schedule.feed().trips@[schedule.calls_on(day)[calls[i]].0],
        schedule.feed().stop_times@[schedule.calls_on(day)[calls[i]].1],
    ));
    assert(schedule.calls_on(day)[calls[i]] == schedule.calls_on(day)[calls[i]]);
    calls[i]
}

/// Where noon is only moves the instants: events resolved from another noon are
/// the same events, each of their instants as much later as that noon is.
pub proof fn law_events_move_with_noon(
    schedule: Schedule,
    day: int,
    noon: int,
    other_noon: int,
    events: Seq<ScheduledEvent>,
    others: Seq<ScheduledEvent>,
    i: int,
)
    requires
        event_views(events) == schedule.events_on(day, noon),
        event_views(others) == schedule.events_on(day, other_noon),
        0 <= i < events.len(),
    ensures
        events.len() == others.len(),
        others[i].scheduled_arrival@ - events[i].scheduled_arrival@ == other_noon - noon,
        others[i].scheduled_departure@ - events[i].scheduled_departure@ == other_noon - noon,
        others[i].event_id@ == events[i].event_id@,
        others[i].trip_id@ == events[i].trip_id@,
        others[i].stop_sequence == events[i].stop_sequence,
        others[i].dwell_seconds == events[i].dwell_seconds,
        others[i].crosses_midnight == events[i].crosses_midnight,
{
    let stop_times = schedule.feed().stop_times@;
    let trips = schedule.feed().trips@;
    let pairs = schedule.calls_on(day);
    let agency = schedule.agency().id@;
    lemma_events_at_positions(agency, day, noon, trips, stop_times, pairs);
    lemma_events_at_positions(agency, day, other_noon, trips, stop_times, pairs);
    assert(event_views(events).len() == events.len());
    assert(event_views(others).len() == others.len());
    assert(event_views(events)[i] == events[i]@);
    assert(event_views(others)[i] == others[i]@);
    let call = pairs[timed_positions(stop_times, pairs)[i]];
    assert(call_times(stop_times[call.1]) is Timed);
}

/// The counts of a day: how many of its calls have a time that cannot be read,
/// how many have none, and how many arrive on the day after, and how many of
/// the trips that run have calls at all.
pub proof fn law_stats_count_the_calls(schedule: Schedule, day: int, stats: Stats)
    requires
        schedule.counts(day, stats),
    ensures
        ({
            let trips = schedule.feed().trips@;
            let stop_times = schedule.feed().stop_times@;
            let calls = schedule.calls_on(day);
            &&& stats.malformed_times == calls.filter(
                |call: (int, int)| has_bad_time(stop_times[call.1]),
            ).len()
            &&& stats.untimed_stop_times == calls.filter(
                |call: (int, int)| has_no_time(stop_times[call.1]),
            ).len()
            &&& stats.crossing_midnight == calls.filter(
                |call: (int, int)| arrives_next_day(stop_times[call.1]),
            ).len()
            &&& stats.trips == Seq::new(trips.len(), |row: int| row).filter(
                |row: int| exists|k: int| #[trigger] is_call(schedule, day, row, k),
            ).len()
        }),
{
    let trips = schedule.feed().trips@;
    let stop_times = schedule.feed().stop_times@;
    lemma_counts_are_filters(stop_times, schedule.calls_on(day));
    lemma_trip_count(schedule, day, trips.len());
    assert(trips.take(trips.len() as int) =~= trips);
}

proof fn lemma_counts_are_filters(stop_times: Seq<StopTimeRow>, calls: Seq<(int, int)>)
    ensures
        malformed_calls(stop_times, calls) == calls.filter(
            |call: (int, int)| has_bad_time(stop_times[call.1]),
        ).len(),
        untimed_calls(stop_times, calls) == calls.filter(
            |call: (int, int)| has_no_time(stop_times[call.1]),
        ).len(),
        crossing_calls(stop_times, calls) == calls.filter(
            |call: (int, int)| arrives_next_day(stop_times[call.1]),
        ).len(),
    decreases calls.len(),
{
    reveal(Seq::filter);
    if calls.len() > 0 {
        lemma_counts_are_filters(stop_times, calls.drop_last());
    }
}

proof fn lemma_trip_count(schedule: Schedule, day: int, n: nat)
    requires
        n <= schedule.feed().trips@.len(),
    ensures
        trips_with_calls(
            schedule.feed().trips@,
            schedule.feed().stop_times@,
            running_trips(schedule.feed().trips@.take(n as int), schedule.days(), day),
        ) == Seq::new(n, |row: int| row).filter(
            |row: int| exists|k: int| #[trigger] is_call(schedule, day, row, k),
        ).len(),
    decreases n,
{
    reveal(Seq::filter);
    let trips = schedule.feed().trips@;
    let stop_times = schedule.feed().stop_times@;
    let numbers = Seq::new(n, |row: int| row);
    if n > 0 {
        let m = (n - 1) as nat;
        let row = n - 1;
        lemma_trip_count(schedule, day, m);
        assert(numbers.drop_last() =~= Seq::new(m, |row: int| row));
        assert(trips.take(n as int).drop_last() =~= trips.take(m as int));
        assert(trips.take(n as int).last() == trips[row]);
        let before = running_trips(trips.take(m as int), schedule.days(), day);
        let all = running_trips(trips.take(n as int), schedule.days(), day);
        let own = trip_calls(stop_times, trips[row].trip_id@);
        lemma_trip_calls(stop_times, trips[row].trip_id@);
        if own.len() > 0 {
            assert(own.contains(own[0]));
            if calendar::runs(schedule.days(), trips[row].service_id@, day) {
                assert(is_call(schedule, day, row, own[0]));
            }
        }
        if exists|k: int| #[trigger] is_call(schedule, day, row, k) {
            let k = choose|k: int| #[trigger] is_call(schedule, day, row, k);
            assert(own.contains(k));
        }
        if calendar::runs(schedule.days(), trips[row].service_id@, day) {
            assert(all == before.push(row));
            assert(all.drop_last() =~= before);
        }
    }
}

/// A date needs its local noon exactly when one of its calls says when it is.
pub proof fn law_noon_is_needed_for_times(schedule: Schedule, day: int)
    ensures
        any_timed(schedule.feed().stop_times@, schedule.calls_on(day)) <==> exists|
            trip: int,
            stop_time: int,
        | #[trigger]
            is_call(schedule, day, trip, stop_time) && has_time(
                schedule.feed().stop_times@[stop_time],
            ),
{
    let stop_times = schedule.feed().stop_times@;
    let calls = schedule.calls_on(day);
    law_calls_on_a_day(schedule, day);
    if any_timed(stop_times, calls) {
        let i = choose|i: int|
            0 <= i < calls.len() && call_times(stop_times[(#[trigger] calls[i]).1]) is Timed;
        assert(calls.contains((calls[i].0, calls[i].1)));
        assert(is_call(schedule, day, calls[i].0, calls[i].1));
    }
    if exists|trip: int, stop_time: int| #[trigger]
        is_call(schedule, day, trip, stop_time) && has_time(stop_times[stop_time]) {
        let (trip, stop_time) = choose|trip: int, stop_time: int| #[trigger]
            is_call(schedule, day, trip, stop_time) && has_time(stop_times[stop_time]);
        assert(calls.contains((trip, stop_time)));
        let i = choose|i: int| 0 <= i < calls.len() && calls[i] == (trip, stop_time);
        assert(call_times(stop_times[calls[i].1]) is Timed);
    }
}

/// The rollovers of a feed are its stop times whose arrival can be read and is
/// 24:00:00 or later.
pub proof fn law_rollovers_arrive_the_next_day(stop_times: Seq<StopTimeRow>)
    ensures
        rolled_over(stop_times) == stop_times.filter(
            |stop_time: StopTimeRow|
                time::time_reading(stop_time.arrival_time@) matches Ok(Some(seconds)) && seconds
                    >= 24 * 3600,
        ).len(),
    decreases stop_times.len(),
{
    reveal(Seq::filter);
    if stop_times.len() > 0 {
        law_rollovers_arrive_the_next_day(stop_times.drop_last());
    }
}

/// An event's identifier is the hash, in sixteen hexadecimal digits, of the
/// agency, the service date, the trip, each followed by a separator byte, and
/// the four bytes of the position, of which the first is the least significant.
pub proof fn law_event_ids_hash_their_parts(
    agency: Seq<char>,
    day: int,
    trip: Seq<char>,
    sequence: u32,
    bytes: Seq<u8>,
    position: Seq<u8>,
)
    requires
        position.len() == 4,
        position[0] + 256 * position[1] + 65_536 * position[2] + 16_777_216 * position[3]
            == sequence,
        bytes == encode_utf8(agency) + seq![0x1fu8] + encode_utf8(date::day_text(day)) + seq![
            0x1fu8,
        ] + encode_utf8(trip) + seq![0x1fu8] + position,
    ensures
        event_id_of(agency, day, trip, sequence) == text::hex(fnv::hash_of(bytes) as nat, 16),
{
    lemma_bytes_make_number(sequence);
    assert(position =~= little_endian(sequence)) by {
        let p0 = position[0] as int;
        let p1 = position[1] as int;
        let p2 = position[2] as int;
        let p3 = position[3] as int;
        let n = sequence as int;
        assert(n % 256 == p0 && n / 256 == p1 + 256 * p2 + 65_536 * p3);
        assert(n / 256 % 256 == p1);
        assert(n / 65_536 == p2 + 256 * p3);
        assert(n / 65_536 % 256 == p2);
        assert(n / 16_777_216 == p3);
    }
    assert(bytes =~= event_key(agency, day, trip, sequence));
}

} // verus!
