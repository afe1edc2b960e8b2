//! Row types for the GTFS static files.
//!
//! Every field that is not load-bearing is an `Option`, because feeds do not
//! agree on which columns exist. The identifier a row is keyed by is not: a
//! `stop_times.txt` row with no `trip_id` is a corrupt archive.

use vstd::prelude::*;

verus! {

/// `agency.txt`. GTFS lets `agency_id` be omitted when a feed has exactly one
/// agency.
#[derive(Debug, Clone, PartialEq, Eq)]
pub struct AgencyRow {
    pub agency_id: Option<String>,
    pub agency_name: String,
    pub agency_timezone: String,
}

/// `routes.txt`.
#[derive(Debug, Clone, PartialEq, Eq)]
pub struct RouteRow {
    pub route_id: String,
    pub agency_id: Option<String>,
    pub route_short_name: Option<String>,
    pub route_long_name: Option<String>,
    /// GTFS route type: 0 tram, 1 subway, 2 rail, 3 bus, ...
    pub route_type: i32,
    pub route_color: Option<String>,
}

/// `stops.txt`. Coordinates are the bit patterns of IEEE 754 doubles, carried
/// through unread.
#[derive(Debug, Clone, PartialEq, Eq)]
pub struct StopRow {
    pub stop_id: String,
    pub stop_name: Option<String>,
    pub stop_lat: Option<u64>,
    pub stop_lon: Option<u64>,
    /// 0 or absent = platform/stop, 1 = station.
    pub location_type: Option<i32>,
    pub parent_station: Option<String>,
}

/// `trips.txt`.
#[derive(Debug, Clone, PartialEq, Eq)]
pub struct TripRow {
    pub trip_id: String,
    pub route_id: String,
    pub service_id: String,
    pub trip_headsign: Option<String>,
    pub direction_id: Option<i32>,
}

/// `stop_times.txt`. Times stay as text here and are read in a later pass, so
/// that a malformed time does not spoil the rest of the feed.
#[derive(Debug, Clone, PartialEq, Eq)]
pub struct StopTimeRow {
    pub trip_id: String,
    pub stop_id: String,
    pub arrival_time: String,
    pub departure_time: String,
    pub stop_sequence: u32,
}

/// `calendar.txt`.
#[derive(Debug, Clone, PartialEq, Eq)]
pub struct CalendarRow {
    pub service_id: String,
    pub monday: u8,
    pub tuesday: u8,
    pub wednesday: u8,
    pub thursday: u8,
    pub friday: u8,
    pub saturday: u8,
    pub sunday: u8,
    pub start_date: String,
    pub end_date: String,
}

/// `calendar_dates.txt`. `exception_type` 1 adds service, 2 removes it.
#[derive(Debug, Clone, PartialEq, Eq)]
pub struct CalendarDateRow {
    pub service_id: String,
    pub date: String,
    pub exception_type: u8,
}

/// A text that may be absent, as a specification value.
pub open spec fn opt_text(value: Option<String>) -> Option<Seq<char>> {
    match value {
        Some(s) => Some(s@),
        None => None,
    }
}

/// A present-but-empty field is absence.
pub open spec fn present(value: Option<String>) -> Option<Seq<char>> {
    match value {
        Some(s) if s@.len() > 0 => Some(s@),
        _ => None,
    }
}

/// The id of every trip.
pub open spec fn trip_ids(trips: Seq<TripRow>) -> Seq<Seq<char>> {
    trips.map_values(|trip: TripRow| trip.trip_id@)
}

/// The service of every trip.
pub open spec fn trip_services(trips: Seq<TripRow>) -> Seq<Seq<char>> {
    trips.map_values(|trip: TripRow| trip.service_id@)
}

/// The trip of every stop time.
pub open spec fn stop_time_trips(stop_times: Seq<StopTimeRow>) -> Seq<Seq<char>> {
    stop_times.map_values(|stop_time: StopTimeRow| stop_time.trip_id@)
}

/// The view of a [`StopTimeRow`].
#[verifier::ext_equal]
pub struct StopTimeView {
    pub trip_id: Seq<char>,
    pub stop_id: Seq<char>,
    pub arrival_time: Seq<char>,
    pub departure_time: Seq<char>,
    pub stop_sequence: u32,
}

impl View for StopTimeRow {
    type V = StopTimeView;

    open spec fn view(&self) -> StopTimeView {
        StopTimeView {
            trip_id: self.trip_id@,
            stop_id: self.stop_id@,
            arrival_time: self.arrival_time@,
            departure_time: self.departure_time@,
            stop_sequence: self.stop_sequence,
        }
    }
}

/// The views of a list of stop times.
pub open spec fn stop_time_views(stop_times: Seq<StopTimeRow>) -> Seq<StopTimeView> {
    stop_times.map_values(|stop_time: StopTimeRow| stop_time@)
}

/// The text of a field, unless it is absent or empty: a producer that writes an
/// empty field rather than omitting it means the same thing.
pub fn non_empty(value: &Option<String>) -> (r: Option<&str>)
    ensures
        match r {
            Some(s) => present(*value) == Some(s@),
            None => present(*value) is None,
        },
{
    match value {
        Some(s) => {
            if s.as_str().unicode_len() == 0 {
                None
            } else {
                Some(s.as_str())
            }
        },
        None => None,
    }
}

impl RouteRow {
    /// What a rider would call the route: the short name, else the long name,
    /// else the id.
    pub open spec fn label(self) -> Seq<char> {
        match (present(self.route_short_name), present(self.route_long_name)) {
            (Some(short), _) => short,
            (None, Some(long)) => long,
            (None, None) => self.route_id@,
        }
    }

    /// What a rider would call this route. Never absent: where a feed names
    /// nothing, the id stands in.
    pub fn display_name(&self) -> (r: &str)
        ensures
            r@ == self.label(),
    {
        match non_empty(&self.route_short_name) {
            Some(short) => short,
            None => match non_empty(&self.route_long_name) {
                Some(long) => long,
                None => self.route_id.as_str(),
            },
        }
    }
}

impl StopRow {
    /// Whether the stop is a station.
    pub fn is_station(&self) -> (r: bool)
        ensures
            r == (self.location_type == Some(1i32)),
    {
        match self.location_type {
            Some(kind) => kind == 1,
            None => false,
        }
    }
}

impl CalendarRow {
    /// The flag of a weekday, counted from Monday; 0 for a number that is no
    /// weekday.
    pub open spec fn flag(self, days_from_monday: int) -> int {
        if days_from_monday == 0 {
            self.monday as int
        } else if days_from_monday == 1 {
            self.tuesday as int
        } else if days_from_monday == 2 {
            self.wednesday as int
        } else if days_from_monday == 3 {
            self.thursday as int
        } else if days_from_monday == 4 {
            self.friday as int
        } else if days_from_monday == 5 {
            self.saturday as int
        } else if days_from_monday == 6 {
            self.sunday as int
        } else {
            0
        }
    }

    /// Whether the service runs on a weekday, counted from Monday.
    pub fn runs_on_weekday(&self, days_from_monday: u32) -> (r: bool)
        ensures
            r == (self.flag(days_from_monday as int) == 1),
    {
        if days_from_monday == 0 {
            self.monday == 1
        } else if days_from_monday == 1 {
            self.tuesday == 1
        } else if days_from_monday == 2 {
            self.wednesday == 1
        } else if days_from_monday == 3 {
            self.thursday == 1
        } else if days_from_monday == 4 {
            self.friday == 1
        } else if days_from_monday == 5 {
            self.saturday == 1
        } else if days_from_monday == 6 {
            self.sunday == 1
        } else {
            false
        }
    }
}

impl CalendarDateRow {
    /// Whether the row adds a day of service.
    pub fn adds_service(&self) -> (r: bool)
        ensures
            r == (self.exception_type == 1),
    {
        self.exception_type == 1
    }
}

} // verus!
