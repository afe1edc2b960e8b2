//! Laying out a whole agency's dataset, partitioned by service date.
//!
//! The layout is Hive-style:
//!
//! ```text
//! <data-dir>/parquet/
//!   scheduled_events/service_date=2026-04-01/MTA_NYCT.parquet
//!   scheduled_events/service_date=2026-04-02/MTA_NYCT.parquet
//!   routes/MTA_NYCT.parquet
//!   stops/MTA_NYCT.parquet
//! ```
//!
//! Readers take the directory name for a partition column and prune on it. One
//! file per agency per date, because feeds are ingested independently: doing
//! one again must not rewrite a file that also holds another's rows.

use vstd::prelude::*;

use crate::config::Agency;
use crate::dataset::columns;
use crate::dataset::columns::{Batch, ColumnView};
use crate::dataset::dimensions;
use crate::dataset::facts;
use crate::date;
use crate::date::Date;
use crate::date_set;
use crate::error::{Error, ErrorView, FeedErrorView};
use crate::gtfs::archive::StaticFeed;
use crate::gtfs::calendar;
use crate::gtfs::records::StopTimeRow;
use crate::gtfs::time;
use crate::path;
use crate::schedule;
use crate::schedule::{Schedule, ScheduledEvent, Stats};
use crate::sort;
use crate::zone;

verus! {

// ---------------------------------------------------------------------------
// Where things go
// ---------------------------------------------------------------------------

/// The directory of the dataset under a data directory.
pub open spec fn dataset_root(data_dir: Seq<char>) -> Seq<char> {
    path::within(data_dir, "parquet"@)
}

/// The directory of one service date.
pub open spec fn partition_dir(root: Seq<char>, day: int) -> Seq<char> {
    path::within(
        path::within(root, "scheduled_events"@),
        "service_date="@ + date::day_text(day),
    )
}

/// The file of one agency and one service date.
pub open spec fn partition_file(root: Seq<char>, day: int, agency: Seq<char>) -> Seq<char> {
    path::within(partition_dir(root, day), agency + ".parquet"@)
}

/// The file of one agency's rows of a dimension table.
pub open spec fn dimension_file(root: Seq<char>, table: Seq<char>, agency: Seq<char>) -> Seq<char> {
    path::within(path::within(root, table), agency + ".parquet"@)
}

/// Where each table lives under a data directory.
#[derive(Debug, Clone, PartialEq, Eq)]
pub struct Layout {
    root: String,
}

impl View for Layout {
    type V = Seq<char>;

    closed spec fn view(&self) -> Seq<char> {
        self.root@
    }
}

impl Layout {
    /// The layout under a data directory.
    pub fn new(data_dir: &str) -> (r: Layout)
        ensures
            r@ == dataset_root(data_dir@),
    {
        Layout { root: path::join(data_dir, "parquet") }
    }

    /// The directory of the dataset.
    pub fn root(&self) -> (r: &str)
        ensures
            r@ == self@,
    {
        self.root.as_str()
    }

    /// One agency's slice of one service date.
    pub fn fact_partition(&self, service_date: Date, agency_id: &str) -> (r: String)
        ensures
            r@ == partition_file(self@, service_date@, agency_id@),
    {
        let mut directory: String = "service_date=".to_string();
        directory.append(service_date.to_text().as_str());
        let mut file: String = agency_id.to_string();
        file.append(".parquet");
        let table: String = path::join(self.root.as_str(), "scheduled_events");
        path::join(path::join(table.as_str(), directory.as_str()).as_str(), file.as_str())
    }

    /// One agency's rows of a dimension table.
    pub fn dimension(&self, table: &str, agency_id: &str) -> (r: String)
        ensures
            r@ == dimension_file(self@, table@, agency_id@),
    {
        let mut file: String = agency_id.to_string();
        file.append(".parquet");
        path::join(path::join(self.root.as_str(), table).as_str(), file.as_str())
    }
}

// ---------------------------------------------------------------------------
// What a build comes to
// ---------------------------------------------------------------------------

/// What a build produced.
#[derive(Debug, Clone, PartialEq, Eq)]
pub struct Summary {
    pub agency_id: String,
    /// Dates that produced at least one event, and so at least one file.
    pub dates_written: usize,
    /// Dates in range with service defined but nothing to emit. Usually trips
    /// were retired while their calendar was left behind.
    pub dates_empty: usize,
    pub events: usize,
    pub trips: usize,
    pub untimed_stop_times: usize,
    pub crossing_midnight: usize,
    pub routes: usize,
    pub stops: usize,
    pub first_date: Option<Date>,
    pub last_date: Option<Date>,
}

/// The counts of a summary.
pub struct Tally {
    pub dates_written: nat,
    pub dates_empty: nat,
    pub events: nat,
    pub trips: nat,
    pub untimed_stop_times: nat,
    pub crossing_midnight: nat,
}

/// The number of events on a day: the calls that are neither malformed nor
/// untimed.
pub open spec fn event_count(schedule: Schedule, day: int) -> int {
    let calls = schedule.calls_on(day);
    let stop_times = schedule.feed().stop_times@;
    calls.len() - schedule::malformed_calls(stop_times, calls) - schedule::untimed_calls(
        stop_times,
        calls,
    )
}

/// The counts over a list of days.
pub open spec fn tally(schedule: Schedule, days: Seq<int>) -> Tally
    decreases days.len(),
{
    if days.len() == 0 {
        Tally {
            dates_written: 0,
            dates_empty: 0,
            events: 0,
            trips: 0,
            untimed_stop_times: 0,
            crossing_midnight: 0,
        }
    } else {
        let before = tally(schedule, days.drop_last());
        let day = days.last();
        let trips = schedule.feed().trips@;
        let stop_times = schedule.feed().stop_times@;
        let calls = schedule.calls_on(day);
        let events = event_count(schedule, day);
        Tally {
            dates_written: before.dates_written + if events > 0 {
                1nat
            } else {
                0nat
            },
            dates_empty: before.dates_empty + if events > 0 {
                0nat
            } else {
                1nat
            },
            events: (before.events + events) as nat,
            trips: before.trips + schedule::resolved_trips(
                trips,
                stop_times,
                schedule.days(),
                day,
            ),
            untimed_stop_times: before.untimed_stop_times + schedule::untimed_calls(
                stop_times,
                calls,
            ),
            crossing_midnight: before.crossing_midnight + schedule::crossing_calls(
                stop_times,
                calls,
            ),
        }
    }
}

/// Whether a summary has the counts of a tally.
pub open spec fn summarises(summary: Summary, counts: Tally) -> bool {
    &&& summary.dates_written == counts.dates_written
    &&& summary.dates_empty == counts.dates_empty
    &&& summary.events == counts.events
    &&& summary.trips == counts.trips
    &&& summary.untimed_stop_times == counts.untimed_stop_times
    &&& summary.crossing_midnight == counts.crossing_midnight
}

/// Whether a day lies in an inclusive range, or there is no range.
pub open spec fn in_range(range: Option<(Date, Date)>, day: int) -> bool {
    match range {
        Some((from, to)) => from@ <= day <= to@,
        None => true,
    }
}

/// Whether `days` are the days of service in a range, ascending.
pub open spec fn selects(
    days: Seq<int>,
    calendar: Map<Seq<char>, Set<int>>,
    range: Option<(Date, Date)>,
) -> bool {
    &&& date_set::ascending(days)
    &&& forall|day: int| #[trigger]
        days.contains(day) <==> calendar::active_days(calendar).contains(day) && in_range(
            range,
            day,
        )
}

/// The days of service of a schedule in an inclusive range, ascending.
pub fn dates_in_range(schedule: &Schedule, range: Option<(Date, Date)>) -> (r: Vec<Date>)
    ensures
        selects(date_set::days_of(r@), schedule.days(), range),
{
    let all: Vec<Date> = schedule.service_dates();
    let ghost days = date_set::days_of(all@);
    let mut r: Vec<Date> = Vec::new();
    let mut i: usize = 0;
    while i < all.len()
        invariant
            i <= all@.len(),
            days == date_set::days_of(all@),
            date_set::ascending(days),
            date_set::ascending(date_set::days_of(r@)),
            forall|k: int| 0 <= k < r@.len() && i < days.len() ==> (#[trigger] r@[k])@ < days[i as int],
            forall|day: int| #[trigger]
                date_set::days_of(r@).contains(day) <==> days.take(i as int).contains(day)
                    && in_range(range, day),
        decreases all@.len() - i,
    {
        let ghost before = r@;
        let day: i32 = all[i].day();
        assert(days[i as int] == day);
        let chosen: bool = match range {
            Some((from, to)) => from.day() <= day && day <= to.day(),
            None => true,
        };
        if chosen {
            r.push(all[i]);
        }
        proof {
            let shorter = days.take(i as int);
            let longer = days.take(i + 1);
            let old_days = date_set::days_of(before);
            let new_days = date_set::days_of(r@);
            if chosen {
                assert(new_days =~= old_days.push(day as int));
            } else {
                assert(new_days =~= old_days);
            }
            assert forall|k: int| 0 <= k < before.len() implies old_days[k] < day by {
                assert(old_days[k] == before[k]@);
            }
            assert(date_set::ascending(new_days)) by {
                assert forall|a: int, b: int| 0 <= a < b < new_days.len() implies new_days[a]
                    < new_days[b] by {
                    if b < old_days.len() {
                        assert(old_days[a] < old_days[b]);
                    } else {
                        assert(new_days[a] == old_days[a]);
                    }
                }
            }
            assert forall|x: int| #[trigger]
                new_days.contains(x) <==> longer.contains(x) && in_range(range, x) by {
                if shorter.contains(x) {
                    let k = choose|k: int| 0 <= k < shorter.len() && shorter[k] == x;
                    assert(longer[k] == x);
                }
                assert(longer[i as int] == day);
                if longer.contains(x) {
                    let k = choose|k: int| 0 <= k < longer.len() && longer[k] == x;
                    if k < i {
                        assert(shorter[k] == x);
                    }
                }
                if old_days.contains(x) {
                    let k = choose|k: int| 0 <= k < old_days.len() && old_days[k] == x;
                    assert(new_days[k] == x);
                }
                if chosen {
                    assert(new_days[old_days.len() as int] == day);
                }
                if new_days.contains(x) {
                    let k = choose|k: int| 0 <= k < new_days.len() && new_days[k] == x;
                    if k < old_days.len() {
                        assert(old_days[k] == x);
                    }
                }
            }
            assert forall|k: int| 0 <= k < r@.len() && i + 1 < days.len() implies (
            #[trigger] r@[k])@ < days[i + 1] by {
                assert(days[i as int] < days[i + 1]);
                if k < before.len() {
                    assert(r@[k] == before[k]);
                }
            }
        }
        i = i + 1;
    }
    proof {
        assert(days.take(days.len() as int) =~= days);
        assert forall|day: int| #[trigger]
            date_set::days_of(r@).contains(day) <==> calendar::active_days(
                schedule.days(),
            ).contains(day) && in_range(range, day) by {
            assert(days.to_set().contains(day) <==> days.contains(day));
        }
    }
    r
}

// ---------------------------------------------------------------------------
// Building
// ---------------------------------------------------------------------------

/// A build under way: one service date after the other is resolved, handed out
/// to be written, and counted.
pub struct Build<'a> {
    schedule: Schedule<'a>,
    layout: Layout,
    dates: Vec<Date>,
    done: usize,
    summary: Summary,
}

/// What became of one service date.
pub enum Step {
    /// There are no more dates.
    Finished,
    /// The date has no events. An empty partition is a file that every reader
    /// must open to learn that it has nothing, so none is written.
    Empty,
    /// The date has events, which go to a file at `path`.
    Partition { path: String, events: Vec<ScheduledEvent> },
}

impl<'a> Build<'a> {
    /// The schedule that is resolved.
    pub closed spec fn schedule(self) -> Schedule<'a> {
        self.schedule
    }

    /// The directory of the dataset.
    pub closed spec fn root(self) -> Seq<char> {
        self.layout@
    }

    /// The service dates to write, ascending.
    pub closed spec fn days(self) -> Seq<int> {
        date_set::days_of(self.dates@)
    }

    /// How many dates are done.
    pub closed spec fn done(self) -> int {
        self.done as int
    }

    /// What the build comes to so far.
    pub closed spec fn so_far(self) -> Summary {
        self.summary
    }

    /// What holds of a build between steps: the summary counts the dates that
    /// are done.
    pub open spec fn well_formed(self) -> bool {
        &&& 0 <= self.done() <= self.days().len()
        &&& self.days().len() <= usize::MAX
        &&& summarises(self.so_far(), tally(self.schedule(), self.days().take(self.done())))
        &&& date_set::ascending(self.days())
    }

    /// What stays the same from step to step.
    pub open spec fn continues(self, before: Build<'a>) -> bool {
        &&& self.schedule() == before.schedule()
        &&& self.root() == before.root()
        &&& self.days() == before.days()
        &&& self.so_far().agency_id == before.so_far().agency_id
        &&& self.so_far().routes == before.so_far().routes
        &&& self.so_far().stops == before.so_far().stops
        &&& self.so_far().first_date == before.so_far().first_date
        &&& self.so_far().last_date == before.so_far().last_date
    }

    /// Whether the counts of the next date can be added to the summary.
    pub open spec fn has_room(self) -> bool {
        self.done() < self.days().len() ==> {
            let calls = self.schedule().calls_on(self.days()[self.done()]).len();
            &&& self.so_far().events + calls <= usize::MAX
            &&& self.so_far().trips + calls <= usize::MAX
            &&& self.so_far().untimed_stop_times + calls <= usize::MAX
            &&& self.so_far().crossing_midnight + calls <= usize::MAX
        }
    }

    /// Starts a build of `feed` under `data_dir`. `range` restricts it to an
    /// inclusive window; `None` takes everything that the calendar covers.
    pub fn begin(
        feed: &'a StaticFeed,
        agency: &'a Agency,
        data_dir: &str,
        range: Option<(Date, Date)>,
    ) -> (r: Result<Build<'a>, Error>)
        ensures
            match r {
                Ok(build) => {
                    &&& zone::timezone_known(agency.timezone@)
                    &&& calendar::feed_calendar_fault(
                        feed.calendar@,
                        feed.calendar_dates@,
                    ) is None
                    &&& build.schedule().agency() == *agency
                    &&& build.schedule().feed() == *feed
                    &&& build.schedule().timezone() == agency.timezone@
                    &&& build.schedule().days() == calendar::feed_expansion(
                        feed.calendar@,
                        feed.calendar_dates@,
                    )
                    &&& starts(build, data_dir@, range)
                },
                Err(e) => if !zone::timezone_known(agency.timezone@) {
                    e@ == ErrorView::Config(crate::config::unknown_timezone(*agency))
                } else {
                    e@ matches ErrorView::Feed(fault) && calendar::feed_calendar_fault(
                        feed.calendar@,
                        feed.calendar_dates@,
                    ) == Some(fault)
                },
            },
    {
        match Schedule::index(feed, agency) {
            Ok(schedule) => Ok(Build::begin_with(schedule, data_dir, range)),
            Err(e) => Err(e),
        }
    }

    /// Starts a build of a schedule.
    pub fn begin_with(schedule: Schedule<'a>, data_dir: &str, range: Option<(Date, Date)>) -> (r:
        Build<'a>)
        ensures
            r.schedule() == schedule,
            starts(r, data_dir@, range),
    {
        let layout: Layout = Layout::new(data_dir);
        let dates: Vec<Date> = dates_in_range(&schedule, range);
        let (routes, stops) = schedule.dimension_sizes();
        let first_date: Option<Date> = if dates.len() > 0 {
            Some(dates[0])
        } else {
            None
        };
        let last_date: Option<Date> = if dates.len() > 0 {
            Some(dates[dates.len() - 1])
        } else {
            None
        };
        let summary: Summary = Summary {
            agency_id: schedule.agency_id().to_string(),
            dates_written: 0,
            dates_empty: 0,
            events: 0,
            trips: 0,
            untimed_stop_times: 0,
            crossing_midnight: 0,
            routes,
            stops,
            first_date,
            last_date,
        };
        assert(date_set::days_of(dates@).take(0) =~= Seq::<int>::empty());
        Build { schedule, layout, dates, done: 0, summary }
    }

    /// Whether the counts of the next date can be added to the summary.
    pub fn fits(&self) -> (r: bool)
        requires
            self.well_formed(),
        ensures
            r == self.has_room(),
    {
        if self.done == self.dates.len() {
            return true;
        }
        assert(self.days()[self.done as int] == self.dates@[self.done as int]@);
        let calls: usize = self.schedule.call_count(self.dates[self.done]);
        let room: usize = usize::MAX - calls;
        self.summary.events <= room && self.summary.trips <= room
            && self.summary.untimed_stop_times <= room && self.summary.crossing_midnight <= room
    }

    /// The next date to resolve, if there is one.
    pub fn next_date(&self) -> (r: Option<Date>)
        requires
            self.well_formed(),
        ensures
            match r {
                Some(date) => self.done() < self.days().len() && date@ == self.days()[self.done()],
                None => self.done() == self.days().len(),
            },
    {
        if self.done < self.dates.len() {
            Some(self.dates[self.done])
        } else {
            None
        }
    }

    /// What the build comes to so far.
    pub fn summary(&self) -> (r: &Summary)
        ensures
            *r == self.so_far(),
    {
        &self.summary
    }

    /// Resolves the next date and counts it.
    pub fn step(&mut self) -> (r: Result<Step, Error>)
        requires
            old(self).well_formed(),
            old(self).has_room(),
        ensures
            final(self).well_formed(),
            final(self).continues(*old(self)),
            old(self).done() == old(self).days().len() ==> (r matches Ok(step) && step is Finished)
                && *final(self) == *old(self),
            old(self).done() < old(self).days().len() ==> ({
                let day = old(self).days()[old(self).done()];
                steps(
                    *old(self),
                    *final(self),
                    r,
                    zone::noon_instant(old(self).schedule().timezone(), day),
                )
            }),
    {
        let noon: Option<i64> = match self.next_date() {
            Some(date) => self.schedule.noon_on(date),
            None => None,
        };
        self.step_at(noon)
    }

    /// Resolves the next date and counts it, given the instant of local noon on
    /// that date.
    pub fn step_at(&mut self, noon: Option<i64>) -> (r: Result<Step, Error>)
        requires
            old(self).well_formed(),
            old(self).has_room(),
            noon matches Some(seconds) ==> zone::near_noon(seconds as int),
        ensures
            final(self).well_formed(),
            final(self).continues(*old(self)),
            old(self).done() == old(self).days().len() ==> (r matches Ok(step) && step is Finished)
                && *final(self) == *old(self),
            old(self).done() < old(self).days().len() ==> steps(
                *old(self),
                *final(self),
                r,
                zone::as_seconds(noon),
            ),
    {
        if self.done == self.dates.len() {
            return Ok(Step::Finished);
        }
        let date: Date = self.dates[self.done];
        let ghost days = self.days();
        let ghost day = days[self.done as int];
        let ghost schedule = self.schedule;
        assert(day == date@);
        let (events, stats) = match self.schedule.for_date_at(date, noon) {
            Ok(found) => found,
            Err(e) => return Err(e),
        };
        proof {
            let trips = schedule.feed().trips@;
            let stop_times = schedule.feed().stop_times@;
            let calls = schedule.calls_on(day);
            schedule::law_calls_are_accounted_for(
                schedule.agency().id@,
                day,
                zone::as_seconds(noon)->0,
                trips,
                stop_times,
                calls,
            );
            assert(schedule::event_views(events@).len() == events@.len());
            assert(events@.len() == event_count(schedule, day));
            lemma_counts_bounded(stop_times, calls);
            schedule::lemma_resolved_bounded(
                trips,
                stop_times,
                schedule.days(),
                day,
            );
            assert(days.take(self.done + 1).drop_last() =~= days.take(self.done as int));
            assert(days.take(self.done + 1).last() == day);
            law_dates_are_counted_once(schedule, days.take(self.done as int));
        }
        self.summary.trips = self.summary.trips + stats.trips;
        self.summary.untimed_stop_times = self.summary.untimed_stop_times + stats.untimed_stop_times;
        self.summary.crossing_midnight = self.summary.crossing_midnight + stats.crossing_midnight;
        self.done = self.done + 1;
        if events.len() == 0 {
            self.summary.dates_empty = self.summary.dates_empty + 1;
            return Ok(Step::Empty);
        }
        self.summary.dates_written = self.summary.dates_written + 1;
        self.summary.events = self.summary.events + events.len();
        let path: String = self.layout.fact_partition(date, self.schedule.agency_id());
        Ok(Step::Partition { path, events })
    }
}

// ---------------------------------------------------------------------------
// Dimension files
// ---------------------------------------------------------------------------

/// A file of the dataset, to be written.
pub struct DatasetFile {
    pub path: String,
    pub bytes: Vec<u8>,
}

/// Whether `result` is the file of one agency's rows of a dimension table, or
/// the error where Parquet has none for its columns.
pub open spec fn is_dimension_file(
    result: Result<DatasetFile, Error>,
    data_dir: Seq<char>,
    table: Seq<char>,
    agency: Seq<char>,
    cells: Seq<ColumnView>,
) -> bool {
    let place = dimension_file(dataset_root(data_dir), table, agency);
    match result {
        Ok(file) => file.path@ == place && columns::parquet_file(cells) == Some(file.bytes@),
        Err(e) => columns::parquet_file(cells) is None && e@ == (ErrorView::Parquet {
            path: place,
        }),
    }
}

/// The file of a feed's routes. Dimensions are not partitioned, and do not
/// depend on the window of a build: a cube with facts but no dimensions is
/// worse than one with neither.
pub fn routes_file(feed: &StaticFeed, agency: &Agency, data_dir: &str) -> (r: Result<
    DatasetFile,
    Error,
>)
    requires
        columns::texts_fit(dimensions::route_columns(*agency, feed.routes@)),
    ensures
        is_dimension_file(
            r,
            data_dir@,
            "routes"@,
            agency.id@,
            dimensions::route_columns(*agency, feed.routes@),
        ),
{
    let path: String = Layout::new(data_dir).dimension("routes", agency.id.as_str());
    let batch: Batch = match dimensions::routes_batch(feed, agency) {
        Ok(batch) => batch,
        Err(e) => return Err(e),
    };
    match facts::encode_batch(path.as_str(), &batch) {
        Ok(bytes) => Ok(DatasetFile { path, bytes }),
        Err(e) => Err(e),
    }
}

/// The file of a feed's stops.
pub fn stops_file(feed: &StaticFeed, agency: &Agency, data_dir: &str) -> (r: Result<
    DatasetFile,
    Error,
>)
    requires
        columns::texts_fit(dimensions::stop_columns(*agency, feed.stops@)),
    ensures
        is_dimension_file(
            r,
            data_dir@,
            "stops"@,
            agency.id@,
            dimensions::stop_columns(*agency, feed.stops@),
        ),
{
    let path: String = Layout::new(data_dir).dimension("stops", agency.id.as_str());
    let batch: Batch = match dimensions::stops_batch(feed, agency) {
        Ok(batch) => batch,
        Err(e) => return Err(e),
    };
    match facts::encode_batch(path.as_str(), &batch) {
        Ok(bytes) => Ok(DatasetFile { path, bytes }),
        Err(e) => Err(e),
    }
}

// ---------------------------------------------------------------------------
// Steps
// ---------------------------------------------------------------------------

/// Whether a build is at its start, with the dates of a range.
pub open spec fn starts(build: Build, data_dir: Seq<char>, range: Option<(Date, Date)>) -> bool {
    let summary = build.so_far();
    &&& build.well_formed()
    &&& build.done() == 0
    &&& build.root() == dataset_root(data_dir)
    &&& selects(build.days(), build.schedule().days(), range)
    &&& summary.agency_id@ == build.schedule().agency().id@
    &&& summary.routes == build.schedule().feed().routes@.len()
    &&& summary.stops == build.schedule().feed().stops@.len()
    &&& match summary.first_date {
        Some(first) => build.days().len() > 0 && first@ == build.days()[0],
        None => build.days().len() == 0,
    }
    &&& match summary.last_date {
        Some(last) => build.days().len() > 0 && last@ == build.days()[build.days().len() - 1],
        None => build.days().len() == 0,
    }
}

/// What a step does with the next date, given the instant of local noon.
pub open spec fn steps(
    before: Build,
    after: Build,
    result: Result<Step, Error>,
    noon: Option<int>,
) -> bool {
    let schedule = before.schedule();
    let day = before.days()[before.done()];
    let timed = schedule::any_timed(schedule.feed().stop_times@, schedule.calls_on(day));
    match result {
        Err(e) => {
            &&& noon is None
            &&& timed
            &&& e@ == ErrorView::Feed(time::no_noon(day, schedule.timezone()))
            &&& after == before
        },
        Ok(step) => {
            &&& noon is Some || !timed
            &&& after.done() == before.done() + 1
            &&& match step {
                Step::Finished => false,
                Step::Empty => event_count(schedule, day) == 0,
                Step::Partition { path, events } => {
                    &&& event_count(schedule, day) > 0
                    &&& path@ == partition_file(before.root(), day, schedule.agency().id@)
                    &&& schedule::event_views(events@) == schedule.events_on(day, noon->0)
                },
            }
        },
    }
}

/// None of the counts over a list of calls exceeds the number of calls.
proof fn lemma_counts_bounded(stop_times: Seq<StopTimeRow>, calls: Seq<(int, int)>)
    ensures
        schedule::untimed_calls(stop_times, calls) <= calls.len(),
        schedule::malformed_calls(stop_times, calls) <= calls.len(),
        schedule::crossing_calls(stop_times, calls) <= calls.len(),
    decreases calls.len(),
{
    if calls.len() > 0 {
        lemma_counts_bounded(stop_times, calls.drop_last());
    }
}

// ---------------------------------------------------------------------------
// Laws
// ---------------------------------------------------------------------------

/// Every date of a build is counted once: as written, if it has events, or else
/// as empty.
pub proof fn law_dates_are_counted_once(schedule: Schedule, days: Seq<int>)
    ensures
        tally(schedule, days).dates_written + tally(schedule, days).dates_empty == days.len(),
    decreases days.len(),
{
    if days.len() > 0 {
        law_dates_are_counted_once(schedule, days.drop_last());
    }
}

/// Building again from the same schedule resolves the same dates into the same
/// places.
pub proof fn law_builds_agree(
    first: Build,
    second: Build,
    data_dir: Seq<char>,
    range: Option<(Date, Date)>,
)
    requires
        starts(first, data_dir, range),
        starts(second, data_dir, range),
        first.schedule() == second.schedule(),
    ensures
        first.root() == second.root(),
        first.days() == second.days(),
{
    assert forall|day: int| #[trigger]
        first.days().contains(day) <==> second.days().contains(day) by {}
    sort::lemma_ascending_unique(first.days(), second.days(), |a: int, b: int| a < b);
}

/// Steps from the same place, with the same instant of noon, give the same
/// outcome: the same error, or the same events for the same file.
pub proof fn law_steps_agree(
    before: Build,
    after: Build,
    result: Result<Step, Error>,
    other_after: Build,
    other_result: Result<Step, Error>,
    noon: Option<int>,
)
    requires
        steps(before, after, result, noon),
        steps(before, other_after, other_result, noon),
    ensures
        after.done() == other_after.done(),
        match (result, other_result) {
            (Err(e), Err(other)) => e@ == other@,
            (Ok(Step::Empty), Ok(Step::Empty)) => true,
            (Ok(Step::Partition { path, events }), Ok(Step::Partition { path: place, events: rows })) => {
                path@ == place@ && schedule::event_views(events@) == schedule::event_views(rows@)
            },
            _ => false,
        },
{
}

/// The files of one service date share a directory, and no two agencies or
/// service dates share a file, so that one agency or date can be written again
/// without touching the rows of another. An agency id that is an absolute path
/// would leave the directory.
pub proof fn law_partitions_are_distinct(
    data_dir: Seq<char>,
    day: int,
    agency: Seq<char>,
    other_day: int,
    other_agency: Seq<char>,
)
    requires
        !(agency.len() > 0 && agency[0] == '/'),
        !(other_agency.len() > 0 && other_agency[0] == '/'),
    ensures
        partition_file(dataset_root(data_dir), day, agency) == partition_dir(
            dataset_root(data_dir),
            day,
        ) + "/"@ + agency + ".parquet"@,
        partition_file(dataset_root(data_dir), day, agency) == partition_file(
            dataset_root(data_dir),
            other_day,
            other_agency,
        ) ==> day == other_day && agency == other_agency,
{
    let root = dataset_root(data_dir);
    reveal_strlit("/");
    reveal_strlit("parquet");
    reveal_strlit("scheduled_events");
    reveal_strlit("service_date=");
    reveal_strlit(".parquet");
    assert(root.last() == 't');
    let table = path::within(root, "scheduled_events"@);
    assert(table == root + "/"@ + "scheduled_events"@);
    assert(table.last() == 's');
    lemma_partition_parts(table, day, agency);
    lemma_partition_parts(table, other_day, other_agency);
    let head = table + "/"@ + "service_date="@;
    let d1 = date::day_text(day);
    let d2 = date::day_text(other_day);
    let f1 = partition_file(root, day, agency);
    let f2 = partition_file(root, other_day, other_agency);
    if f1 == f2 {
        date::lemma_day_text_plain(day);
        date::lemma_day_text_plain(other_day);
        lemma_named_apart(head, d1, agency, d2, other_agency, ".parquet"@);
        date::law_dates_have_distinct_texts(day, other_day);
    }
}

/// No two agencies share a file of a dimension table, and no two tables share a
/// file.
pub proof fn law_dimension_files_are_distinct(
    data_dir: Seq<char>,
    agency: Seq<char>,
    other_agency: Seq<char>,
)
    requires
        !(agency.len() > 0 && agency[0] == '/'),
        !(other_agency.len() > 0 && other_agency[0] == '/'),
    ensures
        dimension_file(dataset_root(data_dir), "routes"@, agency) == dimension_file(
            dataset_root(data_dir),
            "routes"@,
            other_agency,
        ) ==> agency == other_agency,
        dimension_file(dataset_root(data_dir), "stops"@, agency) == dimension_file(
            dataset_root(data_dir),
            "stops"@,
            other_agency,
        ) ==> agency == other_agency,
        dimension_file(dataset_root(data_dir), "routes"@, agency) != dimension_file(
            dataset_root(data_dir),
            "stops"@,
            other_agency,
        ),
{
    reveal_strlit("/");
    reveal_strlit("parquet");
    reveal_strlit("routes");
    reveal_strlit("stops");
    reveal_strlit(".parquet");
    let root = dataset_root(data_dir);
    assert(root.last() == 't');
    let routes = root + "/"@ + "routes"@;
    let stops = root + "/"@ + "stops"@;
    assert(path::within(root, "routes"@) == routes);
    assert(path::within(root, "stops"@) == stops);
    assert(routes.last() == 's' && stops.last() == 's');
    lemma_file_in(routes, agency);
    lemma_file_in(routes, other_agency);
    lemma_file_in(stops, agency);
    lemma_file_in(stops, other_agency);
    let n = root.len() as int;
    assert((routes + "/"@ + agency + ".parquet"@)[n + 1] == 'r');
    assert((stops + "/"@ + other_agency + ".parquet"@)[n + 1] == 's');
    lemma_named_in(routes + "/"@, agency, other_agency);
    lemma_named_in(stops + "/"@, agency, other_agency);
}

/// The file of an agency in a directory.
proof fn lemma_file_in(directory: Seq<char>, agency: Seq<char>)
    requires
        directory.len() > 0,
        directory.last() != '/',
        !(agency.len() > 0 && agency[0] == '/'),
    ensures
        path::within(directory, agency + ".parquet"@) == directory + "/"@ + agency + ".parquet"@,
{
    reveal_strlit(".parquet");
    let file = agency + ".parquet"@;
    assert(file[0] == (if agency.len() > 0 {
        agency[0]
    } else {
        '.'
    }));
    assert(directory + "/"@ + file =~= directory + "/"@ + agency + ".parquet"@);
}

proof fn lemma_named_in(head: Seq<char>, agency: Seq<char>, other: Seq<char>)
    ensures
        head + agency + ".parquet"@ == head + other + ".parquet"@ ==> agency == other,
{
    let whole = head + agency + ".parquet"@;
    if whole == head + other + ".parquet"@ {
        let end = whole.len() - ".parquet"@.len();
        assert(agency =~= whole.subrange(head.len() as int, end));
        assert(other =~= whole.subrange(head.len() as int, end));
    }
}

/// A name that is a text without a slash, a slash and a second text tells both
/// texts.
proof fn lemma_named_apart(
    head: Seq<char>,
    first: Seq<char>,
    second: Seq<char>,
    other_first: Seq<char>,
    other_second: Seq<char>,
    tail: Seq<char>,
)
    requires
        !first.contains('/'),
        !other_first.contains('/'),
        head + first + "/"@ + second + tail == head + other_first + "/"@ + other_second + tail,
    ensures
        first == other_first,
        second == other_second,
{
    reveal_strlit("/");
    let n = head.len() as int;
    let whole = head + first + "/"@ + second + tail;
    let rest = whole.skip(n);
    assert(rest =~= first + "/"@ + second + tail);
    assert(rest =~= other_first + "/"@ + other_second + tail);
    let a = first.len() as int;
    let b = other_first.len() as int;
    assert(rest[a] == '/');
    assert(rest[b] == '/');
    if a < b {
        assert(other_first[a] == rest[a]);
    }
    if b < a {
        assert(first[b] == rest[b]);
    }
    assert(first =~= rest.take(a));
    assert(other_first =~= rest.take(a));
    let m = rest.len() - tail.len();
    assert(second =~= rest.subrange(a + 1, m));
    assert(other_second =~= rest.subrange(a + 1, m));
}

proof fn lemma_partition_parts(table: Seq<char>, day: int, agency: Seq<char>)
    requires
        table.len() > 0,
        table.last() != '/',
        !(agency.len() > 0 && agency[0] == '/'),
    ensures
        path::within(table, "service_date="@ + date::day_text(day)) == table + "/"@
            + "service_date="@ + date::day_text(day),
        path::within(
            path::within(table, "service_date="@ + date::day_text(day)),
            agency + ".parquet"@,
        ) == table + "/"@ + "service_date="@ + date::day_text(day) + "/"@ + agency + ".parquet"@,
{
    reveal_strlit("/");
    reveal_strlit("service_date=");
    reveal_strlit(".parquet");
    let text = date::day_text(day);
    date::lemma_day_text_plain(day);
    let name = "service_date="@ + text;
    let dir = path::within(table, name);
    assert(name[0] == 's');
    assert(dir == table + "/"@ + name);
    assert(dir =~= table + "/"@ + "service_date="@ + text);
    assert(dir.last() != '/') by {
        if text.len() > 0 {
            assert(text.contains(text.last()));
            assert(dir.last() == text.last());
        } else {
            assert(dir.last() == '=');
        }
    }
    lemma_file_in(dir, agency);
    assert(dir + "/"@ + agency + ".parquet"@ =~= table + "/"@ + "service_date="@ + text + "/"@
        + agency + ".parquet"@);
}

/// Whether a text can be a component of a path that is joined to another: it is
/// there, and does not start at the root.
pub open spec fn is_component(part: Seq<char>) -> bool {
    part.len() > 0 && part[0] != '/'
}

/// Where the files of a dataset lie: under `parquet` in the data directory, the
/// events of a service date in a directory that is named after it, and each
/// agency in a file of its own.
pub proof fn law_dataset_layout(
    data_dir: Seq<char>,
    day: int,
    table: Seq<char>,
    agency: Seq<char>,
)
    requires
        data_dir.len() > 0,
        data_dir.last() != '/',
        is_component(table),
        table.last() != '/',
        is_component(agency),
    ensures
        dataset_root(data_dir) == data_dir + "/parquet"@,
        partition_file(dataset_root(data_dir), day, agency) == data_dir
            + "/parquet/scheduled_events/service_date="@ + date::day_text(day) + "/"@ + agency
            + ".parquet"@,
        dimension_file(dataset_root(data_dir), table, agency) == data_dir + "/parquet/"@ + table
            + "/"@ + agency + ".parquet"@,
{
    reveal_strlit("/");
    reveal_strlit("parquet");
    reveal_strlit("/parquet");
    reveal_strlit("/parquet/");
    reveal_strlit(".parquet");
    reveal_strlit("scheduled_events");
    reveal_strlit("service_date=");
    reveal_strlit("/parquet/scheduled_events/service_date=");
    let root = dataset_root(data_dir);
    assert(root =~= data_dir + "/parquet"@);
    assert(root.last() == 't');
    let file = agency + ".parquet"@;
    assert(file[0] == agency[0]);
    let events = path::within(root, "scheduled_events"@);
    assert(events =~= data_dir + "/parquet"@ + "/"@ + "scheduled_events"@);
    assert(events.last() == 's');
    let name = "service_date="@ + date::day_text(day);
    assert(name[0] == 's');
    let directory = partition_dir(root, day);
    assert(directory == events + "/"@ + name);
    lemma_day_text_ends(day);
    assert(directory.last() == date::day_text(day).last());
    assert("/parquet/scheduled_events/service_date="@ =~= "/parquet"@ + "/"@ + "scheduled_events"@
        + "/"@ + "service_date="@);
    assert(partition_file(root, day, agency) =~= data_dir
        + "/parquet/scheduled_events/service_date="@ + date::day_text(day) + "/"@ + agency
        + ".parquet"@);
    let place = path::within(root, table);
    assert(place =~= root + "/"@ + table);
    assert(place.last() == table.last());
    assert(dimension_file(root, table, agency) =~= data_dir + "/parquet/"@ + table + "/"@ + agency
        + ".parquet"@);
}

/// The text of a date ends with a digit or a sign.
proof fn lemma_day_text_ends(day: int)
    ensures
        date::day_text(day).len() > 0,
        date::day_text(day).last() != '/',
{
    let s = date::day_text(day);
    assert(s.len() > 0);
    date::lemma_day_text_plain(day);
    assert(s.contains(s.last()));
}

/// A date that is written has its events in the file of that date and agency:
/// there is at least one, each is of that date and agency, and they are the
/// events of the schedule. The build has moved on by one date.
pub proof fn law_written_dates_hold_their_events(
    before: Build,
    after: Build,
    noon: Option<int>,
    path: String,
    events: Vec<ScheduledEvent>,
    i: int,
)
    requires
        steps(before, after, Ok(Step::Partition { path, events }), noon),
        0 <= i < events@.len(),
    ensures
        ({
            let day = before.days()[before.done()];
            let agency = before.schedule().agency().id@;
            &&& path@ == partition_file(before.root(), day, agency)
            &&& events@[i].service_date@ == day
            &&& events@[i].agency_id@ == agency
            &&& noon is Some
            &&& schedule::event_views(events@) == before.schedule().events_on(day, noon->0)
            &&& after.done() == before.done() + 1
        }),
{
    let day = before.days()[before.done()];
    let schedule = before.schedule();
    let calls = schedule::law_events_tell_of_their_calls(schedule, day, noon->0, events@);
    assert(schedule::tells_of(
        events@[i],
        schedule.agency(),
        day,
        noon->0,
        schedule.feed().trips@[schedule.calls_on(day)[calls[i]].0],
        schedule.feed().stop_times@[schedule.calls_on(day)[calls[i]].1],
    ));
    assert(calls.contains(calls[i]));
    let call = schedule.calls_on(day)[calls[i]];
    schedule::law_calls_on_a_day(schedule, day);
    assert(schedule.calls_on(day).contains((call.0, call.1)));
    schedule::law_noon_is_needed_for_times(schedule, day);
    assert(schedule::is_call(schedule, day, call.0, call.1));
}

/// A date is written exactly when one of its calls says when it is, and passed
/// over when none does. It fails only where such a call needs a local noon that
/// is not one instant, and nothing is counted.
pub proof fn law_dates_with_times_are_written(
    before: Build,
    after: Build,
    result: Result<Step, Error>,
    noon: Option<int>,
)
    requires
        steps(before, after, result, noon),
    ensures
        ({
            let schedule = before.schedule();
            let day = before.days()[before.done()];
            let timed = exists|trip: int, stop_time: int| #[trigger]
                schedule::is_call(schedule, day, trip, stop_time) && schedule::has_time(
                    schedule.feed().stop_times@[stop_time],
                );
            match result {
                Ok(Step::Partition { path, events }) => timed && events@.len() > 0,
                Ok(Step::Empty) => !timed,
                Ok(Step::Finished) => false,
                Err(e) => {
                    &&& timed
                    &&& noon is None
                    &&& after == before
                    &&& e@ == ErrorView::Feed(
                        FeedErrorView::AmbiguousLocalTime {
                            local: date::day_text(day) + " 12:00:00"@,
                            timezone: schedule.timezone(),
                        },
                    )
                },
            }
        }),
{
    let schedule = before.schedule();
    let day = before.days()[before.done()];
    let stop_times = schedule.feed().stop_times@;
    let calls = schedule.calls_on(day);
    schedule::law_noon_is_needed_for_times(schedule, day);
    lemma_some_event(schedule, day);
    if let Ok(Step::Partition { path, events }) = result {
        schedule::law_calls_are_accounted_for(
            schedule.agency().id@,
            day,
            noon->0,
            schedule.feed().trips@,
            stop_times,
            calls,
        );
        assert(schedule::event_views(events@).len() == events@.len());
    }
}

/// A day has events exactly when one of its calls says when it is.
proof fn lemma_some_event(schedule: Schedule, day: int)
    ensures
        event_count(schedule, day) >= 0,
        event_count(schedule, day) > 0 <==> schedule::any_timed(
            schedule.feed().stop_times@,
            schedule.calls_on(day),
        ),
{
    lemma_timed_calls(schedule.feed().stop_times@, schedule.calls_on(day));
}

proof fn lemma_timed_calls(stop_times: Seq<StopTimeRow>, calls: Seq<(int, int)>)
    ensures
        calls.len() - schedule::malformed_calls(stop_times, calls) - schedule::untimed_calls(
            stop_times,
            calls,
        ) >= 0,
        calls.len() - schedule::malformed_calls(stop_times, calls) - schedule::untimed_calls(
            stop_times,
            calls,
        ) > 0 <==> schedule::any_timed(stop_times, calls),
    decreases calls.len(),
{
    if calls.len() > 0 {
        let before = calls.drop_last();
        lemma_timed_calls(stop_times, before);
        if schedule::any_timed(stop_times, before) {
            let i = choose|i: int|
                0 <= i < before.len() && schedule::call_times(
                    stop_times[(#[trigger] before[i]).1],
                ) is Timed;
            assert(calls[i] == before[i]);
        }
        if schedule::any_timed(stop_times, calls) {
            let i = choose|i: int|
                0 <= i < calls.len() && schedule::call_times(
                    stop_times[(#[trigger] calls[i]).1],
                ) is Timed;
            assert(i < before.len() ==> before[i] == calls[i]);
        }
        assert(calls[calls.len() - 1] == calls.last());
    }
}

/// A summary adds up: before any date every count is zero, and one more date
/// adds its events, and what was counted of it, each to the count of the same
/// name. The date counts as written if it has events, and else as empty.
pub proof fn law_summaries_add_up(
    schedule: Schedule,
    days: Seq<int>,
    day: int,
    noon: int,
    before: Summary,
    after: Summary,
    stats: Stats,
    events: Seq<ScheduledEvent>,
)
    requires
        summarises(before, tally(schedule, days)),
        summarises(after, tally(schedule, days.push(day))),
        schedule.counts(day, stats),
        schedule::event_views(events) == schedule.events_on(day, noon),
    ensures
        after.events == before.events + events.len(),
        after.trips == before.trips + stats.trips,
        after.untimed_stop_times == before.untimed_stop_times + stats.untimed_stop_times,
        after.crossing_midnight == before.crossing_midnight + stats.crossing_midnight,
        events.len() > 0 ==> after.dates_written == before.dates_written + 1 && after.dates_empty
            == before.dates_empty,
        events.len() == 0 ==> after.dates_written == before.dates_written && after.dates_empty
            == before.dates_empty + 1,
        days.len() == 0 ==> before.events == 0 && before.trips == 0 && before.untimed_stop_times
            == 0 && before.crossing_midnight == 0 && before.dates_written == 0
            && before.dates_empty == 0,
{
    assert(days.push(day).drop_last() =~= days);
    assert(schedule::event_views(events).len() == events.len());
    schedule::law_calls_are_accounted_for(
        schedule.agency().id@,
        day,
        noon,
        schedule.feed().trips@,
        schedule.feed().stop_times@,
        schedule.calls_on(day),
    );
}

/// A build takes the days on which some service runs, from the first to the last
/// day of its range, both of which belong to it, or all of them where there is no
/// range; each once, in order. Its summary names the first and the last of them,
/// its agency, and how many routes and stops the feed has.
pub proof fn law_builds_take_the_days_of_their_range(
    build: Build,
    data_dir: Seq<char>,
    range: Option<(Date, Date)>,
    day: int,
)
    requires
        starts(build, data_dir, range),
    ensures
        build.done() == 0,
        build.root() == dataset_root(data_dir),
        build.days().contains(day) <==> {
            &&& exists|service: Seq<char>|
                build.schedule().days().contains_key(service) && (
                #[trigger] build.schedule().days()[service]).contains(day)
            &&& range matches Some((from, to)) ==> from@ <= day <= to@
        },
        forall|i: int, j: int|
            0 <= i < j < build.days().len() ==> (#[trigger] build.days()[i])
                < #[trigger] build.days()[j],
        build.days().contains(day) ==> {
            &&& build.so_far().first_date matches Some(first)
            &&& build.so_far().last_date matches Some(last)
            &&& first@ <= day <= last@
            &&& build.days().contains(first@)
            &&& build.days().contains(last@)
        },
        build.days().len() == 0 <==> build.so_far().first_date is None,
        build.days().len() == 0 <==> build.so_far().last_date is None,
        build.so_far().agency_id@ == build.schedule().agency().id@,
        build.so_far().routes == build.schedule().feed().routes@.len(),
        build.so_far().stops == build.schedule().feed().stops@.len(),
{
    let days = build.days();
    calendar::law_active_days_have_a_service(build.schedule().days(), day);
    if days.contains(day) {
        let k = choose|k: int| 0 <= k < days.len() && days[k] == day;
        let n = days.len() - 1;
        assert(0 < k ==> days[0] < days[k]);
        assert(k < n ==> days[k] < days[n]);
        assert(days.contains(days[0]) && days.contains(days[n]));
    }
}

/// A dimension file lies in the place of its table and agency and holds what
/// Parquet makes of its columns; where Parquet fails, the error names that place.
pub proof fn law_dimension_files_hold_their_tables(
    result: Result<DatasetFile, Error>,
    data_dir: Seq<char>,
    table: Seq<char>,
    agency: Seq<char>,
    cells: Seq<ColumnView>,
)
    requires
        is_dimension_file(result, data_dir, table, agency, cells),
        data_dir.len() > 0,
        data_dir.last() != '/',
        is_component(table),
        table.last() != '/',
        is_component(agency),
    ensures
        ({
            let place = data_dir + "/parquet/"@ + table + "/"@ + agency + ".parquet"@;
            match result {
                Ok(file) => file.path@ == place && columns::parquet_file(cells) == Some(
                    file.bytes@,
                ),
                Err(e) => e@ == (ErrorView::Parquet { path: place }) && columns::parquet_file(
                    cells,
                ) is None,
            }
        }),
{
    law_dataset_layout(data_dir, 0, table, agency);
}

} // verus!
