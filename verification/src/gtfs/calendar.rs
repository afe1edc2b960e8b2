//! Expanding GTFS service definitions into concrete service dates.
//!
//! A trip does not carry the days it runs. It carries a `service_id`, and the
//! days live in two files that a feed may use in either combination:
//!
//! - `calendar.txt`: weekday flags plus an inclusive date range
//! - `calendar_dates.txt`: per-date exceptions, adding (type 1) or removing
//!   (type 2) a single date
//!
//! Order matters within a date: additions apply first, removals last. A service
//! that is both added and removed on one date does not run.

use vstd::hash_map::StringHashMap;
use vstd::prelude::*;
use vstd::relations::*;

use crate::date;
use crate::date::Date;
use crate::date_set;
use crate::date_set::DateSet;
use crate::error::{Error, ErrorView, FeedError, FeedErrorView};
use crate::gtfs::archive::StaticFeed;
use crate::gtfs::records::{CalendarDateRow, CalendarRow};
use crate::gtfs::time;
use crate::keys;
use crate::sort;
use crate::sort::Order;
use crate::text;

verus! {

/// An implausible `end_date` is a garbled field, not a century of service.
/// Without a bound, one bad row expands into tens of millions of dates.
pub const MAX_SERVICE_SPAN_DAYS: i64 = 5 * 366;

// ---------------------------------------------------------------------------
// What the calendar files say
// ---------------------------------------------------------------------------

/// The fault of one `calendar.txt` row, given what its two dates read as.
pub open spec fn weekly_row_fault(
    row: CalendarRow,
    start: Option<int>,
    end: Option<int>,
) -> Option<FeedErrorView> {
    match (start, end) {
        (None, _) => Some(time::bad_date(row.start_date@, "calendar.txt"@)),
        (Some(_), None) => Some(time::bad_date(row.end_date@, "calendar.txt"@)),
        (Some(first), Some(last)) => if last - first > MAX_SERVICE_SPAN_DAYS {
            Some(
                FeedErrorView::ImplausibleServiceRange {
                    service_id: row.service_id@,
                    start: date::day_text(first),
                    end: date::day_text(last),
                },
            )
        } else {
            None
        },
    }
}

/// The first fault of the `calendar.txt` rows.
pub open spec fn weekly_fault(
    rows: Seq<CalendarRow>,
    starts: Seq<Option<int>>,
    ends: Seq<Option<int>>,
) -> Option<FeedErrorView>
    decreases rows.len(),
{
    if rows.len() == 0 {
        None
    } else {
        let n = rows.len() - 1;
        match weekly_fault(rows.drop_last(), starts, ends) {
            Some(fault) => Some(fault),
            None => weekly_row_fault(rows[n], starts[n], ends[n]),
        }
    }
}

/// The fault of one `calendar_dates.txt` row as an addition.
pub open spec fn addition_row_fault(row: CalendarDateRow, day: Option<int>) -> Option<
    FeedErrorView,
> {
    if row.exception_type == 1 && day is None {
        Some(time::bad_date(row.date@, "calendar_dates.txt"@))
    } else {
        None
    }
}

/// The first fault of the `calendar_dates.txt` rows as additions.
pub open spec fn addition_fault(rows: Seq<CalendarDateRow>, days: Seq<Option<int>>) -> Option<
    FeedErrorView,
>
    decreases rows.len(),
{
    if rows.len() == 0 {
        None
    } else {
        let n = rows.len() - 1;
        match addition_fault(rows.drop_last(), days) {
            Some(fault) => Some(fault),
            None => addition_row_fault(rows[n], days[n]),
        }
    }
}

/// The fault of one `calendar_dates.txt` row that is no addition.
pub open spec fn removal_row_fault(row: CalendarDateRow, day: Option<int>) -> Option<
    FeedErrorView,
> {
    if row.exception_type == 1 {
        None
    } else if row.exception_type == 2 {
        if day is None {
            Some(time::bad_date(row.date@, "calendar_dates.txt"@))
        } else {
            None
        }
    } else {
        Some(
            FeedErrorView::BadExceptionType {
                service_id: row.service_id@,
                value: row.exception_type as int,
            },
        )
    }
}

/// The first fault of the `calendar_dates.txt` rows that are no additions.
pub open spec fn removal_fault(rows: Seq<CalendarDateRow>, days: Seq<Option<int>>) -> Option<
    FeedErrorView,
>
    decreases rows.len(),
{
    if rows.len() == 0 {
        None
    } else {
        let n = rows.len() - 1;
        match removal_fault(rows.drop_last(), days) {
            Some(fault) => Some(fault),
            None => removal_row_fault(rows[n], days[n]),
        }
    }
}

/// What is wrong with the calendar files, if anything is: the weekly rows are
/// looked at first, then the additions, then the rest.
pub open spec fn calendar_fault(
    weekly: Seq<CalendarRow>,
    starts: Seq<Option<int>>,
    ends: Seq<Option<int>>,
    exceptions: Seq<CalendarDateRow>,
    days: Seq<Option<int>>,
) -> Option<FeedErrorView> {
    match weekly_fault(weekly, starts, ends) {
        Some(fault) => Some(fault),
        None => match addition_fault(exceptions, days) {
            Some(fault) => Some(fault),
            None => removal_fault(exceptions, days),
        },
    }
}

/// Whether a weekly row has the service run on a day.
pub open spec fn row_runs(row: CalendarRow, start: Option<int>, end: Option<int>, day: int) -> bool {
    match (start, end) {
        (Some(first), Some(last)) => first <= day <= last && row.flag(date::weekday_of(day)) == 1,
        _ => false,
    }
}

/// Whether some weekly row has a service run on a day.
pub open spec fn weekly_runs(
    weekly: Seq<CalendarRow>,
    starts: Seq<Option<int>>,
    ends: Seq<Option<int>>,
    service: Seq<char>,
    day: int,
) -> bool {
    exists|i: int|
        0 <= i < weekly.len() && (#[trigger] weekly[i]).service_id@ == service && row_runs(
            weekly[i],
            starts[i],
            ends[i],
            day,
        )
}

/// Whether some exception of a kind names a service and a day.
pub open spec fn excepted(
    exceptions: Seq<CalendarDateRow>,
    days: Seq<Option<int>>,
    kind: int,
    service: Seq<char>,
    day: int,
) -> bool {
    exists|i: int|
        0 <= i < exceptions.len() && (#[trigger] exceptions[i]).service_id@ == service
            && exceptions[i].exception_type == kind && days[i] == Some(day)
}

/// Whether a service is defined: by a weekly row, or by an addition.
pub open spec fn defined(
    weekly: Seq<CalendarRow>,
    additions: Seq<CalendarDateRow>,
    service: Seq<char>,
) -> bool {
    ||| exists|i: int| 0 <= i < weekly.len() && (#[trigger] weekly[i]).service_id@ == service
    ||| exists|i: int|
        0 <= i < additions.len() && (#[trigger] additions[i]).service_id@ == service
            && additions[i].exception_type == 1
}

/// Every defined service with the days it runs: those of the weekly rows and
/// the additions, less the removals.
pub open spec fn expansion(
    weekly: Seq<CalendarRow>,
    starts: Seq<Option<int>>,
    ends: Seq<Option<int>>,
    additions: Seq<CalendarDateRow>,
    removals: Seq<CalendarDateRow>,
    days: Seq<Option<int>>,
) -> Map<Seq<char>, Set<int>> {
    Map::new(
        |service: Seq<char>| defined(weekly, additions, service),
        |service: Seq<char>|
            Set::new(
                |day: int|
                    (weekly_runs(weekly, starts, ends, service, day) || excepted(
                        additions,
                        days,
                        1,
                        service,
                        day,
                    )) && !excepted(removals, days, 2, service, day),
            ),
    )
}

/// The days of a list of readings.
pub open spec fn readings(dates: Seq<Option<i32>>) -> Seq<Option<int>> {
    dates.map_values(|reading: Option<i32>| date::as_day(reading))
}

/// What the start dates of weekly rows read as.
pub open spec fn start_readings(rows: Seq<CalendarRow>) -> Seq<Option<int>> {
    rows.map_values(|row: CalendarRow| time::date_reading(row.start_date@))
}

/// What the end dates of weekly rows read as.
pub open spec fn end_readings(rows: Seq<CalendarRow>) -> Seq<Option<int>> {
    rows.map_values(|row: CalendarRow| time::date_reading(row.end_date@))
}

/// What the dates of exceptions read as.
pub open spec fn exception_readings(rows: Seq<CalendarDateRow>) -> Seq<Option<int>> {
    rows.map_values(|row: CalendarDateRow| time::date_reading(row.date@))
}

// ---------------------------------------------------------------------------
// Days by service
// ---------------------------------------------------------------------------

/// Days by service id, under construction.
struct ServiceTable {
    slots: StringHashMap<usize>,
    ids: Vec<String>,
    days: Vec<DateSet>,
}

impl View for ServiceTable {
    type V = Map<Seq<char>, Set<int>>;

    closed spec fn view(&self) -> Map<Seq<char>, Set<int>> {
        Map::new(
            |id: Seq<char>| self.slots@.contains_key(id),
            |id: Seq<char>| self.days@[self.slots@[id] as int]@,
        )
    }
}

impl ServiceTable {
    spec fn well_formed(self) -> bool {
        &&& self.ids@.len() == self.days@.len()
        &&& forall|id: Seq<char>| #[trigger]
            self.slots@.contains_key(id) ==> self.slots@[id] < self.ids@.len()
                && self.ids@[self.slots@[id] as int]@ == id
        &&& forall|i: int|
            0 <= i < self.ids@.len() ==> self.slots@.contains_key((#[trigger] self.ids@[i])@)
                && self.slots@[self.ids@[i]@] == i
    }

    fn new() -> (r: ServiceTable)
        ensures
            r.well_formed(),
            r@ == Map::<Seq<char>, Set<int>>::empty(),
    {
        let r: ServiceTable = ServiceTable {
            slots: StringHashMap::new(),
            ids: Vec::new(),
            days: Vec::new(),
        };
        assert(r@ =~= Map::<Seq<char>, Set<int>>::empty());
        r
    }

    /// The slot of a service, made if it has none.
    fn enter(&mut self, id: &str) -> (slot: usize)
        requires
            old(self).well_formed(),
        ensures
            final(self).well_formed(),
            slot < final(self).ids@.len(),
            final(self).ids@[slot as int]@ == id@,
            final(self)@ == (if old(self)@.contains_key(id@) {
                old(self)@
            } else {
                old(self)@.insert(id@, Set::empty())
            }),
    {
        let found: Option<usize> = match self.slots.get(id) {
            Some(slot) => Some(*slot),
            None => None,
        };
        match found {
            Some(slot) => {
                assert(self.slots@.contains_key(id@));
                slot
            },
            None => {
                let ghost before = self@;
                let slot: usize = self.ids.len();
                self.ids.push(id.to_string());
                self.days.push(DateSet::new());
                self.slots.insert(id.to_string(), slot);
                assert(self@ =~= before.insert(id@, Set::empty()));
                slot
            },
        }
    }

    /// Adds a date to the service of a slot.
    fn put(&mut self, slot: usize, date: Date)
        requires
            old(self).well_formed(),
            slot < old(self).ids@.len(),
        ensures
            final(self).well_formed(),
            final(self).ids == old(self).ids,
            old(self)@.contains_key(old(self).ids@[slot as int]@),
            final(self)@ == old(self)@.insert(
                old(self).ids@[slot as int]@,
                old(self)@[old(self).ids@[slot as int]@].insert(date@),
            ),
    {
        let ghost before = *self;
        let ghost id = self.ids@[slot as int]@;
        assert(self.slots@.contains_key(id));
        self.days[slot].insert(date);
        assert(self@ =~= before@.insert(id, before@[id].insert(date@)));
    }

    /// Takes a date from a service, if the service is there.
    fn cut(&mut self, id: &str, date: Date)
        requires
            old(self).well_formed(),
        ensures
            final(self).well_formed(),
            final(self)@ == (if old(self)@.contains_key(id@) {
                old(self)@.insert(id@, old(self)@[id@].remove(date@))
            } else {
                old(self)@
            }),
    {
        let ghost before = *self;
        let found: Option<usize> = match self.slots.get(id) {
            Some(slot) => Some(*slot),
            None => None,
        };
        if let Some(slot) = found {
            assert(self.slots@.contains_key(id@));
            self.days[slot].remove(&date);
            assert(self@ =~= before@.insert(id@, before@[id@].remove(date@)));
        }
    }
}

/// `days` with more days of one service.
spec fn with_days(days: Map<Seq<char>, Set<int>>, id: Seq<char>, more: Set<int>) -> Map<
    Seq<char>,
    Set<int>,
> {
    days.insert(
        id,
        (if days.contains_key(id) {
            days[id]
        } else {
            Set::empty()
        }).union(more),
    )
}

proof fn lemma_no_rows(
    starts: Seq<Option<int>>,
    ends: Seq<Option<int>>,
    days: Seq<Option<int>>,
)
    ensures
        expansion(
            Seq::empty(),
            starts,
            ends,
            Seq::empty(),
            Seq::empty(),
            days,
        ) == Map::<Seq<char>, Set<int>>::empty(),
{
    assert(expansion(Seq::empty(), starts, ends, Seq::empty(), Seq::empty(), days) =~= Map::<
        Seq<char>,
        Set<int>,
    >::empty());
}

proof fn lemma_weekly_step(
    weekly: Seq<CalendarRow>,
    starts: Seq<Option<int>>,
    ends: Seq<Option<int>>,
    days: Seq<Option<int>>,
    i: int,
)
    requires
        0 <= i < weekly.len(),
    ensures
        expansion(
            weekly.take(i + 1),
            starts,
            ends,
            Seq::empty(),
            Seq::empty(),
            days,
        ) == with_days(
            expansion(weekly.take(i), starts, ends, Seq::empty(), Seq::empty(), days),
            weekly[i].service_id@,
            Set::new(|day: int| row_runs(weekly[i], starts[i], ends[i], day)),
        ),
{
    let none = Seq::<CalendarDateRow>::empty();
    let before = weekly.take(i);
    let after = weekly.take(i + 1);
    let id = weekly[i].service_id@;
    let old_map = expansion(before, starts, ends, none, none, days);
    let new_map = expansion(after, starts, ends, none, none, days);
    let runs = Set::new(|day: int| row_runs(weekly[i], starts[i], ends[i], day));
    assert(after[i] == weekly[i]);
    assert forall|k: int| 0 <= k < i implies #[trigger] before[k] == weekly[k] && after[k]
        == weekly[k] by {}
    assert forall|service: Seq<char>|
        defined(after, none, service) <==> defined(before, none, service) || service == id by {
        if defined(before, none, service) {
            let k = choose|k: int|
                0 <= k < before.len() && (#[trigger] before[k]).service_id@ == service;
            assert(after[k].service_id@ == service);
        }
        if defined(after, none, service) {
            let k = choose|k: int|
                0 <= k < after.len() && (#[trigger] after[k]).service_id@ == service;
            if k < i {
                assert(before[k].service_id@ == service);
            }
        }
    }
    assert forall|service: Seq<char>, day: int|
        weekly_runs(after, starts, ends, service, day) <==> weekly_runs(
            before,
            starts,
            ends,
            service,
            day,
        ) || (service == id && runs.contains(day)) by {
        if weekly_runs(before, starts, ends, service, day) {
            let k = choose|k: int|
                0 <= k < before.len() && (#[trigger] before[k]).service_id@ == service && row_runs(
                    before[k],
                    starts[k],
                    ends[k],
                    day,
                );
            assert(after[k].service_id@ == service);
        }
        if weekly_runs(after, starts, ends, service, day) {
            let k = choose|k: int|
                0 <= k < after.len() && (#[trigger] after[k]).service_id@ == service && row_runs(
                    after[k],
                    starts[k],
                    ends[k],
                    day,
                );
            if k < i {
                assert(before[k].service_id@ == service);
            }
        }
    }
    let target = with_days(old_map, id, runs);
    assert forall|service: Seq<char>| new_map.contains_key(service) implies #[trigger] new_map[
    service] == target[service] by {
        assert forall|day: int| new_map[service].contains(day) <==> target[service].contains(
            day,
        ) by {
            if !old_map.contains_key(service) {
                assert(!weekly_runs(before, starts, ends, service, day)) by {
                    if weekly_runs(before, starts, ends, service, day) {
                        let k = choose|k: int|
                            0 <= k < before.len() && (#[trigger] before[k]).service_id@ == service
                                && row_runs(before[k], starts[k], ends[k], day);
                        assert(defined(before, none, service));
                    }
                }
            }
        }
        assert(new_map[service] =~= target[service]);
    }
    assert(new_map =~= target);
}

proof fn lemma_addition_step(
    weekly: Seq<CalendarRow>,
    starts: Seq<Option<int>>,
    ends: Seq<Option<int>>,
    rows: Seq<CalendarDateRow>,
    days: Seq<Option<int>>,
    i: int,
)
    requires
        0 <= i < rows.len(),
        rows[i].exception_type == 1 ==> days[i] is Some,
    ensures
        expansion(weekly, starts, ends, rows.take(i + 1), Seq::empty(), days) == (if rows[i].exception_type
            == 1 {
            with_days(
                expansion(weekly, starts, ends, rows.take(i), Seq::empty(), days),
                rows[i].service_id@,
                Set::<int>::empty().insert(days[i]->0),
            )
        } else {
            expansion(weekly, starts, ends, rows.take(i), Seq::empty(), days)
        }),
{
    let none = Seq::<CalendarDateRow>::empty();
    let before = rows.take(i);
    let after = rows.take(i + 1);
    let id = rows[i].service_id@;
    let adds = rows[i].exception_type == 1;
    let old_map = expansion(weekly, starts, ends, before, none, days);
    let new_map = expansion(weekly, starts, ends, after, none, days);
    assert(after[i] == rows[i]);
    assert forall|k: int| 0 <= k < i implies #[trigger] before[k] == rows[k] && after[k]
        == rows[k] by {}
    assert forall|service: Seq<char>|
        defined(weekly, after, service) <==> defined(weekly, before, service) || (adds && service
            == id) by {
        if exists|k: int|
            0 <= k < before.len() && (#[trigger] before[k]).service_id@ == service
                && before[k].exception_type == 1 {
            let k = choose|k: int|
                0 <= k < before.len() && (#[trigger] before[k]).service_id@ == service
                    && before[k].exception_type == 1;
            assert(after[k].service_id@ == service);
        }
        if exists|k: int|
            0 <= k < after.len() && (#[trigger] after[k]).service_id@ == service
                && after[k].exception_type == 1 {
            let k = choose|k: int|
                0 <= k < after.len() && (#[trigger] after[k]).service_id@ == service
                    && after[k].exception_type == 1;
            if k < i {
                assert(before[k].service_id@ == service);
            }
        }
    }
    assert forall|service: Seq<char>, day: int|
        excepted(after, days, 1, service, day) <==> excepted(before, days, 1, service, day) || (adds
            && service == id && days[i] == Some(day)) by {
        if excepted(before, days, 1, service, day) {
            let k = choose|k: int|
                0 <= k < before.len() && (#[trigger] before[k]).service_id@ == service
                    && before[k].exception_type == 1 && days[k] == Some(day);
            assert(after[k].service_id@ == service);
        }
        if excepted(after, days, 1, service, day) {
            let k = choose|k: int|
                0 <= k < after.len() && (#[trigger] after[k]).service_id@ == service
                    && after[k].exception_type == 1 && days[k] == Some(day);
            if k < i {
                assert(before[k].service_id@ == service);
            }
        }
    }
    let target = if adds {
        with_days(old_map, id, Set::<int>::empty().insert(days[i]->0))
    } else {
        old_map
    };
    assert forall|service: Seq<char>| new_map.contains_key(service) implies #[trigger] new_map[
    service] == target[service] by {
        assert forall|day: int| new_map[service].contains(day) <==> target[service].contains(
            day,
        ) by {
            if !old_map.contains_key(service) {
                if weekly_runs(weekly, starts, ends, service, day) {
                    let k = choose|k: int|
                        0 <= k < weekly.len() && (#[trigger] weekly[k]).service_id@ == service
                            && row_runs(weekly[k], starts[k], ends[k], day);
                    assert(defined(weekly, before, service));
                }
                if excepted(before, days, 1, service, day) {
                    let k = choose|k: int|
                        0 <= k < before.len() && (#[trigger] before[k]).service_id@ == service
                            && before[k].exception_type == 1 && days[k] == Some(day);
                    assert(defined(weekly, before, service));
                }
            }
        }
        assert(new_map[service] =~= target[service]);
    }
    assert(new_map =~= target);
}

proof fn lemma_removal_step(
    weekly: Seq<CalendarRow>,
    starts: Seq<Option<int>>,
    ends: Seq<Option<int>>,
    rows: Seq<CalendarDateRow>,
    days: Seq<Option<int>>,
    i: int,
)
    requires
        0 <= i < rows.len(),
        rows[i].exception_type == 2 ==> days[i] is Some,
    ensures
        ({
            let before = expansion(weekly, starts, ends, rows, rows.take(i), days);
            let id = rows[i].service_id@;
            expansion(weekly, starts, ends, rows, rows.take(i + 1), days) == (if rows[i].exception_type
                == 2 && before.contains_key(id) {
                before.insert(id, before[id].remove(days[i]->0))
            } else {
                before
            })
        }),
{
    let before = rows.take(i);
    let after = rows.take(i + 1);
    let id = rows[i].service_id@;
    let cuts = rows[i].exception_type == 2;
    let old_map = expansion(weekly, starts, ends, rows, before, days);
    let new_map = expansion(weekly, starts, ends, rows, after, days);
    assert(after[i] == rows[i]);
    assert forall|k: int| 0 <= k < i implies #[trigger] before[k] == rows[k] && after[k]
        == rows[k] by {}
    assert forall|service: Seq<char>, day: int|
        excepted(after, days, 2, service, day) <==> excepted(before, days, 2, service, day) || (cuts
            && service == id && days[i] == Some(day)) by {
        if excepted(before, days, 2, service, day) {
            let k = choose|k: int|
                0 <= k < before.len() && (#[trigger] before[k]).service_id@ == service
                    && before[k].exception_type == 2 && days[k] == Some(day);
            assert(after[k].service_id@ == service);
        }
        if excepted(after, days, 2, service, day) {
            let k = choose|k: int|
                0 <= k < after.len() && (#[trigger] after[k]).service_id@ == service
                    && after[k].exception_type == 2 && days[k] == Some(day);
            if k < i {
                assert(before[k].service_id@ == service);
            }
        }
    }
    let target = if cuts && old_map.contains_key(id) {
        old_map.insert(id, old_map[id].remove(days[i]->0))
    } else {
        old_map
    };
    assert forall|service: Seq<char>| new_map.contains_key(service) implies #[trigger] new_map[
    service] == target[service] by {
        assert(new_map[service] =~= target[service]);
    }
    assert(new_map =~= target);
}

proof fn lemma_weekly_fault_stays(
    rows: Seq<CalendarRow>,
    starts: Seq<Option<int>>,
    ends: Seq<Option<int>>,
    n: int,
)
    requires
        0 <= n <= rows.len(),
        weekly_fault(rows.take(n), starts, ends) is Some,
    ensures
        weekly_fault(rows, starts, ends) == weekly_fault(rows.take(n), starts, ends),
    decreases rows.len() - n,
{
    if n == rows.len() {
        assert(rows.take(n) =~= rows);
    } else {
        assert(rows.take(n + 1).drop_last() =~= rows.take(n));
        lemma_weekly_fault_stays(rows, starts, ends, n + 1);
    }
}

proof fn lemma_addition_fault_stays(rows: Seq<CalendarDateRow>, days: Seq<Option<int>>, n: int)
    requires
        0 <= n <= rows.len(),
        addition_fault(rows.take(n), days) is Some,
    ensures
        addition_fault(rows, days) == addition_fault(rows.take(n), days),
    decreases rows.len() - n,
{
    if n == rows.len() {
        assert(rows.take(n) =~= rows);
    } else {
        assert(rows.take(n + 1).drop_last() =~= rows.take(n));
        lemma_addition_fault_stays(rows, days, n + 1);
    }
}

proof fn lemma_removal_fault_stays(rows: Seq<CalendarDateRow>, days: Seq<Option<int>>, n: int)
    requires
        0 <= n <= rows.len(),
        removal_fault(rows.take(n), days) is Some,
    ensures
        removal_fault(rows, days) == removal_fault(rows.take(n), days),
    decreases rows.len() - n,
{
    if n == rows.len() {
        assert(rows.take(n) =~= rows);
    } else {
        assert(rows.take(n + 1).drop_last() =~= rows.take(n));
        lemma_removal_fault_stays(rows, days, n + 1);
    }
}

// ---------------------------------------------------------------------------
// Expansion
// ---------------------------------------------------------------------------

/// Enters one weekly row: its service, and every day on which the row has it
/// run. A range that ends before it starts means no days.
fn enter_weekly(table: &mut ServiceTable, row: &CalendarRow, first: i32, last: i32)
    requires
        old(table).well_formed(),
        date::in_calendar(first as int),
        date::in_calendar(last as int),
    ensures
        final(table).well_formed(),
        final(table)@ == with_days(
            old(table)@,
            row.service_id@,
            Set::new(|day: int| row_runs(*row, Some(first as int), Some(last as int), day)),
        ),
{
    let ghost id = row.service_id@;
    let ghost before = table@;
    let ghost runs = Set::new(
        |day: int| row_runs(*row, Some(first as int), Some(last as int), day),
    );
    let slot: usize = table.enter(row.service_id.as_str());
    let ghost entered = table@;
    let mut day: i32 = first;
    proof {
        assert(table.slots@.contains_key(table.ids@[slot as int]@));
        assert(entered.contains_key(id));
        assert(entered =~= entered.insert(
            id,
            entered[id].union(Set::new(|d: int| d < first && runs.contains(d))),
        )) by {
            assert(entered[id] =~= entered[id].union(
                Set::new(|d: int| d < first && runs.contains(d)),
            ));
        }
    }
    while day <= last
        invariant
            date::in_calendar(first as int),
            date::in_calendar(last as int),
            first <= day,
            date::in_calendar(day - 1) || day == first,
            table.well_formed(),
            slot < table.ids@.len(),
            table.ids@[slot as int]@ == id,
            id == row.service_id@,
            entered.contains_key(id),
            runs == Set::new(
                |day: int| row_runs(*row, Some(first as int), Some(last as int), day),
            ),
            table@ == entered.insert(
                id,
                entered[id].union(Set::new(|d: int| d < day && runs.contains(d))),
            ),
        decreases last + 1 - day,
    {
        let ghost upto = Set::new(|d: int| d < day && runs.contains(d));
        let ghost next = Set::new(|d: int| d < day + 1 && runs.contains(d));
        if let Some(date) = Date::from_day(day) {
            if row.runs_on_weekday(date.days_from_monday()) {
                table.put(slot, date);
                proof {
                    assert(entered[id].union(upto).insert(day as int) =~= entered[id].union(next));
                    assert(table@ =~= entered.insert(id, entered[id].union(next)));
                }
            } else {
                proof {
                    assert(entered[id].union(upto) =~= entered[id].union(next));
                }
            }
        }
        day = day + 1;
    }
    proof {
        let upto = Set::new(|d: int| d < day && runs.contains(d));
        assert(upto =~= runs);
        assert(table@ =~= with_days(before, id, runs));
    }
}

/// Every service id in a feed, expanded to the dates it actually runs.
pub struct ServiceCalendar {
    table: ServiceTable,
    none: DateSet,
}

impl View for ServiceCalendar {
    type V = Map<Seq<char>, Set<int>>;

    closed spec fn view(&self) -> Map<Seq<char>, Set<int>> {
        self.table@
    }
}

/// Whether every reading is a day of the calendar.
pub open spec fn plausible(dates: Seq<Option<i32>>) -> bool {
    forall|i: int|
        0 <= i < dates.len() ==> ((#[trigger] dates[i]) matches Some(day) ==> date::in_calendar(
            day as int,
        ))
}

impl Default for ServiceCalendar {
    /// A calendar without services.
    fn default() -> (r: ServiceCalendar)
        ensures
            r@ == Map::<Seq<char>, Set<int>>::empty(),
    {
        ServiceCalendar { table: ServiceTable::new(), none: DateSet::new() }
    }
}

impl ServiceCalendar {
    #[verifier::type_invariant]
    spec fn sound(self) -> bool {
        self.table.well_formed() && self.none@ == Set::<int>::empty()
    }

    /// Expands a feed's calendar files.
    ///
    /// A service that resolves to no dates at all is kept as an empty entry
    /// rather than dropped: a service that exists and runs nowhere is a real
    /// state of a feed near the end of its validity.
    pub fn build(feed: &StaticFeed) -> (r: Result<ServiceCalendar, Error>)
        ensures
            match r {
                Ok(calendar) => feed_calendar_fault(feed.calendar@, feed.calendar_dates@) is None
                    && calendar@ == feed_expansion(feed.calendar@, feed.calendar_dates@),
                Err(e) => e@ matches ErrorView::Feed(fault) && feed_calendar_fault(
                    feed.calendar@,
                    feed.calendar_dates@,
                ) == Some(fault),
            },
    {
        ServiceCalendar::expand(&feed.calendar, &feed.calendar_dates)
    }

    /// Expands the rows of `calendar.txt` and `calendar_dates.txt`.
    pub fn expand(weekly: &Vec<CalendarRow>, exceptions: &Vec<CalendarDateRow>) -> (r: Result<
        ServiceCalendar,
        Error,
    >)
        ensures
            match r {
                Ok(calendar) => feed_calendar_fault(weekly@, exceptions@) is None && calendar@
                    == feed_expansion(weekly@, exceptions@),
                Err(e) => e@ matches ErrorView::Feed(fault) && feed_calendar_fault(
                    weekly@,
                    exceptions@,
                ) == Some(fault),
            },
    {
        let mut starts: Vec<Option<i32>> = Vec::new();
        let mut ends: Vec<Option<i32>> = Vec::new();
        let mut i: usize = 0;
        while i < weekly.len()
            invariant
                i <= weekly@.len(),
                starts@.len() == i,
                ends@.len() == i,
                plausible(starts@),
                plausible(ends@),
                forall|k: int|
                    0 <= k < i ==> date::as_day(#[trigger] starts@[k]) == time::date_reading(
                        weekly@[k].start_date@,
                    ),
                forall|k: int|
                    0 <= k < i ==> date::as_day(#[trigger] ends@[k]) == time::date_reading(
                        weekly@[k].end_date@,
                    ),
            decreases weekly@.len() - i,
        {
            starts.push(time::read_date(weekly[i].start_date.as_str()));
            ends.push(time::read_date(weekly[i].end_date.as_str()));
            i = i + 1;
        }
        let mut days: Vec<Option<i32>> = Vec::new();
        let mut j: usize = 0;
        while j < exceptions.len()
            invariant
                j <= exceptions@.len(),
                days@.len() == j,
                plausible(days@),
                forall|k: int|
                    0 <= k < j ==> date::as_day(#[trigger] days@[k]) == time::date_reading(
                        exceptions@[k].date@,
                    ),
            decreases exceptions@.len() - j,
        {
            days.push(time::read_date(exceptions[j].date.as_str()));
            j = j + 1;
        }
        assert(readings(starts@) =~= start_readings(weekly@));
        assert(readings(ends@) =~= end_readings(weekly@));
        assert(readings(days@) =~= exception_readings(exceptions@));
        ServiceCalendar::expand_readings(weekly, &starts, &ends, exceptions, &days)
    }

    /// Expands the rows of `calendar.txt` and `calendar_dates.txt`, given the
    /// day number that each of their dates reads as.
    pub fn expand_readings(
        weekly: &Vec<CalendarRow>,
        starts: &Vec<Option<i32>>,
        ends: &Vec<Option<i32>>,
        exceptions: &Vec<CalendarDateRow>,
        days: &Vec<Option<i32>>,
    ) -> (r: Result<ServiceCalendar, Error>)
        requires
            starts@.len() == weekly@.len(),
            ends@.len() == weekly@.len(),
            days@.len() == exceptions@.len(),
            plausible(starts@),
            plausible(ends@),
            plausible(days@),
        ensures
            match r {
                Ok(calendar) => calendar_fault(
                    weekly@,
                    readings(starts@),
                    readings(ends@),
                    exceptions@,
                    readings(days@),
                ) is None && calendar@ == expansion(
                    weekly@,
                    readings(starts@),
                    readings(ends@),
                    exceptions@,
                    exceptions@,
                    readings(days@),
                ),
                Err(e) => e@ matches ErrorView::Feed(fault) && calendar_fault(
                    weekly@,
                    readings(starts@),
                    readings(ends@),
                    exceptions@,
                    readings(days@),
                ) == Some(fault),
            },
    {
        let ghost first_days = readings(starts@);
        let ghost last_days = readings(ends@);
        let ghost exception_days = readings(days@);
        let ghost none = Seq::<CalendarDateRow>::empty();
        let mut table: ServiceTable = ServiceTable::new();
        let mut i: usize = 0;
        proof {
            lemma_no_rows(first_days, last_days, exception_days);
            assert(weekly@.take(0) =~= Seq::<CalendarRow>::empty());
        }
        while i < weekly.len()
            invariant
                starts@.len() == weekly@.len(),
                ends@.len() == weekly@.len(),
                plausible(starts@),
                plausible(ends@),
                first_days == readings(starts@),
                last_days == readings(ends@),
                none == Seq::<CalendarDateRow>::empty(),
                i <= weekly@.len(),
                table.well_formed(),
                weekly_fault(weekly@.take(i as int), first_days, last_days) is None,
                table@ == expansion(
                    weekly@.take(i as int),
                    first_days,
                    last_days,
                    none,
                    none,
                    exception_days,
                ),
            decreases weekly@.len() - i,
        {
            let row: &CalendarRow = &weekly[i];
            let ghost upto = weekly@.take(i + 1);
            assert(upto.drop_last() =~= weekly@.take(i as int));
            assert(first_days[i as int] == date::as_day(starts@[i as int]));
            assert(last_days[i as int] == date::as_day(ends@[i as int]));
            let start: Date = match time::date_from(
                starts[i],
                row.start_date.as_str(),
                "calendar.txt",
            ) {
                Ok(date) => date,
                Err(e) => {
                    proof {
                        lemma_weekly_fault_stays(weekly@, first_days, last_days, i + 1);
                    }
                    return Err(Error::Feed(e));
                },
            };
            let end: Date = match time::date_from(ends[i], row.end_date.as_str(), "calendar.txt") {
                Ok(date) => date,
                Err(e) => {
                    proof {
                        lemma_weekly_fault_stays(weekly@, first_days, last_days, i + 1);
                    }
                    return Err(Error::Feed(e));
                },
            };
            let span: i64 = end.day() as i64 - start.day() as i64;
            if span > MAX_SERVICE_SPAN_DAYS {
                proof {
                    lemma_weekly_fault_stays(weekly@, first_days, last_days, i + 1);
                }
                return Err(
                    Error::Feed(
                        FeedError::ImplausibleServiceRange {
                            service_id: row.service_id.clone(),
                            start: start.to_text(),
                            end: end.to_text(),
                        },
                    ),
                );
            }
            proof {
                lemma_weekly_step(weekly@, first_days, last_days, exception_days, i as int);
            }
            enter_weekly(&mut table, row, start.day(), end.day());
            i = i + 1;
        }
        assert(weekly@.take(weekly@.len() as int) =~= weekly@);

        // Two passes, so that an addition and a removal on the same date
        // resolve to "does not run" whatever the order of the rows.
        let mut j: usize = 0;
        assert(exceptions@.take(0) =~= none);
        while j < exceptions.len()
            invariant
                days@.len() == exceptions@.len(),
                plausible(days@),
                exception_days == readings(days@),
                none == Seq::<CalendarDateRow>::empty(),
                weekly_fault(weekly@, first_days, last_days) is None,
                j <= exceptions@.len(),
                table.well_formed(),
                addition_fault(exceptions@.take(j as int), exception_days) is None,
                table@ == expansion(
                    weekly@,
                    first_days,
                    last_days,
                    exceptions@.take(j as int),
                    none,
                    exception_days,
                ),
                first_days == readings(starts@),
                last_days == readings(ends@),
            decreases exceptions@.len() - j,
        {
            let row: &CalendarDateRow = &exceptions[j];
            let ghost upto = exceptions@.take(j + 1);
            assert(upto.drop_last() =~= exceptions@.take(j as int));
            assert(exception_days[j as int] == date::as_day(days@[j as int]));
            if row.adds_service() {
                let date: Date = match time::date_from(
                    days[j],
                    row.date.as_str(),
                    "calendar_dates.txt",
                ) {
                    Ok(date) => date,
                    Err(e) => {
                        proof {
                            lemma_addition_fault_stays(exceptions@, exception_days, j + 1);
                        }
                        return Err(Error::Feed(e));
                    },
                };
                let ghost before = table@;
                let slot: usize = table.enter(row.service_id.as_str());
                table.put(slot, date);
                proof {
                    let id = row.service_id@;
                    let one = Set::<int>::empty().insert(date@);
                    if before.contains_key(id) {
                        assert(before[id].insert(date@) =~= before[id].union(one));
                    } else {
                        assert(Set::<int>::empty().insert(date@) =~= Set::<int>::empty().union(one));
                    }
                    assert(table@ =~= with_days(before, id, one));
                }
            }
            proof {
                lemma_addition_step(
                    weekly@,
                    first_days,
                    last_days,
                    exceptions@,
                    exception_days,
                    j as int,
                );
            }
            j = j + 1;
        }
        assert(exceptions@.take(exceptions@.len() as int) =~= exceptions@);

        let mut k: usize = 0;
        assert(exceptions@.take(0) =~= none);
        while k < exceptions.len()
            invariant
                days@.len() == exceptions@.len(),
                plausible(days@),
                exception_days == readings(days@),
                weekly_fault(weekly@, first_days, last_days) is None,
                addition_fault(exceptions@, exception_days) is None,
                k <= exceptions@.len(),
                table.well_formed(),
                removal_fault(exceptions@.take(k as int), exception_days) is None,
                table@ == expansion(
                    weekly@,
                    first_days,
                    last_days,
                    exceptions@,
                    exceptions@.take(k as int),
                    exception_days,
                ),
                first_days == readings(starts@),
                last_days == readings(ends@),
            decreases exceptions@.len() - k,
        {
            let row: &CalendarDateRow = &exceptions[k];
            let ghost upto = exceptions@.take(k + 1);
            assert(upto.drop_last() =~= exceptions@.take(k as int));
            assert(exception_days[k as int] == date::as_day(days@[k as int]));
            if row.exception_type == 2 {
                let date: Date = match time::date_from(
                    days[k],
                    row.date.as_str(),
                    "calendar_dates.txt",
                ) {
                    Ok(date) => date,
                    Err(e) => {
                        proof {
                            lemma_removal_fault_stays(exceptions@, exception_days, k + 1);
                        }
                        return Err(Error::Feed(e));
                    },
                };
                table.cut(row.service_id.as_str(), date);
            } else if row.exception_type != 1 {
                proof {
                    lemma_removal_fault_stays(exceptions@, exception_days, k + 1);
                }
                return Err(
                    Error::Feed(
                        FeedError::BadExceptionType {
                            service_id: row.service_id.clone(),
                            value: row.exception_type,
                        },
                    ),
                );
            }
            proof {
                lemma_removal_step(
                    weekly@,
                    first_days,
                    last_days,
                    exceptions@,
                    exception_days,
                    k as int,
                );
            }
            k = k + 1;
        }
        assert(exceptions@.take(exceptions@.len() as int) =~= exceptions@);
        Ok(ServiceCalendar { table, none: DateSet::new() })
    }
}

/// What is wrong with a feed's calendar files, if anything is.
pub open spec fn feed_calendar_fault(
    weekly: Seq<CalendarRow>,
    exceptions: Seq<CalendarDateRow>,
) -> Option<FeedErrorView> {
    calendar_fault(
        weekly,
        start_readings(weekly),
        end_readings(weekly),
        exceptions,
        exception_readings(exceptions),
    )
}

/// Every service of a feed with the days it runs.
pub open spec fn feed_expansion(
    weekly: Seq<CalendarRow>,
    exceptions: Seq<CalendarDateRow>,
) -> Map<Seq<char>, Set<int>> {
    expansion(
        weekly,
        start_readings(weekly),
        end_readings(weekly),
        exceptions,
        exceptions,
        exception_readings(exceptions),
    )
}

// ---------------------------------------------------------------------------
// Questions
// ---------------------------------------------------------------------------

/// Whether a service runs on a day.
pub open spec fn runs(calendar: Map<Seq<char>, Set<int>>, service: Seq<char>, day: int) -> bool {
    calendar.contains_key(service) && calendar[service].contains(day)
}

/// The days on which anything runs.
pub open spec fn active_days(calendar: Map<Seq<char>, Set<int>>) -> Set<int> {
    Set::new(|day: int| exists|service: Seq<char>| #[trigger] runs(calendar, service, day))
}

/// Whether `services` holds the services that run on a day, in the order of
/// strings and each once.
pub open spec fn lists_running(
    services: Seq<Seq<char>>,
    calendar: Map<Seq<char>, Set<int>>,
    day: int,
) -> bool {
    &&& forall|i: int, j: int|
        0 <= i < j < services.len() ==> text::text_lt(#[trigger] services[i], #[trigger] services[j])
    &&& forall|service: Seq<char>| #[trigger]
        services.contains(service) <==> runs(calendar, service, day)
}

/// Whether `coverage` is that of a calendar: its first and its last day of
/// service, if it has any.
pub open spec fn is_coverage(
    calendar: Map<Seq<char>, Set<int>>,
    coverage: Option<(Date, Date)>,
) -> bool {
    match coverage {
        Some((first, last)) => {
            &&& active_days(calendar).contains(first@)
            &&& active_days(calendar).contains(last@)
            &&& forall|day: int| #[trigger]
                active_days(calendar).contains(day) ==> first@ <= day <= last@
        },
        None => active_days(calendar) == Set::<int>::empty(),
    }
}

/// The order of service ids.
struct ByName<'a> {
    ids: &'a Vec<String>,
}

impl<'a> Order for ByName<'a> {
    closed spec fn leq(&self, a: int, b: int) -> bool {
        text::text_lt(self.ids@[a]@, self.ids@[b]@) || (self.ids@[a]@ == self.ids@[b]@ && a <= b)
    }

    closed spec fn has(&self, row: int) -> bool {
        0 <= row < self.ids@.len()
    }

    proof fn lemma_total(&self) {
        let leq = |a: int, b: int| self.leq(a, b);
        assert forall|a: int, b: int| #[trigger] leq(a, b) || leq(b, a) by {
            text::lemma_text_le_total(self.ids@[a]@, self.ids@[b]@);
        }
        assert forall|a: int, b: int| #[trigger] leq(a, b) && #[trigger] leq(b, a) implies a
            == b by {
            text::lemma_text_le_total(self.ids@[a]@, self.ids@[b]@);
        }
        assert forall|a: int, b: int, c: int| #[trigger] leq(a, b) && #[trigger] leq(b, c) implies leq(
            a,
            c,
        ) by {
            let x = self.ids@[a]@;
            let y = self.ids@[b]@;
            let z = self.ids@[c]@;
            if x != y && y != z {
                text::lemma_text_le_transitive(x, y, z);
                text::lemma_text_le_total(x, y);
            }
        }
    }

    fn not_after(&self, a: usize, b: usize) -> (r: bool) {
        let before: bool = text::not_after(self.ids[a].as_str(), self.ids[b].as_str());
        proof {
            text::lemma_text_le_total(self.ids@[a as int]@, self.ids@[b as int]@);
        }
        if !before {
            return false;
        }
        if text::same(self.ids[a].as_str(), self.ids[b].as_str()) {
            a <= b
        } else {
            true
        }
    }
}

impl ServiceCalendar {
    /// Dates `service_id` runs on. Empty for an unknown service.
    pub fn dates_for(&self, service_id: &str) -> (r: &DateSet)
        ensures
            r@ == (if self@.contains_key(service_id@) {
                self@[service_id@]
            } else {
                Set::<int>::empty()
            }),
    {
        proof {
            use_type_invariant(self);
        }
        match self.table.slots.get(service_id) {
            Some(slot) => {
                assert(self.table.slots@.contains_key(service_id@));
                &self.table.days[*slot]
            },
            None => &self.none,
        }
    }

    /// Whether a service runs on `date`.
    pub fn runs_on(&self, service_id: &str, date: Date) -> (r: bool)
        ensures
            r == runs(self@, service_id@, date@),
    {
        self.dates_for(service_id).contains(&date)
    }

    /// Every service running on `date`, sorted for deterministic output.
    pub fn services_on(&self, date: Date) -> (r: Vec<&str>)
        ensures
            lists_running(keys::slice_texts(r@), self@, date@),
    {
        proof {
            use_type_invariant(self);
        }
        let ids: &Vec<String> = &self.table.ids;
        let mut slots: Vec<usize> = Vec::new();
        let mut i: usize = 0;
        while i < ids.len()
            invariant
                self.table.well_formed(),
                ids == &self.table.ids,
                i <= ids@.len(),
                forall|k: int| 0 <= k < slots@.len() ==> (#[trigger] slots@[k]) < i,
                forall|k: int, l: int|
                    0 <= k < l < slots@.len() ==> (#[trigger] slots@[k]) < (#[trigger] slots@[l]),
                forall|slot: int|
                    0 <= slot < i ==> (keys::ints(slots@).contains(slot)
                        <==> self.table.days@[slot]@.contains(date@)),
            decreases ids@.len() - i,
        {
            let ghost before = slots@;
            if self.table.days[i].contains(&date) {
                slots.push(i);
                proof {
                    let now = keys::ints(slots@);
                    let old_now = keys::ints(before);
                    assert(now =~= old_now.push(i as int));
                    assert(now[before.len() as int] == i as int);
                    assert forall|slot: int| 0 <= slot < i + 1 implies (now.contains(slot)
                        <==> self.table.days@[slot]@.contains(date@)) by {
                        if slot < i {
                            if old_now.contains(slot) {
                                let k = choose|k: int|
                                    0 <= k < old_now.len() && old_now[k] == slot;
                                assert(now[k] == slot);
                            }
                            if now.contains(slot) {
                                let k = choose|k: int| 0 <= k < now.len() && now[k] == slot;
                                assert(old_now[k] == slot);
                            }
                        }
                    }
                }
            } else {
                proof {
                    let now = keys::ints(slots@);
                    if now.contains(i as int) {
                        let k = choose|k: int| 0 <= k < now.len() && now[k] == i as int;
                        assert(slots@[k] < i);
                    }
                }
            }
            i = i + 1;
        }
        let order: ByName = ByName { ids };
        let sorted: Vec<usize> = sort::sorted(&order, &slots);
        let ghost leq = |a: int, b: int| order.leq(a, b);
        let ghost found = keys::ints(slots@);
        let ghost ranked = keys::ints(sorted@);
        proof {
            broadcast use vstd::seq_lib::group_to_multiset_ensures;

            order.lemma_total();
            found.lemma_sort_by_ensures(leq);
            assert(ranked.to_multiset() == found.to_multiset());
            assert forall|x: int| #[trigger] ranked.contains(x) <==> found.contains(x) by {
                assert(ranked.to_multiset().count(x) == found.to_multiset().count(x));
            }
            assert(found.no_duplicates()) by {
                assert forall|a: int, b: int|
                    0 <= a < found.len() && 0 <= b < found.len() && a != b implies found[a]
                    != found[b] by {
                    if a < b {
                        assert(slots@[a] < slots@[b]);
                    } else {
                        assert(slots@[b] < slots@[a]);
                    }
                }
            }
            found.lemma_multiset_has_no_duplicates();
            ranked.lemma_multiset_has_no_duplicates_conv();
        }
        let mut r: Vec<&str> = Vec::new();
        let mut j: usize = 0;
        assert forall|k: int| 0 <= k < sorted@.len() implies (#[trigger] sorted@[k]) < ids@.len() by {
            assert(ranked[k] == sorted@[k]);
            assert(ranked.contains(sorted@[k] as int));
            let l = choose|l: int| 0 <= l < found.len() && found[l] == sorted@[k] as int;
            assert(slots@[l] < i);
        }
        while j < sorted.len()
            invariant
                ids == &self.table.ids,
                j <= sorted@.len(),
                r@.len() == j,
                forall|k: int| 0 <= k < sorted@.len() ==> (#[trigger] sorted@[k]) < ids@.len(),
                forall|k: int|
                    0 <= k < j ==> (#[trigger] r@[k])@ == ids@[sorted@[k] as int]@,
            decreases sorted@.len() - j,
        {
            r.push(ids[sorted[j]].as_str());
            j = j + 1;
        }
        proof {
            let names = keys::slice_texts(r@);
            assert forall|a: int, b: int| 0 <= a < b < names.len() implies text::text_lt(
                #[trigger] names[a],
                #[trigger] names[b],
            ) by {
                assert(ranked[a] == sorted@[a]);
                assert(ranked[b] == sorted@[b]);
                assert(leq(ranked[a], ranked[b]));
                assert(ranked[a] != ranked[b]);
                assert(names[a] == r@[a]@);
                assert(names[b] == r@[b]@);
                let x = sorted@[a] as int;
                let y = sorted@[b] as int;
                assert(self.table.slots@[self.table.ids@[x]@] == x);
                assert(self.table.slots@[self.table.ids@[y]@] == y);
            }
            assert forall|service: Seq<char>| #[trigger]
                names.contains(service) <==> runs(self@, service, date@) by {
                if names.contains(service) {
                    let k = choose|k: int| 0 <= k < names.len() && names[k] == service;
                    assert(names[k] == r@[k]@);
                    let slot = sorted@[k] as int;
                    assert(ranked[k] == slot);
                    assert(ranked.contains(slot));
                    assert(found.contains(slot));
                    assert(self.table.slots@.contains_key(self.table.ids@[slot]@));
                }
                if runs(self@, service, date@) {
                    let slot = self.table.slots@[service] as int;
                    assert(self.table.slots@.contains_key(service));
                    assert(found.contains(slot));
                    assert(ranked.contains(slot));
                    let k = choose|k: int| 0 <= k < ranked.len() && ranked[k] == slot;
                    assert(ranked[k] == sorted@[k]);
                    assert(names[k] == r@[k]@);
                }
            }
        }
        r
    }

    /// First and last date any service runs. `None` when nothing runs at all.
    pub fn coverage(&self) -> (r: Option<(Date, Date)>)
        ensures
            match r {
                Some((first, last)) => {
                    &&& active_days(self@).contains(first@)
                    &&& active_days(self@).contains(last@)
                    &&& forall|day: int| #[trigger]
                        active_days(self@).contains(day) ==> first@ <= day <= last@
                },
                None => active_days(self@) == Set::<int>::empty(),
            },
            is_coverage(self@, r),
    {
        let active: DateSet = self.active_dates();
        match (active.first(), active.last()) {
            (Some(first), Some(last)) => Some((*first, *last)),
            _ => {
                proof {
                    assert(active@ == Set::<int>::empty());
                }
                None
            },
        }
    }

    /// The number of services, those that run nowhere among them.
    pub fn service_count(&self) -> (r: usize)
        ensures
            r == self@.dom().len(),
            self@.dom().finite(),
    {
        proof {
            use_type_invariant(self);
            let names = keys::texts(self.table.ids@);
            assert(names.no_duplicates()) by {
                assert forall|i: int, j: int|
                    0 <= i < names.len() && 0 <= j < names.len() && i != j implies names[i]
                    != names[j] by {
                    assert(names[i] == self.table.ids@[i]@);
                    assert(names[j] == self.table.ids@[j]@);
                }
            }
            names.unique_seq_to_set();
            assert(self@.dom() =~= names.to_set()) by {
                assert forall|id: Seq<char>| #[trigger]
                    self@.dom().contains(id) <==> names.to_set().contains(id) by {
                    if self@.contains_key(id) {
                        assert(self.table.slots@.contains_key(id));
                        assert(names[self.table.slots@[id] as int] == id);
                    }
                    if names.contains(id) {
                        let i = choose|i: int| 0 <= i < names.len() && names[i] == id;
                        assert(self.table.slots@.contains_key(self.table.ids@[i]@));
                    }
                }
            }
        }
        self.table.ids.len()
    }

    /// Distinct dates on which anything runs.
    pub fn active_dates(&self) -> (r: DateSet)
        ensures
            r@ == active_days(self@),
    {
        proof {
            use_type_invariant(self);
        }
        let mut r: DateSet = DateSet::new();
        let mut i: usize = 0;
        while i < self.table.days.len()
            invariant
                self.table.well_formed(),
                i <= self.table.days@.len(),
                forall|day: int| #[trigger]
                    r@.contains(day) <==> exists|k: int|
                        0 <= k < i && (#[trigger] self.table.days@[k])@.contains(day),
            decreases self.table.days@.len() - i,
        {
            let dates: Vec<Date> = self.table.days[i].to_vec();
            let ghost days = date_set::days_of(dates@);
            let ghost before = r@;
            let mut j: usize = 0;
            while j < dates.len()
                invariant
                    j <= dates@.len(),
                    days == date_set::days_of(dates@),
                    forall|day: int| #[trigger]
                        r@.contains(day) <==> before.contains(day) || days.take(
                            j as int,
                        ).contains(day),
                decreases dates@.len() - j,
            {
                r.insert(dates[j]);
                proof {
                    assert(days.take(j + 1) =~= days.take(j as int).push(dates@[j as int]@));
                    assert forall|day: int| #[trigger]
                        r@.contains(day) <==> before.contains(day) || days.take(j + 1).contains(
                            day,
                        ) by {
                        let shorter = days.take(j as int);
                        let longer = days.take(j + 1);
                        if shorter.contains(day) {
                            let k = choose|k: int| 0 <= k < shorter.len() && shorter[k] == day;
                            assert(longer[k] == day);
                        }
                        assert(longer[j as int] == dates@[j as int]@);
                        if longer.contains(day) {
                            let k = choose|k: int| 0 <= k < longer.len() && longer[k] == day;
                            if k < j {
                                assert(shorter[k] == day);
                            }
                        }
                    }
                }
                j = j + 1;
            }
            proof {
                assert(days.take(days.len() as int) =~= days);
                assert forall|day: int| #[trigger]
                    r@.contains(day) <==> exists|k: int|
                        0 <= k < i + 1 && (#[trigger] self.table.days@[k])@.contains(day) by {
                    assert(days.contains(day) <==> self.table.days@[i as int]@.contains(day)) by {
                        assert(days.to_set().contains(day) <==> days.contains(day));
                    }
                }
            }
            i = i + 1;
        }
        proof {
            assert forall|day: int| #[trigger]
                r@.contains(day) <==> active_days(self@).contains(day) by {
                if r@.contains(day) {
                    let k = choose|k: int|
                        0 <= k < i && (#[trigger] self.table.days@[k])@.contains(day);
                    let id = self.table.ids@[k]@;
                    assert(self.table.slots@.contains_key(id));
                    assert(runs(self@, id, day));
                }
                if active_days(self@).contains(day) {
                    let id = choose|id: Seq<char>| #[trigger] runs(self@, id, day);
                    assert(self.table.slots@.contains_key(id));
                    let k = self.table.slots@[id] as int;
                    assert(self.table.days@[k]@.contains(day));
                }
            }
            assert(r@ =~= active_days(self@));
        }
        r
    }
}

// ---------------------------------------------------------------------------
// Laws
// ---------------------------------------------------------------------------

/// A removal wins over everything else that is said of the same date.
pub proof fn law_removal_wins(
    weekly: Seq<CalendarRow>,
    exceptions: Seq<CalendarDateRow>,
    service: Seq<char>,
    day: int,
)
    requires
        excepted(exceptions, exception_readings(exceptions), 2, service, day),
    ensures
        !runs(feed_expansion(weekly, exceptions), service, day),
{
}

/// An addition that no removal contradicts puts the day into service, whether
/// or not it lies within a range of `calendar.txt`.
pub proof fn law_additions_are_not_clipped(
    weekly: Seq<CalendarRow>,
    exceptions: Seq<CalendarDateRow>,
    service: Seq<char>,
    day: int,
)
    requires
        excepted(exceptions, exception_readings(exceptions), 1, service, day),
        !excepted(exceptions, exception_readings(exceptions), 2, service, day),
    ensures
        runs(feed_expansion(weekly, exceptions), service, day),
{
    let days = exception_readings(exceptions);
    let i = choose|i: int|
        0 <= i < exceptions.len() && (#[trigger] exceptions[i]).service_id@ == service
            && exceptions[i].exception_type == 1 && days[i] == Some(day);
    assert(defined(weekly, exceptions, service));
}

/// A row whose range ends before it starts is no fault and has no days, and its
/// service is still there.
pub proof fn law_inverted_range_has_no_days(
    weekly: Seq<CalendarRow>,
    exceptions: Seq<CalendarDateRow>,
    i: int,
)
    requires
        0 <= i < weekly.len(),
        start_readings(weekly)[i] is Some,
        end_readings(weekly)[i] is Some,
        end_readings(weekly)[i]->0 < start_readings(weekly)[i]->0,
    ensures
        weekly_row_fault(weekly[i], start_readings(weekly)[i], end_readings(weekly)[i]) is None,
        forall|day: int|
            !#[trigger] row_runs(
                weekly[i],
                start_readings(weekly)[i],
                end_readings(weekly)[i],
                day,
            ),
        feed_expansion(weekly, exceptions).contains_key(weekly[i].service_id@),
{
    assert(defined(weekly, exceptions, weekly[i].service_id@));
}

/// The order in which the rows of `calendar_dates.txt` stand, and how often they
/// are repeated, makes no difference to the days of service, nor to whether the
/// files are accepted.
pub proof fn law_exception_order_is_irrelevant(
    weekly: Seq<CalendarRow>,
    exceptions: Seq<CalendarDateRow>,
    others: Seq<CalendarDateRow>,
)
    requires
        exceptions.to_set() == others.to_set(),
    ensures
        feed_expansion(weekly, exceptions) == feed_expansion(weekly, others),
        feed_calendar_fault(weekly, exceptions) is None <==> feed_calendar_fault(
            weekly,
            others,
        ) is None,
{
    lemma_same_rows(weekly, exceptions, others);
    lemma_same_rows(weekly, others, exceptions);
    lemma_same_faults(exceptions, others);
    lemma_same_faults(others, exceptions);
    let a = feed_expansion(weekly, exceptions);
    let b = feed_expansion(weekly, others);
    assert forall|service: Seq<char>| a.contains_key(service) implies #[trigger] a[service]
        == b[service] by {
        assert forall|day: int| a[service].contains(day) <==> b[service].contains(day) by {
            assert(excepted(exceptions, exception_readings(exceptions), 1, service, day)
                == excepted(others, exception_readings(others), 1, service, day));
            assert(excepted(exceptions, exception_readings(exceptions), 2, service, day)
                == excepted(others, exception_readings(others), 2, service, day));
        }
        assert(a[service] =~= b[service]);
    }
    assert forall|service: Seq<char>| a.contains_key(service) <==> b.contains_key(service) by {
        assert(defined(weekly, exceptions, service) == defined(weekly, others, service));
    }
    assert(a =~= b);
}

/// The exceptions have no fault exactly when none of them has one.
proof fn lemma_faultless_rows(rows: Seq<CalendarDateRow>, days: Seq<Option<int>>)
    ensures
        addition_fault(rows, days) is None <==> forall|i: int|
            0 <= i < rows.len() ==> addition_row_fault(#[trigger] rows[i], days[i]) is None,
        removal_fault(rows, days) is None <==> forall|i: int|
            0 <= i < rows.len() ==> removal_row_fault(#[trigger] rows[i], days[i]) is None,
    decreases rows.len(),
{
    if rows.len() > 0 {
        let before = rows.drop_last();
        let n = rows.len() - 1;
        lemma_faultless_rows(before, days);
        assert forall|i: int| 0 <= i < n implies #[trigger] rows[i] == before[i] by {}
        if addition_fault(rows, days) is None {
            assert forall|i: int| 0 <= i < rows.len() implies addition_row_fault(
                #[trigger] rows[i],
                days[i],
            ) is None by {
                if i < n {
                    assert(addition_row_fault(before[i], days[i]) is None);
                }
            }
        }
        if removal_fault(rows, days) is None {
            assert forall|i: int| 0 <= i < rows.len() implies removal_row_fault(
                #[trigger] rows[i],
                days[i],
            ) is None by {
                if i < n {
                    assert(removal_row_fault(before[i], days[i]) is None);
                }
            }
        }
        if addition_fault(before, days) is Some {
            let i = choose|i: int|
                0 <= i < before.len() && addition_row_fault(#[trigger] before[i], days[i]) is Some;
            assert(addition_row_fault(rows[i], days[i]) is Some);
        }
        if removal_fault(before, days) is Some {
            let i = choose|i: int|
                0 <= i < before.len() && removal_row_fault(#[trigger] before[i], days[i]) is Some;
            assert(removal_row_fault(rows[i], days[i]) is Some);
        }
        assert(rows[n] == rows.last());
    }
}

proof fn lemma_same_faults(rows: Seq<CalendarDateRow>, others: Seq<CalendarDateRow>)
    requires
        rows.to_set() == others.to_set(),
    ensures
        addition_fault(others, exception_readings(others)) is None ==> addition_fault(
            rows,
            exception_readings(rows),
        ) is None,
        removal_fault(others, exception_readings(others)) is None ==> removal_fault(
            rows,
            exception_readings(rows),
        ) is None,
{
    let days = exception_readings(rows);
    let other_days = exception_readings(others);
    lemma_faultless_rows(rows, days);
    lemma_faultless_rows(others, other_days);
    if addition_fault(others, other_days) is None {
        assert forall|i: int| 0 <= i < rows.len() implies addition_row_fault(
            #[trigger] rows[i],
            days[i],
        ) is None by {
            let j = lemma_other_row(rows, others, i);
            assert(addition_row_fault(others[j], other_days[j]) is None);
        }
    }
    if removal_fault(others, other_days) is None {
        assert forall|i: int| 0 <= i < rows.len() implies removal_row_fault(
            #[trigger] rows[i],
            days[i],
        ) is None by {
            let j = lemma_other_row(rows, others, i);
            assert(removal_row_fault(others[j], other_days[j]) is None);
        }
    }
}

/// The place of a row among others that hold the same rows.
proof fn lemma_other_row(rows: Seq<CalendarDateRow>, others: Seq<CalendarDateRow>, i: int) -> (j: int)
    requires
        rows.to_set() == others.to_set(),
        0 <= i < rows.len(),
    ensures
        0 <= j < others.len(),
        others[j] == rows[i],
        exception_readings(others)[j] == exception_readings(rows)[i],
{
    assert(rows.to_set().contains(rows[i]));
    assert(others.contains(rows[i]));
    choose|j: int| 0 <= j < others.len() && others[j] == rows[i]
}

proof fn lemma_same_rows(
    weekly: Seq<CalendarRow>,
    rows: Seq<CalendarDateRow>,
    others: Seq<CalendarDateRow>,
)
    requires
        rows.to_set() == others.to_set(),
    ensures
        forall|kind: int, service: Seq<char>, day: int|
            excepted(rows, exception_readings(rows), kind, service, day) ==> excepted(
                others,
                exception_readings(others),
                kind,
                service,
                day,
            ),
        forall|service: Seq<char>|
            defined(weekly, rows, service) ==> defined(weekly, others, service),
{
    assert forall|i: int| 0 <= i < rows.len() implies others.contains(#[trigger] rows[i]) by {
        assert(rows.to_set().contains(rows[i]));
    }
    assert forall|kind: int, service: Seq<char>, day: int|
        excepted(rows, exception_readings(rows), kind, service, day) implies excepted(
        others,
        exception_readings(others),
        kind,
        service,
        day,
    ) by {
        let i = choose|i: int|
            0 <= i < rows.len() && (#[trigger] rows[i]).service_id@ == service
                && rows[i].exception_type == kind && exception_readings(rows)[i] == Some(day);
        assert(others.contains(rows[i]));
        let j = choose|j: int| 0 <= j < others.len() && others[j] == rows[i];
        assert(others[j].service_id@ == service);
        assert(exception_readings(others)[j] == Some(day));
    }
    assert forall|service: Seq<char>| defined(weekly, rows, service) implies defined(
        weekly,
        others,
        service,
    ) by {
        if exists|i: int|
            0 <= i < rows.len() && (#[trigger] rows[i]).service_id@ == service
                && rows[i].exception_type == 1 {
            let i = choose|i: int|
                0 <= i < rows.len() && (#[trigger] rows[i]).service_id@ == service
                    && rows[i].exception_type == 1;
            assert(others.contains(rows[i]));
            let j = choose|j: int| 0 <= j < others.len() && others[j] == rows[i];
            assert(others[j].service_id@ == service);
        }
    }
}

/// There is only one list of the services that run on a day: the output is
/// deterministic.
pub proof fn law_running_services_are_listed_one_way(
    services: Seq<Seq<char>>,
    others: Seq<Seq<char>>,
    calendar: Map<Seq<char>, Set<int>>,
    day: int,
)
    requires
        lists_running(services, calendar, day),
        lists_running(others, calendar, day),
    ensures
        services == others,
{
    let lt = |a: Seq<char>, b: Seq<char>| text::text_lt(a, b);
    assert forall|a: Seq<char>, b: Seq<char>| #[trigger] lt(a, b) implies !lt(b, a) by {
        text::lemma_text_le_total(a, b);
    }
    sort::lemma_ascending_unique(services, others, lt);
}

/// Whether the flag of the weekday on which a day falls is set. The day with the
/// number one is a Monday.
pub open spec fn weekday_set(row: CalendarRow, day: int) -> bool {
    ||| day % 7 == 1 && row.monday == 1
    ||| day % 7 == 2 && row.tuesday == 1
    ||| day % 7 == 3 && row.wednesday == 1
    ||| day % 7 == 4 && row.thursday == 1
    ||| day % 7 == 5 && row.friday == 1
    ||| day % 7 == 6 && row.saturday == 1
    ||| day % 7 == 0 && row.sunday == 1
}

/// Whether a day lies in the range of a weekly row, the first and the last day
/// of which belong to it.
pub open spec fn in_row_range(row: CalendarRow, day: int) -> bool {
    &&& time::date_reading(row.start_date@) matches Some(first)
    &&& time::date_reading(row.end_date@) matches Some(last)
    &&& first <= day <= last
}

/// A feed knows the services that a weekly row or an addition names. Such a
/// service runs on a day exactly when a weekly row of it has the day in its
/// range with the flag of the weekday set, or an addition names the day, and no
/// removal does.
pub proof fn law_days_of_service(
    weekly: Seq<CalendarRow>,
    exceptions: Seq<CalendarDateRow>,
    service: Seq<char>,
    day: int,
)
    ensures
        ({
            let known = {
                ||| exists|i: int|
                    0 <= i < weekly.len() && (#[trigger] weekly[i]).service_id@ == service
                ||| exists|i: int|
                    0 <= i < exceptions.len() && (#[trigger] exceptions[i]).service_id@ == service
                        && exceptions[i].exception_type == 1
            };
            let scheduled = exists|i: int|
                0 <= i < weekly.len() && (#[trigger] weekly[i]).service_id@ == service
                    && in_row_range(weekly[i], day) && weekday_set(weekly[i], day);
            let added = exists|i: int|
                0 <= i < exceptions.len() && (#[trigger] exceptions[i]).service_id@ == service
                    && exceptions[i].exception_type == 1 && time::date_reading(
                    exceptions[i].date@,
                ) == Some(day);
            let removed = exists|i: int|
                0 <= i < exceptions.len() && (#[trigger] exceptions[i]).service_id@ == service
                    && exceptions[i].exception_type == 2 && time::date_reading(
                    exceptions[i].date@,
                ) == Some(day);
            &&& feed_expansion(weekly, exceptions).contains_key(service) <==> known
            &&& known ==> (feed_expansion(weekly, exceptions)[service].contains(day) <==> (scheduled
                || added) && !removed)
            &&& runs(feed_expansion(weekly, exceptions), service, day) <==> (scheduled || added)
                && !removed
        }),
{
    let starts = start_readings(weekly);
    let ends = end_readings(weekly);
    let days = exception_readings(exceptions);
    assert forall|i: int| 0 <= i < weekly.len() implies (row_runs(
        weekly[i],
        starts[i],
        ends[i],
        day,
    ) <==> in_row_range(weekly[i], day) && weekday_set(#[trigger] weekly[i], day)) by {
        lemma_weekday_flag(weekly[i], day);
    }
    assert forall|i: int| 0 <= i < exceptions.len() implies days[i] == time::date_reading(
        (#[trigger] exceptions[i]).date@,
    ) by {}
    if weekly_runs(weekly, starts, ends, service, day) {
        let i = choose|i: int|
            0 <= i < weekly.len() && (#[trigger] weekly[i]).service_id@ == service && row_runs(
                weekly[i],
                starts[i],
                ends[i],
                day,
            );
        assert(in_row_range(weekly[i], day) && weekday_set(weekly[i], day));
    }
}

proof fn lemma_weekday_flag(row: CalendarRow, day: int)
    ensures
        row.flag(date::weekday_of(day)) == 1 <==> weekday_set(row, day),
{
    let w = date::weekday_of(day);
    assert(0 <= w < 7);
    assert((day - 1) % 7 == w);
    assert(day % 7 == (if w == 6 {
        0
    } else {
        w + 1
    }));
}

/// Whether of the flags of a weekly row only that of the weekday `k` days after
/// Monday is set, and the others are zero.
pub open spec fn only_flag(row: CalendarRow, k: int) -> bool {
    &&& row.monday == (if k == 0 { 1u8 } else { 0u8 })
    &&& row.tuesday == (if k == 1 { 1u8 } else { 0u8 })
    &&& row.wednesday == (if k == 2 { 1u8 } else { 0u8 })
    &&& row.thursday == (if k == 3 { 1u8 } else { 0u8 })
    &&& row.friday == (if k == 4 { 1u8 } else { 0u8 })
    &&& row.saturday == (if k == 5 { 1u8 } else { 0u8 })
    &&& row.sunday == (if k == 6 { 1u8 } else { 0u8 })
}

/// A row with one flag set has its service run on exactly the days of its range
/// that fall on that weekday: for each field, as many days after a Monday as the
/// field stands behind that of Monday. `monday` is any Monday.
pub proof fn law_one_flag_is_one_weekday(row: CalendarRow, monday: int, day: int, k: int)
    requires
        monday % 7 == 1,
        0 <= k < 7,
        only_flag(row, k),
    ensures
        ({
            let calendar = feed_expansion(seq![row], Seq::empty());
            &&& calendar.contains_key(row.service_id@)
            &&& calendar[row.service_id@].contains(day) <==> in_row_range(row, day) && (day
                - monday) % 7 == k
        }),
{
    let weekly = seq![row];
    law_days_of_service(weekly, Seq::empty(), row.service_id@, day);
    assert(weekly[0].service_id@ == row.service_id@);
    lemma_days_apart(monday, day, k);
    if in_row_range(row, day) && (day - monday) % 7 == k {
        assert(in_row_range(weekly[0], day) && weekday_set(weekly[0], day));
    }
}

/// How far a day is from a Monday says which weekday it is.
proof fn lemma_days_apart(monday: int, day: int, k: int)
    requires
        monday % 7 == 1,
        0 <= k < 7,
    ensures
        (day - monday) % 7 == k <==> day % 7 == (k + 1) % 7,
{
}

/// The days of a week are seven weekdays: a row with every flag set has its
/// service run on every day of its range, and one with none on none.
pub proof fn law_all_flags_are_all_days(row: CalendarRow, day: int)
    ensures
        ({
            let running = feed_expansion(seq![row], Seq::empty())[row.service_id@].contains(day);
            &&& row.monday == 1 && row.tuesday == 1 && row.wednesday == 1 && row.thursday == 1
                && row.friday == 1 && row.saturday == 1 && row.sunday == 1 ==> (running
                <==> in_row_range(row, day))
            &&& row.monday != 1 && row.tuesday != 1 && row.wednesday != 1 && row.thursday != 1
                && row.friday != 1 && row.saturday != 1 && row.sunday != 1 ==> !running
        }),
{
    let weekly = seq![row];
    law_days_of_service(weekly, Seq::empty(), row.service_id@, day);
    assert(weekly[0].service_id@ == row.service_id@);
    if in_row_range(row, day) && weekday_set(row, day) {
        assert(in_row_range(weekly[0], day) && weekday_set(weekly[0], day));
    }
}

/// A row of `calendar_dates.txt` makes no difference to other services, nor to
/// other days.
pub proof fn law_exceptions_touch_one_service_and_day(
    weekly: Seq<CalendarRow>,
    exceptions: Seq<CalendarDateRow>,
    row: CalendarDateRow,
    service: Seq<char>,
    day: int,
)
    requires
        row.service_id@ != service || time::date_reading(row.date@) != Some(day),
    ensures
        runs(feed_expansion(weekly, exceptions.push(row)), service, day) <==> runs(
            feed_expansion(weekly, exceptions),
            service,
            day,
        ),
{
    let more = exceptions.push(row);
    law_days_of_service(weekly, exceptions, service, day);
    law_days_of_service(weekly, more, service, day);
    lemma_more_exceptions(exceptions, row, 1, service, day);
    lemma_more_exceptions(exceptions, row, 2, service, day);
}

proof fn lemma_more_exceptions(
    exceptions: Seq<CalendarDateRow>,
    row: CalendarDateRow,
    kind: u8,
    service: Seq<char>,
    day: int,
)
    requires
        row.service_id@ != service || time::date_reading(row.date@) != Some(day),
    ensures
        (exists|i: int|
            0 <= i < exceptions.len() && (#[trigger] exceptions[i]).service_id@ == service
                && exceptions[i].exception_type == kind && time::date_reading(exceptions[i].date@)
                == Some(day)) <==> (exists|i: int|
            0 <= i < exceptions.push(row).len() && (#[trigger] exceptions.push(row)[i]).service_id@
                == service && exceptions.push(row)[i].exception_type == kind && time::date_reading(
                exceptions.push(row)[i].date@,
            ) == Some(day)),
{
    let more = exceptions.push(row);
    if exists|i: int|
        0 <= i < exceptions.len() && (#[trigger] exceptions[i]).service_id@ == service
            && exceptions[i].exception_type == kind && time::date_reading(exceptions[i].date@)
            == Some(day) {
        let i = choose|i: int|
            0 <= i < exceptions.len() && (#[trigger] exceptions[i]).service_id@ == service
                && exceptions[i].exception_type == kind && time::date_reading(
                exceptions[i].date@,
            ) == Some(day);
        assert(more[i] == exceptions[i]);
    }
    if exists|i: int|
        0 <= i < more.len() && (#[trigger] more[i]).service_id@ == service
            && more[i].exception_type == kind && time::date_reading(more[i].date@) == Some(day) {
        let i = choose|i: int|
            0 <= i < more.len() && (#[trigger] more[i]).service_id@ == service
                && more[i].exception_type == kind && time::date_reading(more[i].date@) == Some(
                day,
            );
        assert(exceptions[i] == more[i]);
    }
}

/// Whether a weekly row can be taken: both dates can be read, and the last lies
/// no more than five years of 366 days after the first.
pub open spec fn weekly_row_sound(row: CalendarRow) -> bool {
    &&& time::date_reading(row.start_date@) matches Some(first)
    &&& time::date_reading(row.end_date@) matches Some(last)
    &&& last <= first + 1830
}

/// Whether an exception can be taken: its type is known, and its date can be
/// read.
pub open spec fn exception_sound(row: CalendarDateRow) -> bool {
    (row.exception_type == 1 || row.exception_type == 2) && time::date_reading(row.date@) is Some
}

/// The calendar files are taken exactly when every row of them can be.
pub proof fn law_calendars_are_taken_when_every_row_is(
    weekly: Seq<CalendarRow>,
    exceptions: Seq<CalendarDateRow>,
)
    ensures
        feed_calendar_fault(weekly, exceptions) is None <==> {
            &&& forall|i: int| 0 <= i < weekly.len() ==> weekly_row_sound(#[trigger] weekly[i])
            &&& forall|i: int|
                0 <= i < exceptions.len() ==> exception_sound(#[trigger] exceptions[i])
        },
{
    let starts = start_readings(weekly);
    let ends = end_readings(weekly);
    let days = exception_readings(exceptions);
    lemma_sound_weekly(weekly, starts, ends);
    lemma_faultless_rows(exceptions, days);
    if addition_fault(exceptions, days) is None && removal_fault(exceptions, days) is None {
        assert forall|i: int| 0 <= i < exceptions.len() implies exception_sound(
            #[trigger] exceptions[i],
        ) by {
            assert(addition_row_fault(exceptions[i], days[i]) is None);
            assert(removal_row_fault(exceptions[i], days[i]) is None);
        }
    }
}

proof fn lemma_sound_weekly(
    rows: Seq<CalendarRow>,
    starts: Seq<Option<int>>,
    ends: Seq<Option<int>>,
)
    requires
        starts.len() >= rows.len(),
        ends.len() >= rows.len(),
        forall|i: int|
            0 <= i < rows.len() ==> starts[i] == time::date_reading((#[trigger] rows[i]).start_date@)
                && ends[i] == time::date_reading(rows[i].end_date@),
    ensures
        weekly_fault(rows, starts, ends) is None <==> forall|i: int|
            0 <= i < rows.len() ==> weekly_row_sound(#[trigger] rows[i]),
    decreases rows.len(),
{
    if rows.len() > 0 {
        let before = rows.drop_last();
        let n = rows.len() - 1;
        assert forall|i: int| 0 <= i < before.len() implies before[i] == rows[i] by {}
        assert forall|i: int| 0 <= i < before.len() implies starts[i] == time::date_reading(
            (#[trigger] before[i]).start_date@,
        ) && ends[i] == time::date_reading(before[i].end_date@) by {
            assert(before[i] == rows[i]);
        }
        lemma_sound_weekly(before, starts, ends);
        assert(weekly_row_fault(rows[n], starts[n], ends[n]) is None <==> weekly_row_sound(rows[n]));
        if forall|i: int| 0 <= i < rows.len() ==> weekly_row_sound(#[trigger] rows[i]) {
            assert forall|i: int| 0 <= i < before.len() implies weekly_row_sound(
                #[trigger] before[i],
            ) by {
                assert(before[i] == rows[i]);
            }
        }
        if weekly_fault(rows, starts, ends) is None {
            assert forall|i: int| 0 <= i < rows.len() implies weekly_row_sound(
                #[trigger] rows[i],
            ) by {
                assert(i < n ==> before[i] == rows[i]);
            }
        }
    }
}

/// The first weekly row that cannot be taken is the one that is reported, before
/// anything of the exceptions: by the date that cannot be read, the first of the
/// two before the last, or by the range that is too long.
pub proof fn law_first_weekly_fault_is_reported(
    weekly: Seq<CalendarRow>,
    exceptions: Seq<CalendarDateRow>,
    i: int,
)
    requires
        0 <= i < weekly.len(),
        !weekly_row_sound(weekly[i]),
        forall|k: int| 0 <= k < i ==> weekly_row_sound(#[trigger] weekly[k]),
    ensures
        ({
            let row = weekly[i];
            let fault = feed_calendar_fault(weekly, exceptions);
            match (time::date_reading(row.start_date@), time::date_reading(row.end_date@)) {
                (None, _) => fault == Some(
                    FeedErrorView::BadDate { file: "calendar.txt"@, value: row.start_date@ },
                ),
                (Some(_), None) => fault == Some(
                    FeedErrorView::BadDate { file: "calendar.txt"@, value: row.end_date@ },
                ),
                (Some(first), Some(last)) => fault == Some(
                    FeedErrorView::ImplausibleServiceRange {
                        service_id: row.service_id@,
                        start: date::day_text(first),
                        end: date::day_text(last),
                    },
                ),
            }
        }),
{
    let starts = start_readings(weekly);
    let ends = end_readings(weekly);
    let before = weekly.take(i);
    let upto = weekly.take(i + 1);
    assert forall|k: int| 0 <= k < before.len() implies starts[k] == time::date_reading(
        (#[trigger] before[k]).start_date@,
    ) && ends[k] == time::date_reading(before[k].end_date@) by {
        assert(before[k] == weekly[k]);
    }
    assert forall|k: int| 0 <= k < before.len() implies weekly_row_sound(#[trigger] before[k]) by {
        assert(before[k] == weekly[k]);
    }
    lemma_sound_weekly(before, starts, ends);
    assert(upto.drop_last() =~= before);
    assert(upto[i] == weekly[i]);
    lemma_weekly_fault_stays(weekly, starts, ends, i + 1);
}

/// Where the weekly rows can all be taken, the first addition whose date cannot
/// be read is reported, with the text of that date.
pub proof fn law_first_bad_addition_is_reported(
    weekly: Seq<CalendarRow>,
    exceptions: Seq<CalendarDateRow>,
    i: int,
)
    requires
        forall|k: int| 0 <= k < weekly.len() ==> weekly_row_sound(#[trigger] weekly[k]),
        0 <= i < exceptions.len(),
        exceptions[i].exception_type == 1,
        time::date_reading(exceptions[i].date@) is None,
        forall|k: int|
            0 <= k < i && (#[trigger] exceptions[k]).exception_type == 1 ==> time::date_reading(
                exceptions[k].date@,
            ) is Some,
    ensures
        feed_calendar_fault(weekly, exceptions) == Some(
            FeedErrorView::BadDate { file: "calendar_dates.txt"@, value: exceptions[i].date@ },
        ),
{
    let days = exception_readings(exceptions);
    let before = exceptions.take(i);
    let upto = exceptions.take(i + 1);
    lemma_sound_weekly(weekly, start_readings(weekly), end_readings(weekly));
    assert forall|k: int| 0 <= k < before.len() implies addition_row_fault(
        #[trigger] before[k],
        days[k],
    ) is None by {
        assert(before[k] == exceptions[k]);
    }
    lemma_faultless_rows(before, days);
    assert(upto.drop_last() =~= before);
    assert(upto[i] == exceptions[i]);
    lemma_addition_fault_stays(exceptions, days, i + 1);
}

/// Where the weekly rows and the additions can all be taken, the first other row
/// that cannot be is reported: a removal by the text of its date, and a row of
/// another type by its service and that type.
pub proof fn law_first_bad_exception_is_reported(
    weekly: Seq<CalendarRow>,
    exceptions: Seq<CalendarDateRow>,
    i: int,
)
    requires
        forall|k: int| 0 <= k < weekly.len() ==> weekly_row_sound(#[trigger] weekly[k]),
        forall|k: int|
            0 <= k < exceptions.len() && (#[trigger] exceptions[k]).exception_type == 1
                ==> time::date_reading(exceptions[k].date@) is Some,
        0 <= i < exceptions.len(),
        !exception_sound(exceptions[i]),
        forall|k: int| 0 <= k < i ==> exception_sound(#[trigger] exceptions[k]),
    ensures
        feed_calendar_fault(weekly, exceptions) == Some(
            if exceptions[i].exception_type == 2 {
                FeedErrorView::BadDate { file: "calendar_dates.txt"@, value: exceptions[i].date@ }
            } else {
                FeedErrorView::BadExceptionType {
                    service_id: exceptions[i].service_id@,
                    value: exceptions[i].exception_type as int,
                }
            },
        ),
{
    let days = exception_readings(exceptions);
    let before = exceptions.take(i);
    let upto = exceptions.take(i + 1);
    lemma_sound_weekly(weekly, start_readings(weekly), end_readings(weekly));
    assert forall|k: int| 0 <= k < exceptions.len() implies addition_row_fault(
        #[trigger] exceptions[k],
        days[k],
    ) is None by {}
    lemma_faultless_rows(exceptions, days);
    assert forall|k: int| 0 <= k < before.len() implies removal_row_fault(
        #[trigger] before[k],
        days[k],
    ) is None by {
        assert(before[k] == exceptions[k]);
        assert(exception_sound(exceptions[k]));
    }
    lemma_faultless_rows(before, days);
    assert(upto.drop_last() =~= before);
    assert(upto[i] == exceptions[i]);
    lemma_removal_fault_stays(exceptions, days, i + 1);
}

/// A day is one on which anything runs exactly when some service has it among
/// its days.
pub proof fn law_active_days_have_a_service(calendar: Map<Seq<char>, Set<int>>, day: int)
    ensures
        active_days(calendar).contains(day) <==> exists|service: Seq<char>|
            calendar.contains_key(service) && (#[trigger] calendar[service]).contains(day),
{
    if exists|service: Seq<char>|
        calendar.contains_key(service) && (#[trigger] calendar[service]).contains(day) {
        let service = choose|service: Seq<char>|
            calendar.contains_key(service) && (#[trigger] calendar[service]).contains(day);
        assert(runs(calendar, service, day));
    }
    if active_days(calendar).contains(day) {
        let service = choose|service: Seq<char>| #[trigger] runs(calendar, service, day);
        assert(calendar[service].contains(day));
    }
}

/// The services that are listed for a day are those that have the day among
/// their days, each once, in the order of strings.
pub proof fn law_listed_services_have_the_day(
    services: Seq<&str>,
    calendar: Map<Seq<char>, Set<int>>,
    day: int,
    service: Seq<char>,
)
    requires
        lists_running(keys::slice_texts(services), calendar, day),
    ensures
        calendar.contains_key(service) && calendar[service].contains(day) <==> exists|i: int|
            0 <= i < services.len() && (#[trigger] services[i])@ == service,
        forall|i: int, j: int|
            0 <= i < j < services.len() ==> text::text_le(
                (#[trigger] services[i])@,
                (#[trigger] services[j])@,
            ) && services[i]@ != services[j]@,
{
    let names = keys::slice_texts(services);
    assert(names.contains(service) <==> runs(calendar, service, day));
    assert forall|i: int| 0 <= i < services.len() implies names[i] == (#[trigger] services[i])@ by {}
    if names.contains(service) {
        let i = choose|i: int| 0 <= i < names.len() && names[i] == service;
        assert(services[i]@ == service);
    }
    if exists|i: int| 0 <= i < services.len() && (#[trigger] services[i])@ == service {
        let i = choose|i: int| 0 <= i < services.len() && (#[trigger] services[i])@ == service;
        assert(names[i] == service);
    }
    assert forall|i: int, j: int| 0 <= i < j < services.len() implies text::text_le(
        (#[trigger] services[i])@,
        (#[trigger] services[j])@,
    ) && services[i]@ != services[j]@ by {
        assert(text::text_lt(names[i], names[j]));
    }
}

/// The coverage of a calendar reaches from its first day of service to its last:
/// both are days of service, and none lies outside. There is no coverage exactly
/// when there is no day of service.
pub proof fn law_coverage_holds_every_day_of_service(
    calendar: Map<Seq<char>, Set<int>>,
    coverage: Option<(Date, Date)>,
    service: Seq<char>,
    day: int,
)
    requires
        is_coverage(calendar, coverage),
    ensures
        calendar.contains_key(service) && calendar[service].contains(day) ==> (
        coverage matches Some((first, last)) && first@ <= day <= last@),
        coverage matches Some((first, last)) ==> {
            &&& first@ <= last@
            &&& exists|s: Seq<char>|
                calendar.contains_key(s) && (#[trigger] calendar[s]).contains(first@)
            &&& exists|s: Seq<char>|
                calendar.contains_key(s) && (#[trigger] calendar[s]).contains(last@)
        },
{
    law_active_days_have_a_service(calendar, day);
    if let Some((first, last)) = coverage {
        law_active_days_have_a_service(calendar, first@);
        law_active_days_have_a_service(calendar, last@);
        assert(active_days(calendar).contains(last@));
    }
    if calendar.contains_key(service) && calendar[service].contains(day) {
        assert(active_days(calendar).contains(day));
    }
}

} // verus!
