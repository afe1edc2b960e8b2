//! The window of service dates that a build covers.
//!
//! Feeds are published on their own schedules and their coverage may barely
//! overlap. The default window is therefore the intersection of what the
//! selected agencies cover: a dataset in which they have no day in common
//! answers no question across agencies.

use vstd::prelude::*;

use crate::date;
use crate::date::Date;
use crate::text;

verus! {

/// Why there is no window.
#[derive(Debug, PartialEq, Eq)]
pub enum WindowError {
    ZeroDays,
    Inverted { start: Date, end: Date },
    NoService { agency: String },
    NothingShared,
    Empty { start: Date, end: Date },
}

/// The view of a [`WindowError`].
#[verifier::ext_equal]
pub enum WindowErrorView {
    ZeroDays,
    Inverted { start: int, end: int },
    NoService { agency: Seq<char> },
    NothingShared,
    Empty { start: int, end: int },
}

impl View for WindowError {
    type V = WindowErrorView;

    open spec fn view(&self) -> WindowErrorView {
        match self {
            WindowError::ZeroDays => WindowErrorView::ZeroDays,
            WindowError::Inverted { start, end } => WindowErrorView::Inverted {
                start: start@,
                end: end@,
            },
            WindowError::NoService { agency } => WindowErrorView::NoService { agency: agency@ },
            WindowError::NothingShared => WindowErrorView::NothingShared,
            WindowError::Empty { start, end } => WindowErrorView::Empty {
                start: start@,
                end: end@,
            },
        }
    }
}

impl WindowErrorView {
    /// What the error says.
    pub open spec fn message(self) -> Seq<char> {
        match self {
            WindowErrorView::ZeroDays => "--days must be at least 1"@,
            WindowErrorView::Inverted { start, end } => "--to "@ + date::day_text(end)
                + " is before --from "@ + date::day_text(start),
            WindowErrorView::NoService { agency } => agency + " has no service dates at all"@,
            WindowErrorView::NothingShared => "the selected agencies share no service dates; build them one at a time, or pass --from and --to explicitly"@,
            WindowErrorView::Empty { start, end } => "the requested window "@ + date::day_text(
                start,
            ) + " .. "@ + date::day_text(end) + " is empty"@,
        }
    }
}

impl WindowError {
    /// What the error says.
    pub fn message(&self) -> (r: String)
        ensures
            r@ == self@.message(),
    {
        match self {
            WindowError::ZeroDays => "--days must be at least 1".to_string(),
            WindowError::Inverted { start, end } => {
                let mut r: String = "--to ".to_string();
                r.append(end.to_text().as_str());
                r.append(" is before --from ");
                r.append(start.to_text().as_str());
                r
            },
            WindowError::NoService { agency } => {
                let mut r: String = agency.clone();
                r.append(" has no service dates at all");
                r
            },
            WindowError::NothingShared => "the selected agencies share no service dates; build them one at a time, or pass --from and --to explicitly".to_string(),
            WindowError::Empty { start, end } => {
                let mut r: String = "the requested window ".to_string();
                r.append(start.to_text().as_str());
                r.append(" .. ");
                r.append(end.to_text().as_str());
                r.append(" is empty");
                r
            },
        }
    }
}

/// What the options alone say of the window.
pub enum Plan {
    /// Both ends were given.
    Fixed { start: Date, end: Date },
    /// The coverage of the selected agencies decides.
    FromCoverage,
}

/// What the options alone say of the window: its first and last day, nothing
/// where the coverage decides, or an error.
pub open spec fn planned(from: Option<Date>, to: Option<Date>, days: Option<u32>) -> Result<
    Option<(int, int)>,
    WindowErrorView,
> {
    match (from, to) {
        _ if days == Some(0u32) => Err(WindowErrorView::ZeroDays),
        (Some(start), Some(end)) => if end@ < start@ {
            Err(WindowErrorView::Inverted { start: start@, end: end@ })
        } else {
            Ok(Some((start@, end@)))
        },
        _ => Ok(None),
    }
}

/// What the options alone say of the window. Where both ends are given no feed
/// has to be looked at. Where no option is given the coverage decides.
pub fn plan(from: Option<Date>, to: Option<Date>, days: Option<u32>) -> (r: Result<
    Plan,
    WindowError,
>)
    ensures
        match r {
            Ok(Plan::Fixed { start, end }) => days != Some(0u32) && from == Some(start) && to
                == Some(end) && start@ <= end@,
            Ok(Plan::FromCoverage) => days != Some(0u32) && !(from is Some && to is Some),
            Err(e) => ({
                ||| days == Some(0u32) && e@ == WindowErrorView::ZeroDays
                ||| days != Some(0u32) && (from matches Some(start) && to matches Some(end)
                    && end@ < start@ && e@ == (WindowErrorView::Inverted {
                    start: start@,
                    end: end@,
                }))
            }),
        },
        match r {
            Ok(Plan::Fixed { start, end }) => planned(from, to, days) == Ok::<
                Option<(int, int)>,
                WindowErrorView,
            >(Some((start@, end@))),
            Ok(Plan::FromCoverage) => planned(from, to, days) == Ok::<
                Option<(int, int)>,
                WindowErrorView,
            >(None),
            Err(e) => planned(from, to, days) == Err::<Option<(int, int)>, WindowErrorView>(e@),
        },
{
    match (from, to, days) {
        (_, _, Some(0)) => Err(WindowError::ZeroDays),
        (Some(start), Some(end), _) => {
            if end.day() < start.day() {
                Err(WindowError::Inverted { start, end })
            } else {
                Ok(Plan::Fixed { start, end })
            }
        },
        _ => Ok(Plan::FromCoverage),
    }
}

/// The days that two coverages share.
pub open spec fn intersection(a: (int, int), b: (int, int)) -> (int, int) {
    (
        if a.0 > b.0 {
            a.0
        } else {
            b.0
        },
        if a.1 < b.1 {
            a.1
        } else {
            b.1
        },
    )
}

/// The days that a list of coverages shares.
pub open spec fn shared_by(coverages: Seq<(int, int)>) -> (int, int)
    decreases coverages.len(),
{
    if coverages.len() <= 1 {
        coverages[0]
    } else {
        intersection(shared_by(coverages.drop_last()), coverages.last())
    }
}

/// A coverage, as a specification value.
pub open spec fn coverage_view(coverage: (Date, Date)) -> (int, int) {
    (coverage.0@, coverage.1@)
}

/// What the agencies looked at so far share.
pub struct Shared {
    days: Option<(Date, Date)>,
    seen: Ghost<Seq<(int, int)>>,
}

impl View for Shared {
    type V = Seq<(int, int)>;

    closed spec fn view(&self) -> Seq<(int, int)> {
        self.seen@
    }
}

impl Shared {
    /// What holds between agencies.
    pub closed spec fn well_formed(self) -> bool {
        match self.days {
            None => self.seen@.len() == 0,
            Some(coverage) => self.seen@.len() > 0 && coverage_view(coverage) == shared_by(
                self.seen@,
            ),
        }
    }

    /// Before any agency was looked at.
    pub fn new() -> (r: Shared)
        ensures
            r.well_formed(),
            r@ == Seq::<(int, int)>::empty(),
    {
        Shared { days: None, seen: Ghost(Seq::empty()) }
    }

    /// Takes in the coverage of one more agency.
    pub fn add(&mut self, agency_id: &str, coverage: Option<(Date, Date)>) -> (r: Result<
        (),
        WindowError,
    >)
        requires
            old(self).well_formed(),
        ensures
            final(self).well_formed(),
            match coverage {
                Some(days) => r is Ok && final(self)@ == old(self)@.push(coverage_view(days)),
                None => final(self)@ == old(self)@ && (r matches Err(e) && e@
                    == (WindowErrorView::NoService { agency: agency_id@ })),
            },
    {
        match coverage {
            None => Err(WindowError::NoService { agency: agency_id.to_string() }),
            Some((first, last)) => {
                let ghost longer = self.seen@.push((first@, last@));
                let next: (Date, Date) = match self.days {
                    None => (first, last),
                    Some((start, end)) => (
                        if start.day() > first.day() {
                            start
                        } else {
                            first
                        },
                        if end.day() < last.day() {
                            end
                        } else {
                            last
                        },
                    ),
                };
                proof {
                    assert(longer.drop_last() =~= self.seen@);
                    self.seen@ = longer;
                }
                self.days = Some(next);
                Ok(())
            },
        }
    }

    /// The days that the agencies looked at share.
    pub fn days(&self) -> (r: Option<(Date, Date)>)
        requires
            self.well_formed(),
        ensures
            match r {
                Some(coverage) => self@.len() > 0 && coverage_view(coverage) == shared_by(self@),
                None => self@.len() == 0,
            },
    {
        self.days
    }
}

/// The first day of a window within shared days.
pub open spec fn window_start(covered: (int, int), from: Option<Date>) -> int {
    match from {
        Some(date) => date@,
        None => covered.0,
    }
}

/// The last day of a window within shared days. A number of days counts
/// calendar days, so that it means the same span for every agency.
pub open spec fn window_end(
    covered: (int, int),
    from: Option<Date>,
    to: Option<Date>,
    days: Option<u32>,
) -> int {
    match (to, days) {
        (Some(date), _) => date@,
        (None, Some(n)) => {
            let end = window_start(covered, from) + n - 1;
            if end < covered.1 {
                end
            } else {
                covered.1
            }
        },
        (None, None) => covered.1,
    }
}

/// Whether the calendar reaches as far as a window within shared days would.
pub open spec fn within_calendar(
    covered: (int, int),
    from: Option<Date>,
    to: Option<Date>,
    days: Option<u32>,
) -> bool {
    covered.0 <= covered.1 && to is None ==> (days matches Some(n) ==> date::in_calendar(
        window_start(covered, from) + n - 1,
    ))
}

/// Whether the calendar reaches as far as a window within shared days would.
pub fn reachable(
    covered: (Date, Date),
    from: Option<Date>,
    to: Option<Date>,
    days: Option<u32>,
) -> (r: bool)
    ensures
        r == within_calendar(coverage_view(covered), from, to, days),
{
    let (covered_start, covered_end) = covered;
    if covered_start.day() > covered_end.day() {
        return true;
    }
    let start: Date = match from {
        Some(date) => date,
        None => covered_start,
    };
    match (to, days) {
        (None, Some(n)) => {
            let last: i64 = start.day() as i64 + n as i64 - 1;
            last <= i32::MAX as i64 && last >= i32::MIN as i64 && match Date::from_day(
                last as i32,
            ) {
                Some(_) => true,
                None => false,
            }
        },
        _ => true,
    }
}

/// The window within shared days: its first and last day, or an error.
pub open spec fn settlement(
    covered: (int, int),
    from: Option<Date>,
    to: Option<Date>,
    days: Option<u32>,
) -> Result<(int, int), WindowErrorView> {
    let start = window_start(covered, from);
    let end = window_end(covered, from, to, days);
    if covered.0 > covered.1 {
        Err(WindowErrorView::NothingShared)
    } else if end < start {
        Err(WindowErrorView::Empty { start, end })
    } else {
        Ok((start, end))
    }
}

/// The window within the days that the selected agencies share.
pub fn settle(
    covered: (Date, Date),
    from: Option<Date>,
    to: Option<Date>,
    days: Option<u32>,
) -> (r: Result<(Date, Date), WindowError>)
    requires
        days != Some(0u32),
        within_calendar(coverage_view(covered), from, to, days),
    ensures
        ({
            let shared = coverage_view(covered);
            let start = window_start(shared, from);
            let end = window_end(shared, from, to, days);
            match r {
                Ok(window) => shared.0 <= shared.1 && start <= end && coverage_view(window) == (
                    start,
                    end,
                ),
                Err(e) => if shared.0 > shared.1 {
                    e@ == WindowErrorView::NothingShared
                } else {
                    end < start && e@ == (WindowErrorView::Empty { start, end })
                },
            }
        }),
        match r {
            Ok(window) => settlement(coverage_view(covered), from, to, days) == Ok::<
                (int, int),
                WindowErrorView,
            >(coverage_view(window)),
            Err(e) => settlement(coverage_view(covered), from, to, days) == Err::<
                (int, int),
                WindowErrorView,
            >(e@),
        },
{
    let (covered_start, covered_end) = covered;
    if covered_start.day() > covered_end.day() {
        return Err(WindowError::NothingShared);
    }
    let start: Date = match from {
        Some(date) => date,
        None => covered_start,
    };
    let end: Date = match (to, days) {
        (Some(date), _) => date,
        (None, Some(n)) => {
            let last: i64 = start.day() as i64 + n as i64 - 1;
            if last < covered_end.day() as i64 {
                match Date::from_day(last as i32) {
                    Some(date) => date,
                    None => covered_end,
                }
            } else {
                covered_end
            }
        },
        (None, None) => covered_end,
    };
    if end.day() < start.day() {
        return Err(WindowError::Empty { start, end });
    }
    Ok((start, end))
}

// ---------------------------------------------------------------------------
// Laws
// ---------------------------------------------------------------------------

/// The days that agencies share lie within the coverage of each.
pub proof fn law_shared_days_are_covered(coverages: Seq<(int, int)>, i: int)
    requires
        0 <= i < coverages.len(),
    ensures
        coverages[i].0 <= shared_by(coverages).0,
        shared_by(coverages).1 <= coverages[i].1,
    decreases coverages.len(),
{
    if coverages.len() > 1 {
        let before = coverages.drop_last();
        if i < before.len() {
            law_shared_days_are_covered(before, i);
            assert(before[i] == coverages[i]);
        }
    }
}

/// A window of which neither end is given lies within the coverage of every
/// selected agency.
pub proof fn law_default_window_is_covered(coverages: Seq<(int, int)>, i: int, days: Option<u32>)
    requires
        0 <= i < coverages.len(),
    ensures
        coverages[i].0 <= window_start(shared_by(coverages), None),
        window_end(shared_by(coverages), None, None, days) <= coverages[i].1,
{
    law_shared_days_are_covered(coverages, i);
}

/// With no option at all the window is the intersection of what the selected
/// agencies cover: a day lies in it exactly when every one of them covers it.
pub proof fn law_default_window_is_the_intersection(coverages: Seq<(int, int)>, day: int)
    requires
        coverages.len() > 0,
    ensures
        window_start(shared_by(coverages), None) <= day <= window_end(
            shared_by(coverages),
            None,
            None,
            None,
        ) <==> forall|i: int|
            0 <= i < coverages.len() ==> (#[trigger] coverages[i]).0 <= day <= coverages[i].1,
{
    law_shared_means_covered_by_all(coverages, day);
}

/// The order in which agencies are looked at makes no difference: a day is
/// shared exactly when every agency covers it.
pub proof fn law_shared_means_covered_by_all(coverages: Seq<(int, int)>, day: int)
    requires
        coverages.len() > 0,
    ensures
        shared_by(coverages).0 <= day <= shared_by(coverages).1 <==> forall|i: int|
            0 <= i < coverages.len() ==> (#[trigger] coverages[i]).0 <= day <= coverages[i].1,
    decreases coverages.len(),
{
    if coverages.len() > 1 {
        let before = coverages.drop_last();
        law_shared_means_covered_by_all(before, day);
        assert forall|i: int| 0 <= i < before.len() implies before[i] == coverages[i] by {}
        if forall|i: int|
            0 <= i < coverages.len() ==> (#[trigger] coverages[i]).0 <= day <= coverages[i].1 {
            assert forall|i: int| 0 <= i < before.len() implies (#[trigger] before[i]).0 <= day
                <= before[i].1 by {
                assert(coverages[i].0 <= day <= coverages[i].1);
            }
            assert(coverages[coverages.len() - 1].0 <= day <= coverages[coverages.len() - 1].1);
        }
        if shared_by(coverages).0 <= day <= shared_by(coverages).1 {
            assert forall|i: int| 0 <= i < coverages.len() implies (#[trigger] coverages[i]).0
                <= day <= coverages[i].1 by {
                if i < before.len() {
                    assert(before[i].0 <= day <= before[i].1);
                }
            }
        }
    }
}

/// Whether a first and a last day are what the options ask for: the ends that
/// are given, and where an end is not given that of the shared days. A number of
/// days, where no last day is given, is kept to as far as the shared days reach.
pub open spec fn as_asked(
    covered: (Date, Date),
    from: Option<Date>,
    to: Option<Date>,
    days: Option<u32>,
    start: int,
    end: int,
) -> bool {
    &&& from matches Some(date) ==> start == date@
    &&& from is None ==> start == covered.0@
    &&& to matches Some(date) ==> end == date@
    &&& to is None ==> end <= covered.1@
    &&& to is None && days is None ==> end == covered.1@
    &&& to is None ==> (days matches Some(n) ==> {
        &&& end - start + 1 <= n
        &&& end == covered.1@ || end - start + 1 == n
    })
}

/// A settled window starts and ends with the days that were asked for, in that
/// order. There is none exactly when nothing is shared, or when the last day
/// that was asked for lies before the first; the error names both.
pub proof fn law_windows_are_as_asked(
    covered: (Date, Date),
    from: Option<Date>,
    to: Option<Date>,
    days: Option<u32>,
)
    ensures
        match settlement(coverage_view(covered), from, to, days) {
            Ok((start, end)) => {
                &&& covered.0@ <= covered.1@
                &&& start <= end
                &&& as_asked(covered, from, to, days, start, end)
            },
            Err(WindowErrorView::Empty { start, end }) => {
                &&& covered.0@ <= covered.1@
                &&& end < start
                &&& as_asked(covered, from, to, days, start, end)
            },
            Err(WindowErrorView::NothingShared) => covered.0@ > covered.1@,
            Err(_) => false,
        },
{
}

/// Whenever a last day is given and there is a window, that is its last day,
/// whatever else is given; and whenever a first day is given, that is its first
/// day.
pub proof fn law_given_ends_are_kept(
    covered: (Date, Date),
    from: Option<Date>,
    to: Option<Date>,
    days: Option<u32>,
    window: (Date, Date),
)
    requires
        settlement(coverage_view(covered), from, to, days) == Ok::<(int, int), WindowErrorView>(
            coverage_view(window),
        ),
    ensures
        to matches Some(date) ==> window.1@ == date@,
        from matches Some(date) ==> window.0@ == date@,
        window.0@ <= window.1@,
{
}

/// Asking for more days never shortens a window, and a window asked for by its
/// length starts where the whole one does.
pub proof fn law_more_days_make_longer_windows(
    covered: (Date, Date),
    from: Option<Date>,
    fewer: u32,
    more: u32,
)
    requires
        0 < fewer <= more,
        covered.0@ <= covered.1@,
    ensures
        match settlement(coverage_view(covered), from, None, Some(fewer)) {
            Ok((start, end)) => {
                &&& settlement(coverage_view(covered), from, None, Some(more)) matches Ok(wider)
                &&& wider.0 == start
                &&& end <= wider.1
                &&& settlement(coverage_view(covered), from, None, None) matches Ok(whole)
                &&& whole.0 == start
                &&& wider.1 <= whole.1
            },
            Err(_) => settlement(coverage_view(covered), from, None, None) is Err,
        },
{
}

/// The options alone decide where no day at all is asked for, which is an error
/// whatever else is given, and where both ends are given: then these are the
/// window, or an error that names them where they are the wrong way round.
pub proof fn law_plans_keep_given_ends(from: Option<Date>, to: Option<Date>, days: Option<u32>)
    ensures
        days == Some(0u32) <==> planned(from, to, days) == Err::<
            Option<(int, int)>,
            WindowErrorView,
        >(WindowErrorView::ZeroDays),
        days != Some(0u32) && (from is None || to is None) <==> planned(from, to, days) == Ok::<
            Option<(int, int)>,
            WindowErrorView,
        >(None),
        days != Some(0u32) ==> (from matches Some(start) ==> (to matches Some(end) ==> {
            &&& start@ <= end@ ==> planned(from, to, days) == Ok::<
                Option<(int, int)>,
                WindowErrorView,
            >(Some((start@, end@)))
            &&& end@ < start@ ==> planned(from, to, days) == Err::<
                Option<(int, int)>,
                WindowErrorView,
            >(WindowErrorView::Inverted { start: start@, end: end@ })
        })),
{
}

/// A window can only end beyond the calendar where it is asked for by a number
/// of days within days that are shared.
pub proof fn law_only_long_windows_leave_the_calendar(
    covered: (Date, Date),
    from: Option<Date>,
    to: Option<Date>,
    days: Option<u32>,
)
    ensures
        !within_calendar(coverage_view(covered), from, to, days) <==> {
            &&& covered.0@ <= covered.1@
            &&& to is None
            &&& days matches Some(n)
            &&& !date::in_calendar((match from {
                Some(date) => date@,
                None => covered.0@,
            }) + n - 1)
        },
{
}

/// The message of a window that is not there says what is wrong and names the
/// days or the agency that it is about.
pub proof fn law_window_messages_say_what_is_wrong(error: WindowErrorView)
    ensures
        match error {
            WindowErrorView::ZeroDays => text::mentions(error.message(), "--days must be at least 1"@),
            WindowErrorView::Inverted { start, end } => {
                &&& text::mentions(error.message(), "--to "@ + date::day_text(end))
                &&& text::mentions(error.message(), date::day_text(end) + " is before --from "@)
                &&& text::mentions(error.message(), " is before --from "@ + date::day_text(start))
            },
            WindowErrorView::NoService { agency } => text::mentions(
                error.message(),
                agency + " has no service dates at all"@,
            ),
            WindowErrorView::NothingShared => text::mentions(error.message(), "the selected agencies share no service dates; build them one at a time, or pass --from and --to explicitly"@),
            WindowErrorView::Empty { start, end } => {
                &&& text::mentions(error.message(), "the requested window "@ + date::day_text(start))
                &&& text::mentions(error.message(), date::day_text(start) + " .. "@)
                &&& text::mentions(error.message(), " .. "@ + date::day_text(end))
                &&& text::mentions(error.message(), date::day_text(end) + " is empty"@)
            },
        },
{
    match error {
        WindowErrorView::ZeroDays => {
            text::lemma_whole("--days must be at least 1"@);
        },
        WindowErrorView::Inverted { start, end } => {
            text::lemma_four_pieces(
                "--to "@,
                date::day_text(end),
                " is before --from "@,
                date::day_text(start),
            );
        },
        WindowErrorView::NoService { agency } => {
            text::lemma_two_pieces(
                agency,
                " has no service dates at all"@,
            );
        },
        WindowErrorView::NothingShared => {
            text::lemma_whole("the selected agencies share no service dates; build them one at a time, or pass --from and --to explicitly"@);
        },
        WindowErrorView::Empty { start, end } => {
            text::lemma_five_pieces(
                "the requested window "@,
                date::day_text(start),
                " .. "@,
                date::day_text(end),
                " is empty"@,
            );
        },
    }
}

} // verus!
