//! GTFS times and dates.
//!
//! GTFS times are not clock times. A trip that leaves at 11:50 PM and arrives
//! after midnight is written `23:50:00` to `24:20:00`: the hour keeps counting
//! past 24 so that the trip stays on one service date.
//!
//! Times are measured from *noon minus twelve hours* on the service date, not
//! from midnight. On a day on which the clocks change those differ by an hour,
//! and noon is unambiguous while midnight need not be.

use vstd::prelude::*;

use crate::date;
use crate::date::Date;
use crate::error::{FeedError, FeedErrorView};
use crate::text;
use crate::zone;
use crate::zone::{Timezone, UtcInstant};

verus! {

/// A time offset from the start of a service day, in seconds. May exceed 86,400
/// for trips that run past midnight.
#[derive(Debug, Clone, Copy, PartialEq, Eq, PartialOrd, Ord, Hash, Structural)]
pub struct GtfsTime(i32);

impl View for GtfsTime {
    type V = int;

    closed spec fn view(&self) -> int {
        self.0 as int
    }
}

/// A time that may be absent, as a specification value.
pub open spec fn opt_time(value: Option<GtfsTime>) -> Option<int> {
    match value {
        Some(t) => Some(t@),
        None => None,
    }
}

/// The number of seconds that hours, minutes and seconds make, within the
/// bounds of a GTFS time.
pub open spec fn clock_seconds(
    hours: Option<int>,
    minutes: Option<int>,
    seconds: Option<int>,
) -> Option<int> {
    match (hours, minutes, seconds) {
        (Some(h), Some(m), Some(s)) if 0 <= h < 48 && 0 <= m < 60 && 0 <= s < 60 => Some(
            h * 3600 + m * 60 + s,
        ),
        _ => None,
    }
}

/// What a time field says: nothing when it is blank, a number of seconds when
/// it is one or two digits of hours, two of minutes and two of seconds, within
/// bounds, and otherwise an error.
pub open spec fn time_reading(value: Seq<char>) -> Result<Option<int>, ()> {
    let field = text::trimmed(value);
    let parts = text::split_at(field, ':');
    if field.len() == 0 {
        Ok(None)
    } else if parts.len() != 3 {
        Err(())
    } else {
        match clock_seconds(
            text::digits_within(parts[0], 1, 2),
            text::digits_within(parts[1], 2, 2),
            text::digits_within(parts[2], 2, 2),
        ) {
            Some(n) => Ok(Some(n)),
            None => Err(()),
        }
    }
}

/// Division that rounds toward zero.
pub open spec fn quotient(n: int, d: int) -> int {
    if n < 0 {
        -((-n) / d)
    } else {
        n / d
    }
}

/// What division that rounds toward zero leaves, with the sign of `n`.
pub open spec fn remainder(n: int, d: int) -> int {
    if n < 0 {
        -((-n) % d)
    } else {
        n % d
    }
}

/// A number of seconds as hours, minutes and seconds, each at least two
/// characters wide.
pub open spec fn time_text(n: int) -> Seq<char> {
    text::two_wide(quotient(n, 3600)) + ":"@ + text::two_wide(quotient(remainder(n, 3600), 60))
        + ":"@ + text::two_wide(remainder(n, 60))
}

fn divide(n: i64, d: i64) -> (r: i64)
    requires
        -3_000_000_000 < n < 3_000_000_000,
        0 < d <= 3600,
    ensures
        r == quotient(n as int, d as int),
        -3_000_000_000 < r < 3_000_000_000,
{
    let size: i64 = if n < 0 {
        0 - n
    } else {
        n
    };
    let whole: i64 = size / d;
    assert(0 <= whole <= size) by (nonlinear_arith)
        requires
            whole == size / d,
            size >= 0,
            d > 0,
    ;
    if n < 0 {
        0 - whole
    } else {
        whole
    }
}

fn leftover(n: i64, d: i64) -> (r: i64)
    requires
        -3_000_000_000 < n < 3_000_000_000,
        0 < d <= 3600,
    ensures
        r == remainder(n as int, d as int),
        -3_000_000_000 < r < 3_000_000_000,
{
    if n < 0 {
        0 - (0 - n) % d
    } else {
        n % d
    }
}

impl GtfsTime {
    /// Reads a time field. `H:MM:SS` is permitted as well as `HH:MM:SS`, and
    /// nothing else. A blank field is absence, not malformation. Hours run below
    /// 48: that is well past any real service, and catches a garbled field
    /// before it becomes an instant years away.
    pub fn parse(value: &str, file: &str) -> (r: Result<Option<GtfsTime>, FeedError>)
        ensures
            match r {
                Ok(t) => time_reading(value@) == Ok::<Option<int>, ()>(opt_time(t)),
                Err(e) => time_reading(value@) is Err && e@ == (FeedErrorView::BadTime {
                    file: file@,
                    value: text::trimmed(value@),
                }),
            },
    {
        let field: &str = text::trim(value);
        let chars: Vec<char> = text::chars_of(field);
        if chars.len() == 0 {
            return Ok(None);
        }
        let parts: Vec<Vec<char>> = text::split(&chars, ':');
        let ghost pieces = text::pieces(parts@);
        if parts.len() == 3 {
            assert(pieces[0] == parts@[0]@);
            assert(pieces[1] == parts@[1]@);
            assert(pieces[2] == parts@[2]@);
            let hours: Option<i32> = text::read_digits(&parts[0], 1);
            let minutes: Option<i32> = text::read_digits(&parts[1], 2);
            let seconds: Option<i32> = text::read_digits(&parts[2], 2);
            if let (Some(h), Some(m), Some(s)) = (hours, minutes, seconds) {
                if h < 48 && m < 60 && s < 60 {
                    return Ok(Some(GtfsTime(h * 3600 + m * 60 + s)));
                }
            }
        }
        Err(FeedError::BadTime { file: file.to_string(), value: field.to_string() })
    }

    /// The time `seconds` from the start of a service day.
    pub fn from_seconds(seconds: i32) -> (r: GtfsTime)
        ensures
            r@ == seconds,
    {
        GtfsTime(seconds)
    }

    /// Seconds from the start of the service day.
    pub fn seconds(self) -> (r: i32)
        ensures
            r == self@,
    {
        self.0
    }

    /// Whether this time lands on the calendar day after its service date.
    pub fn rolls_over(self) -> (r: bool)
        ensures
            r == (self@ >= 86_400),
    {
        self.0 >= 86_400
    }

    /// The text of the time, `HH:MM:SS`.
    pub fn to_text(self) -> (r: String)
        ensures
            r@ == time_text(self@),
    {
        let n: i64 = self.0 as i64;
        let mut r: String = text::two_wide_text(divide(n, 3600));
        r.append(":");
        r.append(text::two_wide_text(divide(leftover(n, 3600), 60)).as_str());
        r.append(":");
        r.append(text::two_wide_text(leftover(n, 60)).as_str());
        r
    }

    /// The instant this time refers to on `service_date` in `tz`: local noon,
    /// less twelve hours, plus the time's seconds.
    pub fn resolve(self, service_date: Date, tz: &Timezone) -> (r: Result<UtcInstant, FeedError>)
        ensures
            r matches Ok(instant) ==> resolution(
                self@,
                service_date@,
                tz@,
                zone::noon_instant(tz@, service_date@),
            ) == Ok::<int, FeedErrorView>(instant@),
            r matches Err(e) ==> resolution(
                self@,
                service_date@,
                tz@,
                zone::noon_instant(tz@, service_date@),
            ) == Err::<int, FeedErrorView>(e@),
    {
        self.resolve_from(tz.noon_on(service_date), service_date, tz.name())
    }

    /// The instant this time refers to, given the instant of local noon on its
    /// service date.
    pub fn resolve_from(self, noon: Option<i64>, service_date: Date, timezone: &str) -> (r: Result<
        UtcInstant,
        FeedError,
    >)
        requires
            noon matches Some(seconds) ==> zone::near_noon(seconds as int),
        ensures
            r matches Ok(instant) ==> resolution(
                self@,
                service_date@,
                timezone@,
                zone::as_seconds(noon),
            ) == Ok::<int, FeedErrorView>(instant@),
            r matches Err(e) ==> resolution(
                self@,
                service_date@,
                timezone@,
                zone::as_seconds(noon),
            ) == Err::<int, FeedErrorView>(e@),
    {
        match noon {
            Some(seconds) => {
                let at: i64 = seconds - 43_200 + self.0 as i64;
                match UtcInstant::from_seconds(at) {
                    Some(instant) => Ok(instant),
                    None => {
                        assert(false);
                        Err(ambiguous(service_date, timezone))
                    },
                }
            },
            None => Err(ambiguous(service_date, timezone)),
        }
    }
}

/// The error for a date whose local noon is not one instant.
fn ambiguous(service_date: Date, timezone: &str) -> (e: FeedError)
    ensures
        e@ == no_noon(service_date@, timezone@),
{
    let mut local: String = service_date.to_text();
    local.append(" 12:00:00");
    FeedError::AmbiguousLocalTime { local, timezone: timezone.to_string() }
}

/// The error for a day whose local noon is not one instant.
pub open spec fn no_noon(day: int, timezone: Seq<char>) -> FeedErrorView {
    FeedErrorView::AmbiguousLocalTime { local: date::day_text(day) + " 12:00:00"@, timezone }
}

/// What a time of `seconds` on a day resolves to, given the instant of local
/// noon.
pub open spec fn resolution(
    seconds: int,
    day: int,
    timezone: Seq<char>,
    noon: Option<int>,
) -> Result<int, FeedErrorView> {
    match noon {
        Some(at) => Ok(at - 43_200 + seconds),
        None => Err(no_noon(day, timezone)),
    }
}

/// What a date field says: the date that eight digits `YYYYMMDD` name, blanks
/// at either end aside. Anything else is no date.
pub open spec fn date_reading(value: Seq<char>) -> Option<int> {
    let field = text::trimmed(value);
    if field.len() == 8 && text::all_digits(field) {
        date::eight_digit_date(field)
    } else {
        None
    }
}

/// The error for a field that is no date.
pub open spec fn bad_date(value: Seq<char>, file: Seq<char>) -> FeedErrorView {
    FeedErrorView::BadDate { file, value }
}

/// Reads a date field into a day number.
pub(crate) fn read_date(value: &str) -> (r: Option<i32>)
    ensures
        date::as_day(r) == date_reading(value@),
        r matches Some(day) ==> date::in_calendar(day as int),
{
    let field: &str = text::trim(value);
    let chars: Vec<char> = text::chars_of(field);
    if chars.len() == 8 && text::digits_only(&chars) {
        date::read_ymd(field)
    } else {
        None
    }
}

/// Reads a GTFS `YYYYMMDD` date.
pub fn parse_date(value: &str, file: &str) -> (r: Result<Date, FeedError>)
    ensures
        match r {
            Ok(date) => date_reading(value@) == Some(date@),
            Err(e) => date_reading(value@) is None && e@ == bad_date(value@, file@),
        },
{
    date_from(read_date(value), value, file)
}

/// The date of a reading, or the error for a field that is no date.
pub fn date_from(reading: Option<i32>, value: &str, file: &str) -> (r: Result<Date, FeedError>)
    requires
        reading matches Some(day) ==> date::in_calendar(day as int),
    ensures
        match r {
            Ok(date) => date::as_day(reading) == Some(date@),
            Err(e) => reading is None && e@ == bad_date(value@, file@),
        },
{
    if let Some(day) = reading {
        if let Some(date) = Date::from_day(day) {
            return Ok(date);
        }
    }
    Err(FeedError::BadDate { file: file.to_string(), value: value.to_string() })
}

// ---------------------------------------------------------------------------
// Laws
// ---------------------------------------------------------------------------

proof fn lemma_split_without(s: Seq<char>, separator: char)
    requires
        !s.contains(separator),
    ensures
        text::split_at(s, separator) == seq![s],
    decreases s.len(),
{
    if s.len() > 0 {
        assert(s.last() == s[s.len() - 1]);
        assert(s.contains(s.last()));
        assert(!s.drop_last().contains(separator)) by {
            if s.drop_last().contains(separator) {
                let i = choose|i: int| 0 <= i < s.drop_last().len() && s.drop_last()[i] == separator;
                assert(s[i] == separator);
            }
        }
        lemma_split_without(s.drop_last(), separator);
        assert(s.drop_last().push(s.last()) =~= s);
        assert(text::split_at(s, separator) =~= seq![s]);
    } else {
        assert(s =~= Seq::<char>::empty());
    }
}

proof fn lemma_split_tail(s: Seq<char>, separator: char, tail: Seq<char>)
    requires
        !tail.contains(separator),
    ensures
        text::split_at(s.push(separator) + tail, separator) == text::split_at(s, separator).push(
            tail,
        ),
    decreases tail.len(),
{
    let whole = s.push(separator) + tail;
    if tail.len() == 0 {
        assert(whole =~= s.push(separator));
        assert(whole.drop_last() =~= s);
        assert(tail =~= Seq::<char>::empty());
    } else {
        let c = tail.last();
        assert(tail.contains(c));
        assert(!tail.drop_last().contains(separator)) by {
            if tail.drop_last().contains(separator) {
                let i = choose|i: int|
                    0 <= i < tail.drop_last().len() && tail.drop_last()[i] == separator;
                assert(tail[i] == separator);
            }
        }
        lemma_split_tail(s, separator, tail.drop_last());
        assert(whole.drop_last() =~= s.push(separator) + tail.drop_last());
        assert(whole.last() == c);
        let before = text::split_at(s, separator);
        assert(tail.drop_last().push(c) =~= tail);
        assert(text::split_at(whole, separator) =~= before.push(tail));
    }
}

/// Two decimal digits: what a number below a hundred is written as, and that it
/// reads back.
proof fn lemma_two_digits(n: int)
    requires
        0 <= n < 100,
    ensures
        text::two_wide(n).len() == 2,
        text::all_digits(text::two_wide(n)),
        text::digits_within(text::two_wide(n), 1, 2) == Some(n),
        text::digits_within(text::two_wide(n), 2, 2) == Some(n),
        !text::two_wide(n).contains(':'),
{
    reveal_with_fuel(text::decimal, 3);
    reveal_with_fuel(text::digits_value, 4);
    let s = text::two_wide(n);
    if n < 10 {
        assert(s =~= seq!['0', text::digit_char(n)]);
    } else {
        assert(s =~= seq![text::digit_char(n / 10), text::digit_char(n % 10)]);
    }
    assert(s.drop_last() =~= seq![s[0]]);
    assert(s.drop_last().drop_last() =~= Seq::<char>::empty());
    assert(text::digits_value(s) == n);
}

/// The text of a time within a service day reads back as that time.
pub proof fn law_time_round_trip(n: int)
    requires
        0 <= n < 48 * 3600,
    ensures
        time_reading(time_text(n)) == Ok::<Option<int>, ()>(Some(n)),
{
    let h = n / 3600;
    let m = (n % 3600) / 60;
    let s = n % 60;
    reveal_strlit(":");
    lemma_two_digits(h);
    lemma_two_digits(m);
    lemma_two_digits(s);
    let a = text::two_wide(h);
    let b = text::two_wide(m);
    let c = text::two_wide(s);
    let whole = time_text(n);
    assert(whole =~= (a.push(':') + b).push(':') + c);
    lemma_split_without(a, ':');
    lemma_split_tail(a, ':', b);
    lemma_split_tail(a.push(':') + b, ':', c);
    assert(text::split_at(whole, ':') =~= seq![a, b, c]);
    assert(whole.len() == 8);
    assert(text::is_digit(a[0]));
    assert(text::is_digit(c[1]));
    assert(whole[0] == a[0]);
    assert(whole.last() == c[1]);
    assert(text::trimmed(whole) == whole);
    assert(h * 3600 + m * 60 + s == n);
}

/// Two times on one service date are as far apart as their seconds say, whatever
/// the clocks do in between.
pub proof fn law_elapsed_seconds(first: int, second: int, day: int, timezone: Seq<char>, noon: Option<int>)
    requires
        noon is Some,
    ensures
        resolution(second, day, timezone, noon)->Ok_0 - resolution(first, day, timezone, noon)->Ok_0
            == second - first,
{
}

/// The number that the digit at `i` of a text writes.
pub open spec fn digit_at(s: Seq<char>, i: int) -> int {
    s[i] as int - '0' as int
}

/// Whether there is a digit at `i` of a text.
pub open spec fn has_digit(s: Seq<char>, i: int) -> bool {
    '0' <= s[i] <= '9'
}

/// Whether a text is `HH:MM:SS` and stands for a number of seconds: hours below
/// 48, minutes and seconds below 60.
pub open spec fn is_long_time(s: Seq<char>, n: int) -> bool {
    let hours = 10 * digit_at(s, 0) + digit_at(s, 1);
    let minutes = 10 * digit_at(s, 3) + digit_at(s, 4);
    let seconds = 10 * digit_at(s, 6) + digit_at(s, 7);
    &&& s.len() == 8
    &&& s[2] == ':' && s[5] == ':'
    &&& has_digit(s, 0) && has_digit(s, 1)
    &&& has_digit(s, 3) && has_digit(s, 4)
    &&& has_digit(s, 6) && has_digit(s, 7)
    &&& hours < 48 && minutes < 60 && seconds < 60
    &&& n == 3600 * hours + 60 * minutes + seconds
}

/// A field says nothing exactly when it is blank, and a time exactly when it is
/// `HH:MM:SS`, or that with the zero of the hours left out, blanks at either end
/// aside. Everything else cannot be read.
pub proof fn law_times_are_hours_minutes_seconds(value: Seq<char>, n: int)
    ensures
        time_reading(value) == Ok::<Option<int>, ()>(None) <==> text::trimmed(value).len() == 0,
        time_reading(value) == Ok::<Option<int>, ()>(Some(n)) <==> is_long_time(
            text::trimmed(value),
            n,
        ) || is_long_time(seq!['0'] + text::trimmed(value), n),
{
    let f = text::trimmed(value);
    let parts = text::split_at(f, ':');
    if is_long_time(f, n) {
        lemma_clock(f.subrange(0, 2), f.subrange(3, 5), f.subrange(6, 8));
        assert(f =~= (f.subrange(0, 2).push(':') + f.subrange(3, 5)).push(':') + f.subrange(6, 8));
    }
    let g = seq!['0'] + f;
    if is_long_time(g, n) {
        assert(g.len() == f.len() + 1);
        assert(g[1] == f[0] && g[2] == f[1] && g[3] == f[2] && g[4] == f[3] && g[5] == f[4]
            && g[6] == f[5] && g[7] == f[6]);
        lemma_clock(f.subrange(0, 1), f.subrange(2, 4), f.subrange(5, 7));
        assert(f =~= (f.subrange(0, 1).push(':') + f.subrange(2, 4)).push(':') + f.subrange(5, 7));
    }
    if time_reading(value) == Ok::<Option<int>, ()>(Some(n)) {
        text::law_split_is_undone_by_joining(f, ':');
        let a = parts[0];
        let b = parts[1];
        let c = parts[2];
        reveal_with_fuel(text::joined, 4);
        assert(parts.drop_last().drop_last()[0] == a);
        assert(parts.drop_last().last() == b);
        assert(f =~= (a.push(':') + b).push(':') + c);
        lemma_field_value(a);
        lemma_field_value(b);
        lemma_field_value(c);
        if a.len() == 2 {
            assert(f.len() == 8);
            assert(f[0] == a[0] && f[1] == a[1] && f[2] == ':' && f[3] == b[0] && f[4] == b[1]
                && f[5] == ':' && f[6] == c[0] && f[7] == c[1]);
            assert(is_long_time(f, n));
        } else {
            assert(f.len() == 7);
            assert(g[0] == '0' && g[1] == a[0] && g[2] == ':' && g[3] == b[0] && g[4] == b[1]
                && g[5] == ':' && g[6] == c[0] && g[7] == c[1]);
            assert(is_long_time(g, n));
        }
    }
}

/// The number that one or two characters write, if they are digits.
proof fn lemma_field_value(s: Seq<char>)
    requires
        1 <= s.len() <= 2,
    ensures
        text::all_digits(s) <==> has_digit(s, 0) && has_digit(s, s.len() - 1),
        s.len() == 1 ==> text::digits_value(s) == digit_at(s, 0),
        s.len() == 2 ==> text::digits_value(s) == 10 * digit_at(s, 0) + digit_at(s, 1),
{
    reveal_with_fuel(text::digits_value, 3);
    if s.len() == 1 {
        assert(s.drop_last() =~= Seq::<char>::empty());
    } else {
        assert(s.drop_last().drop_last() =~= Seq::<char>::empty());
    }
    if has_digit(s, 0) && has_digit(s, s.len() - 1) {
        assert forall|i: int| 0 <= i < s.len() implies text::is_digit(#[trigger] s[i]) by {}
    }
    if text::all_digits(s) {
        assert(text::is_digit(s[0]) && text::is_digit(s[s.len() - 1]));
    }
}

/// The pieces of a clock time.
proof fn lemma_clock(a: Seq<char>, b: Seq<char>, c: Seq<char>)
    requires
        1 <= a.len() <= 2,
        b.len() == 2,
        c.len() == 2,
        has_digit(a, 0) && has_digit(a, a.len() - 1),
        has_digit(b, 0) && has_digit(b, 1),
        has_digit(c, 0) && has_digit(c, 1),
    ensures
        text::split_at((a.push(':') + b).push(':') + c, ':') == seq![a, b, c],
        text::digits_within(a, 1, 2) == Some(
            if a.len() == 1 {
                digit_at(a, 0)
            } else {
                10 * digit_at(a, 0) + digit_at(a, 1)
            },
        ),
        text::digits_within(b, 2, 2) == Some(10 * digit_at(b, 0) + digit_at(b, 1)),
        text::digits_within(c, 2, 2) == Some(10 * digit_at(c, 0) + digit_at(c, 1)),
{
    lemma_field_value(a);
    lemma_field_value(b);
    lemma_field_value(c);
    assert(!a.contains(':')) by {
        assert forall|i: int| 0 <= i < a.len() implies a[i] != ':' by {
            assert(text::is_digit(a[i]));
        }
    }
    lemma_split_without(a, ':');
    lemma_split_tail(a, ':', b);
    lemma_split_tail(a.push(':') + b, ':', c);
    assert(text::split_at((a.push(':') + b).push(':') + c, ':') =~= seq![a, b, c]);
}

/// Hours, minutes and seconds are written side by side, each with at least two
/// digits.
pub proof fn law_time_text_shows_hours_minutes_seconds(hours: int, minutes: int, seconds: int)
    requires
        0 <= hours,
        0 <= minutes < 60,
        0 <= seconds < 60,
    ensures
        time_text(3600 * hours + 60 * minutes + seconds) == text::two_wide(hours) + ":"@
            + text::two_wide(minutes) + ":"@ + text::two_wide(seconds),
        hours < 100 ==> text::two_wide(hours).len() == 2,
        text::digits_value(text::two_wide(hours)) == hours,
{
    let n = 3600 * hours + 60 * minutes + seconds;
    assert(n / 3600 == hours && n % 3600 == 60 * minutes + seconds);
    assert((60 * minutes + seconds) / 60 == minutes);
    assert(n % 60 == seconds);
    text::lemma_decimal_value(hours as nat);
    text::lemma_padded_value(text::decimal(hours as nat), 2);
    if hours < 100 {
        lemma_two_digits(hours);
    }
}

/// A time is the time that passes from twelve hours before local noon: noon is
/// `12:00:00`, and a time of `n` seconds more is `n` seconds later. Where local
/// noon is not one instant there is an error that names the day and the zone.
pub proof fn law_times_count_from_before_noon(
    seconds: int,
    day: int,
    timezone: Seq<char>,
    noon: Option<int>,
)
    ensures
        match noon {
            Some(at) => {
                &&& resolution(43_200, day, timezone, noon) == Ok::<int, FeedErrorView>(at)
                &&& (resolution(seconds, day, timezone, noon) matches Ok(instant) && instant - at
                    == seconds - 12 * 3600)
            },
            None => resolution(seconds, day, timezone, noon) == Err::<int, FeedErrorView>(
                FeedErrorView::AmbiguousLocalTime {
                    local: date::day_text(day) + " 12:00:00"@,
                    timezone,
                },
            ),
        },
{
}

/// A field is a date exactly when it is eight digits, blanks at either end
/// aside, of which the first four are the year, the next two the month and the
/// last two the day, and the year has that day.
pub proof fn law_dates_are_year_month_day(value: Seq<char>)
    ensures
        ({
            let f = text::trimmed(value);
            let digits = forall|i: int| 0 <= i < f.len() ==> '0' <= #[trigger] f[i] <= '9';
            let year = 1000 * digit_at(f, 0) + 100 * digit_at(f, 1) + 10 * digit_at(f, 2)
                + digit_at(f, 3);
            let month = 10 * digit_at(f, 4) + digit_at(f, 5);
            let dom = 10 * digit_at(f, 6) + digit_at(f, 7);
            &&& !(f.len() == 8 && digits) ==> date_reading(value) is None
            &&& f.len() == 8 && digits && date::is_civil(year, month, dom) ==> date_reading(value)
                == Some(date::day_number(year, month, dom))
            &&& f.len() == 8 && digits && !date::is_civil(year, month, dom) ==> date_reading(
                value,
            ) is None
        }),
{
    let f = text::trimmed(value);
    if text::all_digits(f) {
        assert forall|i: int| 0 <= i < f.len() implies '0' <= #[trigger] f[i] <= '9' by {
            assert(text::is_digit(f[i]));
        }
    }
    if forall|i: int| 0 <= i < f.len() ==> '0' <= #[trigger] f[i] <= '9' {
        assert forall|i: int| 0 <= i < f.len() implies text::is_digit(#[trigger] f[i]) by {
            assert('0' <= f[i] <= '9');
        }
    }
    if f.len() == 8 {
        let a = f.subrange(0, 4);
        lemma_field_value(f.subrange(4, 6));
        lemma_field_value(f.subrange(6, 8));
        reveal_with_fuel(text::digits_value, 5);
        assert(a.drop_last().drop_last().drop_last().drop_last() =~= Seq::<char>::empty());
        assert(text::digits_value(a) == 1000 * digit_at(f, 0) + 100 * digit_at(f, 1) + 10
            * digit_at(f, 2) + digit_at(f, 3));
    }
}

/// A time that was read from a field is the one that the field writes, and no
/// time was read where it is blank.
pub proof fn law_read_times_are_those_of_their_fields(value: Seq<char>, read: Option<GtfsTime>)
    requires
        time_reading(value) == Ok::<Option<int>, ()>(opt_time(read)),
    ensures
        match read {
            Some(time) => is_long_time(text::trimmed(value), time@) || is_long_time(
                seq!['0'] + text::trimmed(value),
                time@,
            ),
            None => text::trimmed(value).len() == 0,
        },
{
    match read {
        Some(time) => law_times_are_hours_minutes_seconds(value, time@),
        None => law_times_are_hours_minutes_seconds(value, 0),
    }
}

} // verus!
