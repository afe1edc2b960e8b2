//! Calendar dates as day numbers.
//!
//! Day 1 is the first of January of year 1 in the proleptic Gregorian
//! calendar. Dates are read and written by `chrono`; what the library does
//! with them in between is arithmetic on the day number.

use chrono::Datelike;
use chrono::NaiveDate;

use vstd::prelude::*;

use crate::text;

verus! {

// ---------------------------------------------------------------------------
// The civil calendar
// ---------------------------------------------------------------------------

/// Whether year `y` has a 29th of February.
pub open spec fn is_leap(y: int) -> bool {
    y % 4 == 0 && (y % 100 != 0 || y % 400 == 0)
}

/// The number of days in month `m` of year `y`.
pub open spec fn month_days(y: int, m: int) -> int {
    if m == 2 {
        if is_leap(y) {
            29
        } else {
            28
        }
    } else if m == 4 || m == 6 || m == 9 || m == 11 {
        30
    } else {
        31
    }
}

/// Whether year `y` has a day `d` in a month `m`.
pub open spec fn is_civil(y: int, m: int, d: int) -> bool {
    1 <= m <= 12 && 1 <= d <= month_days(y, m)
}

/// The number of days from the start of year 1 to the start of year `y`.
pub open spec fn days_before_year(y: int) -> int {
    365 * (y - 1) + (y - 1) / 4 - (y - 1) / 100 + (y - 1) / 400
}

/// The number of days in year `y` before month `m`.
pub open spec fn days_before_month(y: int, m: int) -> int
    decreases m,
{
    if m <= 1 {
        0
    } else {
        days_before_month(y, m - 1) + month_days(y, m - 1)
    }
}

/// The day number of a civil date.
pub open spec fn day_number(y: int, m: int, d: int) -> int {
    days_before_year(y) + days_before_month(y, m) + d
}

/// The days a date may name: the years -262143 to 262142.
pub open spec fn in_calendar(day: int) -> bool {
    -95_746_129 <= day <= 95_745_399
}

/// The civil date with day number `day`.
pub open spec fn civil_of(day: int) -> (int, int, int) {
    choose|y: int, m: int, d: int| is_civil(y, m, d) && #[trigger] day_number(y, m, d) == day
}

/// The number of days in year `y`.
proof fn lemma_year_length(y: int)
    ensures
        days_before_month(y, 13) == (if is_leap(y) {
            366int
        } else {
            365int
        }),
{
    assert(days_before_month(y, 1) == 0);
    assert(days_before_month(y, 2) == 31);
    assert(days_before_month(y, 3) == 31 + month_days(y, 2));
    assert(days_before_month(y, 4) == 62 + month_days(y, 2));
    assert(days_before_month(y, 5) == 92 + month_days(y, 2));
    assert(days_before_month(y, 6) == 123 + month_days(y, 2));
    assert(days_before_month(y, 7) == 153 + month_days(y, 2));
    assert(days_before_month(y, 8) == 184 + month_days(y, 2));
    assert(days_before_month(y, 9) == 215 + month_days(y, 2));
    assert(days_before_month(y, 10) == 245 + month_days(y, 2));
    assert(days_before_month(y, 11) == 276 + month_days(y, 2));
    assert(days_before_month(y, 12) == 306 + month_days(y, 2));
    assert(days_before_month(y, 13) == 337 + month_days(y, 2));
}

/// The leap days from year `y` to the next.
proof fn lemma_leap_step(y: int)
    ensures
        y / 4 - y / 100 + y / 400 - ((y - 1) / 4 - (y - 1) / 100 + (y - 1) / 400) == (if is_leap(y) {
            1int
        } else {
            0int
        }),
{
    assert(y / 4 - (y - 1) / 4 == (if y % 4 == 0 {
        1int
    } else {
        0int
    }));
    assert(y / 100 - (y - 1) / 100 == (if y % 100 == 0 {
        1int
    } else {
        0int
    }));
    assert(y / 400 - (y - 1) / 400 == (if y % 400 == 0 {
        1int
    } else {
        0int
    }));
}

proof fn lemma_year_step(y: int)
    ensures
        days_before_year(y + 1) == days_before_year(y) + days_before_month(y, 13),
{
    lemma_year_length(y);
    lemma_leap_step(y);
}

/// Every day number is the day number of a civil date.
pub proof fn lemma_civil_of(day: int)
    ensures
        is_civil(civil_of(day).0, civil_of(day).1, civil_of(day).2),
        day_number(civil_of(day).0, civil_of(day).1, civil_of(day).2) == day,
    decreases (if day >= 1 {
        day
    } else {
        2 - day
    }),
{
    if day == 1 {
        assert(is_civil(1, 1, 1) && day_number(1, 1, 1) == 1);
    } else if day > 1 {
        lemma_civil_of(day - 1);
        let (y, m, d) = civil_of(day - 1);
        if d < month_days(y, m) {
            assert(is_civil(y, m, d + 1) && day_number(y, m, d + 1) == day);
        } else if m < 12 {
            assert(is_civil(y, m + 1, 1) && day_number(y, m + 1, 1) == day);
        } else {
            lemma_year_step(y);
            assert(days_before_month(y, 13) == days_before_month(y, 12) + month_days(y, 12));
            assert(is_civil(y + 1, 1, 1) && day_number(y + 1, 1, 1) == day);
        }
    } else {
        lemma_civil_of(day + 1);
        let (y, m, d) = civil_of(day + 1);
        if d > 1 {
            assert(is_civil(y, m, d - 1) && day_number(y, m, d - 1) == day);
        } else if m > 1 {
            let last = month_days(y, m - 1);
            assert(is_civil(y, m - 1, last) && day_number(y, m - 1, last) == day);
        } else {
            lemma_year_step(y - 1);
            assert(days_before_month(y - 1, 13) == days_before_month(y - 1, 12) + month_days(
                y - 1,
                12,
            ));
            assert(is_civil(y - 1, 12, 31) && day_number(y - 1, 12, 31) == day);
        }
    }
}

// ---------------------------------------------------------------------------
// Text
// ---------------------------------------------------------------------------

/// A year in ISO 8601 form: four digits from 0 to 9999, and outside that range
/// a sign followed by at least four digits.
pub open spec fn iso_year(y: int) -> Seq<char> {
    if 0 <= y <= 9999 {
        text::zero_padded(text::decimal(y as nat), 4)
    } else if y < 0 {
        seq!['-'] + text::zero_padded(text::decimal((-y) as nat), 4)
    } else {
        seq!['+'] + text::zero_padded(text::decimal(y as nat), 4)
    }
}

/// A civil date in ISO 8601 form, `YYYY-MM-DD`.
pub open spec fn iso_text(y: int, m: int, d: int) -> Seq<char> {
    iso_year(y) + seq!['-'] + text::zero_padded(text::decimal(m as nat), 2) + seq!['-'] + text::zero_padded(
        text::decimal(d as nat),
        2,
    )
}

/// The ISO 8601 form of the date with day number `day`.
pub open spec fn day_text(day: int) -> Seq<char> {
    iso_text(civil_of(day).0, civil_of(day).1, civil_of(day).2)
}

/// What eight decimal digits `YYYYMMDD` name: a date, if the year has that day.
pub open spec fn eight_digit_date(s: Seq<char>) -> Option<int> {
    let y = text::digits_value(s.subrange(0, 4));
    let m = text::digits_value(s.subrange(4, 6));
    let d = text::digits_value(s.subrange(6, 8));
    if is_civil(y, m, d) {
        Some(day_number(y, m, d))
    } else {
        None
    }
}

/// The result of a date reading, as a specification value.
pub open spec fn as_day(reading: Option<i32>) -> Option<int> {
    match reading {
        Some(day) => Some(day as int),
        None => None,
    }
}

/// Calls `chrono::NaiveDate::parse_from_str` with the format `%Y%m%d` and
/// returns the day number of the date it reads, or `None` where it reports an
/// error.
///
/// What is stated: exactly eight ASCII digits are read as four of year, two of
/// month and two of day, and are a date where the year has that day. The date is
/// one that `NaiveDate` can hold. Texts of other shapes are not handed to it.
#[verifier::external_body]
pub(crate) fn read_ymd(value: &str) -> (r: Option<i32>)
    requires
        value@.len() == 8,
        text::all_digits(value@),
    ensures
        as_day(r) == eight_digit_date(value@),
        r matches Some(day) ==> in_calendar(day as int),
{
    match NaiveDate::parse_from_str(value, "%Y%m%d") {
        Ok(date) => Some(date.num_days_from_ce()),
        Err(_) => None,
    }
}

/// Calls `to_string` on the `chrono::NaiveDate` with day number `day`, made by
/// `NaiveDate::from_num_days_from_ce_opt`.
///
/// The text is the ISO 8601 form of the civil date with that day number.
#[verifier::external_body]
fn write_day(day: i32) -> (r: String)
    requires
        in_calendar(day as int),
    ensures
        forall|y: int, m: int, d: int|
            is_civil(y, m, d) && #[trigger] day_number(y, m, d) == day ==> r@ == iso_text(y, m, d),
{
    NaiveDate::from_num_days_from_ce_opt(day).unwrap().to_string()
}

// ---------------------------------------------------------------------------
// Dates
// ---------------------------------------------------------------------------

/// A calendar date.
#[derive(Debug, Clone, Copy, PartialEq, Eq, PartialOrd, Ord, Hash, Structural)]
pub struct Date {
    day: i32,
}

impl View for Date {
    type V = int;

    closed spec fn view(&self) -> int {
        self.day as int
    }
}

impl Date {
    #[verifier::type_invariant]
    spec fn valid(self) -> bool {
        in_calendar(self.day as int)
    }

    /// The date with day number `day`, if the calendar reaches that far.
    pub fn from_day(day: i32) -> (r: Option<Date>)
        ensures
            match r {
                Some(date) => in_calendar(day as int) && date@ == day,
                None => !in_calendar(day as int),
            },
    {
        if -95_746_129 <= day && day <= 95_745_399 {
            Some(Date { day })
        } else {
            None
        }
    }

    /// The day number.
    pub fn day(self) -> (r: i32)
        ensures
            r == self@,
            in_calendar(r as int),
    {
        proof {
            use_type_invariant(&self);
        }
        self.day
    }

    /// Days since Monday: 0 for a Monday, 6 for a Sunday.
    pub fn days_from_monday(self) -> (r: u32)
        ensures
            r == weekday_of(self@),
            r < 7,
    {
        let day: i64 = self.day() as i64;
        // A multiple of seven past the first day of the calendar, so that the
        // remainder is taken of a positive number.
        ((day - 1 + 95_746_133) % 7) as u32
    }

    /// The ISO 8601 form, `YYYY-MM-DD`.
    pub fn to_text(self) -> (r: String)
        ensures
            r@ == day_text(self@),
    {
        proof {
            lemma_civil_of(self@);
        }
        write_day(self.day())
    }
}

/// The weekday of a day number, counted from Monday. Day 1 is a Monday.
pub open spec fn weekday_of(day: int) -> int {
    (day - 1) % 7
}

// ---------------------------------------------------------------------------
// Laws
// ---------------------------------------------------------------------------

proof fn lemma_two_digit_field(n: int)
    requires
        0 <= n < 100,
    ensures
        text::zero_padded(text::decimal(n as nat), 2).len() == 2,
        text::digits_value(text::zero_padded(text::decimal(n as nat), 2)) == n,
{
    reveal_with_fuel(text::decimal, 3);
    text::lemma_decimal_value(n as nat);
    text::lemma_padded_value(text::decimal(n as nat), 2);
}

proof fn lemma_year_field(y: int)
    ensures
        iso_year(y).len() > 0,
        0 <= y <= 9999 ==> text::all_digits(iso_year(y)) && text::digits_value(iso_year(y)) == y,
        y < 0 ==> iso_year(y)[0] == '-' && text::digits_value(iso_year(y).skip(1)) == -y,
        y > 9999 ==> iso_year(y)[0] == '+' && text::digits_value(iso_year(y).skip(1)) == y,
{
    let size = if y < 0 {
        -y
    } else {
        y
    };
    text::lemma_decimal_value(size as nat);
    text::lemma_padded_value(text::decimal(size as nat), 4);
    let digits = text::zero_padded(text::decimal(size as nat), 4);
    if y < 0 || y > 9999 {
        assert(iso_year(y).skip(1) =~= digits);
    }
}

/// The text of a date holds digits and signs, and no other character.
pub proof fn lemma_day_text_plain(day: int)
    ensures
        forall|c: char| #[trigger]
            day_text(day).contains(c) ==> text::is_digit(c) || c == '-' || c == '+',
{
    lemma_civil_of(day);
    let (y, m, d) = civil_of(day);
    let size = if y < 0 {
        -y
    } else {
        y
    };
    text::lemma_decimal_value(size as nat);
    text::lemma_padded_value(text::decimal(size as nat), 4);
    text::lemma_decimal_value(m as nat);
    text::lemma_padded_value(text::decimal(m as nat), 2);
    text::lemma_decimal_value(d as nat);
    text::lemma_padded_value(text::decimal(d as nat), 2);
    let digits = text::zero_padded(text::decimal(size as nat), 4);
    let year = iso_year(y);
    let mm = text::zero_padded(text::decimal(m as nat), 2);
    let dd = text::zero_padded(text::decimal(d as nat), 2);
    let s = day_text(day);
    assert forall|i: int| 0 <= i < year.len() implies text::is_digit(#[trigger] year[i]) || year[i]
        == '-' || year[i] == '+' by {
        if 0 <= y <= 9999 {
            assert(year[i] == digits[i]);
        } else if i > 0 {
            assert(year[i] == digits[i - 1]);
        }
    }
    assert forall|i: int| 0 <= i < s.len() implies text::is_digit(#[trigger] s[i]) || s[i] == '-'
        || s[i] == '+' by {
        if i < year.len() {
            assert(s[i] == year[i]);
        } else if i == year.len() {
            assert(s[i] == '-');
        } else if i < year.len() + 1 + mm.len() {
            assert(s[i] == mm[i - year.len() - 1]);
        } else if i == year.len() + 1 + mm.len() {
            assert(s[i] == '-');
        } else {
            assert(s[i] == dd[i - year.len() - 2 - mm.len()]);
        }
    }
}

/// Different dates have different texts.
pub proof fn law_dates_have_distinct_texts(a: int, b: int)
    requires
        day_text(a) == day_text(b),
    ensures
        a == b,
{
    lemma_civil_of(a);
    lemma_civil_of(b);
    let (y1, m1, d1) = civil_of(a);
    let (y2, m2, d2) = civil_of(b);
    let s = day_text(a);
    let n = s.len() as int;
    lemma_two_digit_field(m1);
    lemma_two_digit_field(d1);
    lemma_two_digit_field(m2);
    lemma_two_digit_field(d2);
    lemma_year_field(y1);
    lemma_year_field(y2);
    let mm1 = text::zero_padded(text::decimal(m1 as nat), 2);
    let mm2 = text::zero_padded(text::decimal(m2 as nat), 2);
    let dd1 = text::zero_padded(text::decimal(d1 as nat), 2);
    let dd2 = text::zero_padded(text::decimal(d2 as nat), 2);
    assert(iso_year(y1) =~= s.take(n - 6));
    assert(iso_year(y2) =~= s.take(n - 6));
    assert(mm1 =~= s.subrange(n - 5, n - 3));
    assert(mm2 =~= s.subrange(n - 5, n - 3));
    assert(dd1 =~= s.subrange(n - 2, n));
    assert(dd2 =~= s.subrange(n - 2, n));
    if 0 <= y1 <= 9999 {
        assert(text::is_digit(iso_year(y1)[0]));
    }
    if 0 <= y2 <= 9999 {
        assert(text::is_digit(iso_year(y2)[0]));
    }
    assert(y1 == y2);
}

/// Days are numbered one after the other: the day after a date has the next
/// number. A month has thirty-one days, or thirty in April, June, September and
/// November, and February has twenty-eight, or twenty-nine in every fourth year
/// but for centuries that are no multiple of four hundred.
pub proof fn law_days_follow_each_other(y: int, m: int, d: int)
    requires
        is_civil(y, m, d),
    ensures
        1 <= m <= 12,
        ({
            let leap = (y % 4 == 0 && y % 100 != 0) || y % 400 == 0;
            let last = if m == 4 || m == 6 || m == 9 || m == 11 {
                30int
            } else if m != 2 {
                31
            } else if leap {
                29
            } else {
                28
            };
            &&& 1 <= d <= last
            &&& d < last ==> is_civil(y, m, d + 1) && day_number(y, m, d + 1) == day_number(
                y,
                m,
                d,
            ) + 1
            &&& d == last && m < 12 ==> is_civil(y, m + 1, 1) && day_number(y, m + 1, 1)
                == day_number(y, m, d) + 1
            &&& d == last && m == 12 ==> is_civil(y + 1, 1, 1) && day_number(y + 1, 1, 1)
                == day_number(y, m, d) + 1
        }),
        is_civil(1, 1, 1),
        day_number(1, 1, 1) == 1,
        day_number(1970, 1, 1) == 719_163,
{
    lemma_year_step(y);
    assert(days_before_month(y, m + 1) == days_before_month(y, m) + month_days(y, m));
    assert(days_before_month(y, 13) == days_before_month(y, 12) + month_days(y, 12));
    assert(days_before_month(1, 1) == 0);
    assert(days_before_month(1970, 1) == 0);
    assert(days_before_month(y + 1, 1) == 0);
}

/// The weekday moves on by one each day and comes back after seven. The first of
/// January 1970 was a Thursday.
pub proof fn law_weekdays_follow_each_other(day: int)
    ensures
        0 <= weekday_of(day) < 7,
        weekday_of(day) < 6 ==> weekday_of(day + 1) == weekday_of(day) + 1,
        weekday_of(day) == 6 ==> weekday_of(day + 1) == 0,
        weekday_of(day_number(1970, 1, 1)) == 3,
{
    assert(days_before_month(1970, 1) == 0);
}

/// The text of a date in the years 0 to 9999 is `YYYY-MM-DD`: without the
/// dashes, it reads as the same date.
pub proof fn law_date_text_reads_back(y: int, m: int, d: int)
    requires
        is_civil(y, m, d),
        0 <= y <= 9999,
    ensures
        ({
            let s = iso_text(y, m, d);
            let digits = s.subrange(0, 4) + s.subrange(5, 7) + s.subrange(8, 10);
            &&& s.len() == 10
            &&& s[4] == '-'
            &&& s[7] == '-'
            &&& text::all_digits(digits)
            &&& eight_digit_date(digits) == Some(day_number(y, m, d))
        }),
{
    lemma_two_digit_field(m);
    lemma_two_digit_field(d);
    lemma_year_field(y);
    text::lemma_decimal_value(y as nat);
    text::lemma_decimal_value(m as nat);
    text::lemma_decimal_value(d as nat);
    text::lemma_padded_value(text::decimal(y as nat), 4);
    text::lemma_padded_value(text::decimal(m as nat), 2);
    text::lemma_padded_value(text::decimal(d as nat), 2);
    lemma_four_digits(y);
    let s = iso_text(y, m, d);
    let yy = iso_year(y);
    let mm = text::zero_padded(text::decimal(m as nat), 2);
    let dd = text::zero_padded(text::decimal(d as nat), 2);
    let digits = s.subrange(0, 4) + s.subrange(5, 7) + s.subrange(8, 10);
    assert(s.len() == 10);
    assert(digits.subrange(0, 4) =~= yy);
    assert(digits.subrange(4, 6) =~= mm);
    assert(digits.subrange(6, 8) =~= dd);
    assert(digits =~= yy + mm + dd);
    assert forall|i: int| 0 <= i < digits.len() implies text::is_digit(#[trigger] digits[i]) by {
        if i < 4 {
            assert(digits[i] == yy[i]);
        } else if i < 6 {
            assert(digits[i] == mm[i - 4]);
        } else {
            assert(digits[i] == dd[i - 6]);
        }
    }
}

/// A year from 0 to 9999 is written with four digits.
proof fn lemma_four_digits(y: int)
    requires
        0 <= y <= 9999,
    ensures
        iso_year(y).len() == 4,
{
    reveal_with_fuel(text::decimal, 5);
    text::lemma_decimal_value(y as nat);
    text::lemma_padded_value(text::decimal(y as nat), 4);
    assert(text::decimal(y as nat).len() <= 4);
}

/// The text of the date with a day number is that of its civil date, of which
/// there is one.
pub proof fn law_each_day_has_its_text(y: int, m: int, d: int)
    requires
        is_civil(y, m, d),
    ensures
        day_text(day_number(y, m, d)) == iso_text(y, m, d),
{
    let day = day_number(y, m, d);
    lemma_civil_of(day);
    let (a, b, c) = civil_of(day);
    if a < y || (a == y && (b < m || (b == m && c < d))) {
        lemma_date_order(a, b, c, y, m, d);
    }
    if y < a || (y == a && (m < b || (m == b && d < c))) {
        lemma_date_order(y, m, d, a, b, c);
    }
}

/// An earlier civil date has a smaller number.
proof fn lemma_date_order(y: int, m: int, d: int, a: int, b: int, c: int)
    requires
        is_civil(y, m, d),
        is_civil(a, b, c),
        y < a || (y == a && (m < b || (m == b && d < c))),
    ensures
        day_number(y, m, d) < day_number(a, b, c),
{
    if y < a {
        lemma_months_grow(y, m, 12);
        lemma_year_step(y);
        assert(days_before_month(y, 13) == days_before_month(y, 12) + month_days(y, 12));
        assert(days_before_month(y, m + 1) == days_before_month(y, m) + month_days(y, m));
        lemma_months_grow(y, m + 1, 13);
        lemma_years_grow(y + 1, a);
        lemma_months_grow(a, 1, b);
    } else if m < b {
        assert(days_before_month(y, m + 1) == days_before_month(y, m) + month_days(y, m));
        lemma_months_grow(y, m + 1, b);
    }
}

proof fn lemma_months_grow(y: int, m: int, n: int)
    requires
        1 <= m <= n,
    ensures
        days_before_month(y, m) <= days_before_month(y, n),
    decreases n - m,
{
    if m < n {
        lemma_months_grow(y, m, n - 1);
    }
}

proof fn lemma_years_grow(a: int, b: int)
    requires
        a <= b,
    ensures
        days_before_year(a) <= days_before_year(b),
    decreases b - a,
{
    if a < b {
        lemma_years_grow(a, b - 1);
        lemma_year_step(b - 1);
        lemma_year_length(b - 1);
    }
}

} // verus!
