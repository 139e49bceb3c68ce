//! Calendar dates, instants and offset date-times, held as plain numbers.

use vstd::prelude::*;

use crate::numbers;
use crate::outside;
use crate::text;
use crate::text::Order;

verus! {

/// Whether a year of the Gregorian calendar has a 29th of February.
pub open spec fn is_leap(year: int) -> bool {
    year % 4 == 0 && (year % 100 != 0 || year % 400 == 0)
}

/// How many days a month has.
pub open spec fn days_in_month(year: int, month: int) -> int {
    if month == 2 {
        if is_leap(year) {
            29
        } else {
            28
        }
    } else if month == 4 || month == 6 || month == 9 || month == 11 {
        30
    } else {
        31
    }
}

/// The dates that can be held: those of the proleptic Gregorian calendar from
/// the year -262143 to the year 262142.
pub open spec fn valid_date(year: i32, month: u32, day: u32) -> bool {
    &&& -262143 <= year <= 262142
    &&& 1 <= month <= 12
    &&& 1 <= day <= days_in_month(year as int, month as int)
}

/// The instants that can be held: seconds since the first moment of 1970 and
/// nanoseconds into the second. A leap second counts as a second billion of
/// nanoseconds, at the end of a minute only.
pub open spec fn valid_instant(secs: i64, nanos: u32) -> bool {
    &&& -8334601228800 <= secs <= 8210266876799
    &&& nanos < 2_000_000_000
    &&& nanos >= 1_000_000_000 ==> secs % 60 == 59
}

/// Text of a date: year, month and day with hyphens between. A year outside
/// 0 to 9999 carries its sign.
pub open spec fn date_text(year: i32, month: u32, day: u32) -> Seq<char> {
    let y = if 0 <= year <= 9999 {
        numbers::padded(year as nat, 4)
    } else if year < 0 {
        seq!['-'] + numbers::padded((-year) as nat, 4)
    } else {
        seq!['+'] + numbers::padded(year as nat, 4)
    };
    y + seq!['-'] + numbers::padded(month as nat, 2) + seq!['-'] + numbers::padded(day as nat, 2)
}

/// A calendar date.
#[derive(Debug, Clone, Copy, PartialEq, Eq)]
pub struct Date {
    year: i32,
    month: u32,
    day: u32,
}

impl View for Date {
    type V = (i32, u32, u32);

    closed spec fn view(&self) -> (i32, u32, u32) {
        (self.year, self.month, self.day)
    }
}

/// Chronological order of dates.
pub open spec fn date_order(a: (i32, u32, u32), b: (i32, u32, u32)) -> Order {
    if a.0 != b.0 {
        text::int_order(a.0 as int, b.0 as int)
    } else if a.1 != b.1 {
        text::int_order(a.1 as int, b.1 as int)
    } else {
        text::int_order(a.2 as int, b.2 as int)
    }
}

impl Date {
    #[verifier::type_invariant]
    spec fn exists_in_calendar(self) -> bool {
        valid_date(self.year, self.month, self.day)
    }

    /// The date of a year, a month and a day, if the calendar has it.
    pub fn from_ymd_opt(year: i32, month: u32, day: u32) -> (r: Option<Date>)
        ensures
            r matches Some(d) ==> d@ == (year, month, day),
            r is Some <==> valid_date(year, month, day),
    {
        if year < -262143 || year > 262142 || month < 1 || month > 12 || day < 1 {
            return None;
        }
        let shifted: u32 = (year + 400_000) as u32;
        let leap = shifted % 4 == 0 && (shifted % 100 != 0 || shifted % 400 == 0);
        let days: u32 = if month == 2 {
            if leap {
                29
            } else {
                28
            }
        } else if month == 4 || month == 6 || month == 9 || month == 11 {
            30
        } else {
            31
        };
        if day > days {
            None
        } else {
            Some(Date { year, month, day })
        }
    }

    /// The date that an ISO-8601 text (`2026-05-14`) names.
    pub fn parse(s: &str) -> (r: Option<Date>)
        ensures
            r is Some <==> outside::iso_date(s@) is Some,
            r matches Some(d) ==> outside::iso_date(s@) == Some(d@),
    {
        match outside::read_date(s) {
            Some((year, month, day)) => Some(Date { year, month, day }),
            None => None,
        }
    }

    /// The date as `2026-05-14`.
    pub fn format(&self) -> (r: String)
        ensures
            r@ == date_text(self@.0, self@.1, self@.2),
    {
        proof {
            use_type_invariant(self);
        }
        outside::write_date(self.year, self.month, self.day)
    }

    /// Which of two dates comes first.
    pub fn compare(&self, other: &Date) -> (r: Order)
        ensures
            r == date_order(self@, other@),
    {
        if self.year != other.year {
            text::compare_ints(self.year as i64, other.year as i64)
        } else if self.month != other.month {
            text::compare_ints(self.month as i64, other.month as i64)
        } else {
            text::compare_ints(self.day as i64, other.day as i64)
        }
    }
}

/// A moment in time, in UTC.
#[derive(Debug, Clone, Copy, PartialEq, Eq)]
pub struct Instant {
    secs: i64,
    nanos: u32,
}

impl View for Instant {
    type V = (i64, u32);

    closed spec fn view(&self) -> (i64, u32) {
        (self.secs, self.nanos)
    }
}

/// Chronological order of instants.
pub open spec fn instant_order(a: (i64, u32), b: (i64, u32)) -> Order {
    if a.0 != b.0 {
        text::int_order(a.0 as int, b.0 as int)
    } else {
        text::int_order(a.1 as int, b.1 as int)
    }
}

/// Milliseconds from the first moment of 1970 to an instant.
pub open spec fn millis(at: (i64, u32)) -> int {
    at.0 * 1000 + at.1 as int / 1_000_000
}

impl Instant {
    #[verifier::type_invariant]
    spec fn in_range(self) -> bool {
        valid_instant(self.secs, self.nanos)
    }

    /// The instant of a Unix timestamp, if it can be held.
    pub fn from_timestamp(secs: i64, nanos: u32) -> (r: Option<Instant>)
        ensures
            r matches Some(t) ==> t@ == (secs, nanos),
            r is Some <==> valid_instant(secs, nanos),
    {
        if secs < -8334601228800 || secs > 8210266876799 || nanos >= 2_000_000_000 {
            return None;
        }
        if nanos >= 1_000_000_000 {
            let shifted: u64 = (secs + 8334601228800) as u64;
            if shifted % 60 != 59 {
                return None;
            }
        }
        Some(Instant { secs, nanos })
    }

    /// The instant of a Unix timestamp in milliseconds, if it can be held.
    pub fn from_timestamp_millis(ms: i64) -> (r: Option<Instant>)
        ensures
            r is Some <==> -8334601228800000 <= ms <= 8210266876799999,
            r matches Some(t) ==> t@.0 == ms as int / 1000 && t@.1 == (ms as int % 1000) * 1_000_000,
    {
        if ms < -8334601228800000 || ms > 8210266876799999 {
            return None;
        }
        let shifted: u64 = (ms + 8334601228800000) as u64;
        let secs: i64 = (shifted / 1000) as i64 - 8334601228800;
        let nanos: u32 = (shifted % 1000) as u32 * 1_000_000;
        Some(Instant { secs, nanos })
    }

    /// Milliseconds since the first moment of 1970, rounded towards the past.
    pub fn timestamp_millis(&self) -> (r: i64)
        ensures
            r == millis(self@),
    {
        proof {
            use_type_invariant(self);
        }
        self.secs * 1000 + (self.nanos / 1_000_000) as i64
    }

    /// Seconds since the first moment of 1970.
    pub fn timestamp(&self) -> (r: i64)
        ensures
            r == self@.0,
    {
        self.secs
    }

    /// Nanoseconds into the second.
    pub fn timestamp_subsec_nanos(&self) -> (r: u32)
        ensures
            r == self@.1,
    {
        self.nanos
    }

    /// RFC 3339 text in whole seconds, with a `Z` for the offset.
    pub fn to_rfc3339(&self) -> (r: String)
        ensures
            r@ == outside::utc_text(self@.0, self@.1),
    {
        proof {
            use_type_invariant(self);
        }
        outside::write_utc(self.secs, self.nanos)
    }

    /// Which of two instants comes first.
    pub fn compare(&self, other: &Instant) -> (r: Order)
        ensures
            r == instant_order(self@, other@),
    {
        if self.secs != other.secs {
            text::compare_ints(self.secs, other.secs)
        } else {
            text::compare_ints(self.nanos as i64, other.nanos as i64)
        }
    }
}

/// An instant together with the offset from UTC that it was written in.
#[derive(Debug, Clone, Copy)]
pub struct DateTime {
    at: Instant,
    offset: i32,
}

/// What a date-time says: its instant, and seconds east of UTC.
pub struct DateTimeData {
    pub at: (i64, u32),
    pub offset: i32,
}

impl View for DateTime {
    type V = DateTimeData;

    closed spec fn view(&self) -> DateTimeData {
        DateTimeData { at: self.at@, offset: self.offset }
    }
}

impl PartialEq for DateTime {
    fn eq(&self, other: &Self) -> (r: bool) {
        self.at.secs == other.at.secs && self.at.nanos == other.at.nanos
    }
}

impl vstd::std_specs::cmp::PartialEqSpecImpl for DateTime {
    open spec fn obeys_eq_spec() -> bool {
        true
    }

    open spec fn eq_spec(&self, other: &Self) -> bool {
        self@.at == other@.at
    }
}

impl DateTime {
    #[verifier::type_invariant]
    spec fn offset_in_range(self) -> bool {
        -86400 < self.offset < 86400
    }

    /// The date-time that an RFC 3339 text names.
    pub fn parse_from_rfc3339(s: &str) -> (r: Option<DateTime>)
        ensures
            r is Some <==> outside::rfc3339(s@) is Some,
            r matches Some(t) ==> outside::rfc3339(s@) == Some((t@.at.0, t@.at.1, t@.offset)),
    {
        match outside::read_rfc3339(s) {
            Some((secs, nanos, offset)) => Some(DateTime { at: Instant { secs, nanos }, offset }),
            None => None,
        }
    }

    /// The instant, without the offset.
    pub fn instant(&self) -> (r: Instant)
        ensures
            r@ == self@.at,
    {
        self.at
    }

    /// The date-time in its own offset, with as many decimals of a second as
    /// it has.
    pub fn debug_text(&self) -> (r: String)
        ensures
            r@ == outside::offset_text(self@.at.0, self@.at.1, self@.offset),
    {
        proof {
            use_type_invariant(self);
            use_type_invariant(&self.at);
        }
        outside::write_offset(self.at.secs, self.at.nanos, self.offset)
    }
}

// -- laws -------------------------------------------------------------------

/// How many days lie between the first of January of the year 0 and that of
/// another year: 365 for each year, and one for each leap year between.
pub open spec fn days_to_year(year: int) -> int {
    365 * year + (year - 1) / 4 - (year - 1) / 100 + (year - 1) / 400
}

/// How many days of a year lie before the first of a month.
pub open spec fn days_to_month(leap: bool, month: int) -> int {
    let common = if month <= 1 {
        0int
    } else if month == 2 {
        31
    } else if month == 3 {
        59
    } else if month == 4 {
        90
    } else if month == 5 {
        120
    } else if month == 6 {
        151
    } else if month == 7 {
        181
    } else if month == 8 {
        212
    } else if month == 9 {
        243
    } else if month == 10 {
        273
    } else if month == 11 {
        304
    } else {
        334
    };
    if leap && month > 2 {
        common + 1
    } else {
        common
    }
}

/// The number of a day, counted from a fixed one.
pub open spec fn day_number(d: (i32, u32, u32)) -> int {
    let leap = d.0 % 4 == 0 && (d.0 % 100 != 0 || d.0 % 400 == 0);
    days_to_year(d.0 as int) + days_to_month(leap, d.1 as int) + d.2
}

/// The day after another.
pub open spec fn next_day(d: (i32, u32, u32)) -> (i32, u32, u32) {
    if valid_date(d.0, d.1, (d.2 + 1) as u32) {
        (d.0, d.1, (d.2 + 1) as u32)
    } else if d.1 < 12 {
        (d.0, (d.1 + 1) as u32, 1)
    } else {
        ((d.0 + 1) as i32, 1, 1)
    }
}

/// The days of the calendar follow each other without a gap: the number of the
/// next day is one more, and there is a next day up to the end of the last year.
pub proof fn days_follow_each_other(d: (i32, u32, u32))
    requires
        valid_date(d.0, d.1, d.2),
        d.0 < 262142,
    ensures
        valid_date(next_day(d).0, next_day(d).1, next_day(d).2),
        day_number(next_day(d)) == day_number(d) + 1,
{
}

proof fn years_add_up(a: int, b: int)
    requires
        a < b,
    ensures
        days_to_year(b) >= days_to_year(a) + 365 + if is_leap(a) {
            1int
        } else {
            0
        },
    decreases b - a,
{
    if b > a + 1 {
        years_add_up(a, b - 1);
    }
}

/// Dates are ordered as their days follow each other: the earlier date is less,
/// and only a date itself is equal to it.
pub proof fn dates_are_ordered_by_day(a: (i32, u32, u32), b: (i32, u32, u32))
    requires
        valid_date(a.0, a.1, a.2),
        valid_date(b.0, b.1, b.2),
    ensures
        date_order(a, b) == Order::Less <==> day_number(a) < day_number(b),
        date_order(a, b) == Order::Equal <==> day_number(a) == day_number(b),
        date_order(a, b) == Order::Greater <==> day_number(b) < day_number(a),
        date_order(a, b) == Order::Equal <==> a == b,
{
    if a.0 < b.0 {
        years_add_up(a.0 as int, b.0 as int);
    } else if b.0 < a.0 {
        years_add_up(b.0 as int, a.0 as int);
    }
}

/// An earlier year comes first whatever the month, and within a year an earlier
/// month whatever the day.
pub proof fn years_go_before_months(a: (i32, u32, u32), b: (i32, u32, u32))
    ensures
        a.0 < b.0 ==> date_order(a, b) == Order::Less && date_order(b, a) == Order::Greater,
        a.0 == b.0 && a.1 < b.1 ==> date_order(a, b) == Order::Less && date_order(b, a)
            == Order::Greater,
        a.0 == b.0 && a.1 == b.1 && a.2 < b.2 ==> date_order(a, b) == Order::Less && date_order(
            b,
            a,
        ) == Order::Greater,
        date_order(a, a) == Order::Equal,
{
}

/// Instants are ordered by their seconds, and within a second by their
/// nanoseconds.
pub proof fn instants_are_ordered_in_time(a: (i64, u32), b: (i64, u32))
    ensures
        instant_order(a, b) == Order::Less <==> a.0 < b.0 || (a.0 == b.0 && a.1 < b.1),
        instant_order(a, b) == Order::Equal <==> a == b,
        instant_order(a, b) == Order::Greater <==> b.0 < a.0 || (a.0 == b.0 && b.1 < a.1),
{
}

/// The milliseconds of an instant are its nanoseconds over a million, rounded
/// towards the past.
pub proof fn millis_are_whole_milliseconds(at: (i64, u32))
    ensures
        millis(at) * 1_000_000 <= at.0 * 1_000_000_000 + at.1 < (millis(at) + 1) * 1_000_000,
{
}

/// Each month has its days: 31, or 30, and February 28 or, in a leap year, 29.
/// A year is a leap year if it is divisible by four, but not by a hundred unless
/// it is by four hundred.
pub proof fn months_have_their_days(year: i32, month: u32)
    requires
        -262143 <= year <= 262142,
    ensures
        valid_date(year, month, 28) <==> 1 <= month <= 12,
        valid_date(year, month, 29) <==> 1 <= month <= 12 && (month != 2 || (year % 4 == 0 && (
        year % 100 != 0 || year % 400 == 0))),
        valid_date(year, month, 30) <==> 1 <= month <= 12 && month != 2,
        valid_date(year, month, 31) <==> (month == 1 || month == 3 || month == 5 || month == 7
            || month == 8 || month == 10 || month == 12),
        !valid_date(year, month, 32) && !valid_date(year, month, 0),
{
}

}
