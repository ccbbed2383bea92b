//! Proleptic Gregorian calendar dates and the arithmetic the invoice
//! engine needs: validity, month lengths, ordering, and stepping a date
//! forward or backward by whole days.

use vstd::prelude::*;

verus! {

/// Largest year a `CalendarDate` may carry; keeps day-stepping far away
/// from any integer overflow.
pub const YEAR_LIMIT: i32 = 1_000_000;

/// A proleptic Gregorian calendar date. Fields are public so that a
/// date can be matched and displayed; code that builds one from
/// untrusted numbers goes through [`CalendarDate::from_ymd`].
#[derive(Clone, Copy, Debug, PartialEq, Eq, Structural, Hash)]
pub struct CalendarDate {
    pub year: i32,
    pub month: u32,
    pub day: u32,
}

/// The Gregorian leap-year rule.
pub open spec fn is_leap_year(year: int) -> bool {
    (year % 4 == 0 && year % 100 != 0) || year % 400 == 0
}

/// Number of days in a month of a given year.
pub open spec fn spec_days_in_month(year: int, month: int) -> int {
    if month == 2 {
        if is_leap_year(year) {
            29
        } else {
            28
        }
    } else if month == 4 || month == 6 || month == 9 || month == 11 {
        30
    } else {
        31
    }
}

/// A date the engine accepts: a real calendar day within the supported
/// year span.
pub open spec fn date_valid(d: CalendarDate) -> bool {
    &&& 0 <= d.year <= YEAR_LIMIT
    &&& 1 <= d.month <= 12
    &&& 1 <= d.day <= spec_days_in_month(d.year as int, d.month as int)
}

/// Chronological order on dates (lexicographic on year, month, day).
pub open spec fn date_le(a: CalendarDate, b: CalendarDate) -> bool {
    ||| a.year < b.year
    ||| (a.year == b.year && a.month < b.month)
    ||| (a.year == b.year && a.month == b.month && a.day <= b.day)
}

/// Strict chronological order on dates.
pub open spec fn date_lt(a: CalendarDate, b: CalendarDate) -> bool {
    date_le(a, b) && a != b
}

impl CalendarDate {
    /// Builds a date from raw numbers; `Some` exactly when they name a
    /// real calendar day within the supported year span.
    pub fn from_ymd(year: i32, month: u32, day: u32) -> (r: Option<CalendarDate>)
        ensures
            r == (if date_valid(CalendarDate { year, month, day }) {
                Some(CalendarDate { year, month, day })
            } else {
                None
            }),
    {
        if 0 <= year && year <= YEAR_LIMIT && 1 <= month && month <= 12 && 1 <= day
            && day <= days_in_month(year, month) {
            Some(CalendarDate { year, month, day })
        } else {
            None
        }
    }

    /// Chronological `<=` comparison.
    pub fn le(&self, other: &CalendarDate) -> (r: bool)
        ensures
            r == date_le(*self, *other),
    {
        if self.year != other.year {
            self.year < other.year
        } else if self.month != other.month {
            self.month < other.month
        } else {
            self.day <= other.day
        }
    }

    /// Chronological `<` comparison.
    pub fn lt(&self, other: &CalendarDate) -> (r: bool)
        ensures
            r == date_lt(*self, *other),
    {
        if self.year != other.year {
            self.year < other.year
        } else if self.month != other.month {
            self.month < other.month
        } else {
            self.day < other.day
        }
    }
}

/// Whether `year` is a Gregorian leap year.
pub fn is_leap(year: i32) -> (b: bool)
    requires
        year >= 0,
    ensures
        b == is_leap_year(year as int),
{
    (year % 4 == 0 && year % 100 != 0) || year % 400 == 0
}

/// Number of days in the given month.
pub fn days_in_month(year: i32, month: u32) -> (d: u32)
    requires
        year >= 0,
        1 <= month <= 12,
    ensures
        d == spec_days_in_month(year as int, month as int),
{
    if month == 2 {
        if is_leap(year) {
            29
        } else {
            28
        }
    } else if month == 4 || month == 6 || month == 9 || month == 11 {
        30
    } else {
        31
    }
}

/// The last day of the given month, computed from the month-length
/// rule (including leap Februaries).
pub fn last_day_of_month(year: i32, month: u32) -> (r: CalendarDate)
    requires
        0 <= year <= YEAR_LIMIT,
        1 <= month <= 12,
    ensures
        r.year == year,
        r.month == month,
        r.day == spec_days_in_month(year as int, month as int),
        date_valid(r),
{
    CalendarDate { year, month, day: days_in_month(year, month) }
}

/// The day after `d`.
pub open spec fn spec_next_date(d: CalendarDate) -> CalendarDate {
    if d.day < spec_days_in_month(d.year as int, d.month as int) {
        CalendarDate { year: d.year, month: d.month, day: (d.day + 1) as u32 }
    } else if d.month < 12 {
        CalendarDate { year: d.year, month: (d.month + 1) as u32, day: 1 }
    } else {
        CalendarDate { year: (d.year + 1) as i32, month: 1, day: 1 }
    }
}

/// The day before `d`.
pub open spec fn spec_prev_date(d: CalendarDate) -> CalendarDate {
    if d.day > 1 {
        CalendarDate { year: d.year, month: d.month, day: (d.day - 1) as u32 }
    } else if d.month > 1 {
        CalendarDate {
            year: d.year,
            month: (d.month - 1) as u32,
            day: spec_days_in_month(d.year as int, d.month as int - 1) as u32,
        }
    } else {
        CalendarDate { year: (d.year - 1) as i32, month: 12, day: 31 }
    }
}

/// `d` stepped forward (`n >= 0`) or backward (`n < 0`) by `n` days.
pub open spec fn spec_add_days(d: CalendarDate, n: int) -> CalendarDate
    decreases
            (if n >= 0 {
                n
            } else {
                -n
            }),
{
    if n > 0 {
        spec_add_days(spec_next_date(d), n - 1)
    } else if n < 0 {
        spec_add_days(spec_prev_date(d), n + 1)
    } else {
        d
    }
}

/// The day after `d`.
pub fn next_date(d: CalendarDate) -> (r: CalendarDate)
    requires
        date_valid(d),
        d.year < YEAR_LIMIT,
    ensures
        r == spec_next_date(d),
        date_valid(r),
{
    if d.day < days_in_month(d.year, d.month) {
        CalendarDate { year: d.year, month: d.month, day: d.day + 1 }
    } else if d.month < 12 {
        CalendarDate { year: d.year, month: d.month + 1, day: 1 }
    } else {
        CalendarDate { year: d.year + 1, month: 1, day: 1 }
    }
}

/// The day before `d`.
pub fn prev_date(d: CalendarDate) -> (r: CalendarDate)
    requires
        date_valid(d),
        d.year > 0,
    ensures
        r == spec_prev_date(d),
        date_valid(r),
{
    if d.day > 1 {
        CalendarDate { year: d.year, month: d.month, day: d.day - 1 }
    } else if d.month > 1 {
        CalendarDate { year: d.year, month: d.month - 1, day: days_in_month(d.year, d.month - 1) }
    } else {
        CalendarDate { year: d.year - 1, month: 12, day: 31 }
    }
}

/// Widest day-offset accepted by [`add_days`]; with [`ADD_YEAR_MARGIN`]
/// it keeps the stepped date inside the supported year span.
pub const ADD_DAYS_LIMIT: i64 = 100_000;

/// Years of headroom a date must keep at both ends of the supported
/// span before [`add_days`] may step it.
pub const ADD_YEAR_MARGIN: i32 = 1_100;

/// A monotone stand-in for a date's day ordinal: stepping a date by one
/// day moves it by at least one and at most four.
pub open spec fn date_phi(d: CalendarDate) -> int {
    d.year as int * 372 + (d.month as int - 1) * 31 + (d.day as int - 1)
}

proof fn lemma_phi_next(d: CalendarDate)
    requires
        date_valid(d),
        d.year < YEAR_LIMIT,
    ensures
        1 <= date_phi(spec_next_date(d)) - date_phi(d) <= 4,
{
}

proof fn lemma_phi_prev(d: CalendarDate)
    requires
        date_valid(d),
        d.year > 0,
    ensures
        1 <= date_phi(d) - date_phi(spec_prev_date(d)) <= 4,
{
}

/// Steps `d` by `n` whole days, forward or backward.
pub fn add_days(d: CalendarDate, n: i64) -> (r: CalendarDate)
    requires
        date_valid(d),
        -ADD_DAYS_LIMIT <= n <= ADD_DAYS_LIMIT,
        ADD_YEAR_MARGIN <= d.year <= YEAR_LIMIT - ADD_YEAR_MARGIN,
    ensures
        r == spec_add_days(d, n as int),
        date_valid(r),
{
    let mut cur = d;
    let mut left = n;
    while left != 0
        invariant
            date_valid(cur),
            spec_add_days(cur, left as int) == spec_add_days(d, n as int),
            n >= 0 ==> 0 <= left <= n && date_phi(d) <= date_phi(cur) <= date_phi(d) + 4 * (n
                - left),
            n < 0 ==> n <= left <= 0 && date_phi(d) + 4 * (n - left) <= date_phi(cur) <= date_phi(
                d,
            ),
            -ADD_DAYS_LIMIT <= n <= ADD_DAYS_LIMIT,
            date_valid(d),
            ADD_YEAR_MARGIN <= d.year <= YEAR_LIMIT - ADD_YEAR_MARGIN,
        decreases
                (if left >= 0 {
                    left as int
                } else {
                    -(left as int)
                }),
    {
        proof {
            assert(372 * (cur.year as int) <= date_phi(cur) <= 372 * (cur.year as int) + 371);
            assert(date_phi(cur) <= 372 * (d.year as int) + 371 + 4 * ADD_DAYS_LIMIT);
            assert(date_phi(cur) >= 372 * (d.year as int) - 4 * ADD_DAYS_LIMIT);
            assert(cur.year < YEAR_LIMIT);
            assert(cur.year > 0);
            if left > 0 {
                lemma_phi_next(cur);
            } else {
                lemma_phi_prev(cur);
            }
        }
        if left > 0 {
            cur = next_date(cur);
            left = left - 1;
        } else {
            cur = prev_date(cur);
            left = left + 1;
        }
    }
    cur
}

} // verus!
