//! The one question the library asks the machine: the current local
//! date.

use vstd::prelude::*;
use chrono::Datelike;
use crate::dates::{CalendarDate, date_valid, YEAR_LIMIT};

verus! {

/// Relies on chrono: `Local::now().date_naive()` is a `NaiveDate`, and
/// `Datelike` documents `month()` as ranging 1 to 12 and `day()` as 1
/// to 31, while `NaiveDate` itself spans January 1, 262145 BCE to
/// December 31, 262143 CE, so its years lie well inside ±300000.
#[verifier::external_body]
fn today_ymd() -> (r: (i32, u32, u32))
    ensures
        1 <= r.1 <= 12,
        1 <= r.2 <= 31,
        -300_000 <= r.0 <= 300_000,
{
    let d = chrono::Local::now().date_naive();
    (d.year(), d.month(), d.day())
}

/// The current local date. A clock reading outside the library's
/// supported span is clamped to it, and a day number that names no real
/// day in its month falls back to that month's first day.
pub fn today() -> (r: CalendarDate)
    ensures
        date_valid(r),
{
    let (y, m, d) = today_ymd();
    let y2: i32 = if y < 0 {
        0
    } else if y > YEAR_LIMIT {
        YEAR_LIMIT
    } else {
        y
    };
    match CalendarDate::from_ymd(y2, m, d) {
        Some(c) => c,
        None => CalendarDate { year: y2, month: m, day: 1 },
    }
}

} // verus!
