//! The ledger line grammar and the date-range selection language: date
//! recognition, date specifiers and ranges, time specifications, and
//! whole entry lines.

use vstd::prelude::*;
use crate::data::{DateRange, Entry, EntryView};
use crate::dates::{CalendarDate, date_le, date_valid, spec_days_in_month};
use crate::text::{
    all_digits, digits_value, first_index, has_char, spec_split, spec_trim, str_all_digits,
    str_digits_value, views_of, DIGITS_CAP,
};

verus! {

/// A year written as exactly four digits.
pub open spec fn year_part_ok(p: Seq<char>) -> bool {
    p.len() == 4 && all_digits(p)
}

/// A month or day written as one or two digits.
pub open spec fn md_part_ok(p: Seq<char>) -> bool {
    1 <= p.len() <= 2 && all_digits(p)
}

/// The date named by the numbers of a separated or compact date, if
/// they name a real calendar day.
pub open spec fn spec_ymd_date(y: int, m: int, d: int) -> Option<CalendarDate> {
    if 0 <= y <= 9999 && 1 <= m <= 99 && 1 <= d <= 99 {
        let c = CalendarDate { year: y as i32, month: m as u32, day: d as u32 };
        if date_valid(c) {
            Some(c)
        } else {
            None
        }
    } else {
        None
    }
}

/// A date in the form `YYYY<sep>MM<sep>DD` (month and day may be one
/// digit wide).
pub open spec fn spec_parse_sep_date(s: Seq<char>, sep: char) -> Option<CalendarDate> {
    let parts = spec_split(s, sep);
    if parts.len() == 3 && year_part_ok(parts[0]) && md_part_ok(parts[1]) && md_part_ok(parts[2]) {
        spec_ymd_date(digits_value(parts[0]), digits_value(parts[1]), digits_value(parts[2]))
    } else {
        None
    }
}

/// A date in the form `YYYYMMDD`.
pub open spec fn spec_parse_compact_date(s: Seq<char>) -> Option<CalendarDate> {
    if s.len() == 8 && all_digits(s) {
        spec_ymd_date(
            digits_value(s.subrange(0, 4)),
            digits_value(s.subrange(4, 6)),
            digits_value(s.subrange(6, 8)),
        )
    } else {
        None
    }
}

/// Date recognition: the formats `YYYY.MM.DD`, `YYYYMMDD` and
/// `YYYY-MM-DD` are tried in that order and the first full match wins.
pub open spec fn spec_parse_date(s: Seq<char>) -> Option<CalendarDate> {
    if spec_parse_sep_date(s, '.') is Some {
        spec_parse_sep_date(s, '.')
    } else if spec_parse_compact_date(s) is Some {
        spec_parse_compact_date(s)
    } else {
        spec_parse_sep_date(s, '-')
    }
}

/// Reads a month-or-day part; `None` unless one or two digits naming
/// a positive number.
fn read_md_part(p: &str) -> (r: Option<u32>)
    ensures
        r is Some <==> (md_part_ok(p@) && digits_value(p@) >= 1),
        r matches Some(v) ==> v == digits_value(p@) && 1 <= v <= 99,
{
    let l = p.unicode_len();
    if l < 1 || l > 2 || !str_all_digits(p) {
        return None;
    }
    proof {
        crate::text::lemma_digits_value_bound(p@);
        assert(crate::text::pow10(0) == 1);
        assert(crate::text::pow10(1) == 10);
        assert(crate::text::pow10(2) == 100);
    }
    let v = str_digits_value(p);
    if v >= 1 {
        Some(v as u32)
    } else {
        None
    }
}

/// Reads a year part; `None` unless exactly four digits.
fn read_year_part(p: &str) -> (r: Option<i32>)
    ensures
        r is Some <==> year_part_ok(p@),
        r matches Some(v) ==> v == digits_value(p@) && 0 <= v <= 9999,
{
    let l = p.unicode_len();
    if l != 4 || !str_all_digits(p) {
        return None;
    }
    proof {
        crate::text::lemma_digits_value_bound(p@);
        assert(crate::text::pow10(0) == 1);
        assert(crate::text::pow10(1) == 10);
        assert(crate::text::pow10(2) == 100);
        assert(crate::text::pow10(3) == 1000);
        assert(crate::text::pow10(4) == 10000);
    }
    let v = str_digits_value(p);
    Some(v as i32)
}

/// Reads a `YYYY<sep>MM<sep>DD` date.
fn parse_sep_date(s: &str, sep: char) -> (r: Option<CalendarDate>)
    ensures
        r == spec_parse_sep_date(s@, sep),
{
    let parts = crate::text::split_char(s, sep);
    proof {
        assert(views_of(parts@) =~= spec_split(s@, sep));
    }
    if parts.len() != 3 {
        return None;
    }
    proof {
        assert(parts@[0]@ == views_of(parts@)[0]);
        assert(parts@[1]@ == views_of(parts@)[1]);
        assert(parts@[2]@ == views_of(parts@)[2]);
    }
    let y = match read_year_part(parts[0].as_str()) {
        Some(y) => y,
        None => {
            return None;
        },
    };
    let m = match read_md_part(parts[1].as_str()) {
        Some(m) => m,
        None => {
            return None;
        },
    };
    let d = match read_md_part(parts[2].as_str()) {
        Some(d) => d,
        None => {
            return None;
        },
    };
    CalendarDate::from_ymd(y, m, d)
}

/// Reads a `YYYYMMDD` date.
fn parse_compact_date(s: &str) -> (r: Option<CalendarDate>)
    ensures
        r == spec_parse_compact_date(s@),
{
    let l = s.unicode_len();
    if l != 8 || !str_all_digits(s) {
        return None;
    }
    proof {
        assert(all_digits(s@.subrange(0, 4)));
        assert(all_digits(s@.subrange(4, 6)));
        assert(all_digits(s@.subrange(6, 8)));
        crate::text::lemma_digits_value_bound(s@.subrange(0, 4));
        crate::text::lemma_digits_value_bound(s@.subrange(4, 6));
        crate::text::lemma_digits_value_bound(s@.subrange(6, 8));
        assert(crate::text::pow10(0) == 1);
        assert(crate::text::pow10(1) == 10);
        assert(crate::text::pow10(2) == 100);
        assert(crate::text::pow10(3) == 1000);
        assert(crate::text::pow10(4) == 10000);
    }
    let y = crate::text::digits_value_capped(s, 0, 4);
    let m = crate::text::digits_value_capped(s, 4, 6);
    let d = crate::text::digits_value_capped(s, 6, 8);
    if m < 1 || d < 1 {
        return None;
    }
    CalendarDate::from_ymd(y as i32, m as u32, d as u32)
}

/// Recognises a date line in one of the formats `YYYY.MM.DD`,
/// `YYYYMMDD`, `YYYY-MM-DD`; the first format that fully matches wins.
pub fn parse_date(line: &str) -> (r: Option<CalendarDate>)
    ensures
        r == spec_parse_date(line@),
{
    let d1 = parse_sep_date(line, '.');
    if d1.is_some() {
        return d1;
    }
    let d2 = parse_compact_date(line);
    if d2.is_some() {
        return d2;
    }
    parse_sep_date(line, '-')
}

/// A month or day of a specifier: one or more digits.
pub open spec fn num_part_ok(p: Seq<char>) -> bool {
    p.len() >= 1 && all_digits(p)
}

/// A `Result` whose error message is reduced to its characters.
pub open spec fn res_range_view(r: Result<DateRange, String>) -> Result<DateRange, Seq<char>> {
    match r {
        Ok(x) => Ok(x),
        Err(e) => Err(e@),
    }
}

/// The date range a specifier names: `YYYY` the whole year, `YYYY.MM`
/// the whole month, `YYYY.MM.DD` the single day; or the error reported.
pub open spec fn spec_parse_specifier(s: Seq<char>) -> Result<DateRange, Seq<char>> {
    let parts = spec_split(s, '.');
    if parts.len() == 1 {
        if !year_part_ok(parts[0]) {
            Err("Invalid year"@)
        } else {
            let y = digits_value(parts[0]) as i32;
            Ok(
                DateRange {
                    start: CalendarDate { year: y, month: 1, day: 1 },
                    end: CalendarDate { year: y, month: 12, day: 31 },
                },
            )
        }
    } else if parts.len() == 2 {
        if !year_part_ok(parts[0]) {
            Err("Invalid year"@)
        } else if !num_part_ok(parts[1]) {
            Err("Invalid month"@)
        } else if !(1 <= digits_value(parts[1]) <= 12) {
            Err("Month out of range"@)
        } else {
            let y = digits_value(parts[0]);
            let m = digits_value(parts[1]);
            Ok(
                DateRange {
                    start: CalendarDate { year: y as i32, month: m as u32, day: 1 },
                    end: CalendarDate {
                        year: y as i32,
                        month: m as u32,
                        day: spec_days_in_month(y, m) as u32,
                    },
                },
            )
        }
    } else if parts.len() == 3 {
        if !year_part_ok(parts[0]) {
            Err("Invalid year"@)
        } else if !num_part_ok(parts[1]) {
            Err("Invalid month"@)
        } else if !num_part_ok(parts[2]) {
            Err("Invalid day"@)
        } else {
            let y = digits_value(parts[0]);
            let m = digits_value(parts[1]);
            let d = digits_value(parts[2]);
            if 1 <= m <= 12 && 1 <= d <= spec_days_in_month(y, m) {
                let c = CalendarDate { year: y as i32, month: m as u32, day: d as u32 };
                Ok(DateRange { start: c, end: c })
            } else {
                Err("Invalid date"@)
            }
        }
    } else {
        Err("Invalid date specifier"@)
    }
}

/// Reads a month-or-day number of a specifier, capped at
/// [`DIGITS_CAP`]; `None` unless it is one or more digits.
fn read_num_part(p: &str) -> (r: Option<u64>)
    ensures
        r is Some <==> num_part_ok(p@),
        r matches Some(v) ==> v == (if digits_value(p@) <= DIGITS_CAP {
            digits_value(p@)
        } else {
            DIGITS_CAP as int
        }),
{
    if p.unicode_len() < 1 || !str_all_digits(p) {
        return None;
    }
    proof {
        crate::text::lemma_digits_value_bound(p@);
    }
    Some(str_digits_value(p))
}

/// Parses a date specifier: `YYYY` names the whole year, `YYYY.MM` the
/// whole month (its end computed from the month-length rule, leap years
/// included), `YYYY.MM.DD` a single day. The error says which part was
/// rejected.
pub fn parse_specifier_to_range(spec: &str) -> (r: Result<DateRange, String>)
    ensures
        res_range_view(r) == spec_parse_specifier(spec@),
{
    let parts = crate::text::split_char(spec, '.');
    proof {
        assert(views_of(parts@) =~= spec_split(spec@, '.'));
    }
    if parts.len() == 1 {
        proof {
            assert(parts@[0]@ == views_of(parts@)[0]);
        }
        match read_year_part(parts[0].as_str()) {
            None => Err("Invalid year".to_owned()),
            Some(y) => Ok(
                DateRange {
                    start: CalendarDate { year: y, month: 1, day: 1 },
                    end: CalendarDate { year: y, month: 12, day: 31 },
                },
            ),
        }
    } else if parts.len() == 2 {
        proof {
            assert(parts@[0]@ == views_of(parts@)[0]);
            assert(parts@[1]@ == views_of(parts@)[1]);
        }
        let y = match read_year_part(parts[0].as_str()) {
            None => {
                return Err("Invalid year".to_owned());
            },
            Some(y) => y,
        };
        let m = match read_num_part(parts[1].as_str()) {
            None => {
                return Err("Invalid month".to_owned());
            },
            Some(m) => m,
        };
        if m < 1 || m > 12 {
            return Err("Month out of range".to_owned());
        }
        let end = crate::dates::last_day_of_month(y, m as u32);
        Ok(DateRange { start: CalendarDate { year: y, month: m as u32, day: 1 }, end })
    } else if parts.len() == 3 {
        proof {
            assert(parts@[0]@ == views_of(parts@)[0]);
            assert(parts@[1]@ == views_of(parts@)[1]);
            assert(parts@[2]@ == views_of(parts@)[2]);
        }
        let y = match read_year_part(parts[0].as_str()) {
            None => {
                return Err("Invalid year".to_owned());
            },
            Some(y) => y,
        };
        let m = match read_num_part(parts[1].as_str()) {
            None => {
                return Err("Invalid month".to_owned());
            },
            Some(m) => m,
        };
        let d = match read_num_part(parts[2].as_str()) {
            None => {
                return Err("Invalid day".to_owned());
            },
            Some(d) => d,
        };
        if 1 <= m && m <= 12 {
            let dim = crate::dates::days_in_month(y, m as u32);
            if 1 <= d && d <= dim as u64 {
                let c = CalendarDate { year: y, month: m as u32, day: d as u32 };
                return Ok(DateRange { start: c, end: c });
            }
        }
        Err("Invalid date".to_owned())
    } else {
        Err("Invalid date specifier".to_owned())
    }
}

/// The date range a date argument names: either a single specifier, or
/// `SPEC-SPEC` combined as the first one's start to the second one's
/// end; the argument always splits at its first `-`.
pub open spec fn spec_parse_date_arg(s: Seq<char>) -> Result<DateRange, Seq<char>> {
    if has_char(s, '-') {
        let k = first_index(s, '-');
        let left = s.subrange(0, k);
        let right = s.subrange(k + 1, s.len() as int);
        match spec_parse_specifier(left) {
            Err(e) => Err(e),
            Ok(lr) => match spec_parse_specifier(right) {
                Err(e) => Err(e),
                Ok(rr) => if date_le(lr.start, rr.end) {
                    Ok(DateRange { start: lr.start, end: rr.end })
                } else {
                    Err("Start date after end date"@)
                },
            },
        }
    } else {
        spec_parse_specifier(s)
    }
}

/// Parses a date argument: a single specifier, or two specifiers
/// joined by `-` combined into one range; combining fails when the
/// start would come after the end.
pub fn parse_date_arg(arg: &str) -> (r: Result<DateRange, String>)
    ensures
        res_range_view(r) == spec_parse_date_arg(arg@),
{
    match crate::text::split_first(arg, '-') {
        Some((left, right)) => {
            let lr = match parse_specifier_to_range(left.as_str()) {
                Err(e) => {
                    return Err(e);
                },
                Ok(lr) => lr,
            };
            let rr = match parse_specifier_to_range(right.as_str()) {
                Err(e) => {
                    return Err(e);
                },
                Ok(rr) => rr,
            };
            if lr.start.le(&rr.end) {
                Ok(DateRange { start: lr.start, end: rr.end })
            } else {
                Err("Start date after end date".to_owned())
            }
        },
        None => parse_specifier_to_range(arg),
    }
}

/// Every range a specifier accepts runs forward, and a two-part
/// specifier `YYYY.MM` ends exactly on the last calendar day of that
/// month, leap Februaries included.
pub proof fn lemma_specifier_range_shape(s: Seq<char>)
    ensures
        match spec_parse_specifier(s) {
            Ok(r) => date_le(r.start, r.end),
            Err(_) => true,
        },
        spec_split(s, '.').len() == 2 ==> match spec_parse_specifier(s) {
            Ok(r) => {
                &&& r.end.day == spec_days_in_month(r.end.year as int, r.end.month as int)
                &&& r.start.year == r.end.year
                &&& r.start.month == r.end.month
                &&& r.start.day == 1
            },
            Err(_) => true,
        },
{
    let parts = spec_split(s, '.');
    if parts.len() >= 1 && year_part_ok(parts[0]) {
        crate::text::lemma_digits_value_bound(parts[0]);
        assert(crate::text::pow10(0) == 1);
        assert(crate::text::pow10(1) == 10);
        assert(crate::text::pow10(2) == 100);
        assert(crate::text::pow10(3) == 1000);
        assert(crate::text::pow10(4) == 10000);
    }
}

/// A combined `SPEC-SPEC` argument is accepted only when its start
/// does not come after its end; every accepted date argument therefore
/// names a forward range.
pub proof fn lemma_parse_date_arg_ordered(s: Seq<char>)
    ensures
        match spec_parse_date_arg(s) {
            Ok(r) => date_le(r.start, r.end),
            Err(_) => true,
        },
{
    if has_char(s, '-') {
        let k = first_index(s, '-');
        lemma_specifier_range_shape(s.subrange(0, k));
        lemma_specifier_range_shape(s.subrange(k + 1, s.len() as int));
    } else {
        lemma_specifier_range_shape(s);
    }
}

/// Largest integer part the fixed-point number grammar accepts.
pub const MAX_NUMBER_INT: i64 = 1_000_000_000;

/// The digits of a number literal after its optional sign.
pub open spec fn number_body(s: Seq<char>) -> Seq<char> {
    if s.len() > 0 && (s[0] == '+' || s[0] == '-') {
        s.subrange(1, s.len() as int)
    } else {
        s
    }
}

/// Whether a number literal carries a minus sign.
pub open spec fn number_is_neg(s: Seq<char>) -> bool {
    s.len() > 0 && s[0] == '-'
}

/// The value of a signed decimal literal in units of `1/scale`, for a
/// scale divisible by every power of ten up to `10^4`. `None` unless
/// the literal is a digit run with an optional sign and at most one
/// point, at most four fraction digits, and an integer part of at most
/// [`MAX_NUMBER_INT`].
pub open spec fn spec_number_value(s: Seq<char>, scale: int) -> Option<int> {
    let parts = spec_split(number_body(s), '.');
    if parts.len() == 1 && num_part_ok(parts[0]) {
        if digits_value(parts[0]) <= MAX_NUMBER_INT {
            let t = digits_value(parts[0]) * scale;
            Some(
                if number_is_neg(s) {
                    -t
                } else {
                    t
                },
            )
        } else {
            None
        }
    } else if parts.len() == 2 && all_digits(parts[0]) && all_digits(parts[1]) && parts[0].len()
        + parts[1].len() >= 1 && parts[1].len() <= 4 && digits_value(parts[0])
        <= MAX_NUMBER_INT {
        let t = digits_value(parts[0]) * scale + digits_value(parts[1]) * (scale / crate::text::pow10(
            parts[1].len(),
        ));
        Some(
            if number_is_neg(s) {
                -t
            } else {
                t
            },
        )
    } else {
        None
    }
}

/// Reads a signed fixed-point literal in units of `1/scale`.
fn parse_fixed_number(s: &str, scale: i64) -> (r: Option<i64>)
    requires
        scale == crate::data::TICKS_PER_HOUR || scale == crate::data::AMOUNT_SCALE,
    ensures
        match r {
            Some(v) => spec_number_value(s@, scale as int) == Some(v as int),
            None => spec_number_value(s@, scale as int) is None,
        },
{
    let l = s.unicode_len();
    let neg = l > 0 && s.get_char(0) == '-';
    let body = if l > 0 && (s.get_char(0) == '+' || s.get_char(0) == '-') {
        s.substring_char(1, l)
    } else {
        s
    };
    proof {
        assert(body@ == number_body(s@));
    }
    let parts = crate::text::split_char(body, '.');
    proof {
        assert(views_of(parts@) =~= spec_split(body@, '.'));
        assert(forall|i: int| 0 <= i < parts@.len() ==> parts@[i]@ == views_of(parts@)[i]);
    }
    let magnitude: i64;
    if parts.len() == 1 {
        let ip = parts[0].as_str();
        if ip.unicode_len() < 1 || !str_all_digits(ip) {
            return None;
        }
        let v = str_digits_value(ip);
        if v > MAX_NUMBER_INT as u64 {
            return None;
        }
        proof {
            assert(0 <= (v as int) * (scale as int) <= 60_000_000_000_000) by (nonlinear_arith)
                requires
                    0 <= v <= 1_000_000_000,
                    0 <= scale <= 60_000,
            ;
        }
        magnitude = (v as i64) * scale;
    } else if parts.len() == 2 {
        let ip = parts[0].as_str();
        let fp = parts[1].as_str();
        let li = ip.unicode_len();
        let lf = fp.unicode_len();
        if !str_all_digits(ip) || !str_all_digits(fp) {
            return None;
        }
        if (li == 0 && lf == 0) || lf > 4 {
            return None;
        }
        let iv = str_digits_value(ip);
        if iv > MAX_NUMBER_INT as u64 {
            return None;
        }
        proof {
            crate::text::lemma_digits_value_bound(fp@);
            assert(crate::text::pow10(0) == 1);
            assert(crate::text::pow10(1) == 10);
            assert(crate::text::pow10(2) == 100);
            assert(crate::text::pow10(3) == 1000);
            assert(crate::text::pow10(4) == 10000);
        }
        let fv = str_digits_value(fp);
        let p: i64 = if lf == 0 {
            1
        } else if lf == 1 {
            10
        } else if lf == 2 {
            100
        } else if lf == 3 {
            1000
        } else {
            10000
        };
        proof {
            assert(p == crate::text::pow10(fp@.len()));
            assert(fv <= 9999);
        }
        let unit = scale / p;
        proof {
            assert(0 <= unit <= 60_000);
            assert(0 <= (iv as int) * (scale as int) <= 60_000_000_000_000) by (nonlinear_arith)
                requires
                    0 <= iv <= 1_000_000_000,
                    0 <= scale <= 60_000,
            ;
            assert(0 <= (fv as int) * (unit as int) <= 599_940_000) by (nonlinear_arith)
                requires
                    0 <= fv <= 9999,
                    0 <= unit <= 60_000,
            ;
        }
        magnitude = (iv as i64) * scale + (fv as i64) * unit;
    } else {
        return None;
    }
    if neg {
        Some(-magnitude)
    } else {
        Some(magnitude)
    }
}

/// The minutes past midnight a clock token names: `HH:MM` or a bare
/// hour, each one or two digits, hours to 23 and minutes to 59.
pub open spec fn spec_clock_minutes(p: Seq<char>) -> Option<int> {
    if has_char(p, ':') {
        let parts = spec_split(p, ':');
        if parts.len() == 2 && md_part_ok(parts[0]) && digits_value(parts[0]) <= 23 && md_part_ok(
            parts[1],
        ) && digits_value(parts[1]) <= 59 {
            Some(digits_value(parts[0]) * 60 + digits_value(parts[1]))
        } else {
            None
        }
    } else {
        if md_part_ok(p) && digits_value(p) <= 23 {
            Some(digits_value(p) * 60)
        } else {
            None
        }
    }
}

/// Reads a one-or-two-digit clock component.
fn read_two_digits(p: &str) -> (r: Option<u32>)
    ensures
        r is Some <==> md_part_ok(p@),
        r matches Some(v) ==> v == digits_value(p@) && v <= 99,
{
    let l = p.unicode_len();
    if l < 1 || l > 2 || !str_all_digits(p) {
        return None;
    }
    proof {
        crate::text::lemma_digits_value_bound(p@);
        assert(crate::text::pow10(0) == 1);
        assert(crate::text::pow10(1) == 10);
        assert(crate::text::pow10(2) == 100);
    }
    Some(str_digits_value(p) as u32)
}

/// Reads a clock token as minutes past midnight.
fn clock_minutes(p: &str) -> (r: Option<u32>)
    ensures
        match r {
            Some(v) => spec_clock_minutes(p@) == Some(v as int) && v <= 1439,
            None => spec_clock_minutes(p@) is None,
        },
{
    if crate::text::contains_char(p, ':') {
        let parts = crate::text::split_char(p, ':');
        proof {
            assert(views_of(parts@) =~= spec_split(p@, ':'));
            assert(forall|i: int| 0 <= i < parts@.len() ==> parts@[i]@ == views_of(parts@)[i]);
        }
        if parts.len() != 2 {
            return None;
        }
        let h = match read_two_digits(parts[0].as_str()) {
            None => {
                return None;
            },
            Some(h) => h,
        };
        let m = match read_two_digits(parts[1].as_str()) {
            None => {
                return None;
            },
            Some(m) => m,
        };
        if h <= 23 && m <= 59 {
            Some(h * 60 + m)
        } else {
            None
        }
    } else {
        match read_two_digits(p) {
            None => None,
            Some(h) => if h <= 23 {
                Some(h * 60)
            } else {
                None
            },
        }
    }
}

/// A `Result` carrying hour ticks whose error message is reduced to
/// its characters.
pub open spec fn res_ticks_view(r: Result<i64, String>) -> Result<int, Seq<char>> {
    match r {
        Ok(v) => Ok(v as int),
        Err(e) => Err(e@),
    }
}

/// The hour ticks a time specification names: either `<number>h`, or a
/// clock range `start-end` counted in minutes. An end of exactly `24`
/// or `24:00` means midnight at the end of the day, and is the only
/// case in which an end before the start wraps around instead of being
/// an error.
pub open spec fn spec_parse_time_spec(s: Seq<char>) -> Result<int, Seq<char>> {
    let t = spec_trim(s);
    if t.len() > 0 && t[t.len() - 1] == 'h' {
        match spec_number_value(
            crate::text::strip_trailing(t, 'h'),
            crate::data::TICKS_PER_HOUR as int,
        ) {
            Some(v) => Ok(v),
            None => Err("Invalid hour format"@),
        }
    } else if has_char(t, '-') {
        let parts = spec_split(t, '-');
        if parts.len() != 2 {
            Err("Time range must have exactly two parts"@)
        } else {
            let sp = spec_trim(parts[0]);
            let ep = spec_trim(parts[1]);
            let midnight = ep == "24"@ || ep == "24:00"@;
            match spec_clock_minutes(sp) {
                None => Err("Invalid start time"@),
                Some(sm) => if midnight {
                    if sm > 0 {
                        Ok((1440 - sm) * (crate::data::TICKS_PER_MINUTE as int))
                    } else {
                        Ok(0)
                    }
                } else {
                    match spec_clock_minutes(ep) {
                        None => Err("Invalid end time"@),
                        Some(em) => if em < sm {
                            Err("End time before start time"@)
                        } else {
                            Ok((em - sm) * (crate::data::TICKS_PER_MINUTE as int))
                        },
                    }
                },
            }
        }
    } else {
        Err("Invalid time specification format"@)
    }
}

/// Parses one time specification into hour ticks: `<number>h` literal
/// hours (signed, fractional), or a clock range such as `9:00-17:00`
/// or `9-17`. An end of `24`/`24:00` is end-of-day midnight, the one
/// permitted wraparound.
pub fn parse_time_spec(time_spec: &str) -> (r: Result<i64, String>)
    ensures
        res_ticks_view(r) == spec_parse_time_spec(time_spec@),
{
    let t = crate::text::trim(time_spec);
    let l = t.unicode_len();
    if l > 0 && t.get_char(l - 1) == 'h' {
        let num = crate::text::strip_trailing_str(t, 'h');
        match parse_fixed_number(num, crate::data::TICKS_PER_HOUR) {
            Some(v) => Ok(v),
            None => Err("Invalid hour format".to_owned()),
        }
    } else if crate::text::contains_char(t, '-') {
        let parts = crate::text::split_char(t, '-');
        proof {
            assert(views_of(parts@) =~= spec_split(t@, '-'));
            assert(forall|i: int| 0 <= i < parts@.len() ==> parts@[i]@ == views_of(parts@)[i]);
        }
        if parts.len() != 2 {
            return Err("Time range must have exactly two parts".to_owned());
        }
        let sp = crate::text::trim(parts[0].as_str());
        let ep = crate::text::trim(parts[1].as_str());
        let midnight = crate::text::str_eq(ep, "24") || crate::text::str_eq(ep, "24:00");
        match clock_minutes(sp) {
            None => Err("Invalid start time".to_owned()),
            Some(sm) => {
                if midnight {
                    if sm > 0 {
                        Ok(((1440 - sm) as i64) * crate::data::TICKS_PER_MINUTE)
                    } else {
                        Ok(0)
                    }
                } else {
                    match clock_minutes(ep) {
                        None => Err("Invalid end time".to_owned()),
                        Some(em) => {
                            if em < sm {
                                Err("End time before start time".to_owned())
                            } else {
                                Ok(((em - sm) as i64) * crate::data::TICKS_PER_MINUTE)
                            }
                        },
                    }
                }
            },
        }
    } else {
        Err("Invalid time specification format".to_owned())
    }
}

/// `s` with every leading `-$` pair removed.
pub open spec fn strip_minus_dollar(s: Seq<char>) -> Seq<char>
    decreases s.len(),
{
    if s.len() >= 2 && s[0] == '-' && s[1] == '$' {
        strip_minus_dollar(s.subrange(2, s.len() as int))
    } else {
        s
    }
}

/// Removes every leading `-$` pair, as Rust's `str::trim_start_matches`
/// with the pattern `-$`.
fn strip_minus_dollar_str<'a>(s: &'a str) -> (r: &'a str)
    ensures
        r@ == strip_minus_dollar(s@),
    decreases s@.len(),
{
    let l = s.unicode_len();
    if l >= 2 && s.get_char(0) == '-' && s.get_char(1) == '$' {
        strip_minus_dollar_str(s.substring_char(2, l))
    } else {
        s
    }
}

/// The sum of the hour ticks of comma-separated time specifications;
/// the first failing specification's error wins.
pub open spec fn spec_sum_time_specs(parts: Seq<Seq<char>>) -> Result<int, Seq<char>>
    decreases parts.len(),
{
    if parts.len() == 0 {
        Ok(0int)
    } else {
        match spec_parse_time_spec(parts[0]) {
            Err(e) => Err(e),
            Ok(v) => match spec_sum_time_specs(parts.subrange(1, parts.len() as int)) {
                Err(e) => Err(e),
                Ok(rest) => Ok(v + rest),
            },
        }
    }
}

/// A `Result` carrying an entry whose parts are reduced to their
/// mathematical shapes.
pub open spec fn res_entry_view(r: Result<Entry, String>) -> Result<EntryView, Seq<char>> {
    match r {
        Ok(e) => Ok(e@),
        Err(m) => Err(m@),
    }
}

/// The entry a ledger line names. A leading `-` or `*` marks a note,
/// except a `-` whose remainder carries `=` (a signed correction). The
/// line otherwise splits at its first `=` into a value and a
/// description; a value led by `$` or `-$` is a fixed cost, anything
/// else is a comma-separated list of time specifications summed into
/// one time entry.
pub open spec fn spec_parse_line(s: Seq<char>) -> Result<EntryView, Seq<char>> {
    let t = spec_trim(s);
    if t.len() > 0 && (t[0] == '-' || t[0] == '*') && !(t[0] == '-' && has_char(
        t.subrange(1, t.len() as int),
        '=',
    )) {
        Ok(EntryView::Note { text: spec_trim(t.subrange(1, t.len() as int)) })
    } else if !has_char(t, '=') {
        Err("Entry must have exactly two parts: value and description"@)
    } else {
        let k = first_index(t, '=');
        let value = spec_trim(t.subrange(0, k));
        let desc = spec_trim(t.subrange(k + 1, t.len() as int));
        if value.len() > 0 && value[0] == '$' {
            match spec_number_value(
                crate::text::strip_leading(value, '$'),
                crate::data::AMOUNT_SCALE as int,
            ) {
                Some(a) => Ok(EntryView::FixedCost { amount: a, text: desc }),
                None => Err("Invalid cost format"@),
            }
        } else if value.len() >= 2 && value[0] == '-' && value[1] == '$' {
            match spec_number_value(
                strip_minus_dollar(value),
                crate::data::AMOUNT_SCALE as int,
            ) {
                Some(a) => Ok(EntryView::FixedCost { amount: -a, text: desc }),
                None => Err("Invalid cost format"@),
            }
        } else {
            match spec_sum_time_specs(spec_split(value, ',')) {
                Err(e) => Err(e),
                Ok(total) => if -crate::data::MAX_ENTRY_VALUE <= total
                    <= crate::data::MAX_ENTRY_VALUE {
                    Ok(EntryView::Time { ticks: total, text: desc })
                } else {
                    Err("Hours out of range"@)
                },
            }
        }
    }
}

/// Sums comma-separated time specifications.
fn sum_time_specs(parts: &Vec<String>) -> (r: Result<i128, String>)
    ensures
        match r {
            Ok(v) => spec_sum_time_specs(views_of(parts@)) == Ok::<int, Seq<char>>(v as int),
            Err(e) => spec_sum_time_specs(views_of(parts@)) == Err::<int, Seq<char>>(e@),
        },
{
    let ghost all = views_of(parts@);
    let mut acc: i128 = 0;
    let mut i: usize = 0;
    proof {
        assert(all.subrange(0, all.len() as int) =~= all);
    }
    while i < parts.len()
        invariant
            0 <= i <= parts@.len(),
            all == views_of(parts@),
            -70_000_000_000_000 * (i as int) <= acc <= 70_000_000_000_000 * (i as int),
            spec_sum_time_specs(all) == (match spec_sum_time_specs(
                all.subrange(i as int, all.len() as int),
            ) {
                Err(e) => Err::<int, Seq<char>>(e),
                Ok(rest) => Ok::<int, Seq<char>>(acc + rest),
            }),
        decreases parts@.len() - i,
    {
        let ghost tail = all.subrange(i as int, all.len() as int);
        proof {
            assert(tail[0] == all[i as int]);
            assert(all[i as int] == parts@[i as int]@);
            assert(tail.subrange(1, tail.len() as int) =~= all.subrange(
                i + 1,
                all.len() as int,
            ));
        }
        match parse_time_spec(parts[i].as_str()) {
            Err(e) => {
                return Err(e);
            },
            Ok(v) => {
                proof {
                    lemma_time_spec_bounded(parts@[i as int]@);
                }
                acc = acc + (v as i128);
            },
        }
        i = i + 1;
    }
    Ok(acc)
}

/// Every value the fixed-point number grammar accepts stays within
/// seventy trillion scale units in magnitude.
proof fn lemma_number_value_bounded(s: Seq<char>, scale: int)
    requires
        0 <= scale <= 60_000,
    ensures
        spec_number_value(s, scale) matches Some(v) ==> -70_000_000_000_000 <= v
            <= 70_000_000_000_000,
{
    let parts = spec_split(number_body(s), '.');
    if parts.len() == 1 && num_part_ok(parts[0]) {
        if digits_value(parts[0]) <= MAX_NUMBER_INT {
            crate::text::lemma_digits_value_bound(parts[0]);
            assert(0 <= digits_value(parts[0]) * scale <= 60_000_000_000_000) by (nonlinear_arith)
                requires
                    0 <= digits_value(parts[0]) <= 1_000_000_000,
                    0 <= scale <= 60_000,
            ;
        }
    } else if parts.len() == 2 && all_digits(parts[0]) && all_digits(parts[1]) && parts[0].len()
        + parts[1].len() >= 1 && parts[1].len() <= 4 && digits_value(parts[0])
        <= MAX_NUMBER_INT {
        crate::text::lemma_digits_value_bound(parts[0]);
        crate::text::lemma_digits_value_bound(parts[1]);
        assert(crate::text::pow10(0) == 1);
        assert(crate::text::pow10(1) == 10);
        assert(crate::text::pow10(2) == 100);
        assert(crate::text::pow10(3) == 1000);
        assert(crate::text::pow10(4) == 10000);
        let p = crate::text::pow10(parts[1].len());
        assert(1 <= p <= 10000);
        assert(digits_value(parts[1]) <= 9999);
        assert(0 <= scale / p <= 60_000);
        assert(0 <= digits_value(parts[0]) * scale <= 60_000_000_000_000) by (nonlinear_arith)
            requires
                0 <= digits_value(parts[0]) <= 1_000_000_000,
                0 <= scale <= 60_000,
        ;
        assert(0 <= digits_value(parts[1]) * (scale / p) <= 599_940_000) by (nonlinear_arith)
            requires
                0 <= digits_value(parts[1]) <= 9999,
                0 <= scale / p <= 60_000,
        ;
    }
}

/// An accepted clock token names a minute of the day.
proof fn lemma_clock_minutes_bounded(p: Seq<char>)
    ensures
        spec_clock_minutes(p) matches Some(m) ==> 0 <= m <= 1439,
{
    if has_char(p, ':') {
        let parts = spec_split(p, ':');
        if parts.len() == 2 && md_part_ok(parts[0]) && md_part_ok(parts[1]) {
            crate::text::lemma_digits_value_bound(parts[0]);
            crate::text::lemma_digits_value_bound(parts[1]);
        }
    } else {
        if md_part_ok(p) {
            crate::text::lemma_digits_value_bound(p);
        }
    }
}

/// Every accepted time specification stays within seventy trillion
/// ticks in magnitude.
proof fn lemma_time_spec_bounded(s: Seq<char>)
    ensures
        spec_parse_time_spec(s) matches Ok(v) ==> -70_000_000_000_000 <= v
            <= 70_000_000_000_000,
{
    let t = spec_trim(s);
    if t.len() > 0 && t[t.len() - 1] == 'h' {
        lemma_number_value_bounded(
            crate::text::strip_trailing(t, 'h'),
            crate::data::TICKS_PER_HOUR as int,
        );
    } else if has_char(t, '-') {
        let parts = spec_split(t, '-');
        if parts.len() == 2 {
            lemma_clock_minutes_bounded(spec_trim(parts[0]));
            lemma_clock_minutes_bounded(spec_trim(parts[1]));
        }
    }
}

/// Parses one ledger line into an entry: a note, a fixed cost, or the
/// summed time entry its value names; the description is everything
/// after the first `=`.
pub fn parse_line(line: &str) -> (r: Result<Entry, String>)
    ensures
        res_entry_view(r) == spec_parse_line(line@),
{
    let t = crate::text::trim(line);
    let l = t.unicode_len();
    if l > 0 {
        let c0 = t.get_char(0);
        if c0 == '-' || c0 == '*' {
            let rest = t.substring_char(1, l);
            if !(c0 == '-' && crate::text::contains_char(rest, '=')) {
                return Ok(Entry::Note(crate::text::trim(rest).to_owned()));
            }
        }
    }
    match crate::text::split_first(t, '=') {
        None => Err("Entry must have exactly two parts: value and description".to_owned()),
        Some((lhs, rhs)) => {
            let value = crate::text::trim(lhs.as_str());
            let desc = crate::text::trim(rhs.as_str()).to_owned();
            let vl = value.unicode_len();
            if vl > 0 && value.get_char(0) == '$' {
                let stripped = crate::text::strip_leading_str(value, '$');
                match parse_fixed_number(stripped, crate::data::AMOUNT_SCALE) {
                    Some(a) => Ok(Entry::FixedCost(a, desc)),
                    None => Err("Invalid cost format".to_owned()),
                }
            } else if vl >= 2 && value.get_char(0) == '-' && value.get_char(1) == '$' {
                let stripped = strip_minus_dollar_str(value);
                proof {
                    lemma_number_value_bounded(stripped@, crate::data::AMOUNT_SCALE as int);
                }
                match parse_fixed_number(stripped, crate::data::AMOUNT_SCALE) {
                    Some(a) => Ok(Entry::FixedCost(-a, desc)),
                    None => Err("Invalid cost format".to_owned()),
                }
            } else {
                let parts = crate::text::split_char(value, ',');
                proof {
                    assert(views_of(parts@) =~= spec_split(value@, ','));
                }
                match sum_time_specs(&parts) {
                    Err(e) => Err(e),
                    Ok(total) => {
                        if -10_000_000_000_000_000i128 <= total
                            && total <= 10_000_000_000_000_000i128 {
                            Ok(Entry::Time(total as i64, desc))
                        } else {
                            Err("Hours out of range".to_owned())
                        }
                    },
                }
            }
        },
    }
}

} // verus!
