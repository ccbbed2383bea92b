use clinvoice::data::{Entry, TICKS_PER_HOUR};
use clinvoice::dates::{last_day_of_month, CalendarDate};
use clinvoice::parse::{
    parse_date, parse_date_arg, parse_line, parse_specifier_to_range, parse_time_spec,
};

fn ymd(year: i32, month: u32, day: u32) -> CalendarDate {
    CalendarDate { year, month, day }
}

#[test]
fn test_parse_date_valid_formats() {
    assert_eq!(parse_date("2023.01.15"), Some(ymd(2023, 1, 15)));
    assert_eq!(parse_date("20230115"), Some(ymd(2023, 1, 15)));
    assert_eq!(parse_date("2023-01-15"), Some(ymd(2023, 1, 15)));
}

#[test]
fn test_parse_date_invalid_formats() {
    assert_eq!(parse_date("2023/01/15"), None);
    assert_eq!(parse_date("invalid-date"), None);
    assert_eq!(parse_date(""), None);
}

#[test]
fn test_parse_date_edge_cases() {
    assert_eq!(parse_date("2024.02.29"), Some(ymd(2024, 2, 29)));
    assert_eq!(parse_date("2023.02.29"), None);
}

#[test]
fn test_last_day_of_month_valid_months() {
    assert_eq!(last_day_of_month(2023, 1), ymd(2023, 1, 31));
    assert_eq!(last_day_of_month(2023, 2), ymd(2023, 2, 28));
    assert_eq!(last_day_of_month(2024, 2), ymd(2024, 2, 29));
    assert_eq!(last_day_of_month(2023, 12), ymd(2023, 12, 31));
}

#[test]
fn test_last_day_of_month_edge_cases() {
    assert_eq!(last_day_of_month(2023, 1), ymd(2023, 1, 31));
    assert_eq!(last_day_of_month(2023, 12), ymd(2023, 12, 31));
}

#[test]
fn test_parse_specifier_to_range_valid() {
    let range = parse_specifier_to_range("2023").unwrap();
    assert_eq!(range.start, ymd(2023, 1, 1));
    assert_eq!(range.end, ymd(2023, 12, 31));

    let range = parse_specifier_to_range("2023.03").unwrap();
    assert_eq!(range.start, ymd(2023, 3, 1));
    assert_eq!(range.end, ymd(2023, 3, 31));

    let range = parse_specifier_to_range("2023.02.15").unwrap();
    assert_eq!(range.start, ymd(2023, 2, 15));
    assert_eq!(range.end, ymd(2023, 2, 15));
}

#[test]
fn test_parse_specifier_to_range_invalid() {
    assert!(parse_specifier_to_range("2023.13").is_err());
    assert!(parse_specifier_to_range("2023.02.30").is_err());
    assert!(parse_specifier_to_range("invalid").is_err());
    assert!(parse_specifier_to_range("2023.01.01.01").is_err());
}

#[test]
fn test_parse_specifier_to_range_error_messages() {
    assert_eq!(parse_specifier_to_range("2023.13").unwrap_err(), "Month out of range");
    assert_eq!(parse_specifier_to_range("2023.02.30").unwrap_err(), "Invalid date");
    assert_eq!(parse_specifier_to_range("invalid").unwrap_err(), "Invalid year");
    assert_eq!(parse_specifier_to_range("2023.xx").unwrap_err(), "Invalid month");
    assert_eq!(parse_specifier_to_range("2023.01.xx").unwrap_err(), "Invalid day");
    assert_eq!(
        parse_specifier_to_range("2023.01.01.01").unwrap_err(),
        "Invalid date specifier"
    );
}

#[test]
fn test_parse_specifier_to_range_edge_cases() {
    let range = parse_specifier_to_range("2024.02").unwrap();
    assert_eq!(range.start, ymd(2024, 2, 1));
    assert_eq!(range.end, ymd(2024, 2, 29));
}

#[test]
fn test_parse_date_arg_valid() {
    let range = parse_date_arg("2023").unwrap();
    assert_eq!(range.start, ymd(2023, 1, 1));
    assert_eq!(range.end, ymd(2023, 12, 31));

    let range = parse_date_arg("2023.01-2023.03").unwrap();
    assert_eq!(range.start, ymd(2023, 1, 1));
    assert_eq!(range.end, ymd(2023, 3, 31));

    let range = parse_date_arg("2023.01.01-2023.01.01").unwrap();
    assert_eq!(range.start, ymd(2023, 1, 1));
    assert_eq!(range.end, ymd(2023, 1, 1));
}

#[test]
fn test_parse_date_arg_invalid() {
    assert!(parse_date_arg("2023.03-2023.01").is_err());
    assert!(parse_date_arg("invalid-date").is_err());
    assert!(parse_date_arg("2023.01-invalid").is_err());
}

#[test]
fn test_parse_date_arg_rejects_backward_range() {
    assert_eq!(
        parse_date_arg("2023.03-2023.01").unwrap_err(),
        "Start date after end date"
    );
}

#[test]
fn test_parse_date_arg_single_specifier() {
    let range = parse_date_arg("2023.05").unwrap();
    assert_eq!(range.start, ymd(2023, 5, 1));
    assert_eq!(range.end, ymd(2023, 5, 31));
}

#[test]
fn test_parse_time_spec_valid_hours() {
    assert_eq!(parse_time_spec("8h").unwrap(), 8 * TICKS_PER_HOUR);
    assert_eq!(parse_time_spec("0.5h").unwrap(), TICKS_PER_HOUR / 2);
    assert_eq!(parse_time_spec("10.0h").unwrap(), 10 * TICKS_PER_HOUR);
    assert_eq!(parse_time_spec("-5h").unwrap(), -5 * TICKS_PER_HOUR);
}

#[test]
fn test_parse_time_spec_valid_range() {
    assert_eq!(parse_time_spec("9:00-17:00").unwrap(), 8 * TICKS_PER_HOUR);
    assert_eq!(parse_time_spec("9-17").unwrap(), 8 * TICKS_PER_HOUR);
    assert_eq!(parse_time_spec("22-24").unwrap(), 2 * TICKS_PER_HOUR);
    assert_eq!(parse_time_spec("9:30-10:00").unwrap(), TICKS_PER_HOUR / 2);
    assert_eq!(
        parse_time_spec("17:00-9:00").unwrap_err(),
        "End time before start time".to_string()
    );
}

#[test]
fn test_parse_time_spec_invalid() {
    assert!(parse_time_spec("invalid").is_err());
    assert!(parse_time_spec("9:00").is_err());
    assert!(parse_time_spec("9:00-").is_err());
    assert!(parse_time_spec("-17:00").is_err());
}

#[test]
fn test_parse_time_spec_error_messages() {
    assert_eq!(
        parse_time_spec("invalid").unwrap_err(),
        "Invalid time specification format"
    );
    assert_eq!(parse_time_spec("xh").unwrap_err(), "Invalid hour format");
    assert_eq!(parse_time_spec("9:00-").unwrap_err(), "Invalid end time");
    assert_eq!(parse_time_spec("-17:00").unwrap_err(), "Invalid start time");
}

#[test]
fn test_parse_time_spec_midnight_wraparound_only_for_24() {
    // only a literal end of 24 or 24:00 wraps; other backward ranges fail
    assert_eq!(parse_time_spec("22:30-24:00").unwrap(), 3 * TICKS_PER_HOUR / 2);
    assert_eq!(parse_time_spec("23-22").unwrap_err(), "End time before start time");
    // an end of 24 with a zero start does not wrap: the raw difference is zero
    assert_eq!(parse_time_spec("0-24").unwrap(), 0);
}

#[test]
fn test_parse_line_time_entry() {
    let entry = parse_line("8h = Development").unwrap();
    assert!(matches!(entry, Entry::Time(h, d) if h == 8 * TICKS_PER_HOUR && d == "Development"));
}

#[test]
fn test_parse_line_time_entry_negative() {
    let entry = parse_line("-2h = Correction").unwrap();
    assert!(matches!(entry, Entry::Time(h, d) if h == -2 * TICKS_PER_HOUR && d == "Correction"));
}

#[test]
fn test_parse_line_multiple_time_specs() {
    let entry = parse_line("1h, 2h, 3h = Multiple Tasks").unwrap();
    assert!(matches!(entry, Entry::Time(h, d) if h == 6 * TICKS_PER_HOUR && d == "Multiple Tasks"));
}

#[test]
fn test_parse_line_fixed_cost() {
    let entry = parse_line("$100 = Item").unwrap();
    assert!(matches!(entry, Entry::FixedCost(c, d) if c == 100 * 10_000 && d == "Item"));
}

#[test]
fn test_parse_line_fixed_cost_negative() {
    let entry = parse_line("-$100 = Discount").unwrap();
    assert!(matches!(entry, Entry::FixedCost(c, d) if c == -100 * 10_000 && d == "Discount"));
}

#[test]
fn test_parse_line_note() {
    let entry = parse_line("- A note").unwrap();
    assert!(matches!(entry, Entry::Note(s) if s == "A note"));
    let entry = parse_line("* Another note").unwrap();
    assert!(matches!(entry, Entry::Note(s) if s == "Another note"));
}

#[test]
fn test_parse_line_invalid() {
    assert!(parse_line("8h").is_err());
    assert!(parse_line("= Description").is_err());
    assert!(parse_line("invalid = Description").is_err());
    assert!(parse_line("").is_err());
}

#[test]
fn test_parse_line_error_messages() {
    assert_eq!(
        parse_line("8h").unwrap_err(),
        "Entry must have exactly two parts: value and description"
    );
    assert_eq!(parse_line("$x = Item").unwrap_err(), "Invalid cost format");
    assert_eq!(parse_line("-$x = Item").unwrap_err(), "Invalid cost format");
}

#[test]
fn test_parse_line_fractional_cost() {
    let entry = parse_line("$12.5 = Half").unwrap();
    assert!(matches!(entry, Entry::FixedCost(c, d) if c == 125_000 && d == "Half"));
}
