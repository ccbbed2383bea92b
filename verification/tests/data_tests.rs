use clinvoice::data::{DateSelector, Entry, TimeData, TICKS_PER_HOUR};
use clinvoice::dates::CalendarDate;
use clinvoice::parse::parse_date_arg;

fn ymd(year: i32, month: u32, day: u32) -> CalendarDate {
    CalendarDate { year, month, day }
}

fn lines_of(content: &str) -> Vec<String> {
    content.lines().map(|l| l.to_string()).collect()
}

#[test]
fn test_time_data_new_with_comments() {
    let file_content = "\n\
# This is a full line comment\n\
2025.01.01\n\
// This is also a full line comment\n\
8h = Project Alpha # This is an inline comment, should not be ignored\n\
-2h = Discount // This is also an inline comment\n\
    # indented comment\n\
    // indented comment\n";

    let selector = DateSelector::new();
    let mut time_data = TimeData::new();
    let issues = time_data.scan_file(&selector, &lines_of(file_content));
    assert!(issues.is_empty());

    assert_eq!(time_data.day_count(), 1);

    let date = ymd(2025, 1, 1);
    let entries = time_data.get(&date).unwrap();
    assert_eq!(entries.len(), 2);
    assert!(matches!(&entries[0], Entry::Time(h, _) if *h == 8 * TICKS_PER_HOUR));
    assert!(matches!(&entries[1], Entry::Time(h, _) if *h == -2 * TICKS_PER_HOUR));
}

fn scan_test_files(time_data: &mut TimeData, selector: &DateSelector) {
    let file1_content = "\n\
2025.01.01\n\
8h = Project Alpha\n\
-2h = Discount\n\
$50 = Fixed Fee\n\
-$10 = Fixed Discount\n\
- This is a note\n\
* Another note\n";
    let file2_content = "\n2025.01.02\n4h = Project Beta\n";
    let file3_content = "\n2025.02.01\n6h = Project Gamma\n";
    time_data.scan_file(selector, &lines_of(file1_content));
    time_data.scan_file(selector, &lines_of(file2_content));
    time_data.scan_file(selector, &lines_of(file3_content));
}

#[test]
fn test_time_data_new_all_files() {
    let selector = DateSelector::new();
    let mut time_data = TimeData::new();
    scan_test_files(&mut time_data, &selector);

    assert_eq!(time_data.day_count(), 3);

    let entries1 = time_data.get(&ymd(2025, 1, 1)).unwrap();
    assert_eq!(entries1.len(), 6);
    assert!(matches!(&entries1[0], Entry::Time(h, _) if *h == 8 * TICKS_PER_HOUR));
    assert!(matches!(&entries1[1], Entry::Time(h, _) if *h == -2 * TICKS_PER_HOUR));
    assert!(matches!(&entries1[2], Entry::FixedCost(c, _) if *c == 50 * 10_000));
    assert!(matches!(&entries1[3], Entry::FixedCost(c, _) if *c == -10 * 10_000));
    assert!(matches!(&entries1[4], Entry::Note(_)));
    assert!(matches!(&entries1[5], Entry::Note(_)));

    let entries2 = time_data.get(&ymd(2025, 1, 2)).unwrap();
    assert_eq!(entries2.len(), 1);
    assert!(matches!(&entries2[0], Entry::Time(h, _) if *h == 4 * TICKS_PER_HOUR));

    let entries3 = time_data.get(&ymd(2025, 2, 1)).unwrap();
    assert_eq!(entries3.len(), 1);
    assert!(matches!(&entries3[0], Entry::Time(h, _) if *h == 6 * TICKS_PER_HOUR));
}

#[test]
fn test_time_data_new_with_date_selector() {
    let mut selector = DateSelector::new();
    selector.add_range(parse_date_arg("2025.01").unwrap());
    let mut time_data = TimeData::new();
    scan_test_files(&mut time_data, &selector);

    assert_eq!(time_data.day_count(), 2);
    assert!(time_data.get(&ymd(2025, 1, 1)).is_some());
    assert!(time_data.get(&ymd(2025, 1, 2)).is_some());
    assert!(time_data.get(&ymd(2025, 2, 1)).is_none());
}

#[test]
fn test_time_data_new_empty_directory() {
    let time_data = TimeData::new();
    assert_eq!(time_data.day_count(), 0);
}

#[test]
fn test_date_selector_from_dates() {
    let selector = DateSelector::from_dates(&vec![
        "2025".to_string(),
        "2024.01".to_string(),
        "2023.01.01".to_string(),
    ])
    .unwrap();
    assert_eq!(selector.ranges.len(), 3);
    assert_eq!(selector.ranges[0].start, ymd(2025, 1, 1));
    assert_eq!(selector.ranges[0].end, ymd(2025, 12, 31));
    assert_eq!(selector.ranges[1].start, ymd(2024, 1, 1));
    assert_eq!(selector.ranges[1].end, ymd(2024, 1, 31));
    assert_eq!(selector.ranges[2].start, ymd(2023, 1, 1));
    assert_eq!(selector.ranges[2].end, ymd(2023, 1, 1));

    let result = DateSelector::from_dates(&vec!["invalid_date".to_string()]);
    assert!(result.is_err());
    assert!(result.unwrap_err().contains("Invalid date argument"));

    let selector = DateSelector::from_dates(&vec![]).unwrap();
    assert_eq!(selector.ranges.len(), 0);
}

#[test]
fn test_malformed_line_is_skipped_with_warning() {
    let content = "2025.01.01\n8h = Good\ninvalid = Description\n4h = Also good\n";
    let selector = DateSelector::new();
    let mut time_data = TimeData::new();
    let issues = time_data.scan_file(&selector, &lines_of(content));

    // the bad line is reported, with its 1-based number and text
    assert_eq!(issues.len(), 1);
    assert_eq!(issues[0].line_number, 3);
    assert_eq!(issues[0].text, "invalid = Description");
    assert_eq!(issues[0].message, "Invalid time specification format");

    // and it contributes nothing to any date's entries
    let entries = time_data.get(&ymd(2025, 1, 1)).unwrap();
    assert_eq!(entries.len(), 2);
    assert!(matches!(&entries[0], Entry::Time(_, d) if d == "Good"));
    assert!(matches!(&entries[1], Entry::Time(_, d) if d == "Also good"));
}

#[test]
fn test_line_before_any_date_is_reported() {
    let content = "8h = Too early\n2025.01.01\n1h = Fine\n";
    let selector = DateSelector::new();
    let mut time_data = TimeData::new();
    let issues = time_data.scan_file(&selector, &lines_of(content));
    assert_eq!(issues.len(), 1);
    assert_eq!(issues[0].line_number, 1);
    assert_eq!(issues[0].message, "Expected date, found:");
    assert_eq!(time_data.get(&ymd(2025, 1, 1)).unwrap().len(), 1);
}
