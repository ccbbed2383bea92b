use clinvoice::clock::today;
use clinvoice::data::{DateSelector, TimeData, AMOUNT_SCALE, TICKS_PER_HOUR};
use clinvoice::dates::{add_days, CalendarDate};
use clinvoice::format::{format_ticks, justify, Alignment};
use clinvoice::invoice::{compute_invoice, ledger_within_range, InvoiceConfig};
use clinvoice::log::day_summary;

fn ymd(year: i32, month: u32, day: u32) -> CalendarDate {
    CalendarDate { year, month, day }
}

fn lines_of(content: &str) -> Vec<String> {
    content.lines().map(|l| l.to_string()).collect()
}

fn store_from(content: &str) -> TimeData {
    let selector = DateSelector::new();
    let mut data = TimeData::new();
    let issues = data.scan_file(&selector, &lines_of(content));
    assert!(issues.is_empty());
    data
}

/// Money units of a whole currency amount.
fn money(amount: i128) -> i128 {
    amount * AMOUNT_SCALE as i128
}

fn config(rate_per_hour: i64) -> InvoiceConfig {
    InvoiceConfig {
        hourly_rate: rate_per_hour * AMOUNT_SCALE,
        cap_hours_per_day: 0,
        cap_hours_per_invoice: 0,
        tax_percent: 0,
        payment_days: 30,
    }
}

#[test]
fn test_invoice_day_with_correction() {
    // "8h = Dev" then "-2h = Correction" at rate 100: 6 hours, cost 600
    let data = store_from("2025.01.01\n8h = Dev\n-2h = Correction\n");
    let totals = compute_invoice(&data, &config(100), ymd(2025, 2, 1)).unwrap();
    assert_eq!(totals.days.len(), 1);
    assert_eq!(totals.days[0].hours, 6 * TICKS_PER_HOUR);
    assert_eq!(totals.days[0].cost, money(600));
    assert_eq!(totals.days[0].description, "Dev; Correction");
    assert_eq!(totals.total_hours_worked, 6 * TICKS_PER_HOUR);
    assert_eq!(totals.total_amount, money(600));
}

#[test]
fn test_invoice_fixed_fees_and_discounts() {
    // "$50 = Setup" and "-$10 = EarlyPay" beside 6 billable hours at rate 100
    let data = store_from("2025.01.01\n6h = Dev\n$50 = Setup\n-$10 = EarlyPay\n");
    let totals = compute_invoice(&data, &config(100), ymd(2025, 2, 1)).unwrap();
    assert_eq!(totals.billed_amount, money(600));
    assert_eq!(totals.total_fixed_fees, money(50));
    assert_eq!(totals.total_discounts, money(-10));
    assert_eq!(totals.subtotal_amount, money(640));
    assert_eq!(totals.total_amount, money(640));
}

#[test]
fn test_invoice_cap_hours_per_day() {
    // cap 8, day has 10h: billed 8, annotated, worked still 10
    let data = store_from("2025.01.01\n10h = Project X\n");
    let mut cfg = config(100);
    cfg.cap_hours_per_day = 8 * TICKS_PER_HOUR;
    let totals = compute_invoice(&data, &cfg, ymd(2025, 2, 1)).unwrap();
    assert_eq!(totals.total_hours_worked, 10 * TICKS_PER_HOUR);
    assert_eq!(totals.total_hours_counted, 8 * TICKS_PER_HOUR);
    assert_eq!(totals.total_hours_billed, 8 * TICKS_PER_HOUR);
    assert_eq!(totals.days[0].hours, 8 * TICKS_PER_HOUR);
    assert_eq!(totals.days[0].cost, money(800));
    assert_eq!(totals.days[0].description, "Project X (10 worked, 8 billed)");
    assert_eq!(totals.total_amount, money(800));
}

#[test]
fn test_invoice_cap_hours_per_invoice() {
    // 8h + 8h with a 12h invoice cap: overage 4h, billed 12h
    let data = store_from("2025.01.01\n8h = Project A\n2025.01.02\n8h = Project B\n");
    let mut cfg = config(100);
    cfg.cap_hours_per_invoice = 12 * TICKS_PER_HOUR;
    let totals = compute_invoice(&data, &cfg, ymd(2025, 2, 1)).unwrap();
    assert_eq!(totals.total_hours_worked, 16 * TICKS_PER_HOUR);
    assert_eq!(totals.total_hours_counted, 16 * TICKS_PER_HOUR);
    assert_eq!(totals.counted_amount, money(1600));
    assert_eq!(totals.overage_hours, 4 * TICKS_PER_HOUR);
    assert_eq!(totals.overage_discount, money(-400));
    assert_eq!(totals.total_hours_billed, 12 * TICKS_PER_HOUR);
    assert_eq!(totals.billed_amount, money(1200));
    assert_eq!(totals.total_amount, money(1200));
}

#[test]
fn test_invoice_tax() {
    let data = store_from("2025.01.01\n6h = Dev\n$50 = Setup\n-$10 = EarlyPay\n");
    let mut cfg = config(100);
    cfg.tax_percent = 10 * AMOUNT_SCALE;
    let totals = compute_invoice(&data, &cfg, ymd(2025, 2, 1)).unwrap();
    assert_eq!(totals.subtotal_amount, money(640));
    assert_eq!(totals.tax_amount, money(64));
    assert_eq!(totals.total_amount, money(704));
}

#[test]
fn test_invoice_period_and_due_dates() {
    let data = store_from("2025.01.05\n1h = A\n2025.01.02\n1h = B\n2025.03.01\n1h = C\n");
    let totals = compute_invoice(&data, &config(100), ymd(2025, 4, 1)).unwrap();
    assert_eq!(totals.period_start, ymd(2025, 1, 2));
    assert_eq!(totals.period_end, ymd(2025, 3, 1));
    assert_eq!(totals.invoice_date, ymd(2025, 4, 1));
    assert_eq!(totals.due_date, ymd(2025, 5, 1));
    // days come out sorted ascending
    assert_eq!(totals.days[0].date, ymd(2025, 1, 2));
    assert_eq!(totals.days[1].date, ymd(2025, 1, 5));
    assert_eq!(totals.days[2].date, ymd(2025, 3, 1));
    assert_eq!(totals.days[0].index, 1);
    assert_eq!(totals.days[2].index, 3);
}

#[test]
fn test_invoice_empty_store_uses_today() {
    let data = TimeData::new();
    let now = ymd(2025, 6, 15);
    let totals = compute_invoice(&data, &config(100), now).unwrap();
    assert_eq!(totals.days.len(), 0);
    assert_eq!(totals.period_start, now);
    assert_eq!(totals.period_end, now);
    assert_eq!(totals.total_amount, 0);
}

#[test]
fn test_invoice_rejects_out_of_range_config() {
    let data = TimeData::new();
    let mut cfg = config(100);
    cfg.payment_days = 10_000_000;
    let err = compute_invoice(&data, &cfg, ymd(2025, 1, 1)).unwrap_err();
    assert_eq!(err, "Configuration out of range");
}

#[test]
fn test_ledger_within_range() {
    let data = store_from("2025.01.01\n8h = Dev\n");
    assert!(ledger_within_range(&data));
}

#[test]
fn test_day_summary_rows() {
    let data = store_from(
        "2025.01.02\n4h = Beta\n2025.01.01\n8h = Alpha\n-2h = Fix\n- note\n",
    );
    assert!(ledger_within_range(&data));
    let (rows, grand) = day_summary(&data);
    assert_eq!(rows.len(), 2);
    assert_eq!(rows[0].date, ymd(2025, 1, 1));
    assert_eq!(rows[0].hours, 6 * TICKS_PER_HOUR);
    assert_eq!(rows[0].description, "Alpha; Fix; note");
    assert_eq!(rows[1].date, ymd(2025, 1, 2));
    assert_eq!(rows[1].hours, 4 * TICKS_PER_HOUR);
    assert_eq!(grand, 10 * TICKS_PER_HOUR);
}

#[test]
fn test_group_periods_by_month_and_year() {
    let data = store_from(
        "2024.12.30\n2h = Dec\n2025.01.01\n8h = A\n2025.01.15\n4h = B\n2025.02.01\n1h = C\n",
    );
    assert!(ledger_within_range(&data));
    let (rows, _) = day_summary(&data);
    let months = clinvoice::log::group_periods(&rows, true);
    assert_eq!(months.len(), 3);
    assert_eq!((months[0].year, months[0].month), (2024, 12));
    assert_eq!(months[0].hours, 2 * TICKS_PER_HOUR as i128);
    assert_eq!(months[0].day_count, 1);
    assert_eq!((months[1].year, months[1].month), (2025, 1));
    assert_eq!(months[1].hours, 12 * TICKS_PER_HOUR as i128);
    assert_eq!(months[1].day_count, 2);
    let years = clinvoice::log::group_periods(&rows, false);
    assert_eq!(years.len(), 2);
    assert_eq!(years[1].year, 2025);
    assert_eq!(years[1].hours, 13 * TICKS_PER_HOUR as i128);
    assert_eq!(years[1].day_count, 3);
}

#[test]
fn test_format_ticks_values() {
    assert_eq!(format_ticks(10 * TICKS_PER_HOUR), "10");
    assert_eq!(format_ticks(TICKS_PER_HOUR / 2), "0.5");
    assert_eq!(format_ticks(-5 * TICKS_PER_HOUR), "-5");
    assert_eq!(format_ticks(0), "0");
    assert_eq!(format_ticks(TICKS_PER_HOUR / 4), "0.25");
    // ten minutes round to four fraction digits
    assert_eq!(format_ticks(10 * 60 * 1000 / 60), "0.1667");
}

#[test]
fn test_justify_fields() {
    assert_eq!(justify("abc", 6, Alignment::Left), "abc   ");
    assert_eq!(justify("abc", 6, Alignment::Right), "   abc");
    assert_eq!(justify("abcdef", 4, Alignment::Left), "abcd");
    assert_eq!(justify("ab", 6, Alignment::Center), "ab  ");
}

#[test]
fn test_today_is_a_real_date() {
    let t = today();
    assert!(1 <= t.month && t.month <= 12);
    assert!(1 <= t.day && t.day <= 31);
    // stepping a year forward and back lands on the same day
    let forward = add_days(t, 365);
    let back = add_days(forward, -365);
    assert_eq!(back, t);
}
