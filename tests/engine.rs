use chrono::{Datelike, NaiveDate, Weekday};
use sales_windows::aggregate::{aggregate, ensure_sorted, AggregateRow, Row};
use sales_windows::civil::{advance, CivilDateTime, Period};
use sales_windows::error::SalesError;
use sales_windows::parse::parse_timestamp;
use sales_windows::pricing::{line_price, unit_price};
use sales_windows::window::{window_of, WindowSpec};
use sales_windows::zone::{attach_zone, convert_zone, naive, TimestampTz};

fn at(year: u64, month: u8, day: u8) -> CivilDateTime {
    CivilDateTime { year, month, day, hour: 0, minute: 0, second: 0 }
}

fn row(ts: CivilDateTime, category: &str, quantity: u32) -> Row {
    Row {
        timestamp: ts,
        category: category.to_string(),
        quantity,
        measure: line_price(category, quantity).unwrap(),
    }
}

fn monthly() -> WindowSpec {
    WindowSpec {
        step: Period::Months(1),
        length: Period::Months(1),
        offset: Period::Days(0),
        truncate_to_window_start: true,
    }
}

fn time_zone_table() -> Vec<(TimestampTz, TimestampTz, TimestampTz)> {
    let texts = ["2025-05-22T10:00:00", "2025-05-22T11:00:00", "2025-05-23T12:00:00"];
    let mut out = Vec::new();
    for t in texts {
        let local = parse_timestamp(t).unwrap();
        let cph = attach_zone(local, "Europe/Copenhagen").unwrap();
        let utc = convert_zone(&cph, "UTC").unwrap();
        out.push((naive(local), cph, utc));
    }
    out
}

#[test]
fn test_time_zones() {
    let table = time_zone_table();
    let columns = vec!["tz_naive", "tz_copenhagen", "tz_utc"];
    assert_eq!((3, 3), (table.len(), columns.len()));
    assert_eq!(vec!["tz_naive", "tz_copenhagen", "tz_utc"], columns);
    for (plain, cph, utc) in &table {
        assert!(plain.zone.is_none());
        assert_eq!(cph.zone.as_deref(), Some("Europe/Copenhagen"));
        assert_eq!(utc.zone.as_deref(), Some("UTC"));
        assert_eq!(cph.local, plain.local);
        assert_eq!(utc.utc, cph.utc);
    }
    assert_eq!(table[2].2.local, parse_timestamp("2025-05-23T10:00:00").unwrap());
}

#[test]
fn copenhagen_to_utc_in_summer() {
    let local = parse_timestamp("2025-05-22T10:00:00").unwrap();
    let cph = attach_zone(local, "Europe/Copenhagen").unwrap();
    let utc = convert_zone(&cph, "UTC").unwrap();
    assert_eq!(utc.local, parse_timestamp("2025-05-22T08:00:00").unwrap());
    assert_eq!(utc.utc, utc.local);
}

#[test]
fn copenhagen_to_utc_in_winter() {
    let local = parse_timestamp("2025-01-15T10:00:00").unwrap();
    let cph = attach_zone(local, "Europe/Copenhagen").unwrap();
    let utc = convert_zone(&cph, "UTC").unwrap();
    assert_eq!(utc.local, parse_timestamp("2025-01-15T09:00:00").unwrap());
}

#[test]
fn same_zone_conversion_is_identity() {
    let local = parse_timestamp("2025-05-22T10:00:00").unwrap();
    let cph = attach_zone(local, "Europe/Copenhagen").unwrap();
    let again = convert_zone(&cph, "Europe/Copenhagen").unwrap();
    assert_eq!(again.local, cph.local);
    assert_eq!(again.utc, cph.utc);
    assert_eq!(again.zone, cph.zone);
}

#[test]
fn spring_forward_gap_is_refused() {
    let local = parse_timestamp("2025-03-30T02:30:00").unwrap();
    assert_eq!(attach_zone(local, "Europe/Copenhagen").unwrap_err(), SalesError::AmbiguousLocalTime);
}

#[test]
fn fall_back_overlap_is_refused() {
    let local = parse_timestamp("2025-10-26T02:30:00").unwrap();
    assert_eq!(attach_zone(local, "Europe/Copenhagen").unwrap_err(), SalesError::AmbiguousLocalTime);
}

#[test]
fn unknown_zone_is_refused() {
    let local = parse_timestamp("2025-05-22T10:00:00").unwrap();
    assert_eq!(attach_zone(local, "Mars/Olympus").unwrap_err(), SalesError::UnknownZone);
}

#[test]
fn earliest_years_cannot_take_a_zone() {
    let local = parse_timestamp("0001-06-01T12:00:00").unwrap();
    assert_eq!(attach_zone(local, "UTC").unwrap_err(), SalesError::YearOutOfRange);
}

#[test]
fn naive_value_cannot_be_converted() {
    let local = parse_timestamp("2025-05-22T10:00:00").unwrap();
    assert_eq!(convert_zone(&naive(local), "UTC").unwrap_err(), SalesError::NotZoned);
}

#[test]
fn parse_reads_fields() {
    let t = parse_timestamp("2024-02-29T23:59:58").unwrap();
    assert_eq!(t, CivilDateTime { year: 2024, month: 2, day: 29, hour: 23, minute: 59, second: 58 });
}

#[test]
fn parse_refuses_malformed_text() {
    assert_eq!(parse_timestamp("2023-02-29T00:00:00"), Err(SalesError::Parse));
    assert_eq!(parse_timestamp("2023-13-01T00:00:00"), Err(SalesError::Parse));
    assert_eq!(parse_timestamp("2023-01-01T24:00:00"), Err(SalesError::Parse));
    assert_eq!(parse_timestamp("2023-01-01 00:00:00"), Err(SalesError::Parse));
    assert_eq!(parse_timestamp("2023-0a-01T00:00:00"), Err(SalesError::Parse));
    assert_eq!(parse_timestamp("2023-01-01"), Err(SalesError::Parse));
}

#[test]
fn prices_per_unit() {
    assert_eq!(unit_price("Coffee"), Ok(35));
    assert_eq!(unit_price("Tea"), Ok(39));
    assert_eq!(unit_price("Cake"), Ok(45));
    assert_eq!(line_price("Tea", 3), Ok(117));
    assert_eq!(unit_price("Juice"), Err(SalesError::UnknownCategory));
}

#[test]
fn unsorted_input_is_rejected_at_index_one() {
    let rows = vec![row(at(2023, 1, 2), "Tea", 1), row(at(2023, 1, 1), "Tea", 1)];
    assert_eq!(ensure_sorted(rows.clone()).unwrap_err(), SalesError::UnsortedInput { index: 1 });
    assert_eq!(aggregate(&rows, Some(monthly()), false).unwrap_err(), SalesError::UnsortedInput { index: 1 });
}

#[test]
fn sorted_input_passes_unchanged() {
    let rows = vec![row(at(2023, 1, 1), "Tea", 1), row(at(2023, 1, 2), "Cake", 2)];
    let out = ensure_sorted(rows).unwrap();
    assert_eq!(out.len(), 2);
    assert_eq!(out[1].category, "Cake");
}

#[test]
fn boundary_timestamp_starts_its_window() {
    let w = window_of(at(2023, 2, 1), &monthly());
    assert_eq!(w.start, at(2023, 2, 1));
    assert_eq!(w.end, at(2023, 3, 1));
    let before = window_of(CivilDateTime { year: 2023, month: 1, day: 31, hour: 23, minute: 59, second: 59 }, &monthly());
    assert_eq!(before.start, at(2023, 1, 1));
}

#[test]
fn month_advance_clamps_day() {
    assert_eq!(advance(at(2023, 1, 31), Period::Months(1)), at(2023, 2, 28));
    assert_eq!(advance(at(2024, 1, 31), Period::Months(1)), at(2024, 2, 29));
    assert_eq!(advance(at(2023, 12, 31), Period::Days(1)), at(2024, 1, 1));
    assert_eq!(advance(at(2023, 11, 15), Period::Months(3)), at(2024, 2, 15));
}

#[test]
fn windows_from_mid_january_to_early_february() {
    let mut rows = Vec::new();
    let mut d = at(2023, 1, 15);
    while d != at(2023, 2, 4) {
        rows.push(row(d, "Coffee", 1));
        d = advance(d, Period::Days(1));
    }
    let out = aggregate(&rows, Some(monthly()), false).unwrap();
    assert_eq!(out.len(), 2);
    let w0 = out[0].window.unwrap();
    let w1 = out[1].window.unwrap();
    assert_eq!((w0.start, w0.end), (at(2023, 1, 1), at(2023, 2, 1)));
    assert_eq!((w1.start, w1.end), (at(2023, 2, 1), at(2023, 3, 1)));
    assert_eq!(out[0].total, 17 * 35);
    assert_eq!(out[1].total, 3 * 35);
}

#[test]
fn week_windows_with_offset() {
    let spec = WindowSpec {
        step: Period::Days(1),
        length: Period::Days(7),
        offset: Period::Days(2),
        truncate_to_window_start: true,
    };
    let w = window_of(CivilDateTime { year: 2023, month: 12, day: 30, hour: 5, minute: 0, second: 0 }, &spec);
    assert_eq!(w.start, at(2024, 1, 1));
    assert_eq!(w.end, at(2024, 1, 8));
}

#[test]
fn groups_by_category_only() {
    let rows = vec![
        row(at(2023, 3, 1), "Tea", 2),
        row(at(2023, 1, 1), "Coffee", 1),
        row(at(2023, 2, 1), "Tea", 1),
        row(at(2023, 2, 1), "Cake", 1),
    ];
    let out = aggregate(&rows, None, true).unwrap();
    let names: Vec<&str> = out.iter().map(|a| a.category.as_deref().unwrap()).collect();
    assert_eq!(names, vec!["Cake", "Coffee", "Tea"]);
    let totals: Vec<u64> = out.iter().map(|a| a.total).collect();
    assert_eq!(totals, vec![45, 35, 117]);
    assert!(out.iter().all(|a| a.window.is_none()));
}

#[test]
fn single_grand_total_without_keys() {
    let rows = vec![row(at(2023, 1, 1), "Tea", 2), row(at(2023, 1, 2), "Cake", 1)];
    let out = aggregate(&rows, None, false).unwrap();
    assert_eq!(out.len(), 1);
    assert_eq!(out[0].total, 78 + 45);
    assert!(aggregate(&Vec::new(), None, false).unwrap().is_empty());
}

#[test]
fn overflowing_sum_is_an_error() {
    let big = |d: u8| Row { timestamp: at(2023, 1, d), category: "Tea".to_string(), quantity: 1, measure: u64::MAX - 1 };
    let rows = vec![big(1), big(2)];
    assert_eq!(aggregate(&rows, Some(monthly()), true).unwrap_err(), SalesError::ArithmeticOverflow);
    let one = vec![big(1)];
    assert_eq!(aggregate(&one, Some(monthly()), true).unwrap()[0].total, u64::MAX - 1);
}

#[test]
fn repeated_runs_give_identical_output() {
    let rows = vec![
        row(at(2023, 1, 3), "Tea", 2),
        row(at(2023, 1, 4), "Coffee", 1),
        row(at(2023, 2, 7), "Tea", 1),
        row(at(2023, 2, 9), "Cake", 4),
    ];
    let a = aggregate(&rows, Some(monthly()), true).unwrap();
    let b = aggregate(&rows, Some(monthly()), true).unwrap();
    let key = |v: &Vec<AggregateRow>| -> Vec<(CivilDateTime, String, u64)> {
        v.iter().map(|r| (r.window.unwrap().start, r.category.clone().unwrap(), r.total)).collect()
    };
    assert_eq!(key(&a), key(&b));
    assert_eq!(key(&a)[0], (at(2023, 1, 1), "Coffee".to_string(), 35));
}

#[test]
fn year_of_weekday_sales_cross_check() {
    let first = NaiveDate::from_ymd_opt(2023, 1, 1).unwrap();
    let names = ["Coffee", "Tea", "Cake"];
    let mut rows = Vec::new();
    let mut i: u32 = 0;
    for n in 0..365u64 {
        let d = first.checked_add_days(chrono::Days::new(n)).unwrap();
        if matches!(d.weekday(), Weekday::Sat | Weekday::Sun) {
            continue;
        }
        for _ in 0..10 {
            let ts = at(d.year() as u64, d.month() as u8, d.day() as u8);
            rows.push(row(ts, names[(i as usize * 7) % 3], i % 10 + 1));
            i += 1;
        }
    }
    assert_eq!(rows.len(), (365 - 105) * 10);
    let grand: u64 = rows.iter().map(|r| r.measure).sum();
    let by_month_and_product = aggregate(&rows, Some(monthly()), true).unwrap();
    assert_eq!(by_month_and_product.len(), 36);
    let sum: u64 = by_month_and_product.iter().map(|a| a.total).sum();
    assert_eq!(sum, grand);
    let total = aggregate(&rows, None, false).unwrap();
    assert_eq!(total[0].total, grand);
    let by_month = aggregate(&rows, Some(monthly()), false).unwrap();
    assert_eq!(by_month.len(), 12);
}

#[test]
fn labels_follow_truncation_flag() {
    let rows = vec![
        row(CivilDateTime { year: 2023, month: 1, day: 5, hour: 9, minute: 0, second: 0 }, "Tea", 1),
        row(at(2023, 1, 9), "Tea", 2),
        row(at(2023, 2, 3), "Tea", 1),
    ];
    let start_labels = aggregate(&rows, Some(monthly()), false).unwrap();
    assert_eq!(start_labels[0].label, Some(at(2023, 1, 1)));
    assert_eq!(start_labels[1].label, Some(at(2023, 2, 1)));
    let spec = WindowSpec { truncate_to_window_start: false, ..monthly() };
    let first_labels = aggregate(&rows, Some(spec), false).unwrap();
    assert_eq!(first_labels[0].label, Some(CivilDateTime { year: 2023, month: 1, day: 5, hour: 9, minute: 0, second: 0 }));
    assert_eq!(first_labels[1].label, Some(at(2023, 2, 3)));
    assert_eq!(first_labels[0].window.unwrap().start, at(2023, 1, 1));
    assert_eq!(first_labels[0].total, 39 * 3);
    assert!(aggregate(&rows, None, true).unwrap()[0].label.is_none());
}
