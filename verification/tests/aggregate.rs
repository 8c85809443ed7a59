use savings_ledger::date::Date;
use savings_ledger::parse::{Currency, Record, Records};
use savings_ledger::statistics::{calculate_records, calculate_rolling_average, StatsError};

fn d(y: u16, m: u8, day: u8) -> Date {
    Date::new(y, m, day).unwrap()
}

fn one_currency(rows: Vec<(Date, i64)>) -> Records {
    Records {
        records: rows
            .into_iter()
            .map(|(date, a)| Record { date, savings: vec![a] })
            .collect(),
        currencies: vec![Currency::new("USD").unwrap()],
        filepath: String::from("savings.csv"),
    }
}

// A 30-day delta normalized onto a 30-day period is the raw delta.
#[test]
fn rolling_average_unscaled_delta() {
    let led = one_currency(vec![(d(2021, 1, 1), 0), (d(2021, 1, 31), 60_0000)]);
    let out = calculate_rolling_average(led, 30, false, None, None, None).unwrap();
    assert_eq!(out.currencies[0].0, "USD");
    assert_eq!(out.records.len(), 2);
    assert_eq!(out.records[0].date, d(2021, 1, 1));
    assert_eq!(out.records[0].savings, vec![0]);
    assert_eq!(out.records[1].date, d(2021, 1, 31));
    assert_eq!(out.records[1].savings, vec![60_0000]);
}

// The same delta normalized onto a 15-day period halves.
#[test]
fn rolling_average_scales_onto_period() {
    let led = one_currency(vec![(d(2021, 1, 1), 0), (d(2021, 1, 31), 60_0000)]);
    let out = calculate_rolling_average(led, 15, false, None, None, None).unwrap();
    assert_eq!(out.records[1].savings, vec![30_0000]);
}

// A bucket that ends up with fewer than two records contributes no
// output records.
#[test]
fn buckets_below_two_records_are_dropped() {
    let led = one_currency(vec![
        (d(2021, 1, 1), 0),
        (d(2021, 1, 2), 1_0000),
        (d(2021, 1, 26), 5_0000),
    ]);
    let out = calculate_rolling_average(led, 30, false, Some(10), None, None).unwrap();
    // the lone record past the first bucket is dropped with its bucket
    assert_eq!(out.records.len(), 2);
    assert_eq!(out.records[0].date, d(2021, 1, 1));
    assert_eq!(out.records[0].savings, vec![0]);
    assert_eq!(out.records[1].date, d(2021, 1, 2));
    // one day of +1.0000 scaled onto a 30-day period
    assert_eq!(out.records[1].savings, vec![30_0000]);
}

// Under `sum` a bucket collapses to its first and last record.
#[test]
fn sum_keeps_first_and_last() {
    let led = one_currency(vec![
        (d(2021, 1, 1), 0),
        (d(2021, 1, 2), 99_0000),
        (d(2021, 1, 31), 60_0000),
    ]);
    let out = calculate_rolling_average(led, 30, true, None, None, None).unwrap();
    assert_eq!(out.records.len(), 2);
    assert_eq!(out.records[1].date, d(2021, 1, 31));
    assert_eq!(out.records[1].savings, vec![60_0000]);
}

// The date range is applied before bucketing.
#[test]
fn rolling_average_respects_range() {
    let led = one_currency(vec![
        (d(2020, 12, 1), 5),
        (d(2021, 1, 1), 0),
        (d(2021, 1, 31), 60_0000),
    ]);
    let out =
        calculate_rolling_average(led, 30, false, None, Some(d(2021, 1, 1)), None).unwrap();
    assert_eq!(out.records.len(), 2);
    assert_eq!(out.records[0].date, d(2021, 1, 1));
}

#[test]
fn rolling_average_needs_records() {
    let empty = one_currency(vec![]);
    assert_eq!(
        calculate_rolling_average(empty, 30, false, None, None, None).unwrap_err(),
        StatsError::TooFewRecords
    );
    let single = one_currency(vec![(d(2021, 1, 1), 0)]);
    assert_eq!(
        calculate_rolling_average(single, 30, false, None, None, None).unwrap_err(),
        StatsError::TooFewRecords
    );
}

#[test]
fn bucket_wider_than_period_is_rejected() {
    let led = one_currency(vec![(d(2021, 1, 1), 0), (d(2021, 1, 31), 1)]);
    assert_eq!(
        calculate_rolling_average(led, 30, false, Some(31), None, None).unwrap_err(),
        StatsError::BucketExceedsPeriod
    );
}

#[test]
fn rolling_average_reports_overflow() {
    let led = one_currency(vec![(d(2021, 1, 1), i64::MIN), (d(2021, 1, 2), i64::MAX)]);
    assert_eq!(
        calculate_rolling_average(led, 30, false, None, None, None).unwrap_err(),
        StatsError::AmountOverflow
    );
}

// A bucket with fewer than two records normalizes to no records at
// all: a designed skip, not an error.
#[test]
fn short_bucket_normalizes_to_nothing() {
    let empty: Vec<savings_ledger::parse::Record> = Vec::new();
    assert_eq!(calculate_records(&empty, 30, false).unwrap(), Vec::new());
    let single = vec![savings_ledger::parse::Record {
        date: d(2021, 1, 1),
        savings: vec![42],
    }];
    assert_eq!(calculate_records(&single, 30, false).unwrap(), Vec::new());
    assert_eq!(calculate_records(&single, 30, true).unwrap(), Vec::new());
}
