use savings_ledger::conversions::{get_conversions, ConversionError};
use savings_ledger::date::Date;
use savings_ledger::parse::{Currency, Record, Records};
use savings_ledger::table::format_table;

fn d(y: u16, m: u8, day: u8) -> Date {
    Date::new(y, m, day).unwrap()
}

fn cur(code: &str) -> Currency {
    Currency::new(code).unwrap()
}

fn eur_gbp_ledger(savings: Vec<i64>) -> Records {
    Records {
        records: vec![Record { date: d(2021, 1, 1), savings }],
        currencies: vec![cur("EUR"), cur("GBP")],
        filepath: String::from("savings.csv"),
    }
}

fn rates(pairs: Vec<(&str, i64)>) -> Vec<(Currency, i64)> {
    pairs.into_iter().map(|(c, r)| (cur(c), r)).collect()
}

// 9 EUR at 0.9 and 8 GBP at 0.8 convert to 10 + 10 = 20 USD.
#[test]
fn conversion_sums_per_rate() {
    let led = eur_gbp_ledger(vec![9_0000, 8_0000]);
    let outcomes = vec![Ok(rates(vec![("EUR", 9000), ("GBP", 8000)]))];
    let out = get_conversions(led, cur("USD"), outcomes).unwrap();
    assert_eq!(out.currencies, vec![cur("USD")]);
    assert_eq!(out.records.len(), 1);
    assert_eq!(out.records[0].date, d(2021, 1, 1));
    assert_eq!(out.records[0].savings, vec![20_0000]);
}

// Doubling every amount doubles the converted total, for fixed rates.
#[test]
fn conversion_is_linear_for_exact_rates() {
    let outcomes = || vec![Ok(rates(vec![("EUR", 9000), ("GBP", 8000)]))];
    let once = get_conversions(eur_gbp_ledger(vec![9_0000, 8_0000]), cur("USD"), outcomes())
        .unwrap();
    let twice = get_conversions(eur_gbp_ledger(vec![18_0000, 16_0000]), cur("USD"), outcomes())
        .unwrap();
    assert_eq!(twice.records[0].savings[0], 2 * once.records[0].savings[0]);
}

// Per-record outcomes are matched back to records by position.
#[test]
fn conversion_uses_per_record_rates() {
    let led = Records {
        records: vec![
            Record { date: d(2021, 1, 1), savings: vec![10_0000] },
            Record { date: d(2021, 1, 2), savings: vec![10_0000] },
        ],
        currencies: vec![cur("EUR")],
        filepath: String::from("savings.csv"),
    };
    let outcomes = vec![
        Ok(rates(vec![("EUR", 10000)])),
        Ok(rates(vec![("EUR", 20000)])),
    ];
    let out = get_conversions(led, cur("USD"), outcomes).unwrap();
    assert_eq!(out.records[0].savings, vec![10_0000]);
    assert_eq!(out.records[1].savings, vec![5_0000]);
}

#[test]
fn conversion_surfaces_fetch_failure() {
    let led = eur_gbp_ledger(vec![1, 1]);
    let outcomes = vec![Err(String::from("connection refused"))];
    match get_conversions(led, cur("USD"), outcomes).unwrap_err() {
        ConversionError::Fetch(msg) => assert_eq!(msg, "connection refused"),
        other => panic!("unexpected error {other:?}"),
    }
}

#[test]
fn conversion_reports_missing_currency() {
    let led = eur_gbp_ledger(vec![1, 1]);
    let outcomes = vec![Ok(rates(vec![("EUR", 9000)]))];
    match get_conversions(led, cur("USD"), outcomes).unwrap_err() {
        ConversionError::MissingRate(c) => assert_eq!(c, cur("GBP")),
        other => panic!("unexpected error {other:?}"),
    }
}

#[test]
fn conversion_rejects_nonpositive_rate() {
    let led = eur_gbp_ledger(vec![1, 1]);
    let outcomes = vec![Ok(rates(vec![("EUR", 0), ("GBP", 8000)]))];
    match get_conversions(led, cur("USD"), outcomes).unwrap_err() {
        ConversionError::NonPositiveRate(c) => assert_eq!(c, cur("EUR")),
        other => panic!("unexpected error {other:?}"),
    }
}

#[test]
fn conversion_reports_overflow() {
    let led = eur_gbp_ledger(vec![i64::MAX, 0]);
    // a rate far below one inflates the total past the range
    let outcomes = vec![Ok(rates(vec![("EUR", 1), ("GBP", 8000)]))];
    assert_eq!(
        get_conversions(led, cur("USD"), outcomes).unwrap_err(),
        ConversionError::AmountOverflow
    );
}

// The display table shows dates and two-decimal amounts, rounded half
// away from zero.
#[test]
fn table_cells_round_to_two_decimals() {
    let led = Records {
        records: vec![
            Record { date: d(2021, 1, 1), savings: vec![100_0000, -2500] },
            Record { date: d(2021, 1, 2), savings: vec![1_2345, 49] },
        ],
        currencies: vec![cur("USD"), cur("EUR")],
        filepath: String::from("savings.csv"),
    };
    let rows = format_table(&led);
    assert_eq!(rows[0], vec!["Date", "USD", "EUR"]);
    assert_eq!(rows[1], vec!["2021-01-01", "100.00", "-0.25"]);
    assert_eq!(rows[2], vec!["2021-01-02", "1.23", "0.00"]);
}
