use savings_ledger::amount::{amount_from_bytes, amount_to_bytes};
use savings_ledger::date::{date_from_bytes, date_to_bytes, Date};
use savings_ledger::parse::{
    duration_days_from_secs, parse_currency_from_str, parse_date_from_str, Currency, ParseError,
    Record, Records, Value,
};
use savings_ledger::storage::{parse_from_str, to_rows, LoadError};

fn d(y: u16, m: u8, day: u8) -> Date {
    Date::new(y, m, day).unwrap()
}

#[test]
fn currency_codes_are_upper_cased() {
    let c = Currency::new("usd").unwrap();
    assert_eq!(c.0, "USD");
    assert_eq!(parse_currency_from_str("eUr").unwrap().0, "EUR");
}

#[test]
fn currency_rejects_bad_codes() {
    assert_eq!(Currency::new("US").unwrap_err(), ParseError::CurrencyLength);
    assert_eq!(Currency::new("USDX").unwrap_err(), ParseError::CurrencyLength);
    assert_eq!(Currency::new("U1D").unwrap_err(), ParseError::CurrencyAlpha);
    assert_eq!(Currency::new("øre").unwrap_err(), ParseError::CurrencyLength);
}

#[test]
fn value_parses_amount_and_code() {
    let v = Value::from_str("123.45GBP").unwrap();
    assert_eq!(v.amount, 123_4500);
    assert_eq!(v.currency.0, "GBP");
    let neg = Value::from_str("-0.5usd").unwrap();
    assert_eq!(neg.amount, -5000);
    assert_eq!(neg.currency.0, "USD");
}

#[test]
fn value_rejects_bad_texts() {
    assert_eq!(Value::from_str("GB").unwrap_err(), ParseError::CurrencyLength);
    assert_eq!(Value::from_str("12AB3").unwrap_err(), ParseError::CurrencyAlpha);
    assert_eq!(Value::from_str("GBP").unwrap_err(), ParseError::BadAmount);
    assert_eq!(Value::from_str("1.23456GBP").unwrap_err(), ParseError::BadAmount);
}

#[test]
fn date_text_round_trips() {
    let day = d(2020, 2, 29);
    let text = date_to_bytes(&day);
    assert_eq!(text, b"2020-02-29".to_vec());
    assert_eq!(date_from_bytes(&text), Some(day));
}

#[test]
fn date_rejects_bad_texts() {
    assert_eq!(date_from_bytes(b"2021-02-29"), None);
    assert_eq!(date_from_bytes(b"2021-13-01"), None);
    assert_eq!(date_from_bytes(b"2021-00-10"), None);
    assert_eq!(date_from_bytes(b"0000-01-01"), None);
    assert_eq!(date_from_bytes(b"21-01-01"), None);
    assert_eq!(date_from_bytes(b"2021/01/01"), None);
    assert_eq!(date_from_bytes(b"2021-04-31"), None);
}

#[test]
fn amount_text_round_trips() {
    for a in [
        0i64,
        1,
        -1,
        50_0000,
        -123_4500,
        10_0001,
        i64::MAX,
        i64::MIN,
        9999,
        -9000,
    ] {
        let text = amount_to_bytes(a);
        assert_eq!(amount_from_bytes(&text), Some(a), "value {a}");
    }
    assert_eq!(amount_to_bytes(123_4500), b"123.45".to_vec());
    assert_eq!(amount_to_bytes(-5000), b"-0.5".to_vec());
    assert_eq!(amount_to_bytes(60_0000), b"60".to_vec());
}

#[test]
fn amount_rejects_bad_texts() {
    assert_eq!(amount_from_bytes(b""), None);
    assert_eq!(amount_from_bytes(b"."), None);
    assert_eq!(amount_from_bytes(b".5"), None);
    assert_eq!(amount_from_bytes(b"1."), None);
    assert_eq!(amount_from_bytes(b"1.23456"), None);
    assert_eq!(amount_from_bytes(b"1e3"), None);
    assert_eq!(amount_from_bytes(b"12a"), None);
    // one past the representable range
    assert_eq!(amount_from_bytes(b"922337203685477.5808"), None);
    assert_eq!(amount_from_bytes(b"-922337203685477.5809"), None);
    // the extremes themselves parse
    assert_eq!(amount_from_bytes(b"922337203685477.5807"), Some(i64::MAX));
    assert_eq!(amount_from_bytes(b"-922337203685477.5808"), Some(i64::MIN));
}

#[test]
fn date_parse_accepts_today_token() {
    let today = d(2021, 7, 15);
    assert_eq!(parse_date_from_str("today", today).unwrap(), today);
    assert_eq!(parse_date_from_str("2021-07-14", today).unwrap(), d(2021, 7, 14));
    assert_eq!(
        parse_date_from_str("2021-07-16", today).unwrap_err(),
        ParseError::FutureDate
    );
    assert_eq!(
        parse_date_from_str("yesterday", today).unwrap_err(),
        ParseError::BadDate
    );
}

fn days_of(text: &str) -> Result<u64, ParseError> {
    duration_days_from_secs(humantime::parse_duration(text).unwrap().as_secs())
}

#[test]
fn duration_days_count_whole_days() {
    assert_eq!(days_of("2 days").unwrap(), 2);
    assert_eq!(days_of("1 month").unwrap(), 30);
    assert_eq!(days_of("2 weeks").unwrap(), 14);
    assert_eq!(days_of("12 hours").unwrap_err(), ParseError::ShortDuration);
    assert_eq!(duration_days_from_secs(86399).unwrap_err(), ParseError::ShortDuration);
    assert_eq!(duration_days_from_secs(86400).unwrap(), 1);
    assert!(humantime::parse_duration("soon").is_err());
}

fn sample_ledger() -> Records {
    Records {
        records: vec![
            Record {
                date: d(2021, 1, 1),
                savings: vec![100_0000, -2500],
            },
            Record {
                date: d(2021, 1, 15),
                savings: vec![100_0001, 0],
            },
        ],
        currencies: vec![Currency::new("USD").unwrap(), Currency::new("EUR").unwrap()],
        filepath: String::from("savings.csv"),
    }
}

// Saving a ledger as rows and loading the rows back reproduces the
// same dates, currencies and amounts.
#[test]
fn rows_round_trip() {
    let led = sample_ledger();
    let rows = to_rows(&led);
    assert_eq!(rows[0], vec!["Date", "USD", "EUR"]);
    assert_eq!(rows[1], vec!["2021-01-01", "100", "-0.25"]);
    assert_eq!(rows[2], vec!["2021-01-15", "100.0001", "0"]);
    let back = parse_from_str(&rows, "savings.csv").unwrap();
    assert_eq!(back, led);
}

fn rows_of(cells: Vec<Vec<&str>>) -> Vec<Vec<String>> {
    cells
        .into_iter()
        .map(|r| r.into_iter().map(String::from).collect())
        .collect()
}

#[test]
fn load_rejects_bad_tables() {
    assert_eq!(
        parse_from_str(&rows_of(vec![]), "f").unwrap_err(),
        LoadError::MissingHeader
    );
    assert_eq!(
        parse_from_str(&rows_of(vec![vec!["Date", "US"]]), "f").unwrap_err(),
        LoadError::BadCurrency
    );
    assert_eq!(
        parse_from_str(&rows_of(vec![vec!["Date", "USD", "usd"]]), "f").unwrap_err(),
        LoadError::DuplicateCurrency
    );
    assert_eq!(
        parse_from_str(
            &rows_of(vec![vec!["Date", "USD"], vec!["2021-01-01"]]),
            "f"
        )
        .unwrap_err(),
        LoadError::RowWidth
    );
    assert_eq!(
        parse_from_str(
            &rows_of(vec![vec!["Date", "USD"], vec!["01/01/2021", "5"]]),
            "f"
        )
        .unwrap_err(),
        LoadError::BadDate
    );
    assert_eq!(
        parse_from_str(
            &rows_of(vec![
                vec!["Date", "USD"],
                vec!["2021-01-02", "5"],
                vec!["2021-01-01", "6"],
            ]),
            "f"
        )
        .unwrap_err(),
        LoadError::UnsortedDates
    );
    assert_eq!(
        parse_from_str(
            &rows_of(vec![vec!["Date", "USD"], vec!["2021-01-01", "abc"]]),
            "f"
        )
        .unwrap_err(),
        LoadError::BadAmount
    );
}

#[test]
fn load_builds_the_ledger() {
    let rows = rows_of(vec![
        vec!["Date", "usd", "EUR"],
        vec!["2021-01-01", "1.5", "0"],
        vec!["2021-02-01", "-2", "0.0001"],
    ]);
    let led = parse_from_str(&rows, "book.csv").unwrap();
    assert_eq!(led.filepath, "book.csv");
    assert_eq!(led.currencies[0].0, "USD");
    assert_eq!(led.currencies[1].0, "EUR");
    assert_eq!(led.records[0].savings, vec![1_5000, 0]);
    assert_eq!(led.records[1].savings, vec![-2_0000, 1]);
    assert_eq!(led.records[1].date, d(2021, 2, 1));
}

// The system clock yields a well-formed calendar date.
#[test]
fn clock_yields_a_valid_date() {
    let today = savings_ledger::date::today_from_clock().expect("the clock is in range");
    assert!((1..=12).contains(&today.month));
    assert!((1..=31).contains(&today.day));
    assert!(today.year >= 2020);
}
