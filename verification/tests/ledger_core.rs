use savings_ledger::date::Date;
use savings_ledger::parse::{Currency, Record, Records, Value};

fn d(y: u16, m: u8, day: u8) -> Date {
    Date::new(y, m, day).unwrap()
}

fn cur(code: &str) -> Currency {
    Currency::new(code).unwrap()
}

fn ledger(currencies: Vec<&str>, rows: Vec<(Date, Vec<i64>)>) -> Records {
    Records {
        records: rows
            .into_iter()
            .map(|(date, savings)| Record { date, savings })
            .collect(),
        currencies: currencies.into_iter().map(cur).collect(),
        filepath: String::from("savings.csv"),
    }
}

// Inserting a value for a new currency on an intermediate date
// backfills earlier records with zero, carries other currencies
// forward, and forward-fills the new currency.
#[test]
fn set_value_new_currency_scenario() {
    let mut led = ledger(
        vec!["USD", "EUR"],
        vec![
            (d(2021, 1, 1), vec![100_0000, 0]),
            (d(2021, 2, 1), vec![150_0000, 0]),
        ],
    );
    let val = Value {
        amount: 50_0000,
        currency: cur("GBP"),
    };
    led.set_value(&val, d(2021, 1, 15));
    assert_eq!(led.currencies, vec![cur("USD"), cur("EUR"), cur("GBP")]);
    assert_eq!(
        led.records,
        vec![
            Record {
                date: d(2021, 1, 1),
                savings: vec![100_0000, 0, 0],
            },
            Record {
                date: d(2021, 1, 15),
                savings: vec![100_0000, 0, 50_0000],
            },
            Record {
                date: d(2021, 2, 1),
                savings: vec![150_0000, 0, 50_0000],
            },
        ]
    );
}

// Writing to an existing currency and date overwrites in place and the
// written amount reads back unchanged.
#[test]
fn set_value_overwrites_existing_date() {
    let mut led = ledger(
        vec!["USD"],
        vec![
            (d(2021, 1, 1), vec![100_0000]),
            (d(2021, 1, 10), vec![120_0000]),
        ],
    );
    let val = Value {
        amount: 77_5000,
        currency: cur("USD"),
    };
    led.set_value(&val, d(2021, 1, 10));
    assert_eq!(led.records.len(), 2);
    assert_eq!(led.records[1].date, d(2021, 1, 10));
    assert_eq!(led.records[1].savings, vec![77_5000]);
    assert_eq!(led.records[0].savings, vec![100_0000]);
}

// Appending after the last record copies the previous amounts forward.
#[test]
fn set_value_appends_after_last() {
    let mut led = ledger(
        vec!["USD", "EUR"],
        vec![(d(2021, 1, 1), vec![100_0000, 5_0000])],
    );
    let val = Value {
        amount: 9_0000,
        currency: cur("EUR"),
    };
    led.set_value(&val, d(2021, 3, 1));
    assert_eq!(led.records.len(), 2);
    assert_eq!(led.records[1].date, d(2021, 3, 1));
    assert_eq!(led.records[1].savings, vec![100_0000, 9_0000]);
}

// An empty ledger gains an all-zero row with only the written amount.
#[test]
fn set_value_on_empty_ledger() {
    let mut led = ledger(vec![], vec![]);
    let val = Value {
        amount: 1_2345,
        currency: cur("CHF"),
    };
    led.set_value(&val, d(2021, 6, 1));
    assert_eq!(led.currencies, vec![cur("CHF")]);
    assert_eq!(
        led.records,
        vec![Record {
            date: d(2021, 6, 1),
            savings: vec![1_2345],
        }]
    );
}

// Inserting before the first record starts the other currencies at
// zero.
#[test]
fn set_value_before_first_record() {
    let mut led = ledger(vec!["USD"], vec![(d(2021, 5, 1), vec![10_0000])]);
    let val = Value {
        amount: 3_0000,
        currency: cur("USD"),
    };
    led.set_value(&val, d(2021, 4, 1));
    assert_eq!(led.records.len(), 2);
    assert_eq!(led.records[0].date, d(2021, 4, 1));
    assert_eq!(led.records[0].savings, vec![3_0000]);
    assert_eq!(led.records[1].savings, vec![10_0000]);
}

// The range filter keeps order and applies both bounds inclusively.
#[test]
fn range_filter_bounds() {
    let led = ledger(
        vec!["USD"],
        vec![
            (d(2021, 1, 1), vec![1]),
            (d(2021, 1, 5), vec![2]),
            (d(2021, 1, 9), vec![3]),
        ],
    );
    let kept = led.records_newer_older_than(Some(d(2021, 1, 2)), Some(d(2021, 1, 9)));
    assert_eq!(kept.len(), 2);
    assert_eq!(kept[0].savings, vec![2]);
    assert_eq!(kept[1].savings, vec![3]);
    let led2 = ledger(vec!["USD"], vec![(d(2021, 1, 1), vec![1])]);
    let none_kept = led2.records_newer_older_than(Some(d(2021, 2, 1)), None);
    assert!(none_kept.is_empty());
}
