use vstd::prelude::*;
use crate::amount::{scale_value, scaled, SCALE};
use crate::parse::{valid_code, Currency, Record, RecordView, Records};

verus! {

/// A failure of the currency conversion.
#[derive(Debug, Clone, PartialEq)]
pub enum ConversionError {
    /// A rate request failed, with the cause the fetcher reported.
    Fetch(String),
    /// The rate response does not list a currency of the ledger.
    MissingRate(Currency),
    /// A listed rate at or below zero can convert nothing.
    NonPositiveRate(Currency),
    /// A converted total does not fit the fixed-point range.
    AmountOverflow,
}

impl ConversionError {
    /// A short human-readable cause.
    pub fn describe(&self) -> &'static str {
        match self {
            ConversionError::Fetch(_) => "error querying the rate service",
            ConversionError::MissingRate(_) => "a ledger currency is missing from the rates",
            ConversionError::NonPositiveRate(_) => "a rate at or below zero cannot convert",
            ConversionError::AmountOverflow => "a converted total does not fit the numeric range",
        }
    }
}

/// The first listed rate for `code`, if any.
pub open spec fn rate_for(pairs: Seq<(Currency, i64)>, code: Seq<char>) -> Option<i64>
    decreases pairs.len(),
{
    if pairs.len() == 0 {
        None
    } else if pairs[0].0.0@ == code {
        Some(pairs[0].1)
    } else {
        rate_for(pairs.skip(1), code)
    }
}

/// Whether the rates list a positive rate for currency `x` of `cs`.
pub open spec fn rate_good(cs: Seq<Currency>, pairs: Seq<(Currency, i64)>, x: int) -> bool {
    match rate_for(pairs, cs[x].0@) {
        Some(rt) => rt > 0,
        None => false,
    }
}

/// The rate vector aligned to the currency list (zero where absent).
pub open spec fn aligned_rates(cs: Seq<Currency>, pairs: Seq<(Currency, i64)>) -> Seq<i64> {
    Seq::new(
        cs.len(),
        |j: int|
            match rate_for(pairs, cs[j].0@) {
                Some(rt) => rt,
                None => 0i64,
            },
    )
}

/// One amount converted into the target currency: divided by its
/// currency's rate, truncated toward zero.
pub open spec fn convert_term(s: i64, rate: i64) -> int {
    scaled(s as int, SCALE as int, rate as int)
}

/// The sum of the first `upto` converted amounts of a record.
pub open spec fn partial_total(savings: Seq<i64>, rates: Seq<i64>, upto: int) -> int
    decreases upto,
{
    if upto <= 0 {
        0
    } else {
        partial_total(savings, rates, upto - 1) + convert_term(savings[upto - 1], rates[upto - 1])
    }
}

/// A record's total in the target currency.
pub open spec fn record_total(savings: Seq<i64>, rates: Seq<i64>) -> int {
    partial_total(savings, rates, savings.len() as int)
}

/// Whether every converted amount and every running sum of a record
/// fits an `i64`.
pub open spec fn record_fits(savings: Seq<i64>, rates: Seq<i64>) -> bool {
    &&& forall|j: int|
        0 <= j < savings.len() ==> i64::MIN <= convert_term(#[trigger] savings[j], rates[j])
            <= i64::MAX
    &&& forall|j: int|
        0 <= j <= savings.len() ==> i64::MIN <= #[trigger] partial_total(savings, rates, j)
            <= i64::MAX
}

/// The outcome that applies to record `i`: a single outcome applies to
/// every record, else each record has its own.
pub open spec fn outcome_of(
    outcomes: Seq<Result<Vec<(Currency, i64)>, String>>,
    i: int,
) -> Result<Vec<(Currency, i64)>, String> {
    if outcomes.len() == 1 {
        outcomes[0]
    } else {
        outcomes[i]
    }
}

/// Whether record `i` converts cleanly under its outcome.
pub open spec fn record_ok(
    cs: Seq<Currency>,
    rec: RecordView,
    outcomes: Seq<Result<Vec<(Currency, i64)>, String>>,
    i: int,
) -> bool {
    match outcome_of(outcomes, i) {
        Err(_) => false,
        Ok(pairs) => {
            &&& forall|j: int| 0 <= j < cs.len() ==> rate_good(cs, pairs@, j)
            &&& record_fits(rec.savings, aligned_rates(cs, pairs@))
        },
    }
}

/// Looks up the first listed rate for the given currency.
fn find_rate(pairs: &Vec<(Currency, i64)>, code: &Currency) -> (r: Option<i64>)
    ensures
        r == rate_for(pairs@, code.0@),
{
    let n = pairs.len();
    let mut i: usize = 0;
    proof {
        assert(pairs@.skip(0) =~= pairs@);
    }
    while i < n
        invariant
            i <= n,
            n == pairs@.len(),
            rate_for(pairs@, code.0@) == rate_for(pairs@.skip(i as int), code.0@),
        decreases n - i,
    {
        proof {
            assert(pairs@.skip(i as int)[0] == pairs@[i as int]);
            assert(pairs@.skip(i as int).skip(1) =~= pairs@.skip(i + 1));
        }
        if pairs[i].0.same_code(code) {
            return Some(pairs[i].1);
        }
        i += 1;
    }
    proof {
        assert(pairs@.skip(n as int).len() == 0);
    }
    None
}

/// Converts the whole ledger into the single target currency, from the
/// fetched rate outcomes: one outcome applied to every record, or one
/// per record. Each record becomes the sum of its amounts divided by
/// their rates; the first failure in record order (and currency order
/// within a record) fails the whole conversion.
#[verifier::rlimit(60)]
pub fn get_conversions(
    records: Records,
    exchange_to: Currency,
    outcomes: Vec<Result<Vec<(Currency, i64)>, String>>,
) -> (r: Result<Records, ConversionError>)
    requires
        records.wf(),
        valid_code(exchange_to.0@),
        outcomes@.len() == 1 || outcomes@.len() == records@.records.len(),
    ensures
        match r {
            Ok(out) => {
                &&& forall|i: int|
                    0 <= i < records@.records.len() ==> record_ok(
                        records.currencies@,
                        #[trigger] records@.records[i],
                        outcomes@,
                        i,
                    )
                &&& out@.currencies =~= seq![exchange_to.0@]
                &&& out@.records.len() == records@.records.len()
                &&& forall|i: int|
                    0 <= i < records@.records.len() ==> (#[trigger] out@.records[i]).date
                        == records@.records[i].date && out@.records[i].savings =~= seq![
                        record_total(
                            records@.records[i].savings,
                            aligned_rates(
                                records.currencies@,
                                outcome_of(outcomes@, i)->Ok_0@,
                            ),
                        ) as i64,
                    ]
                &&& out.wf()
                &&& out.filepath@ == records.filepath@
            },
            Err(e) => exists|i: int|
                {
                    &&& 0 <= i < records@.records.len()
                    &&& (forall|x: int|
                        0 <= x < i ==> record_ok(
                            records.currencies@,
                            #[trigger] records@.records[x],
                            outcomes@,
                            x,
                        ))
                    &&& !record_ok(records.currencies@, #[trigger] records@.records[i], outcomes@, i)
                    &&& match e {
                        ConversionError::Fetch(msg) => outcome_of(outcomes@, i) matches Err(m)
                            && msg@ == m@,
                        ConversionError::MissingRate(c) => outcome_of(outcomes@, i) matches Ok(
                            pairs,
                        ) && exists|j: int|
                            {
                                &&& 0 <= j < records.currencies@.len()
                                &&& (forall|x: int|
                                    0 <= x < j ==> rate_good(records.currencies@, pairs@, x))
                                &&& rate_for(
                                    pairs@,
                                    #[trigger] records.currencies@[j].0@,
                                ) is None
                                &&& c.0@ == records.currencies@[j].0@
                            },
                        ConversionError::NonPositiveRate(c) => outcome_of(outcomes@, i) matches Ok(
                            pairs,
                        ) && exists|j: int|
                            {
                                &&& 0 <= j < records.currencies@.len()
                                &&& (forall|x: int|
                                    0 <= x < j ==> rate_good(records.currencies@, pairs@, x))
                                &&& match rate_for(
                                    pairs@,
                                    #[trigger] records.currencies@[j].0@,
                                ) {
                                    Some(rt) => rt <= 0,
                                    None => false,
                                }
                                &&& c.0@ == records.currencies@[j].0@
                            },
                        ConversionError::AmountOverflow => outcome_of(outcomes@, i) matches Ok(
                            pairs,
                        ) && (forall|j: int|
                            0 <= j < records.currencies@.len() ==> rate_good(
                                records.currencies@,
                                pairs@,
                                j,
                            )) && !record_fits(
                            records@.records[i].savings,
                            aligned_rates(records.currencies@, pairs@),
                        ),
                    }
                },
        },
{
    let n = records.records.len();
    let m = records.currencies.len();
    let mut new_records: Vec<Record> = Vec::new();
    let mut i: usize = 0;
    while i < n
        invariant
            i <= n,
            n == records.records@.len(),
            m == records.currencies@.len(),
            records.wf(),
            outcomes@.len() == 1 || outcomes@.len() == n,
            new_records@.len() == i,
            forall|x: int|
                0 <= x < i ==> record_ok(
                    records.currencies@,
                    #[trigger] records@.records[x],
                    outcomes@,
                    x,
                ),
            forall|x: int|
                0 <= x < i ==> (#[trigger] new_records@[x]@).date == records@.records[x].date
                    && new_records@[x]@.savings =~= seq![
                    record_total(
                        records@.records[x].savings,
                        aligned_rates(records.currencies@, outcome_of(outcomes@, x)->Ok_0@),
                    ) as i64,
                ],
        decreases n - i,
    {
        let oi: usize = if outcomes.len() == 1 {
            0
        } else {
            i
        };
        proof {
            assert(outcomes@[oi as int] == outcome_of(outcomes@, i as int));
        }
        let pairs = match &outcomes[oi] {
            Ok(p) => p,
            Err(msg) => {
                let e = ConversionError::Fetch(msg.clone());
                proof {
                    let gi = i as int;
                    assert(!record_ok(records.currencies@, records@.records[gi], outcomes@, gi));
                }
                return Err(e);
            },
        };
        // align the rates to the ledger's currency order
        let mut rates: Vec<i64> = Vec::new();
        let mut j: usize = 0;
        while j < m
            invariant
                j <= m,
                m == records.currencies@.len(),
                i < n,
                n == records.records@.len(),
                outcomes@.len() == 1 || outcomes@.len() == n,
                forall|x: int|
                    0 <= x < i ==> record_ok(
                        records.currencies@,
                        #[trigger] records@.records[x],
                        outcomes@,
                        x,
                    ),
                outcome_of(outcomes@, i as int) matches Ok(p) && p == pairs,
                rates@.len() == j,
                forall|x: int| 0 <= x < j ==> rate_good(records.currencies@, pairs@, x),
                forall|x: int|
                    0 <= x < j ==> #[trigger] rates@[x] == aligned_rates(
                        records.currencies@,
                        pairs@,
                    )[x],
            decreases m - j,
        {
            match find_rate(pairs, &records.currencies[j]) {
                None => {
                    let c = records.currencies[j].duplicate();
                    proof {
                        let gi = i as int;
                        let gj = j as int;
                        assert(!rate_good(records.currencies@, pairs@, gj));
                        assert(!record_ok(
                            records.currencies@,
                            records@.records[gi],
                            outcomes@,
                            gi,
                        ));
                        assert(c.0@ == records.currencies@[gj].0@);
                    }
                    return Err(ConversionError::MissingRate(c));
                },
                Some(rt) => {
                    if rt <= 0 {
                        let c = records.currencies[j].duplicate();
                        proof {
                            let gi = i as int;
                            let gj = j as int;
                            assert(!rate_good(records.currencies@, pairs@, gj));
                            assert(!record_ok(
                                records.currencies@,
                                records@.records[gi],
                                outcomes@,
                                gi,
                            ));
                            assert(c.0@ == records.currencies@[gj].0@);
                        }
                        return Err(ConversionError::NonPositiveRate(c));
                    }
                    rates.push(rt);
                },
            }
            j += 1;
        }
        let ghost ar = aligned_rates(records.currencies@, pairs@);
        proof {
            assert(rates@ =~= ar);
            assert(records@.records[i as int] == records.records@[i as int]@);
            assert(records@.records[i as int].savings.len() == m);
            assert forall|x: int| 0 <= x < m implies #[trigger] ar[x] > 0 by {
                assert(rate_good(records.currencies@, pairs@, x));
            }
        }
        // convert and sum this record's amounts
        let rec = &records.records[i];
        let mut acc: i64 = 0;
        let mut jj: usize = 0;
        proof {
            assert(partial_total(rec@.savings, ar, 0) == 0);
        }
        while jj < m
            invariant
                jj <= m,
                m == records.currencies@.len(),
                outcome_of(outcomes@, i as int) matches Ok(p) && p == pairs,
                i < n,
                n == records.records@.len(),
                outcomes@.len() == 1 || outcomes@.len() == n,
                forall|x: int|
                    0 <= x < i ==> record_ok(
                        records.currencies@,
                        #[trigger] records@.records[x],
                        outcomes@,
                        x,
                    ),
                rec@ == records.records@[i as int]@,
                rec@.savings.len() == m,
                rates@ == ar,
                ar == aligned_rates(records.currencies@, pairs@),
                rates@.len() == m,
                forall|x: int| 0 <= x < m ==> rate_good(records.currencies@, pairs@, x),
                forall|x: int| 0 <= x < m ==> #[trigger] ar[x] > 0,
                acc as int == partial_total(rec@.savings, ar, jj as int),
                forall|x: int|
                    0 <= x < jj ==> i64::MIN <= convert_term(
                        #[trigger] rec@.savings[x],
                        ar[x],
                    ) <= i64::MAX,
                forall|x: int|
                    0 <= x <= jj ==> i64::MIN <= #[trigger] partial_total(rec@.savings, ar, x)
                        <= i64::MAX,
            decreases m - jj,
        {
            let s = rec.savings[jj];
            let rt = rates[jj];
            let term = match scale_value(s as i128, SCALE, rt as u64) {
                Some(t) => t,
                None => {
                    proof {
                        let gi = i as int;
                        assert(!record_fits(rec@.savings, ar));
                        assert(!record_ok(
                            records.currencies@,
                            records@.records[gi],
                            outcomes@,
                            gi,
                        ));
                    }
                    return Err(ConversionError::AmountOverflow);
                },
            };
            acc = match acc.checked_add(term) {
                Some(a) => a,
                None => {
                    proof {
                        let gi = i as int;
                        assert(partial_total(rec@.savings, ar, jj + 1) == acc as int
                            + term as int);
                        assert(!record_fits(rec@.savings, ar));
                        assert(!record_ok(
                            records.currencies@,
                            records@.records[gi],
                            outcomes@,
                            gi,
                        ));
                    }
                    return Err(ConversionError::AmountOverflow);
                },
            };
            jj += 1;
        }
        proof {
            assert(record_fits(rec@.savings, ar));
        }
        let mut savings: Vec<i64> = Vec::new();
        savings.push(acc);
        let ghost sv = savings@;
        new_records.push(Record { date: rec.date, savings });
        proof {
            assert(sv =~= seq![record_total(rec@.savings, ar) as i64]);
            assert(record_ok(records.currencies@, records@.records[i as int], outcomes@, i as int));
        }
        i += 1;
    }
    let mut currencies: Vec<Currency> = Vec::new();
    currencies.push(exchange_to);
    let filepath = records.filepath.clone();
    let out = Records { records: new_records, currencies, filepath };
    proof {
        assert(out@.currencies =~= seq![exchange_to.0@]);
        assert forall|x: int, y: int| 0 <= x < y < out@.records.len() implies (
        #[trigger] out@.records[x]).date.key() < (#[trigger] out@.records[y]).date.key() by {
            assert(out@.records[x] == new_records@[x]@ && out@.records[y] == new_records@[y]@);
            assert(records@.records[x].date.key() < records@.records[y].date.key());
        }
        assert forall|x: int| 0 <= x < out@.records.len() implies (
        #[trigger] out@.records[x]).savings.len() == out@.currencies.len() && out@.records[x].date.valid() by {
            assert(out@.records[x] == new_records@[x]@);
        }
        assert(out.wf());
    }
    Ok(out)
}


/// Doubling the amount doubles the exactly-divided conversion.
proof fn lemma_scaled_double(s: int, sc: int, rt: int)
    requires
        rt > 0,
        sc > 0,
        (s * sc) % rt == 0,
    ensures
        scaled(2 * s, sc, rt) == 2 * scaled(s, sc, rt),
{
    vstd::arithmetic::div_mod::lemma_fundamental_div_mod(s * sc, rt);
    let q = (s * sc) / rt;
    assert(s * sc == rt * q);
    if s >= 0 {
        assert(scaled(s, sc, rt) == q);
        assert((2 * s) * sc == rt * (2 * q)) by (nonlinear_arith)
            requires s * sc == rt * q;
        vstd::arithmetic::div_mod::lemma_div_multiples_vanish(2 * q, rt);
        assert(((2 * s) * sc) / rt == 2 * q);
        assert(scaled(2 * s, sc, rt) == 2 * q);
    } else {
        assert((-s) * sc == rt * (-q)) by (nonlinear_arith)
            requires s * sc == rt * q;
        vstd::arithmetic::div_mod::lemma_div_multiples_vanish(-q, rt);
        assert(((-s) * sc) / rt == -q);
        assert(scaled(s, sc, rt) == q);
        assert((-(2 * s)) * sc == rt * (-(2 * q))) by (nonlinear_arith)
            requires s * sc == rt * q;
        vstd::arithmetic::div_mod::lemma_div_multiples_vanish(-(2 * q), rt);
        assert(((-(2 * s)) * sc) / rt == -(2 * q));
        assert(scaled(2 * s, sc, rt) == 2 * q);
    }
}

/// The running linearity of the converted sum.
proof fn lemma_partial_total_linear(savings: Seq<i64>, doubled: Seq<i64>, rates: Seq<i64>, upto: int)
    requires
        doubled.len() == savings.len(),
        rates.len() >= savings.len(),
        0 <= upto <= savings.len(),
        forall|j: int| 0 <= j < savings.len() ==> #[trigger] doubled[j] as int == 2 * savings[j],
        forall|j: int| 0 <= j < savings.len() ==> #[trigger] rates[j] > 0,
        forall|j: int|
            0 <= j < savings.len() ==> ((#[trigger] savings[j]) as int * SCALE) % (rates[j] as int)
                == 0,
    ensures
        partial_total(doubled, rates, upto) == 2 * partial_total(savings, rates, upto),
    decreases upto,
{
    if upto > 0 {
        lemma_partial_total_linear(savings, doubled, rates, upto - 1);
        lemma_scaled_double(savings[upto - 1] as int, SCALE as int, rates[upto - 1] as int);
        assert(convert_term(doubled[upto - 1], rates[upto - 1]) == 2 * convert_term(
            savings[upto - 1],
            rates[upto - 1],
        ));
    }
}

/// Conversion is linear: a record with every amount doubled converts
/// to twice the total, under the same positive rates, whenever every
/// per-currency division is exact.
pub proof fn lemma_conversion_linear(savings: Seq<i64>, doubled: Seq<i64>, rates: Seq<i64>)
    requires
        doubled.len() == savings.len(),
        rates.len() >= savings.len(),
        forall|j: int| 0 <= j < savings.len() ==> #[trigger] doubled[j] as int == 2 * savings[j],
        forall|j: int| 0 <= j < savings.len() ==> #[trigger] rates[j] > 0,
        forall|j: int|
            0 <= j < savings.len() ==> ((#[trigger] savings[j]) as int * SCALE) % (rates[j] as int)
                == 0,
    ensures
        record_total(doubled, rates) == 2 * record_total(savings, rates),
{
    lemma_partial_total_linear(savings, doubled, rates, savings.len() as int);
}

} // verus!
