use vstd::prelude::*;
use crate::amount::{amount_bytes_ok, amount_from_bytes, amount_of_bytes};
use crate::date::{date_bytes_ok, date_from_bytes, date_of_bytes, Date};
use crate::text::{all_ascii, ascii_chars, ascii_to_string, is_alpha_byte, upper_byte};
use vstd::string::StringSliceAdditionalSpecFns;

verus! {

broadcast use vstd::string::is_ascii_spec_bytes;

/// A validation failure while reading user-facing input.
#[derive(Debug, Clone, Copy, PartialEq, Eq, Structural)]
pub enum ParseError {
    /// A currency code whose length is not three bytes.
    CurrencyLength,
    /// A currency code holding a byte that is not an ASCII letter.
    CurrencyAlpha,
    /// A value whose numeric prefix is not a decimal amount in range.
    BadAmount,
    /// A date not written `YYYY-MM-DD`, or not a calendar date.
    BadDate,
    /// A date after today.
    FutureDate,
    /// A duration text that no known duration shape matches.
    BadDuration,
    /// A duration under one day.
    ShortDuration,
}

impl ParseError {
    /// A short human-readable cause.
    pub fn describe(&self) -> &'static str {
        match self {
            ParseError::CurrencyLength => "currency code has to have 3 characters",
            ParseError::CurrencyAlpha => "currency code has to have only alphabetic characters",
            ParseError::BadAmount => "not a valid decimal amount",
            ParseError::BadDate => "not a valid YYYY-MM-DD date",
            ParseError::FutureDate => "date is in the future",
            ParseError::BadDuration => "not a valid duration",
            ParseError::ShortDuration => "periods lesser than 1 day are not supported",
        }
    }
}

/// Whether `s` is a three-letter upper-case currency code.
pub open spec fn valid_code(s: Seq<char>) -> bool {
    s.len() == 3 && forall|i: int| 0 <= i < 3 ==> 65 <= #[trigger] s[i] as int <= 90
}

/// A currency: a three-letter code, upper-cased on construction.
#[derive(Debug, Hash, Eq, PartialEq, Clone)]
pub struct Currency(pub String);

impl Currency {
    /// Builds a currency from the three bytes of its code, upper-casing
    /// ASCII letters and rejecting anything else.
    pub fn new_from_bytes(b: &[u8]) -> (r: Result<Currency, ParseError>)
        ensures
            match r {
                Ok(c) => {
                    &&& b@.len() == 3
                    &&& forall|i: int| 0 <= i < 3 ==> is_alpha_byte(#[trigger] b@[i])
                    &&& c.0@ == ascii_chars(b@.map_values(|x: u8| upper_byte(x)))
                    &&& valid_code(c.0@)
                },
                Err(ParseError::CurrencyLength) => b@.len() != 3,
                Err(ParseError::CurrencyAlpha) => b@.len() == 3 && exists|i: int|
                    0 <= i < 3 && !is_alpha_byte(#[trigger] b@[i]),
                Err(_) => false,
            },
    {
        if b.len() != 3 {
            return Err(ParseError::CurrencyLength);
        }
        let mut out: Vec<u8> = Vec::new();
        let mut i: usize = 0;
        while i < 3
        invariant
                i <= 3,
                b@.len() == 3,
                out@.len() == i,
                forall|j: int| 0 <= j < i ==> is_alpha_byte(#[trigger] b@[j]),
                forall|j: int| 0 <= j < i ==> #[trigger] out@[j] == upper_byte(b@[j]),
            decreases 3 - i,
        {
            let x = b[i];
            if !((65 <= x && x <= 90) || (97 <= x && x <= 122)) {
                return Err(ParseError::CurrencyAlpha);
            }
            if 97 <= x && x <= 122 {
                out.push(x - 32);
            } else {
                out.push(x);
            }
            i += 1;
        }
        proof {
            assert(out@ =~= b@.map_values(|x: u8| upper_byte(x)));
            assert(all_ascii(out@));
        }
        let code = ascii_to_string(out);
        proof {
            assert(valid_code(code@));
        }
        Ok(Currency(code))
    }

    /// Builds a currency from a code text; the check runs over the
    /// text's bytes.
    pub fn new(value: &str) -> (r: Result<Currency, ParseError>)
        ensures
            match r {
                Ok(c) => {
                    &&& value.spec_bytes().len() == 3
                    &&& forall|i: int| 0 <= i < 3 ==> is_alpha_byte(#[trigger] value.spec_bytes()[i])
                    &&& c.0@ == ascii_chars(value.spec_bytes().map_values(|x: u8| upper_byte(x)))
                    &&& valid_code(c.0@)
                },
                Err(ParseError::CurrencyLength) => value.spec_bytes().len() != 3,
                Err(ParseError::CurrencyAlpha) => value.spec_bytes().len() == 3 && exists|i: int|
                    0 <= i < 3 && !is_alpha_byte(#[trigger] value.spec_bytes()[i]),
                Err(_) => false,
            },
    {
        Currency::new_from_bytes(value.as_bytes())
    }

    /// A fresh currency with the same code.
    pub fn duplicate(&self) -> (r: Currency)
        ensures
            r.0@ == self.0@,
    {
        Currency(self.0.clone())
    }

    /// Whether two currencies carry the same code.
    pub fn same_code(&self, other: &Currency) -> (r: bool)
        ensures
            r == (self.0@ == other.0@),
    {
        self.0 == other.0
    }
}

/// An amount of one currency: the fixed-point amount and the code.
#[derive(Debug, PartialEq, Clone)]
pub struct Value {
    pub amount: i64,
    pub currency: Currency,
}

impl Value {
    /// Reads a value written `<decimal amount><three-letter code>`: the
    /// code is the last three bytes, the amount the remaining prefix.
    pub fn from_str(value: &str) -> (r: Result<Value, ParseError>)
        ensures
            match r {
                Ok(v) => {
                    &&& value.spec_bytes().len() >= 3
                    &&& forall|i: int|
                        value.spec_bytes().len() - 3 <= i < value.spec_bytes().len()
                            ==> is_alpha_byte(#[trigger] value.spec_bytes()[i])
                    &&& v.currency.0@ == ascii_chars(
                        value.spec_bytes().skip(value.spec_bytes().len() - 3).map_values(
                            |x: u8| upper_byte(x),
                        ),
                    )
                    &&& valid_code(v.currency.0@)
                    &&& amount_bytes_ok(value.spec_bytes().take(value.spec_bytes().len() - 3))
                    &&& v.amount as int == amount_of_bytes(
                        value.spec_bytes().take(value.spec_bytes().len() - 3),
                    )
                },
                Err(ParseError::CurrencyLength) => value.spec_bytes().len() < 3,
                Err(ParseError::CurrencyAlpha) => value.spec_bytes().len() >= 3 && exists|i: int|
                    value.spec_bytes().len() - 3 <= i < value.spec_bytes().len()
                        && !is_alpha_byte(#[trigger] value.spec_bytes()[i]),
                Err(ParseError::BadAmount) => value.spec_bytes().len() >= 3 && !amount_bytes_ok(
                    value.spec_bytes().take(value.spec_bytes().len() - 3),
                ),
                Err(_) => false,
            },
    {
        let b = value.as_bytes();
        let n = b.len();
        if n < 3 {
            return Err(ParseError::CurrencyLength);
        }
        let code = &b[n - 3..n];
        proof {
            assert(code@ =~= value.spec_bytes().skip(value.spec_bytes().len() - 3));
        }
        let currency = match Currency::new_from_bytes(code) {
            Ok(c) => c,
            Err(e) => {
                return Err(e);
            },
        };
        proof {
            assert forall|i: int|
                value.spec_bytes().len() - 3 <= i < value.spec_bytes().len() implies is_alpha_byte(
                #[trigger] value.spec_bytes()[i],
            ) by {
                assert(code@[i - (value.spec_bytes().len() - 3)] == value.spec_bytes()[i]);
            }
        }
        let prefix = &b[0..n - 3];
        proof {
            assert(prefix@ =~= value.spec_bytes().take(value.spec_bytes().len() - 3));
        }
        match amount_from_bytes(prefix) {
            Some(amount) => Ok(Value { amount, currency }),
            None => Err(ParseError::BadAmount),
        }
    }
}

/// One dated snapshot of amounts across all tracked currencies:
/// `savings[i]` is the amount held in the owning ledger's `currencies[i]`.
#[derive(Debug, Clone, PartialEq)]
pub struct Record {
    pub date: Date,
    pub savings: Vec<i64>,
}

/// The mathematical shape of a record: a date and its amounts.
#[verifier::ext_equal]
pub struct RecordView {
    pub date: Date,
    pub savings: Seq<i64>,
}

impl View for Record {
    type V = RecordView;

    open spec fn view(&self) -> RecordView {
        RecordView { date: self.date, savings: self.savings@ }
    }
}

/// The whole ledger: dated records over an ordered currency list, plus
/// the opaque storage location it was loaded from.
#[derive(Debug, PartialEq)]
pub struct Records {
    pub records: Vec<Record>,
    pub currencies: Vec<Currency>,
    pub filepath: String,
}

/// The mathematical shape of a ledger.
#[verifier::ext_equal]
pub struct LedgerView {
    pub records: Seq<RecordView>,
    pub currencies: Seq<Seq<char>>,
}

/// The views of a row of records.
pub open spec fn views_of(rs: Seq<Record>) -> Seq<RecordView> {
    rs.map_values(|r: Record| r@)
}

/// The codes of a row of currencies.
pub open spec fn codes_of(cs: Seq<Currency>) -> Seq<Seq<char>> {
    cs.map_values(|c: Currency| c.0@)
}

impl View for Records {
    type V = LedgerView;

    open spec fn view(&self) -> LedgerView {
        LedgerView { records: views_of(self.records@), currencies: codes_of(self.currencies@) }
    }
}

impl LedgerView {
    /// The ledger invariants: records strictly ascending by date, every
    /// record as wide as the currency list, codes well-formed and
    /// pairwise distinct.
    pub open spec fn wf(self) -> bool {
        &&& forall|i: int|
            0 <= i < self.records.len() ==> (#[trigger] self.records[i]).savings.len()
                == self.currencies.len()
        &&& forall|i: int| 0 <= i < self.records.len() ==> (#[trigger] self.records[i]).date.valid()
        &&& forall|i: int, j: int|
            0 <= i < j < self.records.len() ==> (#[trigger] self.records[i]).date.key() < (
            #[trigger] self.records[j]).date.key()
        &&& forall|i: int| 0 <= i < self.currencies.len() ==> valid_code(#[trigger] self.currencies[i])
        &&& forall|i: int, j: int|
            0 <= i < j < self.currencies.len() ==> (#[trigger] self.currencies[i]) != (
            #[trigger] self.currencies[j])
    }
}

impl Records {
    /// The ledger invariants, on the view.
    pub open spec fn wf(self) -> bool {
        self@.wf()
    }
}

/// A savings row of `n` zero amounts.
pub open spec fn zero_savings(n: nat) -> Seq<i64> {
    Seq::new(n, |i: int| 0i64)
}

/// The records widened for a newly tracked currency: each one gains a
/// trailing zero, the holdings it had before the currency existed.
pub open spec fn extended(rs: Seq<RecordView>, is_new: bool) -> Seq<RecordView> {
    if is_new {
        rs.map_values(|r: RecordView| RecordView { date: r.date, savings: r.savings.push(0i64) })
    } else {
        rs
    }
}

/// Index of the first record whose day key is at least `k`, scanning
/// from the front; the length if every record is earlier.
pub open spec fn insert_pos(rs: Seq<RecordView>, k: int) -> int
    decreases rs.len(),
{
    if rs.len() == 0 {
        0
    } else if rs[0].date.key() < k {
        1 + insert_pos(rs.skip(1), k)
    } else {
        0
    }
}

/// What `insert_pos` finds: everything before it is earlier than `k`,
/// and the record there (if any) is not.
pub proof fn lemma_insert_pos(rs: Seq<RecordView>, k: int)
    ensures
        0 <= insert_pos(rs, k) <= rs.len(),
        forall|x: int| 0 <= x < insert_pos(rs, k) ==> (#[trigger] rs[x]).date.key() < k,
        insert_pos(rs, k) < rs.len() ==> rs[insert_pos(rs, k)].date.key() >= k,
    decreases rs.len(),
{
    if rs.len() > 0 && rs[0].date.key() < k {
        lemma_insert_pos(rs.skip(1), k);
        assert forall|x: int| 0 <= x < insert_pos(rs, k) implies (#[trigger] rs[x]).date.key()
            < k by {
            if x > 0 {
                assert(rs.skip(1)[x - 1].date.key() < k);
            }
        }
    }
}

/// `insert_pos` is pinned by any index with its shape.
pub proof fn lemma_insert_pos_at(rs: Seq<RecordView>, k: int, j: int)
    requires
        0 <= j <= rs.len(),
        forall|x: int| 0 <= x < j ==> (#[trigger] rs[x]).date.key() < k,
        j < rs.len() ==> rs[j].date.key() >= k,
    ensures
        insert_pos(rs, k) == j,
{
    lemma_insert_pos(rs, k);
    let p = insert_pos(rs, k);
    if p < j {
        assert(rs[p].date.key() < k);
    }
    if j < p {
        assert(rs[j].date.key() < k);
    }
}

/// Index of the first currency with the given code, or the length.
pub open spec fn code_index(cs: Seq<Seq<char>>, code: Seq<char>) -> int
    decreases cs.len(),
{
    if cs.len() == 0 {
        0
    } else if cs[0] == code {
        0
    } else {
        1 + code_index(cs.skip(1), code)
    }
}

/// `code_index` is pinned by any index with the first-occurrence shape.
pub proof fn lemma_code_index_at(cs: Seq<Seq<char>>, code: Seq<char>, j: int)
    requires
        0 <= j <= cs.len(),
        forall|x: int| 0 <= x < j ==> (#[trigger] cs[x]) != code,
        j < cs.len() ==> cs[j] == code,
    ensures
        code_index(cs, code) == j,
    decreases cs.len(),
{
    if cs.len() > 0 && j > 0 {
        assert(cs[0] != code);
        assert forall|x: int| 0 <= x < j - 1 implies (#[trigger] cs.skip(1)[x]) != code by {
            assert(cs.skip(1)[x] == cs[x + 1]);
        }
        lemma_code_index_at(cs.skip(1), code, j - 1);
    }
}

/// The currency list after `set_value`: unchanged when the code is
/// already tracked, else the code appended.
pub open spec fn set_value_currencies(v: LedgerView, code: Seq<char>) -> Seq<Seq<char>> {
    if v.currencies.contains(code) {
        v.currencies
    } else {
        v.currencies.push(code)
    }
}

/// The record list after `set_value`. With `cs` the new currency list,
/// `idx` the code's column and `ext` the widened records: when the date
/// already has a record, that record's column `idx` becomes `amount`;
/// otherwise a record for the date is inserted in order, carrying the
/// previous record's amounts (zeros at the front) with column `idx`
/// overwritten. A newly tracked currency is then forward-filled: every
/// later record's column `idx` also becomes `amount`.
pub open spec fn set_value_records(v: LedgerView, code: Seq<char>, amount: i64, date: Date) -> Seq<
    RecordView,
> {
    let is_new = !v.currencies.contains(code);
    let cs = set_value_currencies(v, code);
    let idx = code_index(cs, code);
    let ext = extended(v.records, is_new);
    let p = insert_pos(v.records, date.key());
    if p < v.records.len() && v.records[p].date.key() == date.key() {
        Seq::new(
            ext.len(),
            |q: int|
                if q == p || (is_new && q > p) {
                    RecordView { date: ext[q].date, savings: ext[q].savings.update(idx, amount) }
                } else {
                    ext[q]
                },
        )
    } else {
        let base = if p == 0 {
            zero_savings(cs.len())
        } else {
            ext[p - 1].savings
        };
        Seq::new(
            ext.len() + 1,
            |q: int|
                if q < p {
                    ext[q]
                } else if q == p {
                    RecordView { date, savings: base.update(idx, amount) }
                } else if is_new {
                    RecordView {
                        date: ext[q - 1].date,
                        savings: ext[q - 1].savings.update(idx, amount),
                    }
                } else {
                    ext[q - 1]
                },
        )
    }
}

/// Index of the first currency in `cs` whose code matches, if any.
fn find_code(cs: &Vec<Currency>, code: &Currency) -> (r: Option<usize>)
    ensures
        match r {
            Some(i) => i < cs@.len() && cs@[i as int].0@ == code.0@ && forall|j: int|
                0 <= j < i ==> (#[trigger] cs@[j]).0@ != code.0@,
            None => forall|j: int| 0 <= j < cs@.len() ==> (#[trigger] cs@[j]).0@ != code.0@,
        },
{
    let mut i: usize = 0;
    while i < cs.len()
        invariant
            i <= cs@.len(),
            forall|j: int| 0 <= j < i ==> (#[trigger] cs@[j]).0@ != code.0@,
        decreases cs@.len() - i,
    {
        if cs[i].same_code(code) {
            return Some(i);
        }
        i += 1;
    }
    None
}

impl Records {
    /// Reflects `amount` of `val`'s currency on `date`, preserving the
    /// ledger invariants; a new currency's past is zero-filled and its
    /// future forward-filled from this observation.
    #[verifier::rlimit(100)]
    pub fn set_value(&mut self, val: &Value, date: Date)
        requires
            old(self).wf(),
            valid_code(val.currency.0@),
            date.valid(),
        ensures
            final(self)@.currencies == set_value_currencies(old(self)@, val.currency.0@),
            final(self)@.records == set_value_records(
                old(self)@,
                val.currency.0@,
                val.amount,
                date,
            ),
            final(self).filepath@ == old(self).filepath@,
            final(self).wf(),
    {
        let ghost v0 = self@;
        let ghost code = val.currency.0@;
        let ghost fp0 = self.filepath@;
        let found = find_code(&self.currencies, &val.currency);
        let ghost is_new = !v0.currencies.contains(code);
        let idx: usize = match found {
            Some(i) => {
                proof {
                    assert(v0.currencies[i as int] == code);
                    assert(v0.currencies.contains(code));
                    assert forall|x: int| 0 <= x < i implies (#[trigger] v0.currencies[x])
                        != code by {
                        assert(v0.currencies[x] == self.currencies@[x].0@);
                    }
                    lemma_code_index_at(v0.currencies, code, i as int);
                }
                i
            },
            None => {
                proof {
                    assert forall|j: int|
                        0 <= j < v0.currencies.len() implies (#[trigger] v0.currencies[j])
                        != code by {
                        assert(v0.currencies[j] == self.currencies@[j].0@);
                    }
                    assert(!v0.currencies.contains(code));
                }
                let i = self.currencies.len();
                self.currencies.push(val.currency.duplicate());
                proof {
                    assert(self@.currencies =~= v0.currencies.push(code));
                    lemma_code_index_at(v0.currencies.push(code), code, i as int);
                }
                let mut q: usize = 0;
                while q < self.records.len()
                    invariant
                        q <= self.records@.len(),
                        self.records@.len() == v0.records.len(),
                        self@.currencies == v0.currencies.push(code),
                        self.filepath@ == fp0,
                        forall|j: int|
                            0 <= j < q ==> #[trigger] self.records@[j]@ == (RecordView {
                                date: v0.records[j].date,
                                savings: v0.records[j].savings.push(0i64),
                            }),
                        forall|j: int|
                            q <= j < v0.records.len() ==> #[trigger] self.records@[j]@
                                == v0.records[j],
                    decreases self.records@.len() - q,
                {
                    let ghost before = self.records@[q as int]@;
                    self.records[q].savings.push(0);
                    proof {
                        assert(self.records@[q as int]@ =~= (RecordView {
                            date: v0.records[q as int].date,
                            savings: v0.records[q as int].savings.push(0i64),
                        }));
                        assert(self@.currencies =~= v0.currencies.push(code));
                    }
                    q += 1;
                }
                proof {
                    assert(self@.records =~= extended(v0.records, true));
                }
                i
            },
        };
        let ghost cs2 = set_value_currencies(v0, code);
        let ghost ext = extended(v0.records, is_new);
        proof {
            assert(self@.currencies =~= cs2);
            assert(self@.records =~= ext);
            assert(idx as int == code_index(cs2, code));
            assert(idx < cs2.len());
            assert forall|j: int| 0 <= j < ext.len() implies (#[trigger] ext[j]).date
                == v0.records[j].date && ext[j].date.valid() && ext[j].savings.len()
                == cs2.len() by {
                assert(v0.records[j].savings.len() == v0.currencies.len());
            }
        }
        proof {
            assert forall|j: int|
                0 <= j < self.records@.len() implies (#[trigger] self.records@[j]).date.valid()
                && self.records@[j].date.key() == v0.records[j].date.key() by {
                assert(self@.records[j] == self.records@[j]@);
            }
        }
        let k = date.day_key();
        let n = self.records.len();
        let mut p: usize = 0;
        while p < n && self.records[p].date.day_key() < k
            invariant
                p <= n,
                n == self.records@.len(),
                self@.records == ext,
                k as int == date.key(),
                forall|j: int|
                    0 <= j < ext.len() ==> (#[trigger] ext[j]).date == v0.records[j].date
                        && ext[j].date.valid(),
                forall|j: int|
                    0 <= j < n ==> (#[trigger] self.records@[j]).date.valid()
                        && self.records@[j].date.key() == v0.records[j].date.key(),
                forall|x: int| 0 <= x < p ==> (#[trigger] v0.records[x]).date.key() < k as int,
            decreases n - p,
        {
            proof {
                assert(self.records@[p as int]@ == ext[p as int]);
            }
            p += 1;
        }
        proof {
            if (p as int) < n as int {
                assert(self.records@[p as int]@ == ext[p as int]);
                assert(v0.records[p as int].date.key() >= k as int);
            }
            lemma_insert_pos_at(v0.records, k as int, p as int);
        }
        let matched = p < n && self.records[p].date.day_key() == k;
        if matched {
            proof {
                assert(self.records@[p as int]@ == ext[p as int]);
                assert(ext[p as int].savings.len() == cs2.len());
            }
            self.records[p].savings[idx] = val.amount;
            proof {
                assert(self.records@[p as int]@ =~= (RecordView {
                    date: ext[p as int].date,
                    savings: ext[p as int].savings.update(idx as int, val.amount),
                }));
            }
        } else {
            let mut savings: Vec<i64>;
            if p == 0 {
                savings = Vec::new();
                let m = self.currencies.len();
                proof {
                    assert(m == cs2.len());
                }
                while savings.len() < m
                    invariant
                        savings@.len() <= m,
                        forall|j: int| 0 <= j < savings@.len() ==> #[trigger] savings@[j] == 0i64,
                    decreases m - savings@.len(),
                {
                    savings.push(0);
                }
                proof {
                    assert(savings@ =~= zero_savings(cs2.len()));
                }
            } else {
                proof {
                    assert(self.records@[p - 1]@ == ext[p - 1]);
                }
                savings = self.records[p - 1].savings.clone();
                proof {
                    assert forall|j: int| 0 <= j < savings@.len() implies #[trigger] savings@[j]
                        == ext[p - 1].savings[j] by {
                        assert(vstd::pervasive::cloned::<i64>(
                            self.records@[p - 1].savings@[j],
                            savings@[j],
                        ));
                    }
                    assert(savings@ =~= ext[p - 1].savings);
                }
            }
            savings[idx] = val.amount;
            self.records.insert(p, Record { date, savings });
            proof {
                assert(self@.records =~= ext.insert(
                    p as int,
                    (RecordView {
                        date,
                        savings: (if p == 0 {
                            zero_savings(cs2.len())
                        } else {
                            ext[p - 1].savings
                        }).update(idx as int, val.amount),
                    }),
                ));
                assert(self@.currencies =~= cs2);
            }
        }
        let ghost mid = self@.records;
        if p < self.records.len() {
            // forward-fill a newly tracked currency past the touched record
            let found_none = match found {
                Some(_) => false,
                None => true,
            };
            if found_none {
                let mut q: usize = p + 1;
                while q < self.records.len()
                    invariant
                        p < q <= self.records@.len(),
                        self.records@.len() == mid.len(),
                        idx < cs2.len(),
                        self@.currencies == cs2,
                        self.filepath@ == fp0,
                        forall|j: int|
                            0 <= j < mid.len() ==> (#[trigger] mid[j]).savings.len() == cs2.len(),
                        forall|j: int|
                            p < j < q ==> #[trigger] self.records@[j]@ == (RecordView {
                                date: mid[j].date,
                                savings: mid[j].savings.update(idx as int, val.amount),
                            }),
                        forall|j: int|
                            (0 <= j <= p || q <= j < mid.len()) ==> #[trigger] self.records@[j]@
                                == mid[j],
                    decreases self.records@.len() - q,
                {
                    proof {
                        assert(self.records@[q as int]@ == mid[q as int]);
                        assert(mid[q as int].savings.len() == cs2.len());
                    }
                    self.records[q].savings[idx] = val.amount;
                    proof {
                        assert(self.records@[q as int]@ =~= (RecordView {
                            date: mid[q as int].date,
                            savings: mid[q as int].savings.update(idx as int, val.amount),
                        }));
                        assert(self@.currencies =~= cs2);
                    }
                    q += 1;
                }
            }
        }
        proof {
            lemma_insert_pos(v0.records, k as int);
            let rs = set_value_records(v0, code, val.amount, date);
            assert forall|j: int| 0 <= j < self@.records.len() implies self@.records[j] =~= rs[j]
            by {
            }
            assert(self@.records =~= rs);
            lemma_set_value_wf(v0, code, val.amount, date);
        }
    }
}

/// `set_value` preserves the ledger invariants.
pub proof fn lemma_set_value_wf(v: LedgerView, code: Seq<char>, amount: i64, date: Date)
    requires
        v.wf(),
        valid_code(code),
        date.valid(),
    ensures
        (LedgerView {
            records: set_value_records(v, code, amount, date),
            currencies: set_value_currencies(v, code),
        }).wf(),
{
    let is_new = !v.currencies.contains(code);
    let cs = set_value_currencies(v, code);
    let idx = code_index(cs, code);
    let ext = extended(v.records, is_new);
    let p = insert_pos(v.records, date.key());
    let rs = set_value_records(v, code, amount, date);
    lemma_insert_pos(v.records, date.key());
    assert forall|j: int| 0 <= j < ext.len() implies (#[trigger] ext[j]).date == v.records[j].date
        && ext[j].date.valid() && ext[j].savings.len() == cs.len() by {
        assert(v.records[j].savings.len() == v.currencies.len());
    }
    if !is_new {
        assert(exists|i: int| 0 <= i < v.currencies.len() && v.currencies[i] == code);
        assert(cs =~= v.currencies);
    }
    assert(0 <= idx < cs.len()) by {
        if is_new {
            lemma_code_index_at(v.currencies.push(code), code, v.currencies.len() as int);
        } else {
            let i = choose|i: int| 0 <= i < v.currencies.len() && v.currencies[i] == code;
            let w = choose|w: int|
                0 <= w <= i && v.currencies[w] == code && forall|x: int|
                    0 <= x < w ==> v.currencies[x] != code;
            assert(exists|w: int|
                0 <= w <= i && v.currencies[w] == code && forall|x: int|
                    0 <= x < w ==> v.currencies[x] != code) by {
                first_match(v.currencies, code, i);
            }
            lemma_code_index_at(v.currencies, code, w);
        }
    }
    if p < v.records.len() && v.records[p].date.key() == date.key() {
        assert forall|i: int, j: int| 0 <= i < j < rs.len() implies (#[trigger] rs[i]).date.key()
            < (#[trigger] rs[j]).date.key() by {
            assert(rs[i].date == v.records[i].date);
            assert(rs[j].date == v.records[j].date);
        }
    } else {
        assert forall|i: int, j: int| 0 <= i < j < rs.len() implies (#[trigger] rs[i]).date.key()
            < (#[trigger] rs[j]).date.key() by {
            if j < p {
            } else if i < p && j == p {
                assert(rs[i].date == v.records[i].date);
                assert(v.records[i].date.key() < date.key());
            } else if i < p && j > p {
                assert(rs[j].date == v.records[j - 1].date);
                if j - 1 == p {
                } else {
                }
            } else if i == p {
                assert(rs[j].date == v.records[j - 1].date);
                assert(v.records[p].date.key() >= date.key());
                assert(v.records[p].date.key() != date.key() || p >= v.records.len());
                if j - 1 > p {
                    assert(v.records[p].date.key() < v.records[j - 1].date.key());
                }
            } else {
            }
        }
    }
}

/// The code's column exists in the currency list after `set_value`.
pub proof fn lemma_set_value_code_col(v: LedgerView, code: Seq<char>)
    ensures
        0 <= code_index(set_value_currencies(v, code), code) < set_value_currencies(v, code).len(),
        set_value_currencies(v, code)[code_index(set_value_currencies(v, code), code)] == code,
{
    let cs = set_value_currencies(v, code);
    if v.currencies.contains(code) {
        let i = choose|i: int| 0 <= i < v.currencies.len() && v.currencies[i] == code;
        first_match(v.currencies, code, i);
        let w = choose|w: int|
            0 <= w <= i && v.currencies[w] == code && forall|x: int|
                0 <= x < w ==> v.currencies[x] != code;
        lemma_code_index_at(v.currencies, code, w);
    } else {
        lemma_code_index_at(v.currencies.push(code), code, v.currencies.len() as int);
    }
}

/// After `set_value`, the record on the written date carries exactly
/// the written amount in the written currency's column.
pub proof fn lemma_set_value_read_back(v: LedgerView, code: Seq<char>, amount: i64, date: Date)
    requires
        v.wf(),
        valid_code(code),
        date.valid(),
    ensures
        ({
            let rs = set_value_records(v, code, amount, date);
            let idx = code_index(set_value_currencies(v, code), code);
            let p = insert_pos(v.records, date.key());
            &&& 0 <= p < rs.len()
            &&& rs[p].date.key() == date.key()
            &&& rs[p].savings[idx] == amount
        }),
{
    let rs = set_value_records(v, code, amount, date);
    let cs = set_value_currencies(v, code);
    let idx = code_index(cs, code);
    let is_new = !v.currencies.contains(code);
    let ext = extended(v.records, is_new);
    let p = insert_pos(v.records, date.key());
    lemma_insert_pos(v.records, date.key());
    lemma_set_value_code_col(v, code);
    assert forall|j: int| 0 <= j < ext.len() implies (#[trigger] ext[j]).date
        == v.records[j].date && ext[j].savings.len() == cs.len() by {
        assert(v.records[j].savings.len() == v.currencies.len());
    }
    if p < v.records.len() && v.records[p].date.key() == date.key() {
        assert(rs[p].savings == ext[p].savings.update(idx, amount));
    } else {
        assert(rs[p].date == date);
    }
}

/// A never-seen currency's column after `set_value`: zero on every
/// record before the written date, the written amount on the record at
/// the written date and every one after it.
pub proof fn lemma_set_value_new_currency_fill(
    v: LedgerView,
    code: Seq<char>,
    amount: i64,
    date: Date,
)
    requires
        v.wf(),
        valid_code(code),
        date.valid(),
        !v.currencies.contains(code),
    ensures
        ({
            let rs = set_value_records(v, code, amount, date);
            let idx = code_index(set_value_currencies(v, code), code);
            &&& forall|q: int|
                0 <= q < rs.len() && (#[trigger] rs[q]).date.key() < date.key()
                    ==> rs[q].savings[idx] == 0i64
            &&& forall|q: int|
                0 <= q < rs.len() && (#[trigger] rs[q]).date.key() >= date.key()
                    ==> rs[q].savings[idx] == amount
        }),
{
    let rs = set_value_records(v, code, amount, date);
    let cs = set_value_currencies(v, code);
    let idx = code_index(cs, code);
    let ext = extended(v.records, true);
    let p = insert_pos(v.records, date.key());
    lemma_insert_pos(v.records, date.key());
    lemma_code_index_at(v.currencies.push(code), code, v.currencies.len() as int);
    assert(idx == v.currencies.len());
    assert forall|j: int| 0 <= j < ext.len() implies (#[trigger] ext[j]).date
        == v.records[j].date && ext[j].savings.len() == cs.len() && ext[j].savings[idx]
        == 0i64 by {
        assert(v.records[j].savings.len() == v.currencies.len());
    }
    if p < v.records.len() && v.records[p].date.key() == date.key() {
        assert forall|q: int|
            0 <= q < rs.len() && (#[trigger] rs[q]).date.key() < date.key() implies rs[q].savings[
            idx] == 0i64 by {
            if q >= p {
                assert(v.records[q].date.key() >= date.key());
            }
        }
        assert forall|q: int|
            0 <= q < rs.len() && (#[trigger] rs[q]).date.key() >= date.key() implies rs[q].savings[
            idx] == amount by {
            if q < p {
                assert(v.records[q].date.key() < date.key());
            }
        }
    } else {
        assert forall|q: int|
            0 <= q < rs.len() && (#[trigger] rs[q]).date.key() < date.key() implies rs[q].savings[
            idx] == 0i64 by {
            if q == p {
                assert(rs[q].date == date);
            } else if q > p {
                assert(rs[q].date == v.records[q - 1].date);
                assert(v.records[p].date.key() > date.key() || p >= v.records.len());
                if q - 1 > p {
                    assert(v.records[p].date.key() < v.records[q - 1].date.key());
                }
            }
        }
        assert forall|q: int|
            0 <= q < rs.len() && (#[trigger] rs[q]).date.key() >= date.key() implies rs[q].savings[
            idx] == amount by {
            if q < p {
                assert(rs[q] == ext[q]);
                assert(v.records[q].date.key() < date.key());
            } else if q == p {
                assert(rs[q].savings == (if p == 0 {
                    zero_savings(cs.len())
                } else {
                    ext[p - 1].savings
                }).update(idx, amount));
            }
        }
    }
}

/// Whether a record's date lies in the optional closed date range.
pub open spec fn in_range(r: RecordView, start: Option<Date>, end: Option<Date>) -> bool {
    &&& match start {
        Some(s) => r.date.key() >= s.key(),
        None => true,
    }
    &&& match end {
        Some(e) => r.date.key() <= e.key(),
        None => true,
    }
}

/// The records of `rs` whose dates lie in the range, in order.
pub open spec fn range_filter(rs: Seq<RecordView>, start: Option<Date>, end: Option<Date>) -> Seq<
    RecordView,
>
    decreases rs.len(),
{
    if rs.len() == 0 {
        Seq::empty()
    } else {
        let rest = range_filter(rs.drop_last(), start, end);
        if in_range(rs.last(), start, end) {
            rest.push(rs.last())
        } else {
            rest
        }
    }
}

/// Range filtering keeps only records of the sequence, in their order,
/// and every kept record lies in the range.
pub proof fn lemma_range_filter_props(rs: Seq<RecordView>, start: Option<Date>, end: Option<Date>)
    requires
        forall|i: int, j: int|
            0 <= i < j < rs.len() ==> (#[trigger] rs[i]).date.key() < (#[trigger] rs[j]).date.key(),
    ensures
        ({
            let f = range_filter(rs, start, end);
            &&& f.len() <= rs.len()
            &&& forall|i: int|
                0 <= i < f.len() ==> exists|x: int| 0 <= x < rs.len() && #[trigger] f[i] == rs[x]
            &&& forall|i: int, j: int|
                0 <= i < j < f.len() ==> (#[trigger] f[i]).date.key() < (
                #[trigger] f[j]).date.key()
            &&& forall|i: int| 0 <= i < f.len() ==> in_range(#[trigger] f[i], start, end)
        }),
    decreases rs.len(),
{
    if rs.len() > 0 {
        let d = rs.drop_last();
        lemma_range_filter_props(d, start, end);
        let f = range_filter(rs, start, end);
        let fd = range_filter(d, start, end);
        let keep = in_range(rs.last(), start, end);
        assert forall|i: int| 0 <= i < f.len() implies exists|x: int|
            0 <= x < rs.len() && #[trigger] f[i] == rs[x] by {
            if keep && i == f.len() - 1 {
                assert(f[i] == rs[rs.len() - 1]);
            } else {
                assert(f[i] == fd[i]);
                let x = choose|x: int| 0 <= x < d.len() && fd[i] == d[x];
                assert(f[i] == rs[x]);
            }
        }
        if keep {
            assert forall|i: int| 0 <= i < fd.len() implies (#[trigger] fd[i]).date.key()
                < rs.last().date.key() by {
                let x = choose|x: int| 0 <= x < d.len() && fd[i] == d[x];
                assert(rs[x].date.key() < rs[rs.len() - 1].date.key());
            }
        }
        assert forall|i: int, j: int| 0 <= i < j < f.len() implies (#[trigger] f[i]).date.key() < (
        #[trigger] f[j]).date.key() by {
            if keep && j == f.len() - 1 {
                assert(f[i] == fd[i]);
            } else {
                assert(f[i] == fd[i] && f[j] == fd[j]);
            }
        }
        assert forall|i: int| 0 <= i < f.len() implies in_range(#[trigger] f[i], start, end) by {
            if !(keep && i == f.len() - 1) {
                assert(f[i] == fd[i]);
            }
        }
    }
}

impl Record {
    /// A fresh record with the same date and amounts.
    pub fn duplicate(&self) -> (r: Record)
        ensures
            r@ == self@,
    {
        let savings = self.savings.clone();
        proof {
            assert forall|j: int| 0 <= j < savings@.len() implies #[trigger] savings@[j]
                == self.savings@[j] by {
                assert(vstd::pervasive::cloned::<i64>(self.savings@[j], savings@[j]));
            }
            assert(savings@ =~= self.savings@);
        }
        Record { date: self.date, savings }
    }
}

impl Records {
    /// The records whose date is at or after `start` (when given) and
    /// at or before `end` (when given), kept in order.
    pub fn records_newer_older_than(&self, start: Option<Date>, end: Option<Date>) -> (r: Vec<
        Record,
    >)
        requires
            forall|i: int|
                0 <= i < self@.records.len() ==> (#[trigger] self@.records[i]).date.valid(),
            start matches Some(s) ==> s.valid(),
            end matches Some(e) ==> e.valid(),
        ensures
            views_of(r@) == range_filter(self@.records, start, end),
    {
        let mut out: Vec<Record> = Vec::new();
        let n = self.records.len();
        proof {
            assert(self@.records.take(0) =~= Seq::<RecordView>::empty());
        }
        let mut i: usize = 0;
        while i < n
            invariant
                i <= n,
                n == self.records@.len(),
                forall|j: int|
                    0 <= j < self@.records.len() ==> (#[trigger] self@.records[j]).date.valid(),
                start matches Some(s) ==> s.valid(),
                end matches Some(e) ==> e.valid(),
                views_of(out@) == range_filter(self@.records.take(i as int), start, end),
            decreases n - i,
        {
            proof {
                assert(self@.records[i as int] == self.records@[i as int]@);
            }
            let rec = &self.records[i];
            let mut keep = true;
            match start {
                Some(s) => {
                    if rec.date.day_key() < s.day_key() {
                        keep = false;
                    }
                },
                None => {},
            }
            match end {
                Some(e) => {
                    if rec.date.day_key() > e.day_key() {
                        keep = false;
                    }
                },
                None => {},
            }
            if keep {
                let dup = rec.duplicate();
                out.push(dup);
            }
            proof {
                let pfx = self@.records.take(i + 1);
                assert(pfx.drop_last() =~= self@.records.take(i as int));
                assert(pfx.last() == self@.records[i as int]);
                assert(keep == in_range(self@.records[i as int], start, end));
                assert(views_of(out@) =~= range_filter(pfx, start, end));
            }
            i += 1;
        }
        proof {
            assert(self@.records.take(n as int) =~= self@.records);
        }
        out
    }
}

/// The first index matching `code`, below any known match.
proof fn first_match(cs: Seq<Seq<char>>, code: Seq<char>, i: int)
    requires
        0 <= i < cs.len(),
        cs[i] == code,
    ensures
        exists|w: int|
            0 <= w <= i && cs[w] == code && forall|x: int| 0 <= x < w ==> cs[x] != code,
    decreases i,
{
    if forall|x: int| 0 <= x < i ==> cs[x] != code {
        assert(0 <= i <= i && cs[i] == code && forall|x: int| 0 <= x < i ==> cs[x] != code);
    } else {
        let y = choose|y: int| 0 <= y < i && cs[y] == code;
        first_match(cs, code, y);
    }
}

/// Builds a currency from a code text.
pub fn parse_currency_from_str(currency: &str) -> (r: Result<Currency, ParseError>)
    ensures
        match r {
            Ok(c) => {
                &&& currency.spec_bytes().len() == 3
                &&& forall|i: int| 0 <= i < 3 ==> is_alpha_byte(#[trigger] currency.spec_bytes()[i])
                &&& c.0@ == ascii_chars(currency.spec_bytes().map_values(|x: u8| upper_byte(x)))
                &&& valid_code(c.0@)
            },
            Err(ParseError::CurrencyLength) => currency.spec_bytes().len() != 3,
            Err(ParseError::CurrencyAlpha) => currency.spec_bytes().len() == 3 && exists|i: int|
                0 <= i < 3 && !is_alpha_byte(#[trigger] currency.spec_bytes()[i]),
            Err(_) => false,
        },
{
    Currency::new(currency)
}

/// The five bytes of the literal token that names the current day.
pub open spec fn today_token() -> Seq<u8> {
    seq![116u8, 111u8, 100u8, 97u8, 121u8]
}

/// Reads a user-facing date: the token `today` means the given current
/// day; anything else must be a `YYYY-MM-DD` date no later than today.
pub fn parse_date_from_str(date: &str, today: Date) -> (r: Result<Date, ParseError>)
    requires
        today.valid(),
    ensures
        match r {
            Ok(d) => d.valid() && if date.spec_bytes() == today_token() {
                d == today
            } else {
                &&& date_bytes_ok(date.spec_bytes())
                &&& d == date_of_bytes(date.spec_bytes())
                &&& d.key() <= today.key()
            },
            Err(ParseError::BadDate) => date.spec_bytes() != today_token() && !date_bytes_ok(
                date.spec_bytes(),
            ),
            Err(ParseError::FutureDate) => date.spec_bytes() != today_token() && date_bytes_ok(
                date.spec_bytes(),
            ) && date_of_bytes(date.spec_bytes()).key() > today.key(),
            Err(_) => false,
        },
{
    let b = date.as_bytes();
    if b.len() == 5 && b[0] == 116 && b[1] == 111 && b[2] == 100 && b[3] == 97 && b[4] == 121 {
        proof {
            assert(date.spec_bytes() =~= today_token());
        }
        return Ok(today);
    }
    proof {
        assert(date.spec_bytes() != today_token());
    }
    match date_from_bytes(b) {
        Some(d) => {
            if d.day_key() > today.day_key() {
                Err(ParseError::FutureDate)
            } else {
                Ok(d)
            }
        },
        None => Err(ParseError::BadDate),
    }
}

/// Expresses a duration given in whole seconds as whole days,
/// rejecting durations under one day. Reading a duration text is the
/// command line's business; the day rule is decided here.
pub fn duration_days_from_secs(secs: u64) -> (r: Result<u64, ParseError>)
    ensures
        r == if secs >= 86400 {
            Ok::<u64, ParseError>((secs / 86400) as u64)
        } else {
            Err::<u64, ParseError>(ParseError::ShortDuration)
        },
{
    if secs >= 86400 {
        Ok(secs / 86400)
    } else {
        Err(ParseError::ShortDuration)
    }
}

} // verus!
