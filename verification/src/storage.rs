use vstd::prelude::*;
use crate::amount::{
    amount_bytes, amount_bytes_ok, amount_from_bytes, amount_of_bytes, amount_to_bytes,
    lemma_amount_bytes_ascii, lemma_amount_round_trip,
};
use crate::date::{
    date_bytes, date_bytes_ok, date_from_bytes, date_of_bytes, date_to_bytes,
    lemma_date_bytes_ascii, lemma_date_round_trip,
};
use crate::parse::{valid_code, Currency, LedgerView, Record, RecordView, Records};
use crate::text::{
    all_ascii, ascii_chars, ascii_to_string, is_alpha_byte, lemma_ascii_chars_encode, upper_byte,
};
use vstd::string::StringSliceAdditionalSpecFns;
use vstd::utf8::encode_utf8;

verus! {

/// A failure while reading tabular ledger data.
#[derive(Debug, Clone, Copy, PartialEq, Eq, Structural)]
pub enum LoadError {
    /// No header row, or a header without a date column.
    MissingHeader,
    /// A header cell that is not a three-letter currency code.
    BadCurrency,
    /// The same currency named twice in the header.
    DuplicateCurrency,
    /// A row with a cell count different from the header's.
    RowWidth,
    /// A date cell that does not spell a `YYYY-MM-DD` date.
    BadDate,
    /// Rows whose dates are not strictly ascending.
    UnsortedDates,
    /// An amount cell that does not spell a decimal amount in range.
    BadAmount,
}

impl LoadError {
    /// A short human-readable cause.
    pub fn describe(&self) -> &'static str {
        match self {
            LoadError::MissingHeader => "the table has no header row",
            LoadError::BadCurrency => "a header cell is not a three-letter currency code",
            LoadError::DuplicateCurrency => "a currency appears twice in the header",
            LoadError::RowWidth => "a row differs in width from the header",
            LoadError::BadDate => "a date cell is not a YYYY-MM-DD date",
            LoadError::UnsortedDates => "rows are not in ascending date order",
            LoadError::BadAmount => "an amount cell is not a decimal amount in range",
        }
    }
}

/// The bytes of a cell's text.
pub open spec fn cell_bytes(s: Seq<char>) -> Seq<u8> {
    encode_utf8(s)
}

/// Whether a header cell spells a currency code: three bytes, each an
/// ASCII letter.
pub open spec fn code_cell_ok(s: Seq<char>) -> bool {
    cell_bytes(s).len() == 3 && forall|i: int|
        0 <= i < 3 ==> is_alpha_byte(#[trigger] cell_bytes(s)[i])
}

/// The upper-cased code a header cell yields.
pub open spec fn header_code(s: Seq<char>) -> Seq<char> {
    ascii_chars(cell_bytes(s).map_values(|x: u8| upper_byte(x)))
}

/// Whether the header row is usable: at least the date column, and a
/// currency code in every further cell.
pub open spec fn header_ok(h: Seq<String>) -> bool {
    h.len() >= 1 && forall|j: int| 1 <= j < h.len() ==> code_cell_ok((#[trigger] h[j])@)
}

/// The codes the header row yields, in order.
pub open spec fn load_codes(h: Seq<String>) -> Seq<Seq<char>> {
    Seq::new((h.len() - 1) as nat, |j: int| header_code(h[j + 1]@))
}

/// Whether a sequence of codes is pairwise distinct.
pub open spec fn codes_distinct(cs: Seq<Seq<char>>) -> bool {
    forall|i: int, j: int| 0 <= i < j < cs.len() ==> (#[trigger] cs[i]) != (#[trigger] cs[j])
}

/// Whether a data row is usable under a header of `width` cells: the
/// same width, a date in the first cell, an amount in each other cell.
pub open spec fn row_ok(row: Seq<String>, width: int) -> bool {
    &&& row.len() == width
    &&& date_bytes_ok(cell_bytes(row[0]@))
    &&& forall|j: int| 1 <= j < width ==> amount_bytes_ok(cell_bytes((#[trigger] row[j])@))
}

/// Whether every data row is usable.
pub open spec fn rows_ok(rows: Seq<Vec<String>>) -> bool {
    forall|i: int| 1 <= i < rows.len() ==> row_ok((#[trigger] rows[i])@, rows[0]@.len() as int)
}

/// The record a usable data row yields.
pub open spec fn row_record(row: Seq<String>) -> RecordView {
    RecordView {
        date: date_of_bytes(cell_bytes(row[0]@)),
        savings: Seq::new(
            (row.len() - 1) as nat,
            |j: int| amount_of_bytes(cell_bytes(row[j + 1]@)) as i64,
        ),
    }
}

/// The records the data rows yield, in order.
pub open spec fn load_records(rows: Seq<Vec<String>>) -> Seq<RecordView> {
    Seq::new((rows.len() - 1) as nat, |i: int| row_record(rows[i + 1]@))
}

/// Whether the data rows are strictly ascending by date.
pub open spec fn rows_sorted(rows: Seq<Vec<String>>) -> bool {
    forall|i: int, j: int|
        0 <= i < j < load_records(rows).len() ==> (#[trigger] load_records(rows)[i]).date.key() < (
        #[trigger] load_records(rows)[j]).date.key()
}

/// Whether the whole table is usable.
pub open spec fn load_ok(rows: Seq<Vec<String>>) -> bool {
    &&& rows.len() >= 1
    &&& header_ok(rows[0]@)
    &&& codes_distinct(load_codes(rows[0]@))
    &&& rows_ok(rows)
    &&& rows_sorted(rows)
}

/// Reads a table of cells into a ledger: the header row names the
/// currencies after its first cell; each further row is a date and one
/// amount per currency. Accepts exactly the usable, date-sorted tables.
#[verifier::rlimit(60)]
pub fn parse_from_str(rows: &Vec<Vec<String>>, filepath: &str) -> (r: Result<Records, LoadError>)
    ensures
        match r {
            Ok(led) => {
                &&& load_ok(rows@)
                &&& led@.currencies == load_codes(rows@[0]@)
                &&& led@.records == load_records(rows@)
                &&& led.wf()
                &&& led.filepath@ == filepath@
            },
            Err(LoadError::MissingHeader) => rows@.len() == 0 || rows@[0]@.len() == 0,
            Err(LoadError::BadCurrency) => rows@.len() >= 1 && exists|j: int|
                1 <= j < rows@[0]@.len() && !code_cell_ok((#[trigger] rows@[0]@[j])@),
            Err(LoadError::DuplicateCurrency) => rows@.len() >= 1 && header_ok(rows@[0]@)
                && !codes_distinct(load_codes(rows@[0]@)),
            Err(LoadError::RowWidth) => rows@.len() >= 1 && exists|i: int|
                1 <= i < rows@.len() && (#[trigger] rows@[i])@.len() != rows@[0]@.len(),
            Err(LoadError::BadDate) => rows@.len() >= 1 && exists|i: int|
                1 <= i < rows@.len() && (#[trigger] rows@[i])@.len() >= 1 && !date_bytes_ok(
                    cell_bytes(rows@[i]@[0]@),
                ),
            Err(LoadError::UnsortedDates) => rows@.len() >= 2 && exists|i: int|
                2 <= i < rows@.len() && date_of_bytes(
                    cell_bytes((#[trigger] rows@[i])@[0]@),
                ).key() <= date_of_bytes(cell_bytes(rows@[i - 1]@[0]@)).key(),
            Err(LoadError::BadAmount) => rows@.len() >= 1 && exists|i: int, j: int|
                1 <= i < rows@.len() && 1 <= j < (#[trigger] rows@[i])@.len() && !amount_bytes_ok(
                    cell_bytes(#[trigger] rows@[i]@[j]@),
                ),
        },
{
    if rows.len() == 0 {
        return Err(LoadError::MissingHeader);
    }
    let header = &rows[0];
    let width = header.len();
    if width == 0 {
        return Err(LoadError::MissingHeader);
    }
    // the currencies named by the header
    let mut currencies: Vec<Currency> = Vec::new();
    let mut j: usize = 1;
    while j < width
        invariant
            1 <= j <= width,
            width == header@.len(),
            rows@.len() >= 1,
            header == &rows@[0],
            currencies@.len() == j - 1,
            forall|x: int| 1 <= x < j ==> code_cell_ok((#[trigger] header@[x])@),
            forall|x: int|
                0 <= x < j - 1 ==> (#[trigger] currencies@[x]).0@ == header_code(header@[x + 1]@)
                    && valid_code(currencies@[x].0@),
        decreases width - j,
    {
        match Currency::new(header[j].as_str()) {
            Ok(c) => {
                currencies.push(c);
            },
            Err(_) => {
                proof {
                    assert(!code_cell_ok(header@[j as int]@));
                }
                return Err(LoadError::BadCurrency);
            },
        }
        j += 1;
    }
    // reject a duplicated currency
    let mut a: usize = 0;
    while a < currencies.len()
        invariant
            a <= currencies@.len(),
            currencies@.len() == width - 1,
            width == header@.len(),
            width >= 1,
            rows@.len() >= 1,
            header == &rows@[0],
            forall|x: int| 1 <= x < width ==> code_cell_ok((#[trigger] header@[x])@),
            forall|x: int|
                0 <= x < width - 1 ==> (#[trigger] currencies@[x]).0@ == header_code(
                    header@[x + 1]@,
                ),
            forall|x: int, y: int|
                0 <= x < y < currencies@.len() && x < a ==> (#[trigger] currencies@[x]).0@ != (
                #[trigger] currencies@[y]).0@,
        decreases currencies@.len() - a,
    {
        let mut bq: usize = a + 1;
        while bq < currencies.len()
            invariant
                a < bq <= currencies@.len(),
                currencies@.len() == width - 1,
                width == header@.len(),
                width >= 1,
                rows@.len() >= 1,
                header == &rows@[0],
                forall|x: int| 1 <= x < width ==> code_cell_ok((#[trigger] header@[x])@),
                forall|x: int|
                    0 <= x < width - 1 ==> (#[trigger] currencies@[x]).0@ == header_code(
                        header@[x + 1]@,
                    ),
                forall|y: int|
                    a < y < bq ==> (#[trigger] currencies@[y]).0@ != currencies@[a as int].0@,
            decreases currencies@.len() - bq,
        {
            if currencies[a].same_code(&currencies[bq]) {
                proof {
                    assert(currencies@[a as int].0@ == header_code(header@[a + 1]@));
                    assert(currencies@[bq as int].0@ == header_code(header@[bq + 1]@));
                    assert(load_codes(header@)[a as int] == load_codes(header@)[bq as int]);
                    assert(!codes_distinct(load_codes(header@)));
                }
                return Err(LoadError::DuplicateCurrency);
            }
            bq += 1;
        }
        a += 1;
    }
    // the data rows
    let mut out: Vec<Record> = Vec::new();
    let mut last_key: u32 = 0;
    let mut i: usize = 1;
    while i < rows.len()
        invariant
            1 <= i <= rows@.len(),
            width == header@.len(),
            width >= 1,
            header == &rows@[0],
            currencies@.len() == width - 1,
            forall|x: int|
                0 <= x < width - 1 ==> (#[trigger] currencies@[x]).0@ == header_code(
                    header@[x + 1]@,
                ) && valid_code(currencies@[x].0@),
            out@.len() == i - 1,
            forall|x: int| 1 <= x < i ==> row_ok((#[trigger] rows@[x])@, width as int),
            forall|x: int| 0 <= x < i - 1 ==> #[trigger] out@[x]@ == row_record(rows@[x + 1]@),
            forall|x: int| 0 <= x < i - 1 ==> (#[trigger] out@[x]@).date.valid(),
            forall|x: int, y: int|
                0 <= x < y < i - 1 ==> (#[trigger] out@[x]@).date.key() < (
                #[trigger] out@[y]@).date.key(),
            i >= 2 ==> last_key as int == out@[i - 2]@.date.key(),
        decreases rows@.len() - i,
    {
        let row = &rows[i];
        if row.len() != width {
            return Err(LoadError::RowWidth);
        }
        let date = match date_from_bytes(row[0].as_str().as_bytes()) {
            Some(d) => d,
            None => {
                return Err(LoadError::BadDate);
            },
        };
        let key = date.day_key();
        if i >= 2 && key <= last_key {
            proof {
                assert(row_record(rows@[i - 1]@).date == out@[i - 2]@.date);
                assert(load_records(rows@)[i - 2] == row_record(rows@[i - 1]@));
                assert(row_record(rows@[i as int]@).date == date);
            }
            return Err(LoadError::UnsortedDates);
        }
        let mut savings: Vec<i64> = Vec::new();
        let mut jj: usize = 1;
        while jj < width
            invariant
                1 <= jj <= width,
                width == row@.len(),
                1 <= i < rows@.len(),
                row == &rows@[i as int],
                savings@.len() == jj - 1,
                forall|x: int| 1 <= x < jj ==> amount_bytes_ok(cell_bytes((#[trigger] row@[x])@)),
                forall|x: int|
                    0 <= x < jj - 1 ==> #[trigger] savings@[x] == amount_of_bytes(
                        cell_bytes(row@[x + 1]@),
                    ) as i64,
            decreases width - jj,
        {
            match amount_from_bytes(row[jj].as_str().as_bytes()) {
                Some(v) => {
                    savings.push(v);
                },
                None => {
                    proof {
                        assert(!amount_bytes_ok(cell_bytes(rows@[i as int]@[jj as int]@)));
                    }
                    return Err(LoadError::BadAmount);
                },
            }
            jj += 1;
        }
        let ghost sv = savings@;
        out.push(Record { date, savings });
        proof {
            assert(sv =~= row_record(rows@[i as int]@).savings);
            assert(out@[i - 1]@ =~= row_record(rows@[i as int]@));
        }
        last_key = key;
        i += 1;
    }
    let led = Records {
        records: out,
        currencies,
        filepath: String::from_str(filepath),
    };
    proof {
        assert(led@.currencies =~= load_codes(rows@[0]@));
        assert(led@.records =~= load_records(rows@));
        assert(rows_sorted(rows@)) by {
            assert forall|x: int, y: int|
                0 <= x < y < load_records(rows@).len() implies (
            #[trigger] load_records(rows@)[x]).date.key() < (
            #[trigger] load_records(rows@)[y]).date.key() by {
                assert(load_records(rows@)[x] == led@.records[x]);
                assert(load_records(rows@)[y] == led@.records[y]);
            }
        }
        assert(led.wf()) by {
            assert forall|x: int| 0 <= x < led@.records.len() implies (
            #[trigger] led@.records[x]).savings.len() == led@.currencies.len() && led@.records[x].date.valid() by {
                assert(led@.records[x] == out@[x]@);
            }
            assert forall|x: int, y: int|
                0 <= x < y < led@.records.len() implies (#[trigger] led@.records[x]).date.key() < (
            #[trigger] led@.records[y]).date.key() by {
                assert(led@.records[x] == out@[x]@ && led@.records[y] == out@[y]@);
            }
        }
    }
    Ok(led)
}

/// Renders a ledger as a table of cells: a header row of `Date` and
/// the currency codes, then one row per record holding the date and
/// each amount as canonical decimal text.
pub fn to_rows(records: &Records) -> (rows: Vec<Vec<String>>)
    requires
        records.wf(),
    ensures
        rows@.len() == 1 + records@.records.len(),
        rows@[0]@.len() == 1 + records@.currencies.len(),
        forall|j: int|
            0 <= j < records@.currencies.len() ==> (#[trigger] rows@[0]@[j + 1])@
                == records@.currencies[j],
        forall|i: int|
            0 <= i < records@.records.len() ==> (#[trigger] rows@[i + 1])@.len() == 1
                + records@.currencies.len(),
        forall|i: int|
            0 <= i < records@.records.len() ==> (#[trigger] rows@[i + 1])@[0]@ == ascii_chars(
                date_bytes(records@.records[i].date),
            ),
        forall|i: int, j: int|
            0 <= i < records@.records.len() && 0 <= j < records@.currencies.len()
                ==> (#[trigger] rows@[i + 1]@[j + 1])@ == ascii_chars(
                amount_bytes(records@.records[i].savings[j]),
            ),
{
    let m = records.currencies.len();
    let n = records.records.len();
    let mut rows: Vec<Vec<String>> = Vec::new();
    let mut header: Vec<String> = Vec::new();
    header.push(String::from_str("Date"));
    let mut j: usize = 0;
    while j < m
        invariant
            j <= m,
            m == records.currencies@.len(),
            header@.len() == 1 + j,
            forall|x: int|
                0 <= x < j ==> (#[trigger] header@[x + 1])@ == records@.currencies[x],
        decreases m - j,
    {
        header.push(records.currencies[j].0.clone());
        proof {
            assert(header@[j + 1]@ == records@.currencies[j as int]);
        }
        j += 1;
    }
    rows.push(header);
    let mut i: usize = 0;
    while i < n
        invariant
            i <= n,
            n == records.records@.len(),
            m == records.currencies@.len(),
            records.wf(),
            rows@.len() == 1 + i,
            rows@[0]@.len() == 1 + m,
            forall|x: int|
                0 <= x < m ==> (#[trigger] rows@[0]@[x + 1])@ == records@.currencies[x],
            forall|x: int| 0 <= x < i ==> (#[trigger] rows@[x + 1])@.len() == 1 + m,
            forall|x: int|
                0 <= x < i ==> (#[trigger] rows@[x + 1])@[0]@ == ascii_chars(
                    date_bytes(records@.records[x].date),
                ),
            forall|x: int, y: int|
                0 <= x < i && 0 <= y < m ==> (#[trigger] rows@[x + 1]@[y + 1])@ == ascii_chars(
                    amount_bytes(records@.records[x].savings[y]),
                ),
        decreases n - i,
    {
        let mut row: Vec<String> = Vec::new();
        proof {
            assert(records@.records[i as int] == records.records@[i as int]@);
            lemma_date_bytes_ascii(records.records@[i as int].date);
        }
        let db = date_to_bytes(&records.records[i].date);
        row.push(ascii_to_string(db));
        let mut jj: usize = 0;
        while jj < m
            invariant
                jj <= m,
                i < n,
                n == records.records@.len(),
                m == records.currencies@.len(),
                records.wf(),
                records@.records[i as int] == records.records@[i as int]@,
                row@.len() == 1 + jj,
                row@[0]@ == ascii_chars(date_bytes(records@.records[i as int].date)),
                forall|y: int|
                    0 <= y < jj ==> (#[trigger] row@[y + 1])@ == ascii_chars(
                        amount_bytes(records@.records[i as int].savings[y]),
                    ),
            decreases m - jj,
        {
            proof {
                lemma_amount_bytes_ascii(records.records@[i as int]@.savings[jj as int]);
            }
            let ab = amount_to_bytes(records.records[i].savings[jj]);
            row.push(ascii_to_string(ab));
            jj += 1;
        }
        rows.push(row);
        i += 1;
    }
    rows
}

/// Loading back the rows a well-formed ledger saves reproduces the
/// ledger: the same dates, currencies and amounts.
pub proof fn lemma_rows_round_trip(v: LedgerView, rows: Seq<Vec<String>>)
    requires
        v.wf(),
        rows.len() == 1 + v.records.len(),
        rows[0]@.len() == 1 + v.currencies.len(),
        forall|j: int| 0 <= j < v.currencies.len() ==> (#[trigger] rows[0]@[j + 1])@
            == v.currencies[j],
        forall|i: int|
            0 <= i < v.records.len() ==> (#[trigger] rows[i + 1])@.len() == 1 + v.currencies.len(),
        forall|i: int|
            0 <= i < v.records.len() ==> (#[trigger] rows[i + 1])@[0]@ == ascii_chars(
                date_bytes(v.records[i].date),
            ),
        forall|i: int, j: int|
            0 <= i < v.records.len() && 0 <= j < v.currencies.len() ==> (#[trigger] rows[i + 1]@[j
                + 1])@ == ascii_chars(amount_bytes(v.records[i].savings[j])),
    ensures
        load_ok(rows),
        load_codes(rows[0]@) == v.currencies,
        load_records(rows) == v.records,
{
    let h = rows[0]@;
    assert forall|j: int| 1 <= j < h.len() implies code_cell_ok((#[trigger] h[j])@)
        && header_code(h[j]@) == v.currencies[j - 1] by {
        let code = v.currencies[j - 1];
        assert((rows[0]@[(j - 1) + 1])@ == v.currencies[j - 1]);
        assert(h[j]@ == code);
        assert(valid_code(code));
        let cb: Seq<u8> = Seq::new(code.len(), |x: int| code[x] as u8);
        assert(all_ascii(cb)) by {
            assert forall|x: int| 0 <= x < cb.len() implies #[trigger] cb[x] < 128 by {
                assert(65 <= code[x] as int <= 90);
            }
        }
        assert(ascii_chars(cb) =~= code);
        lemma_ascii_chars_encode(cb);
        assert(cell_bytes(code) == cb);
        assert forall|x: int| 0 <= x < 3 implies is_alpha_byte(#[trigger] cb[x]) by {
            assert(65 <= code[x] as int <= 90);
        }
        assert(cb.map_values(|x: u8| upper_byte(x)) =~= cb);
        assert(header_code(h[j]@) =~= code);
    }
    assert(header_ok(h));
    assert(load_codes(h) =~= v.currencies);
    assert(codes_distinct(load_codes(h)));
    assert forall|i: int| 1 <= i < rows.len() implies row_ok((#[trigger] rows[i])@, h.len() as int)
        && row_record(rows[i]@) == v.records[i - 1] by {
        let rec = v.records[i - 1];
        let row = rows[i]@;
        assert((rows[(i - 1) + 1])@.len() == 1 + v.currencies.len());
        assert((rows[(i - 1) + 1])@[0]@ == ascii_chars(date_bytes(v.records[i - 1].date)));
        assert forall|j: int| 0 <= j < v.currencies.len() implies (#[trigger] rows[(i - 1) + 1]@[j
            + 1])@ == ascii_chars(amount_bytes(v.records[i - 1].savings[j])) by {}
        assert(row.len() == 1 + v.currencies.len());
        assert(rec.savings.len() == v.currencies.len());
        lemma_date_bytes_ascii(rec.date);
        lemma_ascii_chars_encode(date_bytes(rec.date));
        assert(cell_bytes(row[0]@) == date_bytes(rec.date));
        lemma_date_round_trip(rec.date);
        assert forall|j: int| 1 <= j < row.len() implies amount_bytes_ok(
            cell_bytes((#[trigger] row[j])@),
        ) && amount_of_bytes(cell_bytes(row[j]@)) == rec.savings[j - 1] by {
            lemma_amount_bytes_ascii(rec.savings[j - 1]);
            lemma_ascii_chars_encode(amount_bytes(rec.savings[j - 1]));
            assert((rows[(i - 1) + 1]@[(j - 1) + 1])@ == ascii_chars(
                amount_bytes(rec.savings[j - 1]),
            ));
            assert(row[j]@ == ascii_chars(amount_bytes(rec.savings[j - 1])));
            assert(cell_bytes(row[j]@) == amount_bytes(rec.savings[j - 1]));
            lemma_amount_round_trip(rec.savings[j - 1]);
        }
        assert(row_record(row).savings =~= rec.savings);
        assert(row_record(row) =~= rec);
    }
    assert(rows_ok(rows));
    assert(load_records(rows) =~= v.records);
    assert(rows_sorted(rows));
}

} // verus!
