use vstd::prelude::*;
use crate::amount::{amount_2dp_bytes, amount_to_2dp_bytes, lemma_amount_2dp_bytes_ascii};
use crate::date::{date_bytes, date_to_bytes, lemma_date_bytes_ascii};
use crate::parse::Records;
use crate::text::{ascii_chars, ascii_to_string};

verus! {

/// The display cells of a ledger: a header row of `Date` and the
/// currency codes, then one row per record holding the date and each
/// amount rounded to two decimal places.
pub fn format_table(records: &Records) -> (rows: Vec<Vec<String>>)
    requires
        records.wf(),
    ensures
        rows@.len() == 1 + records@.records.len(),
        rows@[0]@.len() == 1 + records@.currencies.len(),
        rows@[0]@[0]@ == "Date"@,
        forall|j: int|
            0 <= j < records@.currencies.len() ==> (#[trigger] rows@[0]@[j + 1])@
                == records@.currencies[j],
        forall|i: int|
            0 <= i < records@.records.len() ==> (#[trigger] rows@[i + 1])@.len() == 1
                + records@.currencies.len(),
        forall|i: int|
            0 <= i < records@.records.len() ==> (#[trigger] rows@[i + 1])@[0]@ == ascii_chars(
                date_bytes(records@.records[i].date),
            ),
        forall|i: int, j: int|
            0 <= i < records@.records.len() && 0 <= j < records@.currencies.len()
                ==> (#[trigger] rows@[i + 1]@[j + 1])@ == ascii_chars(
                amount_2dp_bytes(records@.records[i].savings[j]),
            ),
{
    let m = records.currencies.len();
    let n = records.records.len();
    let mut rows: Vec<Vec<String>> = Vec::new();
    let mut header: Vec<String> = Vec::new();
    header.push(String::from_str("Date"));
    let mut j: usize = 0;
    while j < m
        invariant
            j <= m,
            m == records.currencies@.len(),
            header@.len() == 1 + j,
            header@[0]@ == "Date"@,
            forall|x: int| 0 <= x < j ==> (#[trigger] header@[x + 1])@ == records@.currencies[x],
        decreases m - j,
    {
        header.push(records.currencies[j].0.clone());
        proof {
            assert(header@[j + 1]@ == records@.currencies[j as int]);
        }
        j += 1;
    }
    rows.push(header);
    let mut i: usize = 0;
    while i < n
        invariant
            i <= n,
            n == records.records@.len(),
            m == records.currencies@.len(),
            records.wf(),
            rows@.len() == 1 + i,
            rows@[0]@.len() == 1 + m,
            rows@[0]@[0]@ == "Date"@,
            forall|x: int| 0 <= x < m ==> (#[trigger] rows@[0]@[x + 1])@ == records@.currencies[x],
            forall|x: int| 0 <= x < i ==> (#[trigger] rows@[x + 1])@.len() == 1 + m,
            forall|x: int|
                0 <= x < i ==> (#[trigger] rows@[x + 1])@[0]@ == ascii_chars(
                    date_bytes(records@.records[x].date),
                ),
            forall|x: int, y: int|
                0 <= x < i && 0 <= y < m ==> (#[trigger] rows@[x + 1]@[y + 1])@ == ascii_chars(
                    amount_2dp_bytes(records@.records[x].savings[y]),
                ),
        decreases n - i,
    {
        let mut row: Vec<String> = Vec::new();
        proof {
            assert(records@.records[i as int] == records.records@[i as int]@);
            lemma_date_bytes_ascii(records.records@[i as int].date);
        }
        let db = date_to_bytes(&records.records[i].date);
        row.push(ascii_to_string(db));
        let mut jj: usize = 0;
        while jj < m
            invariant
                jj <= m,
                i < n,
                n == records.records@.len(),
                m == records.currencies@.len(),
                records.wf(),
                records@.records[i as int] == records.records@[i as int]@,
                row@.len() == 1 + jj,
                row@[0]@ == ascii_chars(date_bytes(records@.records[i as int].date)),
                forall|y: int|
                    0 <= y < jj ==> (#[trigger] row@[y + 1])@ == ascii_chars(
                        amount_2dp_bytes(records@.records[i as int].savings[y]),
                    ),
            decreases m - jj,
        {
            proof {
                lemma_amount_2dp_bytes_ascii(records.records@[i as int]@.savings[jj as int]);
            }
            let ab = amount_to_2dp_bytes(records.records[i].savings[jj]);
            row.push(ascii_to_string(ab));
            jj += 1;
        }
        rows.push(row);
        i += 1;
    }
    rows
}

} // verus!
