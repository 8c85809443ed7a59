use vstd::prelude::*;

verus! {

/// A calendar date in the proleptic Gregorian calendar, held as plain
/// year / month / day fields so that every rule about it can be stated
/// directly over integers. Years run from 1 to 9999 so that a date
/// always renders as four year digits.
#[derive(Clone, Copy, PartialEq, Eq, Structural, Debug)]
pub struct Date {
    pub year: u16,
    pub month: u8,
    pub day: u8,
}

/// The Gregorian leap-year rule.
pub open spec fn is_leap_year(y: int) -> bool {
    y % 4 == 0 && (y % 100 != 0 || y % 400 == 0)
}

/// Number of days in month `m` of year `y`.
pub open spec fn days_in_month(y: int, m: int) -> int {
    if m == 2 {
        if is_leap_year(y) {
            29
        } else {
            28
        }
    } else if m == 4 || m == 6 || m == 9 || m == 11 {
        30
    } else {
        31
    }
}

/// Days in the months of year `y` that precede month `m`.
pub open spec fn days_before_month(y: int, m: int) -> int {
    let flat: int = if m <= 1 {
        0
    } else if m == 2 {
        31
    } else if m == 3 {
        59
    } else if m == 4 {
        90
    } else if m == 5 {
        120
    } else if m == 6 {
        151
    } else if m == 7 {
        181
    } else if m == 8 {
        212
    } else if m == 9 {
        243
    } else if m == 10 {
        273
    } else if m == 11 {
        304
    } else {
        334
    };
    flat + if m > 2 && is_leap_year(y) {
        1int
    } else {
        0int
    }
}

impl Date {
    /// A well-formed calendar date.
    pub open spec fn valid(self) -> bool {
        &&& 1 <= self.year <= 9999
        &&& 1 <= self.month <= 12
        &&& 1 <= self.day <= days_in_month(self.year as int, self.month as int)
    }

    /// Position of this date on a single day axis. Dates are ordered and
    /// subtracted through this key, so one day of difference in the
    /// calendar is one unit of difference here.
    pub open spec fn key(self) -> int {
        let y = self.year as int;
        365 * (y - 1) + (y - 1) / 4 - (y - 1) / 100 + (y - 1) / 400 + days_before_month(
            y,
            self.month as int,
        ) + self.day as int
    }

    /// Builds a date, accepting exactly the well-formed triples.
    pub fn new(year: u16, month: u8, day: u8) -> (r: Option<Date>)
        ensures
            r == if (Date { year, month, day }).valid() {
                Some(Date { year, month, day })
            } else {
                None::<Date>
            },
    {
        let d = Date { year, month, day };
        if 1 <= year && year <= 9999 && 1 <= month && month <= 12 && 1 <= day && day
            <= month_days(year, month) {
            Some(d)
        } else {
            None
        }
    }

    /// The day key as a machine integer.
    pub fn day_key(&self) -> (k: u32)
        requires
            self.valid(),
        ensures
            k as int == self.key(),
    {
        let y: u32 = (self.year - 1) as u32;
        let before: u32 = month_days_before(self.year, self.month);
        365 * y + y / 4 - y / 100 + y / 400 + before + self.day as u32
    }
}

/// Whether `y` is a leap year.
pub fn leap_year(y: u16) -> (r: bool)
    ensures
        r == is_leap_year(y as int),
{
    y % 4 == 0 && (y % 100 != 0 || y % 400 == 0)
}

/// Number of days in month `m` of year `y`.
pub fn month_days(y: u16, m: u8) -> (r: u8)
    requires
        1 <= m <= 12,
    ensures
        r as int == days_in_month(y as int, m as int),
{
    if m == 2 {
        if leap_year(y) {
            29
        } else {
            28
        }
    } else if m == 4 || m == 6 || m == 9 || m == 11 {
        30
    } else {
        31
    }
}

/// Days in the months of year `y` that precede month `m`.
fn month_days_before(y: u16, m: u8) -> (r: u32)
    requires
        1 <= m <= 12,
    ensures
        r as int == days_before_month(y as int, m as int),
{
    let flat: u32 = if m <= 1 {
        0
    } else if m == 2 {
        31
    } else if m == 3 {
        59
    } else if m == 4 {
        90
    } else if m == 5 {
        120
    } else if m == 6 {
        151
    } else if m == 7 {
        181
    } else if m == 8 {
        212
    } else if m == 9 {
        243
    } else if m == 10 {
        273
    } else if m == 11 {
        304
    } else {
        334
    };
    if m > 2 && leap_year(y) {
        flat + 1
    } else {
        flat
    }
}

/// The byte for a decimal digit value.
pub open spec fn digit_byte(v: int) -> u8 {
    (48 + v) as u8
}

/// Whether `b` is the byte of a decimal digit.
pub open spec fn is_digit(b: u8) -> bool {
    48 <= b <= 57
}

/// The value of a decimal digit byte.
pub open spec fn digit_val(b: u8) -> int {
    b - 48
}

/// The ten bytes `YYYY-MM-DD` of a date.
pub open spec fn date_bytes(d: Date) -> Seq<u8> {
    let y = d.year as int;
    let m = d.month as int;
    let dd = d.day as int;
    seq![
        digit_byte(y / 1000),
        digit_byte((y / 100) % 10),
        digit_byte((y / 10) % 10),
        digit_byte(y % 10),
        45u8,
        digit_byte(m / 10),
        digit_byte(m % 10),
        45u8,
        digit_byte(dd / 10),
        digit_byte(dd % 10),
    ]
}

/// Whether `s` has the shape `YYYY-MM-DD`: digits and dashes in place.
pub open spec fn date_shape_ok(s: Seq<u8>) -> bool {
    &&& s.len() == 10
    &&& is_digit(s[0]) && is_digit(s[1]) && is_digit(s[2]) && is_digit(s[3])
    &&& s[4] == 45u8
    &&& is_digit(s[5]) && is_digit(s[6])
    &&& s[7] == 45u8
    &&& is_digit(s[8]) && is_digit(s[9])
}

/// The date spelled by a `YYYY-MM-DD` byte sequence.
pub open spec fn date_of_bytes(s: Seq<u8>) -> Date {
    Date {
        year: (1000 * digit_val(s[0]) + 100 * digit_val(s[1]) + 10 * digit_val(s[2]) + digit_val(
            s[3],
        )) as u16,
        month: (10 * digit_val(s[5]) + digit_val(s[6])) as u8,
        day: (10 * digit_val(s[8]) + digit_val(s[9])) as u8,
    }
}

/// Whether `s` spells a well-formed date.
pub open spec fn date_bytes_ok(s: Seq<u8>) -> bool {
    date_shape_ok(s) && date_of_bytes(s).valid()
}

/// Renders a date as its ten `YYYY-MM-DD` bytes.
pub fn date_to_bytes(d: &Date) -> (out: Vec<u8>)
    requires
        d.valid(),
    ensures
        out@ == date_bytes(*d),
{
    let mut out: Vec<u8> = Vec::new();
    out.push(48 + (d.year / 1000) as u8);
    out.push(48 + ((d.year / 100) % 10) as u8);
    out.push(48 + ((d.year / 10) % 10) as u8);
    out.push(48 + (d.year % 10) as u8);
    out.push(45);
    out.push(48 + d.month / 10);
    out.push(48 + d.month % 10);
    out.push(45);
    out.push(48 + d.day / 10);
    out.push(48 + d.day % 10);
    proof {
        assert(out@ =~= date_bytes(*d));
    }
    out
}

/// Reads a `YYYY-MM-DD` byte sequence back into a date, accepting
/// exactly the sequences that spell a well-formed date.
pub fn date_from_bytes(s: &[u8]) -> (r: Option<Date>)
    ensures
        r == if date_bytes_ok(s@) {
            Some(date_of_bytes(s@))
        } else {
            None::<Date>
        },
{
    if s.len() != 10 {
        return None;
    }
    let mut i: usize = 0;
    while i < 10
        invariant
            i <= 10,
            s@.len() == 10,
            forall|j: int|
                0 <= j < i ==> if j == 4 || j == 7 {
                    s@[j] == 45u8
                } else {
                    is_digit(s@[j])
                },
        decreases 10 - i,
    {
        let b = s[i];
        if i == 4 || i == 7 {
            if b != 45 {
                return None;
            }
        } else {
            if !(48 <= b && b <= 57) {
                return None;
            }
        }
        i += 1;
    }
    let year: u16 = 1000 * (s[0] - 48) as u16 + 100 * (s[1] - 48) as u16 + 10 * (s[2] - 48) as u16
        + (s[3] - 48) as u16;
    let month: u8 = 10 * (s[5] - 48) + (s[6] - 48);
    let day: u8 = 10 * (s[8] - 48) + (s[9] - 48);
    Date::new(year, month, day)
}

/// Rendering a date and reading the text back yields the same date.
pub proof fn lemma_date_round_trip(d: Date)
    requires
        d.valid(),
    ensures
        date_bytes_ok(date_bytes(d)),
        date_of_bytes(date_bytes(d)) == d,
{
    let s = date_bytes(d);
    let y = d.year as int;
    assert(1 <= y <= 9999);
    assert(y / 1000 <= 9) by (nonlinear_arith)
        requires 1 <= y <= 9999;
    assert(0 <= y / 1000);
    assert(date_shape_ok(s));
    assert(1000 * (y / 1000) + 100 * ((y / 100) % 10) + 10 * ((y / 10) % 10) + y % 10 == y) by (
    nonlinear_arith)
        requires 1 <= y <= 9999;
    let m = d.month as int;
    assert(10 * (m / 10) + m % 10 == m) by (nonlinear_arith)
        requires 1 <= m <= 12;
    let dd = d.day as int;
    assert(10 * (dd / 10) + dd % 10 == dd) by (nonlinear_arith)
        requires 1 <= dd <= 31;
    assert(date_of_bytes(s) == d);
}


/// Every byte of a rendered date is below 128.
pub proof fn lemma_date_bytes_ascii(d: Date)
    ensures
        forall|i: int| 0 <= i < date_bytes(d).len() ==> #[trigger] date_bytes(d)[i] < 128,
{
    let s = date_bytes(d);
    assert forall|i: int| 0 <= i < s.len() implies #[trigger] s[i] < 128 by {
        if i == 4 || i == 7 {
            assert(s[i] == 45u8);
        }
    }
}


/// Relies on `chrono::Utc::now`: the current UTC day as the year,
/// month and day numbers, with the month in 1 to 12 and the day in 1
/// to 31 as `chrono` documents. `Utc::now` itself aborts the process
/// when the system clock stands before the Unix epoch or beyond
/// chrono's year range; the call takes no argument, so no precondition
/// can name those states, and the clause holds of every return.
#[verifier::external_body]
fn current_civil_date() -> (r: (i32, u32, u32))
    ensures
        1 <= r.1 <= 12,
        1 <= r.2 <= 31,
{
    let d = chrono::Utc::now().date_naive();
    (chrono::Datelike::year(&d), chrono::Datelike::month(&d), chrono::Datelike::day(&d))
}

/// Today's date from the system clock, where it lies in the supported
/// year range and is a well-formed calendar date.
pub fn today_from_clock() -> (r: Option<Date>)
    ensures
        r matches Some(d) ==> d.valid(),
{
    let (y, m, dd) = current_civil_date();
    if y < 1 || y > 9999 {
        return None;
    }
    Date::new(y as u16, m as u8, dd as u8)
}

} // verus!
