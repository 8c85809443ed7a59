use vstd::prelude::*;
use crate::date::{digit_byte, digit_val, is_digit};

verus! {

/// Amounts of money are exact fixed-point numbers: an `i64` counting
/// ten-thousandths of a currency unit.
pub const SCALE: u64 = 10000;

/// How many fractional decimal digits the fixed-point scale carries.
pub const FRAC_DIGITS: u64 = 4;

/// `v * num / den`, rounded toward zero. This is the one division rule
/// of the library: rate-of-change normalization and currency conversion
/// both scale amounts through it.
pub open spec fn scaled(v: int, num: int, den: int) -> int {
    if v >= 0 {
        (v * num) / den
    } else {
        -((-v * num) / den)
    }
}

/// Computes `scaled(v, num, den)` exactly, reporting `None` when the
/// result does not fit in an `i64`. The input may be as wide as the
/// difference of two `i64` amounts.
pub fn scale_value(v: i128, num: u64, den: u64) -> (r: Option<i64>)
    requires
        den > 0,
        -18446744073709551616i128 <= v <= 18446744073709551616i128,
    ensures
        r == if i64::MIN <= scaled(v as int, num as int, den as int) <= i64::MAX {
            Some(scaled(v as int, num as int, den as int) as i64)
        } else {
            None::<i64>
        },
{
    let neg: bool = v < 0;
    let mag: u128 = if neg {
        (-v) as u128
    } else {
        v as u128
    };
    proof {
        assert(mag <= 18446744073709551616u128);
        assert(mag * (num as u128) <= 18446744073709551616u128 * 18446744073709551615u128) by (
        nonlinear_arith)
            requires
                mag <= 18446744073709551616u128,
                num as u128 <= 18446744073709551615u128,
                0 <= mag,
        ;
    }
    let q: u128 = mag * (num as u128) / (den as u128);
    proof {
        if v >= 0 {
            assert(q == scaled(v as int, num as int, den as int));
        } else {
            assert(mag == -(v as int));
            assert(q == (-(v as int) * (num as int)) / (den as int));
        }
    }
    if neg {
        if q > 9223372036854775808u128 {
            None
        } else if q == 9223372036854775808u128 {
            Some(i64::MIN)
        } else {
            Some(-(q as i64))
        }
    } else {
        if q > i64::MAX as u128 {
            None
        } else {
            Some(q as i64)
        }
    }
}

/// The decimal digits of `n`, most significant first, with no leading
/// zeros (a lone zero for `n == 0`).
pub open spec fn dec_digits(n: nat) -> Seq<u8>
    decreases n,
{
    if n < 10 {
        seq![digit_byte(n as int)]
    } else {
        dec_digits(n / 10) + seq![digit_byte((n % 10) as int)]
    }
}

/// The value of a digit sequence, most significant first.
pub open spec fn digits_val(s: Seq<u8>) -> int
    decreases s.len(),
{
    if s.len() == 0 {
        0
    } else {
        digits_val(s.drop_last()) * 10 + digit_val(s.last())
    }
}

/// Whether every byte of `s` is a decimal digit.
pub open spec fn all_digits(s: Seq<u8>) -> bool {
    forall|i: int| 0 <= i < s.len() ==> is_digit(#[trigger] s[i])
}

/// The value of a digit sequence is never negative.
pub proof fn lemma_digits_val_nonneg(s: Seq<u8>)
    requires
        all_digits(s),
    ensures
        digits_val(s) >= 0,
    decreases s.len(),
{
    if s.len() > 0 {
        assert(all_digits(s.drop_last()));
        lemma_digits_val_nonneg(s.drop_last());
        assert(digit_val(s.last()) >= 0);
    }
}

/// Extending a digit sequence on the right never lowers its value.
pub proof fn lemma_digits_val_prefix_le(s: Seq<u8>, j: int)
    requires
        all_digits(s),
        0 <= j <= s.len(),
    ensures
        digits_val(s.take(j)) <= digits_val(s),
    decreases s.len() - j,
{
    if j < s.len() {
        let t = s.take(j + 1);
        assert(t.drop_last() =~= s.take(j));
        assert(all_digits(t));
        lemma_digits_val_nonneg(s.take(j));
        assert(digits_val(t) == digits_val(s.take(j)) * 10 + digit_val(s[j]));
        lemma_digits_val_prefix_le(s, j + 1);
        assert(s.take(s.len() as int) =~= s);
    } else {
        assert(s.take(j) =~= s);
    }
}

/// `dec_digits` spells digits whose value is `n` again.
pub proof fn lemma_dec_digits_val(n: nat)
    ensures
        all_digits(dec_digits(n)),
        digits_val(dec_digits(n)) == n,
        dec_digits(n).len() >= 1,
    decreases n,
{
    if n < 10 {
        let s = dec_digits(n);
        assert(s =~= seq![digit_byte(n as int)]);
        assert(s.drop_last() =~= Seq::<u8>::empty());
        assert(digits_val(s.drop_last()) == 0);
        assert(s.last() == digit_byte(n as int));
        assert(digits_val(s) == digit_val(digit_byte(n as int)));
    } else {
        lemma_dec_digits_val(n / 10);
        let s = dec_digits(n);
        assert(s =~= dec_digits(n / 10) + seq![digit_byte((n % 10) as int)]);
        assert(s.drop_last() =~= dec_digits(n / 10));
        assert(s.last() == digit_byte((n % 10) as int));
        assert(digits_val(s) == (n / 10) * 10 + n % 10);
        assert((n / 10) * 10 + n % 10 == n) by (nonlinear_arith);
        assert forall|i: int| 0 <= i < s.len() implies is_digit(#[trigger] s[i]) by {
            if i < s.len() - 1 {
                assert(s[i] == dec_digits(n / 10)[i]);
            } else {
                assert(s[i] == digit_byte((n % 10) as int));
            }
        }
    }
}

/// Ten to the power `k`.
pub open spec fn pow10(k: nat) -> int
    decreases k,
{
    if k == 0 {
        1
    } else {
        10 * pow10((k - 1) as nat)
    }
}

/// Ten to a power is positive.
pub proof fn lemma_pow10_pos(k: nat)
    ensures
        pow10(k) >= 1,
    decreases k,
{
    if k > 0 {
        lemma_pow10_pos((k - 1) as nat)
    }
}

/// Index of the first occurrence of `b` in `t`, or `t.len()` if absent.
pub open spec fn find_byte(t: Seq<u8>, b: u8) -> int
    decreases t.len(),
{
    if t.len() == 0 {
        0
    } else if t[0] == b {
        0
    } else {
        1 + find_byte(t.skip(1), b)
    }
}

/// What `find_byte` finds: the first occurrence, or the length.
pub proof fn lemma_find_byte(t: Seq<u8>, b: u8)
    ensures
        0 <= find_byte(t, b) <= t.len(),
        find_byte(t, b) < t.len() ==> t[find_byte(t, b)] == b,
        forall|j: int| 0 <= j < find_byte(t, b) ==> t[j] != b,
    decreases t.len(),
{
    if t.len() > 0 && t[0] != b {
        lemma_find_byte(t.skip(1), b);
        assert forall|j: int| 0 <= j < find_byte(t, b) implies t[j] != b by {
            if j > 0 {
                assert(t.skip(1)[j - 1] != b);
            }
        }
    }
}

/// `find_byte` is pinned by any index with the first-occurrence shape.
pub proof fn lemma_find_byte_at(t: Seq<u8>, b: u8, j: int)
    requires
        0 <= j <= t.len(),
        forall|x: int| 0 <= x < j ==> t[x] != b,
        j < t.len() ==> t[j] == b,
    ensures
        find_byte(t, b) == j,
{
    lemma_find_byte(t, b);
    let k = find_byte(t, b);
    if k < j {
        assert(t[k] != b);
    }
    if j < k {
        assert(t[j] != b);
    }
}

/// Shape of an unsigned amount text: a non-empty run of digits, then
/// optionally a dot and one to four fractional digits.
pub open spec fn amount_parts_ok(t: Seq<u8>) -> bool {
    let k = find_byte(t, 46u8);
    &&& k >= 1
    &&& all_digits(t.take(k))
    &&& (k == t.len() || {
        let f = t.skip(k + 1);
        1 <= f.len() <= 4 && all_digits(f)
    })
}

/// Value of an unsigned amount text, in ten-thousandths.
pub open spec fn amount_parts_val(t: Seq<u8>) -> int {
    let k = find_byte(t, 46u8);
    let f = if k == t.len() {
        Seq::<u8>::empty()
    } else {
        t.skip(k + 1)
    };
    digits_val(t.take(k)) * 10000 + digits_val(f) * pow10((4 - f.len()) as nat)
}

/// Shape of a signed amount text: an optional leading minus sign.
pub open spec fn amount_text_ok(s: Seq<u8>) -> bool {
    if s.len() > 0 && s[0] == 45u8 {
        amount_parts_ok(s.skip(1))
    } else {
        amount_parts_ok(s)
    }
}

/// Signed value of an amount text, in ten-thousandths.
pub open spec fn amount_of_bytes(s: Seq<u8>) -> int {
    if s.len() > 0 && s[0] == 45u8 {
        -amount_parts_val(s.skip(1))
    } else {
        amount_parts_val(s)
    }
}

/// Whether `s` spells an amount that fits the fixed-point range.
pub open spec fn amount_bytes_ok(s: Seq<u8>) -> bool {
    amount_text_ok(s) && i64::MIN <= amount_of_bytes(s) <= i64::MAX
}

/// The fractional tail of a rendered amount: empty when zero, else a
/// dot and the four-digit fraction with trailing zeros trimmed.
pub open spec fn frac_bytes(f: int) -> Seq<u8> {
    if f == 0 {
        Seq::empty()
    } else if f % 1000 == 0 {
        seq![46u8, digit_byte(f / 1000)]
    } else if f % 100 == 0 {
        seq![46u8, digit_byte(f / 1000), digit_byte((f / 100) % 10)]
    } else if f % 10 == 0 {
        seq![46u8, digit_byte(f / 1000), digit_byte((f / 100) % 10), digit_byte((f / 10) % 10)]
    } else {
        seq![
            46u8,
            digit_byte(f / 1000),
            digit_byte((f / 100) % 10),
            digit_byte((f / 10) % 10),
            digit_byte(f % 10),
        ]
    }
}

/// The canonical decimal text of a fixed-point amount.
pub open spec fn amount_bytes(a: i64) -> Seq<u8> {
    let mag = if a >= 0 {
        a as int
    } else {
        -(a as int)
    };
    let sign: Seq<u8> = if a < 0 {
        seq![45u8]
    } else {
        Seq::empty()
    };
    sign + dec_digits((mag / 10000) as nat) + frac_bytes(mag % 10000)
}

/// Appends the decimal digits of `n` to `out`.
pub fn push_digits(out: &mut Vec<u8>, n: u64)
    ensures
        final(out)@ == old(out)@ + dec_digits(n as nat),
    decreases n,
{
    if n < 10 {
        out.push(48 + n as u8);
        proof {
            assert(out@ =~= old(out)@ + dec_digits(n as nat));
        }
    } else {
        push_digits(out, n / 10);
        out.push(48 + (n % 10) as u8);
        proof {
            assert(out@ =~= old(out)@ + dec_digits(n as nat));
        }
    }
}

/// Renders a fixed-point amount as its canonical decimal text.
pub fn amount_to_bytes(a: i64) -> (out: Vec<u8>)
    ensures
        out@ == amount_bytes(a),
{
    let mut out: Vec<u8> = Vec::new();
    let neg: bool = a < 0;
    if neg {
        out.push(45);
    }
    let mag: u64 = if neg {
        (-(a as i128)) as u64
    } else {
        a as u64
    };
    push_digits(&mut out, mag / 10000);
    let f: u64 = mag % 10000;
    if f != 0 {
        out.push(46);
        out.push(48 + (f / 1000) as u8);
        if f % 1000 != 0 {
            out.push(48 + ((f / 100) % 10) as u8);
            if f % 100 != 0 {
                out.push(48 + ((f / 10) % 10) as u8);
                if f % 10 != 0 {
                    out.push(48 + (f % 10) as u8);
                }
            }
        }
    }
    proof {
        assert(out@ =~= amount_bytes(a));
    }
    out
}

/// Index of the first dot at or after `from`, or the length.
fn find_dot(s: &[u8], from: usize) -> (k: usize)
    requires
        from <= s@.len(),
    ensures
        from <= k <= s@.len(),
        forall|j: int| from <= j < k ==> s@[j] != 46u8,
        k < s@.len() ==> s@[k as int] == 46u8,
{
    let n = s.len();
    let mut k = from;
    while k < n && s[k] != 46
        invariant
            from <= k <= n,
            n == s@.len(),
            forall|j: int| from <= j < k ==> s@[j] != 46u8,
        decreases n - k,
    {
        k += 1;
    }
    k
}

/// Whether the bytes of `s` in `[from, to)` are all decimal digits.
fn check_digits(s: &[u8], from: usize, to: usize) -> (r: bool)
    requires
        from <= to <= s@.len(),
    ensures
        r == all_digits(s@.subrange(from as int, to as int)),
{
    let mut i = from;
    while i < to
        invariant
            from <= i <= to <= s@.len(),
            forall|j: int| from <= j < i ==> is_digit(#[trigger] s@[j]),
        decreases to - i,
    {
        let b = s[i];
        if !(48 <= b && b <= 57) {
            proof {
                assert(s@.subrange(from as int, to as int)[i - from] == s@[i as int]);
            }
            return false;
        }
        i += 1;
    }
    proof {
        assert forall|j: int| 0 <= j < to - from implies is_digit(
            #[trigger] s@.subrange(from as int, to as int)[j],
        ) by {
            assert(s@.subrange(from as int, to as int)[j] == s@[j + from]);
        }
    }
    true
}

/// Value of the digit run of `s` in `[from, to)`, or `None` when it
/// exceeds `cap`.
fn digits_value_up_to(s: &[u8], from: usize, to: usize, cap: u64) -> (r: Option<u64>)
    requires
        from <= to <= s@.len(),
        all_digits(s@.subrange(from as int, to as int)),
        cap <= 1000000000000000000,
    ensures
        match r {
            Some(v) => v as int == digits_val(s@.subrange(from as int, to as int)) && v <= cap,
            None => digits_val(s@.subrange(from as int, to as int)) > cap,
        },
{
    let ghost whole = s@.subrange(from as int, to as int);
    let mut acc: u64 = 0;
    let mut i = from;
    proof {
        assert(whole.take(0) =~= Seq::<u8>::empty());
    }
    while i < to
        invariant
            from <= i <= to <= s@.len(),
            all_digits(whole),
            whole == s@.subrange(from as int, to as int),
            acc as int == digits_val(whole.take(i - from)),
            acc <= cap,
            cap <= 1000000000000000000,
        decreases to - i,
    {
        let b = s[i];
        proof {
            assert(whole[i - from] == s@[i as int]);
            assert(is_digit(whole[i - from]));
        }
        let d: u64 = (b - 48) as u64;
        let acc2: u64 = acc * 10 + d;
        proof {
            let p = whole.take(i + 1 - from);
            assert(p.drop_last() =~= whole.take(i - from));
            assert(p.last() == whole[i - from]);
            assert(acc2 as int == digits_val(p));
        }
        if acc2 > cap {
            proof {
                lemma_digits_val_prefix_le(whole, i + 1 - from);
            }
            return None;
        }
        acc = acc2;
        i += 1;
    }
    proof {
        assert(whole.take(to - from) =~= whole);
    }
    Some(acc)
}

/// Reads a decimal amount text back into a fixed-point value, accepting
/// exactly the texts of amount shape whose value fits the range.
pub fn amount_from_bytes(s: &[u8]) -> (r: Option<i64>)
    ensures
        r == if amount_bytes_ok(s@) {
            Some(amount_of_bytes(s@) as i64)
        } else {
            None::<i64>
        },
{
    let n = s.len();
    let neg: bool = n > 0 && s[0] == 45;
    let start: usize = if neg {
        1
    } else {
        0
    };
    let ghost t = if neg {
        s@.skip(1)
    } else {
        s@
    };
    proof {
        assert(t =~= s@.subrange(start as int, n as int));
    }
    let k = find_dot(s, start);
    proof {
        assert forall|x: int| 0 <= x < k - start implies t[x] != 46u8 by {
            assert(t[x] == s@[x + start]);
        }
        if (k as int) < n {
            assert(t[k - start] == s@[k as int]);
        }
        lemma_find_byte_at(t, 46u8, k - start);
    }
    if k == start {
        // empty integer part: not an amount text
        return None;
    }
    let ghost ip = t.take(k - start);
    proof {
        assert(ip =~= s@.subrange(start as int, k as int));
    }
    if !check_digits(s, start, k) {
        return None;
    }
    let ipv = match digits_value_up_to(s, start, k, 922337203685477) {
        Some(v) => v,
        None => {
            proof {
                lemma_digits_val_nonneg(ip);
                if amount_text_ok(s@) {
                    amount_value_large(t, 922337203685477);
                }
            }
            return None;
        },
    };
    let mut fv: u64 = 0;
    let mut pw: u64 = 10000;
    if k < n {
        let fs = k + 1;
        let ghost f = t.skip(k - start + 1);
        proof {
            assert(f =~= s@.subrange(fs as int, n as int));
        }
        if !check_digits(s, fs, n) {
            return None;
        }
        let flen = n - fs;
        if flen < 1 || flen > 4 {
            return None;
        }
        fv = match digits_value_up_to(s, fs, n, 9999) {
            Some(v) => v,
            None => {
                proof {
                    lemma_digits_val_upper(f);
                    reveal_with_fuel(pow10, 5);
                    assert(false);
                }
                return None;
            },
        };
        pw = if flen == 1 {
            1000
        } else if flen == 2 {
            100
        } else if flen == 3 {
            10
        } else {
            1
        };
        proof {
            reveal_with_fuel(pow10, 5);
            assert(pw as int == pow10((4 - f.len()) as nat));
        }
    }
    proof {
        assert(ipv as u128 * 10000 <= 9223372036854770000) by (nonlinear_arith)
            requires ipv <= 922337203685477u64;
        assert(fv * pw <= 99990000) by (nonlinear_arith)
            requires fv <= 9999u64, pw <= 10000u64;
    }
    let total: u128 = ipv as u128 * 10000 + (fv * pw) as u128;
    proof {
        lemma_digits_val_nonneg(ip);
        reveal_with_fuel(pow10, 5);
        assert(amount_text_ok(s@));
        assert(total as int == amount_parts_val(t)) by {
            assert(ipv as int == digits_val(t.take(find_byte(t, 46u8))));
        }
    }
    if neg {
        if total > 9223372036854775808u128 {
            return None;
        } else if total == 9223372036854775808u128 {
            return Some(i64::MIN);
        } else {
            return Some(-(total as i64));
        }
    } else {
        if total > i64::MAX as u128 {
            return None;
        } else {
            return Some(total as i64);
        }
    }
}

/// A run of digits is below ten to its length.
proof fn lemma_digits_val_upper(f: Seq<u8>)
    requires
        all_digits(f),
    ensures
        digits_val(f) < pow10(f.len()),
    decreases f.len(),
{
    if f.len() == 0 {
    } else {
        assert(all_digits(f.drop_last()));
        lemma_digits_val_upper(f.drop_last());
        assert(digit_val(f.last()) <= 9);
        assert(pow10(f.len()) == 10 * pow10((f.len() - 1) as nat));
    }
}

/// When the integer part alone exceeds `cap`, the whole value exceeds
/// the fixed-point range for any `cap` at or above the range bound.
proof fn amount_value_large(t: Seq<u8>, cap: int)
    requires
        amount_parts_ok(t),
        digits_val(t.take(find_byte(t, 46u8))) > cap,
        cap >= 922337203685477,
    ensures
        amount_parts_val(t) >= 9223372036854780000,
{
    let k = find_byte(t, 46u8);
    let ip = t.take(k);
    let f = if k == t.len() {
        Seq::<u8>::empty()
    } else {
        t.skip(k + 1)
    };
    lemma_digits_val_nonneg(ip);
    lemma_digits_val_nonneg(f);
    lemma_pow10_pos((4 - f.len()) as nat);
    let iv = digits_val(ip);
    assert(iv * 10000 >= 9223372036854780000) by (nonlinear_arith)
        requires iv >= 922337203685478;
    assert(digits_val(f) * pow10((4 - f.len()) as nat) >= 0) by (nonlinear_arith)
        requires digits_val(f) >= 0, pow10((4 - f.len()) as nat) >= 1;
}

/// Value of a one-digit sequence.
proof fn lemma_dv1(a: u8)
    ensures
        digits_val(seq![a]) == digit_val(a),
{
    let s = seq![a];
    assert(s.drop_last() =~= Seq::<u8>::empty());
    assert(digits_val(s.drop_last()) == 0);
}

/// Value of a two-digit sequence.
proof fn lemma_dv2(a: u8, b: u8)
    ensures
        digits_val(seq![a, b]) == digit_val(a) * 10 + digit_val(b),
{
    let s = seq![a, b];
    assert(s.drop_last() =~= seq![a]);
    lemma_dv1(a);
}

/// Value of a three-digit sequence.
proof fn lemma_dv3(a: u8, b: u8, c: u8)
    ensures
        digits_val(seq![a, b, c]) == (digit_val(a) * 10 + digit_val(b)) * 10 + digit_val(c),
{
    let s = seq![a, b, c];
    assert(s.drop_last() =~= seq![a, b]);
    lemma_dv2(a, b);
}

/// Value of a four-digit sequence.
proof fn lemma_dv4(a: u8, b: u8, c: u8, d: u8)
    ensures
        digits_val(seq![a, b, c, d]) == ((digit_val(a) * 10 + digit_val(b)) * 10 + digit_val(c))
            * 10 + digit_val(d),
{
    let s = seq![a, b, c, d];
    assert(s.drop_last() =~= seq![a, b, c]);
    lemma_dv3(a, b, c);
}

/// Rendering an amount and reading the text back yields the amount.
pub proof fn lemma_amount_round_trip(a: i64)
    ensures
        amount_bytes_ok(amount_bytes(a)),
        amount_of_bytes(amount_bytes(a)) == a as int,
{
    let mag: int = if a >= 0 {
        a as int
    } else {
        -(a as int)
    };
    let q = mag / 10000;
    let f = mag % 10000;
    assert(mag == 10000 * q + f) by (nonlinear_arith)
        requires q == mag / 10000, f == mag % 10000, mag >= 0;
    let ip = dec_digits(q as nat);
    lemma_dec_digits_val(q as nat);
    let fb = frac_bytes(f);
    let t = ip + fb;
    let s = amount_bytes(a);
    assert forall|j: int| 0 <= j < ip.len() implies t[j] != 46u8 by {
        assert(t[j] == ip[j]);
        assert(is_digit(ip[j]));
    }
    if f == 0 {
        assert(fb =~= Seq::<u8>::empty());
        assert(t =~= ip);
        lemma_find_byte_at(t, 46u8, t.len() as int);
        assert(t.take(t.len() as int) =~= ip);
        assert(amount_parts_ok(t));
        assert(amount_parts_val(t) == digits_val(ip) * 10000 + digits_val(Seq::<u8>::empty())
            * pow10(4));
        assert(q * 10000 + 0 * pow10(4) == 10000 * q) by (nonlinear_arith);
        assert(amount_parts_val(t) == mag);
    } else {
        assert(fb[0] == 46u8);
        assert(t[ip.len() as int] == 46u8);
        lemma_find_byte_at(t, 46u8, ip.len() as int);
        assert(t.take(ip.len() as int) =~= ip);
        let g = t.skip(ip.len() as int + 1);
        assert(g =~= fb.skip(1));
        assert(0 <= f < 10000);
        let d1 = digit_byte(f / 1000);
        let d2 = digit_byte((f / 100) % 10);
        let d3 = digit_byte((f / 10) % 10);
        let d4 = digit_byte(f % 10);
        assert(f / 1000 <= 9 && 0 <= f / 1000) by (nonlinear_arith)
            requires 0 < f < 10000;
        reveal_with_fuel(pow10, 5);
        if f % 1000 == 0 {
            assert(g =~= seq![d1]);
            lemma_dv1(d1);
            assert(digit_val(d1) == f / 1000);
            assert((f / 1000) * 1000 == f) by (nonlinear_arith)
                requires 0 < f < 10000, f % 1000 == 0;
            assert(digits_val(g) * pow10(3) == f);
        } else if f % 100 == 0 {
            assert(g =~= seq![d1, d2]);
            lemma_dv2(d1, d2);
            assert(((f / 1000) * 10 + (f / 100) % 10) * 100 == f) by (nonlinear_arith)
                requires 0 < f < 10000, f % 100 == 0;
            assert(digits_val(g) * pow10(2) == f);
        } else if f % 10 == 0 {
            assert(g =~= seq![d1, d2, d3]);
            lemma_dv3(d1, d2, d3);
            assert((((f / 1000) * 10 + (f / 100) % 10) * 10 + (f / 10) % 10) * 10 == f) by (
            nonlinear_arith)
                requires 0 < f < 10000, f % 10 == 0;
            assert(digits_val(g) * pow10(1) == f);
        } else {
            assert(g =~= seq![d1, d2, d3, d4]);
            lemma_dv4(d1, d2, d3, d4);
            assert((((f / 1000) * 10 + (f / 100) % 10) * 10 + (f / 10) % 10) * 10 + f % 10 == f)
                by (nonlinear_arith)
                requires 0 < f < 10000;
            assert(digits_val(g) * pow10(0) == f);
        }
        assert(1 <= g.len() <= 4);
        assert forall|j: int| 0 <= j < g.len() implies is_digit(#[trigger] g[j]) by {
            assert(0 <= f / 1000 <= 9 && 0 <= (f / 100) % 10 <= 9 && 0 <= (f / 10) % 10 <= 9 && 0
                <= f % 10 <= 9);
        }
        assert(amount_parts_ok(t));
        assert(amount_parts_val(t) == digits_val(ip) * 10000 + digits_val(g) * pow10(
            (4 - g.len()) as nat,
        ));
        assert(q * 10000 == 10000 * q) by (nonlinear_arith);
        assert(amount_parts_val(t) == mag);
    }
    if a < 0 {
        assert(s =~= seq![45u8] + t);
        assert(s[0] == 45u8);
        assert(s.skip(1) =~= t);
        assert(amount_of_bytes(s) == -mag);
        assert(amount_of_bytes(s) == a as int);
    } else {
        assert(s =~= t);
        assert(s.len() > 0 && s[0] == ip[0]);
        assert(is_digit(s[0]));
        assert(s[0] != 45u8);
        assert(amount_of_bytes(s) == mag);
    }
}

/// The display text of an amount rounded to two decimal places, half
/// away from zero: a sign for negative amounts, the whole part, a dot,
/// and exactly two fractional digits.
pub open spec fn amount_2dp_bytes(a: i64) -> Seq<u8> {
    let mag: int = if a >= 0 {
        a as int
    } else {
        -(a as int)
    };
    let c = (mag + 50) / 100;
    let sign: Seq<u8> = if a < 0 {
        seq![45u8]
    } else {
        Seq::empty()
    };
    sign + dec_digits((c / 100) as nat) + seq![46u8, digit_byte((c / 10) % 10), digit_byte(c % 10)]
}

/// Renders an amount rounded to two decimal places, as a table shows it.
pub fn amount_to_2dp_bytes(a: i64) -> (out: Vec<u8>)
    ensures
        out@ == amount_2dp_bytes(a),
{
    let mut out: Vec<u8> = Vec::new();
    let neg: bool = a < 0;
    if neg {
        out.push(45);
    }
    let mag: u64 = if neg {
        (-(a as i128)) as u64
    } else {
        a as u64
    };
    let c: u64 = (mag + 50) / 100;
    push_digits(&mut out, c / 100);
    out.push(46);
    out.push(48 + ((c / 10) % 10) as u8);
    out.push(48 + (c % 10) as u8);
    proof {
        assert(out@ =~= amount_2dp_bytes(a));
    }
    out
}


/// Every byte of a rendered amount is below 128.
pub proof fn lemma_amount_bytes_ascii(a: i64)
    ensures
        forall|i: int| 0 <= i < amount_bytes(a).len() ==> #[trigger] amount_bytes(a)[i] < 128,
{
    let s = amount_bytes(a);
    let mag: int = if a >= 0 {
        a as int
    } else {
        -(a as int)
    };
    lemma_dec_digits_val((mag / 10000) as nat);
    let ip = dec_digits((mag / 10000) as nat);
    let sign: Seq<u8> = if a < 0 {
        seq![45u8]
    } else {
        Seq::empty()
    };
    let fb = frac_bytes(mag % 10000);
    assert forall|i: int| 0 <= i < s.len() implies #[trigger] s[i] < 128 by {
        if i < sign.len() {
            assert(s[i] == 45u8);
        } else if i < sign.len() + ip.len() {
            assert(s[i] == ip[i - sign.len()]);
            assert(is_digit(ip[i - sign.len()]));
        } else {
            assert(s[i] == fb[i - sign.len() - ip.len()]);
            assert(0 <= mag % 10000 < 10000);
        }
    }
}

/// Every byte of a two-decimal display amount is below 128.
pub proof fn lemma_amount_2dp_bytes_ascii(a: i64)
    ensures
        forall|i: int|
            0 <= i < amount_2dp_bytes(a).len() ==> #[trigger] amount_2dp_bytes(a)[i] < 128,
{
    let s = amount_2dp_bytes(a);
    let mag: int = if a >= 0 {
        a as int
    } else {
        -(a as int)
    };
    let c = (mag + 50) / 100;
    lemma_dec_digits_val((c / 100) as nat);
    let ip = dec_digits((c / 100) as nat);
    let sign: Seq<u8> = if a < 0 {
        seq![45u8]
    } else {
        Seq::empty()
    };
    assert forall|i: int| 0 <= i < s.len() implies #[trigger] s[i] < 128 by {
        if i < sign.len() {
            assert(s[i] == 45u8);
        } else if i < sign.len() + ip.len() {
            assert(s[i] == ip[i - sign.len()]);
            assert(is_digit(ip[i - sign.len()]));
        } else {
            assert(c >= 0);
            assert(0 <= (c / 10) % 10 <= 9 && 0 <= c % 10 <= 9);
        }
    }
}

} // verus!
