//! Reading one field of a catalog row: cell lookup by column name, and the
//! unsigned-integer and exact decimal readings of a cell's text, with the
//! messages of the errors the catalog reports.

use crate::frac::{reduce, Frac};
use crate::text::pow10;
use vstd::prelude::*;
use vstd::string::StringExecFns;

verus! {

/// The message of an unsigned parse of text with a non-digit.
pub const INVALID_DIGIT: &'static str = "invalid digit found in string";

/// The message of an unsigned parse whose value exceeds the type.
pub const TOO_LARGE: &'static str = "number too large to fit in target type";

/// The message of a decimal parse of text that is no decimal literal.
pub const INVALID_DECIMAL: &'static str = "invalid float literal";

/// The message of a decimal literal too long to hold exactly.
pub const DECIMAL_TOO_LONG: &'static str = "decimal literal has too many digits to hold exactly";

pub open spec fn is_digit(c: char) -> bool {
    '0' <= c <= '9'
}

pub open spec fn digit_of(c: char) -> int {
    c as int - '0' as int
}

/// Scans the digits of `s` from `i`, accumulating onto `acc`: the value,
/// or the message of the first non-digit or of the first prefix whose
/// value exceeds `max`.
pub open spec fn uint_scan(s: Seq<char>, i: int, acc: int, max: int) -> Result<int, Seq<char>>
    decreases s.len() - i,
{
    if i >= s.len() {
        Ok(acc)
    } else if !is_digit(s[i]) {
        Err(INVALID_DIGIT@)
    } else if acc * 10 + digit_of(s[i]) > max {
        Err(TOO_LARGE@)
    } else {
        uint_scan(s, i + 1, acc * 10 + digit_of(s[i]), max)
    }
}

/// An unsigned integer of at most `max` as `str::parse` reads it from
/// non-empty text: an optional `+`, then decimal digits.
pub open spec fn uint_parse(s: Seq<char>, max: int) -> Result<int, Seq<char>> {
    if s.len() > 0 && s[0] == '+' {
        if s.len() == 1 {
            Err(INVALID_DIGIT@)
        } else {
            uint_scan(s, 1, 0, max)
        }
    } else {
        uint_scan(s, 0, 0, max)
    }
}

/// Reads an unsigned integer of at most `max`, as [`uint_parse`] says.
pub fn parse_uint(s: &Vec<char>, max: u64) -> (r: Result<u64, String>)
    requires
        s@.len() > 0,
    ensures
        match (r, uint_parse(s@, max as int)) {
            (Ok(v), Ok(w)) => v as int == w,
            (Err(m), Err(w)) => m@ == w,
            _ => false,
        },
        r matches Ok(v) ==> v <= max,
{
    let n = s.len();
    let mut i: usize = 0;
    if s[0] == '+' {
        if n == 1 {
            return Err(String::from_str(INVALID_DIGIT));
        }
        i = 1;
    }
    let ghost start = i as int;
    let mut acc: u64 = 0;
    while i < n
        invariant
            n == s@.len(),
            start <= i <= n,
            acc <= max,
            uint_scan(s@, i as int, acc as int, max as int) == uint_parse(s@, max as int),
        decreases n - i,
    {
        let c = s[i];
        if c < '0' || c > '9' {
            return Err(String::from_str(INVALID_DIGIT));
        }
        let d = (c as u32 - '0' as u32) as u64;
        assert(d as int == digit_of(c));
        if d > max || acc > (max - d) / 10 {
            proof {
                if d <= max {
                    assert(acc * 10 + d > max) by (nonlinear_arith)
                        requires acc > (max - d) / 10, d <= max;
                }
            }
            return Err(String::from_str(TOO_LARGE));
        }
        assert(acc * 10 + d <= max) by (nonlinear_arith)
            requires acc <= (max - d) / 10, d <= max;
        acc = acc * 10 + d;
        i = i + 1;
    }
    Ok(acc)
}

/// Index of the first `.` of `s` at or after `i`, or `s.len()`.
pub open spec fn point_at(s: Seq<char>, i: int) -> int
    decreases s.len() - i,
{
    if i >= s.len() {
        s.len() as int
    } else if s[i] == '.' {
        i
    } else {
        point_at(s, i + 1)
    }
}

pub open spec fn all_digits(s: Seq<char>) -> bool {
    forall|i: int| 0 <= i < s.len() ==> is_digit(#[trigger] s[i])
}

/// The value of a run of decimal digits.
pub open spec fn digits_value(s: Seq<char>) -> int
    decreases s.len(),
{
    if s.len() == 0 {
        0
    } else {
        digits_value(s.drop_last()) * 10 + digit_of(s.last())
    }
}

/// The text after an optional leading sign.
pub open spec fn unsigned_body(s: Seq<char>) -> Seq<char> {
    if s.len() > 0 && (s[0] == '+' || s[0] == '-') {
        s.drop_first()
    } else {
        s
    }
}

/// The digits before the decimal point.
pub open spec fn whole_digits(s: Seq<char>) -> Seq<char> {
    let b = unsigned_body(s);
    b.take(point_at(b, 0))
}

/// The digits after the decimal point.
pub open spec fn fraction_digits(s: Seq<char>) -> Seq<char> {
    let b = unsigned_body(s);
    let p = point_at(b, 0);
    if p < b.len() {
        b.skip(p + 1)
    } else {
        Seq::empty()
    }
}

/// `[+-]digits[.digits]` with at least one digit in all.
pub open spec fn is_decimal_literal(s: Seq<char>) -> bool {
    &&& all_digits(whole_digits(s))
    &&& all_digits(fraction_digits(s))
    &&& whole_digits(s).len() + fraction_digits(s).len() > 0
}

/// A literal's digits as one integer, and the power of ten it is divided
/// by.
pub open spec fn decimal_scaled(s: Seq<char>) -> (int, int) {
    let m = digits_value(whole_digits(s) + fraction_digits(s));
    (if s.len() > 0 && s[0] == '-' { -m } else { m }, pow10(fraction_digits(s).len()) as int)
}

/// A decimal literal read exactly, as a reduced fraction, or the message
/// of why not: not a literal, or more digits than `i128` holds.
pub open spec fn decimal_reading(s: Seq<char>) -> Result<(int, int), Seq<char>> {
    let (m, d) = decimal_scaled(s);
    if !is_decimal_literal(s) {
        Err(INVALID_DECIMAL@)
    } else if digits_value(whole_digits(s) + fraction_digits(s)) > i128::MAX || d > i128::MAX {
        Err(DECIMAL_TOO_LONG@)
    } else {
        Ok(reduce(m, d))
    }
}

proof fn lemma_digits_value_nonneg(s: Seq<char>)
    requires
        all_digits(s),
    ensures
        digits_value(s) >= 0,
    decreases s.len(),
{
    if s.len() > 0 {
        assert(all_digits(s.drop_last()));
        lemma_digits_value_nonneg(s.drop_last());
        assert(is_digit(s[s.len() - 1]));
    }
}

proof fn lemma_digits_value_prefix(s: Seq<char>, j: int)
    requires
        all_digits(s),
        0 <= j <= s.len(),
    ensures
        digits_value(s.take(j)) <= digits_value(s),
    decreases s.len() - j,
{
    if j < s.len() {
        lemma_digits_value_prefix(s, j + 1);
        assert(s.take(j + 1).drop_last() =~= s.take(j));
        assert(all_digits(s.take(j)));
        lemma_digits_value_nonneg(s.take(j));
        assert(is_digit(s[j]));
    } else {
        assert(s.take(j) =~= s);
    }
}

proof fn lemma_pow10_mono(a: nat, b: nat)
    requires
        a <= b,
    ensures
        pow10(a) <= pow10(b),
    decreases b,
{
    if a < b {
        lemma_pow10_mono(a, (b - 1) as nat);
    }
}

/// The digits of `s` from `lo` to `hi` when they are all digits.
fn digit_run(s: &Vec<char>, lo: usize, hi: usize) -> (r: Option<Vec<char>>)
    requires
        lo <= hi <= s@.len(),
    ensures
        r is Some <==> all_digits(s@.subrange(lo as int, hi as int)),
        r matches Some(v) ==> v@ == s@.subrange(lo as int, hi as int),
{
    let mut out: Vec<char> = Vec::new();
    let mut i = lo;
    while i < hi
        invariant
            lo <= i <= hi,
            hi <= s@.len(),
            out@ == s@.subrange(lo as int, i as int),
            all_digits(out@),
        decreases hi - i,
    {
        let c = s[i];
        if c < '0' || c > '9' {
            assert(s@.subrange(lo as int, hi as int)[i - lo] == c);
            return None;
        }
        out.push(c);
        i = i + 1;
        assert(out@ =~= s@.subrange(lo as int, i as int));
    }
    Some(out)
}

/// The value of a run of digits, when it fits `i128`.
fn digits_number(ds: &Vec<char>) -> (r: Option<i128>)
    requires
        all_digits(ds@),
    ensures
        r is Some <==> digits_value(ds@) <= i128::MAX,
        r matches Some(m) ==> m as int == digits_value(ds@) && m >= 0,
{
    let mut m: i128 = 0;
    let mut j: usize = 0;
    assert(ds@.take(0) =~= Seq::<char>::empty());
    while j < ds.len()
        invariant
            j <= ds@.len(),
            all_digits(ds@),
            m as int == digits_value(ds@.take(j as int)),
            m >= 0,
        decreases ds@.len() - j,
    {
        let c = ds[j];
        assert(is_digit(ds@[j as int]));
        let d = (c as u32 - '0' as u32) as i128;
        assert(ds@.take(j + 1).drop_last() =~= ds@.take(j as int));
        assert(digits_value(ds@.take(j + 1)) == m * 10 + d);
        if m > (170141183460469231731687303715884105727i128 - d) / 10 {
            proof {
                assert(m * 10 + d > i128::MAX) by (nonlinear_arith)
                    requires m > (i128::MAX - d) / 10, 0 <= d <= 9;
                lemma_digits_value_prefix(ds@, j + 1);
            }
            return None;
        }
        assert(m * 10 + d <= i128::MAX) by (nonlinear_arith)
            requires m <= (i128::MAX - d) / 10, 0 <= d <= 9;
        m = m * 10 + d;
        j = j + 1;
    }
    assert(ds@.take(ds@.len() as int) =~= ds@);
    Some(m)
}

/// Ten to the `k`, when it fits `i128`.
fn power_of_ten(k: usize) -> (r: Option<i128>)
    ensures
        r is Some <==> pow10(k as nat) <= i128::MAX,
        r matches Some(d) ==> d as int == pow10(k as nat) && d >= 1,
{
    let mut den: i128 = 1;
    let mut t: usize = 0;
    while t < k
        invariant
            t <= k,
            den as int == pow10(t as nat),
            den >= 1,
        decreases k - t,
    {
        assert(pow10((t + 1) as nat) == 10 * pow10(t as nat));
        if den > 17014118346046923173168730371588410572i128 {
            proof {
                assert(10 * den > i128::MAX) by (nonlinear_arith)
                    requires den > 17014118346046923173168730371588410572int;
                lemma_pow10_mono((t + 1) as nat, k as nat);
            }
            return None;
        }
        den = den * 10;
        t = t + 1;
    }
    Some(den)
}

/// Reads a decimal literal exactly, as [`decimal_reading`] says.
pub fn parse_decimal(s: &Vec<char>) -> (r: Result<Frac, String>)
    ensures
        match (r, decimal_reading(s@)) {
            (Ok(f), Ok(q)) => f.wf() && f@ == q,
            (Err(m), Err(w)) => m@ == w,
            _ => false,
        },
{
    let n = s.len();
    let mut start: usize = 0;
    let mut negative = false;
    if n > 0 && (s[0] == '+' || s[0] == '-') {
        negative = s[0] == '-';
        start = 1;
    }
    let ghost body = unsigned_body(s@);
    assert(body =~= s@.subrange(start as int, n as int));
    let mut p: usize = start;
    while p < n && s[p] != '.'
        invariant
            start <= p <= n,
            n == s@.len(),
            body == s@.subrange(start as int, n as int),
            point_at(body, (p - start) as int) == point_at(body, 0),
        decreases n - p,
    {
        p = p + 1;
    }
    assert(point_at(body, 0) == p - start);
    let whole = match digit_run(s, start, p) {
        Some(v) => v,
        None => {
            assert(s@.subrange(start as int, p as int) =~= whole_digits(s@));
            return Err(String::from_str(INVALID_DECIMAL));
        },
    };
    assert(whole@ =~= whole_digits(s@));
    let frac_lo: usize = if p < n { p + 1 } else { n };
    let fraction = match digit_run(s, frac_lo, n) {
        Some(v) => v,
        None => {
            assert(s@.subrange(frac_lo as int, n as int) =~= fraction_digits(s@));
            return Err(String::from_str(INVALID_DECIMAL));
        },
    };
    assert(fraction@ =~= fraction_digits(s@));
    if whole.len() + fraction.len() == 0 {
        return Err(String::from_str(INVALID_DECIMAL));
    }
    let k = fraction.len();
    let mut digits = whole;
    let mut fr = fraction;
    digits.append(&mut fr);
    assert(digits@ == whole_digits(s@) + fraction_digits(s@));
    assert(all_digits(digits@));
    let m = match digits_number(&digits) {
        Some(m) => m,
        None => return Err(String::from_str(DECIMAL_TOO_LONG)),
    };
    let den = match power_of_ten(k) {
        Some(d) => d,
        None => return Err(String::from_str(DECIMAL_TOO_LONG)),
    };
    let num: i128 = if negative { -m } else { m };
    match Frac::new(num, den) {
        Ok(f) => Ok(f),
        Err(_) => Err(String::from_str(DECIMAL_TOO_LONG)),
    }
}

} // verus!
