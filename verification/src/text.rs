//! Character-level helpers on strings: the characters of a string, exact
//! comparison, whitespace trimming and ASCII lowercasing, each with its
//! meaning stated over `Seq<char>`.

use vstd::prelude::*;

verus! {

broadcast use vstd::string::group_string_axioms;

/// The characters of `s`, in order.
pub fn chars_of(s: &str) -> (r: Vec<char>)
    ensures
        r@ == s@,
{
    let mut out: Vec<char> = Vec::new();
    for c in it: s.chars()
        invariant
            out@ == it.seq().take(it.index() as int),
    {
        out.push(c);
    }
    out
}

/// Whether the characters equal those of `lit`.
pub fn chars_eq(v: &Vec<char>, lit: &str) -> (r: bool)
    ensures
        r == (v@ == lit@),
{
    let n = lit.unicode_len();
    if v.len() != n {
        return false;
    }
    let mut i: usize = 0;
    while i < n
        invariant
            i <= n,
            n == lit@.len(),
            v@.len() == n,
            forall|k: int| 0 <= k < i ==> v@[k] == lit@[k],
        decreases n - i,
    {
        if v[i] != lit.get_char(i) {
            return false;
        }
        i = i + 1;
    }
    assert(v@ =~= lit@);
    true
}

/// Unicode `White_Space`, as `char::is_whitespace` tests it.
pub open spec fn is_white(c: char) -> bool {
    let u = c as u32;
    (0x09 <= u <= 0x0D) || u == 0x20 || u == 0x85 || u == 0xA0 || u == 0x1680 || (0x2000 <= u
        <= 0x200A) || u == 0x2028 || u == 0x2029 || u == 0x202F || u == 0x205F || u == 0x3000
}

pub fn is_white_char(c: char) -> (r: bool)
    ensures
        r == is_white(c),
{
    let u = c as u32;
    (0x09 <= u && u <= 0x0D) || u == 0x20 || u == 0x85 || u == 0xA0 || u == 0x1680 || (0x2000
        <= u && u <= 0x200A) || u == 0x2028 || u == 0x2029 || u == 0x202F || u == 0x205F || u
        == 0x3000
}

/// Index of the first non-whitespace character at or after `i`.
pub open spec fn trim_start_at(s: Seq<char>, i: int) -> int
    decreases s.len() - i,
{
    if i >= s.len() || !is_white(s[i]) {
        i
    } else {
        trim_start_at(s, i + 1)
    }
}

/// One past the last non-whitespace character before `j`, not below `lo`.
pub open spec fn trim_end_at(s: Seq<char>, lo: int, j: int) -> int
    decreases j - lo,
{
    if j <= lo || !is_white(s[j - 1]) {
        j
    } else {
        trim_end_at(s, lo, j - 1)
    }
}

/// `s` without leading and trailing whitespace.
pub open spec fn trimmed(s: Seq<char>) -> Seq<char> {
    let a = trim_start_at(s, 0);
    s.subrange(a, trim_end_at(s, a, s.len() as int))
}

proof fn lemma_trim_start_bounds(s: Seq<char>, i: int)
    requires
        0 <= i <= s.len(),
    ensures
        i <= trim_start_at(s, i) <= s.len(),
    decreases s.len() - i,
{
    if i < s.len() && is_white(s[i]) {
        lemma_trim_start_bounds(s, i + 1);
    }
}

proof fn lemma_trim_end_bounds(s: Seq<char>, lo: int, j: int)
    requires
        lo <= j,
    ensures
        lo <= trim_end_at(s, lo, j) <= j,
    decreases j - lo,
{
    if j > lo && is_white(s[j - 1]) {
        lemma_trim_end_bounds(s, lo, j - 1);
    }
}

/// The characters of `v` without leading and trailing whitespace.
pub fn trim_chars(v: &Vec<char>) -> (r: Vec<char>)
    ensures
        r@ == trimmed(v@),
{
    let n = v.len();
    let mut a: usize = 0;
    while a < n && is_white_char(v[a])
        invariant
            a <= n,
            n == v@.len(),
            trim_start_at(v@, a as int) == trim_start_at(v@, 0),
        decreases n - a,
    {
        a = a + 1;
    }
    let mut b: usize = n;
    while b > a && is_white_char(v[b - 1])
        invariant
            a <= b <= n,
            n == v@.len(),
            a as int == trim_start_at(v@, 0),
            trim_end_at(v@, a as int, b as int) == trim_end_at(v@, a as int, n as int),
        decreases b - a,
    {
        b = b - 1;
    }
    let mut out: Vec<char> = Vec::new();
    let mut i: usize = a;
    while i < b
        invariant
            a <= i <= b,
            b <= v@.len(),
            out@ == v@.subrange(a as int, i as int),
        decreases b - i,
    {
        out.push(v[i]);
        i = i + 1;
        assert(out@ =~= v@.subrange(a as int, i as int));
    }
    out
}

/// `s` without leading and trailing whitespace, as a string.
pub fn trim_string(s: &str) -> (r: String)
    ensures
        r@ == trimmed(s@),
{
    let v = chars_of(s);
    let n = v.len();
    let mut a: usize = 0;
    while a < n && is_white_char(v[a])
        invariant
            a <= n,
            n == v@.len(),
            trim_start_at(v@, a as int) == trim_start_at(v@, 0),
        decreases n - a,
    {
        a = a + 1;
    }
    let mut b: usize = n;
    while b > a && is_white_char(v[b - 1])
        invariant
            a <= b <= n,
            n == v@.len(),
            a as int == trim_start_at(v@, 0),
            trim_end_at(v@, a as int, b as int) == trim_end_at(v@, a as int, n as int),
        decreases b - a,
    {
        b = b - 1;
    }
    String::from_str(s.substring_char(a, b))
}

/// ASCII uppercase letters mapped to lowercase; every other character kept.
pub open spec fn ascii_lower(c: char) -> char {
    if 'A' <= c <= 'Z' {
        ((c as u32) + 32) as char
    } else {
        c
    }
}

/// `s` with ASCII letters lowercased.
pub open spec fn lowered(s: Seq<char>) -> Seq<char> {
    s.map_values(|c: char| ascii_lower(c))
}

/// The characters of `v` with ASCII letters lowercased.
pub fn lower_chars(v: &Vec<char>) -> (r: Vec<char>)
    ensures
        r@ == lowered(v@),
{
    let mut out: Vec<char> = Vec::new();
    let mut i: usize = 0;
    while i < v.len()
        invariant
            i <= v@.len(),
            out@ == lowered(v@).take(i as int),
        decreases v@.len() - i,
    {
        let c = v[i];
        let l = if 'A' <= c && c <= 'Z' {
            ((c as u8) + 32) as char
        } else {
            c
        };
        assert(l == ascii_lower(c)) by {
            if 'A' <= c <= 'Z' {
                assert((c as u8) as u32 == c as u32);
            }
        }
        out.push(l);
        i = i + 1;
        assert(out@ =~= lowered(v@).take(i as int));
    }
    assert(lowered(v@).take(i as int) =~= lowered(v@));
    out
}

/// The decimal digit character for `d < 10`.
pub open spec fn digit_char(d: int) -> char {
    (('0' as u32) + d) as char
}

/// The decimal representation of `v`, without leading zeros.
pub open spec fn decimal(v: nat) -> Seq<char>
    decreases v,
{
    if v < 10 {
        seq![digit_char(v as int)]
    } else {
        decimal(v / 10).push(digit_char((v % 10) as int))
    }
}

/// `v` in decimal, left-padded with zeros to at least `w` characters.
pub open spec fn padded(v: nat, w: nat) -> Seq<char> {
    let d = decimal(v);
    if d.len() < w {
        Seq::new((w - d.len()) as nat, |i: int| '0') + d
    } else {
        d
    }
}

/// The one-character string of a decimal digit.
fn digit_str(d: u128) -> (r: &'static str)
    requires
        d < 10,
    ensures
        r@ == seq![digit_char(d as int)],
{
    match d {
        0 => {
            proof {
                reveal_strlit("0");
            }
            "0"
        },
        1 => {
            proof {
                reveal_strlit("1");
            }
            "1"
        },
        2 => {
            proof {
                reveal_strlit("2");
            }
            "2"
        },
        3 => {
            proof {
                reveal_strlit("3");
            }
            "3"
        },
        4 => {
            proof {
                reveal_strlit("4");
            }
            "4"
        },
        5 => {
            proof {
                reveal_strlit("5");
            }
            "5"
        },
        6 => {
            proof {
                reveal_strlit("6");
            }
            "6"
        },
        7 => {
            proof {
                reveal_strlit("7");
            }
            "7"
        },
        8 => {
            proof {
                reveal_strlit("8");
            }
            "8"
        },
        _ => {
            proof {
                reveal_strlit("9");
            }
            "9"
        },
    }
}

/// Appends `v` in decimal.
pub fn append_decimal(s: &mut String, v: u128)
    ensures
        final(s)@ == old(s)@ + decimal(v as nat),
    decreases v,
{
    if v >= 10 {
        append_decimal(s, v / 10);
    }
    s.append(digit_str(v % 10));
    proof {
        if v >= 10 {
            assert(decimal(v as nat) == decimal((v / 10) as nat).push(digit_char((v % 10) as int)));
        }
    }
    assert(final(s)@ =~= old(s)@ + decimal(v as nat));
}

/// Number of decimal digits of `v`.
fn decimal_len(v: u64) -> (r: usize)
    ensures
        r == decimal(v as nat).len(),
        r <= 20,
    decreases v,
{
    if v < 10 {
        1
    } else {
        let k = decimal_len(v / 10);
        proof {
            assert(decimal(v as nat).len() == decimal((v / 10) as nat).len() + 1);
            lemma_decimal_len_bound(v);
        }
        k + 1
    }
}

proof fn lemma_decimal_len_bound(v: u64)
    ensures
        decimal(v as nat).len() <= 20,
{
    assert(pow10(20) == 100000000000000000000nat) by {
        reveal_with_fuel(pow10, 21);
    }
    lemma_decimal_len_le(v as nat, 20);
}

proof fn lemma_decimal_len_le(v: nat, k: nat)
    requires
        v < pow10(k),
        k >= 1,
    ensures
        decimal(v).len() <= k,
    decreases v,
{
    if v >= 10 {
        assert(k >= 2) by {
            if k == 1 {
                assert(pow10(1) == 10 * pow10(0));
            }
        }
        assert(v / 10 < pow10((k - 1) as nat)) by {
            assert(pow10(k) == 10 * pow10((k - 1) as nat));
        }
        lemma_decimal_len_le(v / 10, (k - 1) as nat);
    }
}

pub open spec fn pow10(k: nat) -> nat
    decreases k,
{
    if k == 0 {
        1
    } else {
        10 * pow10((k - 1) as nat)
    }
}

/// Appends `v` in decimal, zero-padded to `w` characters.
pub fn append_padded(s: &mut String, v: u64, w: usize)
    ensures
        final(s)@ == old(s)@ + padded(v as nat, w as nat),
{
    let len = decimal_len(v);
    let mut k: usize = len;
    while k < w
        invariant
            len <= k <= (if len < w { w } else { len }),
            len == decimal(v as nat).len(),
            s@ == old(s)@ + Seq::new((k - len) as nat, |i: int| '0'),
        decreases w - k,
    {
        proof {
            reveal_strlit("0");
        }
        s.append("0");
        k = k + 1;
        assert(s@ =~= old(s)@ + Seq::new((k - len) as nat, |i: int| '0'));
    }
    let ghost mid = s@;
    append_decimal(s, v as u128);
    assert(final(s)@ =~= old(s)@ + padded(v as nat, w as nat));
}

/// An integer in decimal, with a leading `-` when negative.
pub open spec fn int_text(v: int) -> Seq<char> {
    if v < 0 {
        "-"@ + decimal((-v) as nat)
    } else {
        decimal(v as nat)
    }
}

/// Appends an `i128` in decimal.
pub fn append_int(s: &mut String, v: i128)
    ensures
        final(s)@ == old(s)@ + int_text(v as int),
{
    if v < 0 {
        s.append("-");
        let m: u128 = if v == i128::MIN { 170141183460469231731687303715884105728u128 } else { (-v) as u128 };
        append_decimal(s, m);
    } else {
        append_decimal(s, v as u128);
    }
    assert(final(s)@ =~= old(s)@ + int_text(v as int));
}

} // verus!
