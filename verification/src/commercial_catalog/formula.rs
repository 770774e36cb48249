//! Chemical formula parsing, exact: the grammar
//!
//! ```text
//! formula := unit+
//! unit    := element number? | '(' formula ')' number?
//! number  := digit+ ('.' digit+)?
//! hydrate := formula '\u{B7}' number? formula
//! ```
//!
//! with the middle dot as the only hydrate separator (an ASCII `.` is
//! always a decimal point), nesting at most 64 groups deep, surrounding
//! whitespace trimmed, and anything else a parse error. Decimal subscripts
//! are read as exact rationals.

use crate::commercial_catalog::model::{digit_value, is_digit, CommercialCatalogError};
use crate::composition::{element_spelled, is_element_symbol, pairs_map, Composition, Element};
use crate::frac::{add_fits, add_pair, fits_i128, mul_fits, mul_pair, reduce, Frac};
use crate::linalg::Q;
use crate::text::{chars_of, pow10, trim_chars, trimmed};
use vstd::prelude::*;
use vstd::string::{StrSliceExecFns, StringExecFns};

verus! {

pub open spec fn is_upper(c: char) -> bool {
    'A' <= c <= 'Z'
}

pub open spec fn is_lower(c: char) -> bool {
    'a' <= c <= 'z'
}

/// The end of the run of digits starting at `i`.
pub open spec fn digits_end(s: Seq<char>, i: int) -> int
    decreases s.len() - i,
{
    if 0 <= i < s.len() && is_digit(s[i]) {
        digits_end(s, i + 1)
    } else {
        i
    }
}

/// The decimal value of the digits `s[i..j]`.
pub open spec fn digits_value(s: Seq<char>, i: int, j: int) -> int
    decreases j - i,
{
    if j <= i {
        0
    } else {
        digits_value(s, i, j - 1) * 10 + digit_value(s[j - 1])
    }
}

/// The number starting at `i`, as an exact rational in lowest terms and
/// the position after it; `None` when no digit starts there.
pub open spec fn number_at(s: Seq<char>, i: int) -> Option<(Q, int)> {
    if !(0 <= i < s.len() && is_digit(s[i])) {
        None
    } else {
        let j = digits_end(s, i);
        if j + 1 < s.len() && s[j] == '.' && is_digit(s[j + 1]) {
            let k = digits_end(s, j + 1);
            let p = pow10((k - j - 1) as nat) as int;
            Some((reduce(digits_value(s, i, j) * p + digits_value(s, j + 1, k), p), k))
        } else {
            Some((reduce(digits_value(s, i, j), 1), j))
        }
    }
}

/// The number at `i` (when one starts there) is held exactly in `i128`:
/// its digits read as one integer, and the power of ten under a decimal
/// point, each at most `i128::MAX`.
pub open spec fn number_fits(s: Seq<char>, i: int) -> bool {
    let j = digits_end(s, i);
    if j + 1 < s.len() && s[j] == '.' && is_digit(s[j + 1]) {
        let k = digits_end(s, j + 1);
        let p = pow10((k - j - 1) as nat) as int;
        digits_value(s, i, j) * p + digits_value(s, j + 1, k) <= i128::MAX && p <= i128::MAX
    } else {
        digits_value(s, i, j) <= i128::MAX
    }
}

/// No number starts at `i`, or the one that does fits.
pub open spec fn number_ok(s: Seq<char>, i: int) -> bool {
    number_at(s, i) is Some ==> number_fits(s, i)
}

/// Adding `q` of `e` to `acc` stays within `i128`.
pub open spec fn amount_fits(acc: Map<Element, Q>, e: Element, q: Q) -> bool {
    acc.contains_key(e) ==> add_fits(acc[e], q)
}

/// Adding every amount of `inner`, times `f`, to `acc` stays within
/// `i128`: each product, and each sum with an amount already there.
pub open spec fn merge_fits(acc: Map<Element, Q>, inner: Map<Element, Q>, f: Q) -> bool {
    forall|e: Element| #[trigger]
        inner.contains_key(e) ==> mul_fits(inner[e], f) && (acc.contains_key(e) ==> add_fits(
            acc[e],
            qmul(inner[e], f),
        ))
}

/// The element whose symbol starts at `i`, and the position after it: two
/// letters when they spell an element, else one.
pub open spec fn element_at(s: Seq<char>, i: int) -> Option<(Element, int)> {
    if !(0 <= i < s.len() && is_upper(s[i])) {
        None
    } else if i + 1 < s.len() && is_lower(s[i + 1]) && is_element_symbol(s.subrange(i, i + 2)) {
        Some((element_spelled(s.subrange(i, i + 2)), i + 2))
    } else if is_element_symbol(s.subrange(i, i + 1)) {
        Some((element_spelled(s.subrange(i, i + 1)), i + 1))
    } else {
        None
    }
}

/// Exact sum in lowest terms.
pub open spec fn qadd(a: Q, b: Q) -> Q {
    reduce(add_pair(a, b).0, add_pair(a, b).1)
}

/// Exact product in lowest terms.
pub open spec fn qmul(a: Q, b: Q) -> Q {
    reduce(mul_pair(a, b).0, mul_pair(a, b).1)
}

/// `acc` with `q` more of `e`.
pub open spec fn add_amount(acc: Map<Element, Q>, e: Element, q: Q) -> Map<Element, Q> {
    if acc.contains_key(e) {
        acc.insert(e, qadd(acc[e], q))
    } else {
        acc.insert(e, q)
    }
}

/// `acc` with every amount of `inner` added `f` times.
pub open spec fn merge_scaled(acc: Map<Element, Q>, inner: Map<Element, Q>, f: Q) -> Map<Element, Q> {
    Map::new(
        |e: Element| acc.contains_key(e) || inner.contains_key(e),
        |e: Element|
            if !inner.contains_key(e) {
                acc[e]
            } else if acc.contains_key(e) {
                qadd(acc[e], qmul(inner[e], f))
            } else {
                qmul(inner[e], f)
            },
    )
}

/// Deepest nesting of parenthesized groups.
pub const MAX_NESTING_DEPTH: usize = 64;

/// The units of one group, read from `i` on at nesting `depth`, added to
/// `acc`: the amounts and the position of the `)` or the end that closes
/// the group. `None` on a syntax error, on an empty group, on nesting
/// deeper than [`MAX_NESTING_DEPTH`], and when an exact amount, subscript or
/// intermediate sum or product leaves `i128`. `saw` records whether a unit was read;
/// `fuel` bounds the recursion (one more than the characters left always
/// suffices).
pub open spec fn walk(s: Seq<char>, i: int, depth: nat, fuel: nat, acc: Map<Element, Q>, saw: bool) -> Option<(Map<Element, Q>, int)>
    decreases fuel,
{
    if fuel == 0 || i < 0 {
        None
    } else if i >= s.len() || s[i] == ')' {
        if saw {
            Some((acc, i))
        } else {
            None
        }
    } else if is_upper(s[i]) {
        match element_at(s, i) {
            None => None,
            Some((e, j)) => {
                let (q, k) = match number_at(s, j) {
                    Some(n) => n,
                    None => ((1int, 1int), j),
                };
                if !number_ok(s, j) || !amount_fits(acc, e, q) {
                    None
                } else {
                    walk(s, k, depth, (fuel - 1) as nat, add_amount(acc, e, q), true)
                }
            },
        }
    } else if s[i] == '(' {
        if depth >= MAX_NESTING_DEPTH {
            None
        } else {
            match walk(s, i + 1, depth + 1, (fuel - 1) as nat, Map::empty(), false) {
                None => None,
                Some((inner, j)) => {
                    if 0 <= j < s.len() && s[j] == ')' {
                        let (f, k) = match number_at(s, j + 1) {
                            Some(n) => n,
                            None => ((1int, 1int), j + 1),
                        };
                        if !number_ok(s, j + 1) || !merge_fits(acc, inner, f) {
                            None
                        } else {
                            walk(s, k, depth, (fuel - 1) as nat, merge_scaled(acc, inner, f), true)
                        }
                    } else {
                        None
                    }
                },
            }
        }
    } else {
        None
    }
}

/// The amounts of a whole formula without hydrate part: one group that
/// runs to the end.
pub open spec fn fragment_amounts(s: Seq<char>) -> Option<Map<Element, Q>> {
    match walk(s, 0, 0, (s.len() + 1) as nat, Map::empty(), false) {
        Some((m, j)) => if j == s.len() {
            Some(m)
        } else {
            None
        },
        None => None,
    }
}

/// The hydrate separator.
pub open spec fn is_middle_dot(c: char) -> bool {
    c == '\u{B7}'
}

/// A formula with its one hydrate separator at `p`: the main part, plus the
/// part after the separator times its leading multiplier (one when absent).
pub open spec fn hydrate_amounts(t: Seq<char>, p: int) -> Option<Map<Element, Q>> {
    let hyd = t.subrange(p + 1, t.len() as int);
    let (f, k) = match number_at(hyd, 0) {
        Some(n) => n,
        None => ((1int, 1int), 0int),
    };
    if !number_ok(hyd, 0) {
        None
    } else {
        match (fragment_amounts(t.subrange(0, p)), fragment_amounts(hyd.subrange(k, hyd.len() as int))) {
            (Some(main), Some(h)) => if merge_fits(main, h, f) {
                Some(merge_scaled(main, h, f))
            } else {
                None
            },
            _ => None,
        }
    }
}

/// The element amounts that the (already trimmed) formula `t` spells, or
/// `None` when it is not in the grammar, holds more than one separator, or
/// needs an exact value outside `i128` on the way.
pub open spec fn formula_amounts(t: Seq<char>) -> Option<Map<Element, Q>> {
    if exists|p: int, q: int|
        0 <= p < q < t.len() && is_middle_dot(#[trigger] t[p]) && is_middle_dot(#[trigger] t[q]) {
        None
    } else if exists|p: int| 0 <= p < t.len() && is_middle_dot(#[trigger] t[p]) {
        hydrate_amounts(t, choose|p: int| 0 <= p < t.len() && is_middle_dot(#[trigger] t[p]))
    } else {
        fragment_amounts(t)
    }
}

/// The trimmed formula `t` has amounts, at least one, each positive.
pub open spec fn formula_accepted(t: Seq<char>) -> bool {
    match formula_amounts(t) {
        Some(m) => m.dom() != Set::<Element>::empty() && forall|e: Element| #[trigger]
            m.contains_key(e) ==> m[e].0 > 0,
        None => false,
    }
}

/// Elements of a listing, each at most once.
pub open spec fn distinct_elements(v: Seq<(Element, Frac)>) -> bool {
    forall|a: int, b: int| 0 <= a < b < v.len() ==> v[a].0 != v[b].0
}

/// Every amount of a listing in lowest terms.
pub open spec fn all_wf(v: Seq<(Element, Frac)>) -> bool {
    forall|a: int| 0 <= a < v.len() ==> (#[trigger] v[a]).1.wf()
}

/// The amounts of a listing with distinct elements.
pub open spec fn amounts_of(v: Seq<(Element, Frac)>) -> Map<Element, Q> {
    Map::new(
        |e: Element| exists|a: int| 0 <= a < v.len() && v[a].0 == e,
        |e: Element| v[choose|a: int| 0 <= a < v.len() && v[a].0 == e].1@,
    )
}

proof fn lemma_amounts_lookup(v: Seq<(Element, Frac)>, a: int)
    requires
        distinct_elements(v),
        0 <= a < v.len(),
    ensures
        amounts_of(v).contains_key(v[a].0),
        amounts_of(v)[v[a].0] == v[a].1@,
{
    let e = v[a].0;
    assert(exists|b: int| 0 <= b < v.len() && v[b].0 == e);
    let b = choose|b: int| 0 <= b < v.len() && v[b].0 == e;
    if b < a {
        assert(v[b].0 != v[a].0);
    } else if b > a {
        assert(v[a].0 != v[b].0);
    }
}

proof fn lemma_amounts_push(v: Seq<(Element, Frac)>, e: Element, f: Frac)
    requires
        distinct_elements(v),
        !amounts_of(v).contains_key(e),
    ensures
        distinct_elements(v.push((e, f))),
        amounts_of(v.push((e, f))) == amounts_of(v).insert(e, f@),
{
    let w = v.push((e, f));
    assert forall|a: int, b: int| 0 <= a < b < w.len() implies w[a].0 != w[b].0 by {
        if b == v.len() {
            assert(w[a].0 == v[a].0);
            if v[a].0 == e {
                assert(amounts_of(v).contains_key(e));
            }
        } else {
            assert(w[a] == v[a] && w[b] == v[b]);
        }
    }
    let m = amounts_of(v).insert(e, f@);
    assert forall|x: Element| #[trigger] amounts_of(w).contains_key(x) <==> m.contains_key(x) by {
        if amounts_of(w).contains_key(x) && x != e {
            let b = choose|b: int| 0 <= b < w.len() && w[b].0 == x;
            assert(w[b] == v[b]);
        }
        if m.contains_key(x) {
            if x == e {
                assert(w[v.len() as int].0 == x);
            } else {
                let b = choose|b: int| 0 <= b < v.len() && v[b].0 == x;
                assert(w[b].0 == x);
            }
        }
    }
    assert forall|x: Element| #[trigger] amounts_of(w).contains_key(x) implies amounts_of(w)[x] == m[x] by {
        let b = choose|b: int| 0 <= b < w.len() && w[b].0 == x;
        lemma_amounts_lookup(w, b);
        if b < v.len() {
            assert(w[b] == v[b]);
            lemma_amounts_lookup(v, b);
        }
    }
    assert(amounts_of(w) =~= m);
}

proof fn lemma_amounts_update(v: Seq<(Element, Frac)>, a: int, f: Frac)
    requires
        distinct_elements(v),
        0 <= a < v.len(),
    ensures
        distinct_elements(v.update(a, (v[a].0, f))),
        amounts_of(v.update(a, (v[a].0, f))) == amounts_of(v).insert(v[a].0, f@),
{
    let w = v.update(a, (v[a].0, f));
    assert forall|x: int, y: int| 0 <= x < y < w.len() implies w[x].0 != w[y].0 by {
        assert(w[x].0 == v[x].0 && w[y].0 == v[y].0);
    }
    let m = amounts_of(v).insert(v[a].0, f@);
    assert forall|x: Element| #[trigger] amounts_of(w).contains_key(x) <==> m.contains_key(x) by {
        if amounts_of(w).contains_key(x) {
            let b = choose|b: int| 0 <= b < w.len() && w[b].0 == x;
            assert(v[b].0 == x);
        }
        if m.contains_key(x) {
            if x == v[a].0 {
                assert(w[a].0 == x);
            } else {
                let b = choose|b: int| 0 <= b < v.len() && v[b].0 == x;
                assert(w[b].0 == x);
            }
        }
    }
    assert forall|x: Element| #[trigger] amounts_of(w).contains_key(x) implies amounts_of(w)[x] == m[x] by {
        let b = choose|b: int| 0 <= b < w.len() && w[b].0 == x;
        lemma_amounts_lookup(w, b);
        if b != a {
            assert(w[b] == v[b]);
            lemma_amounts_lookup(v, b);
        }
    }
    assert(amounts_of(w) =~= m);
}

/// For distinct elements, the last-wins map of a listing holds the same
/// amounts.
proof fn lemma_pairs_map_distinct(v: Seq<(Element, Frac)>)
    requires
        distinct_elements(v),
    ensures
        forall|e: Element| #[trigger] pairs_map(v).contains_key(e) <==> amounts_of(v).contains_key(e),
        forall|e: Element| #[trigger] pairs_map(v).contains_key(e) ==> pairs_map(v)[e]@ == amounts_of(v)[e],
    decreases v.len(),
{
    if v.len() > 0 {
        let u = v.drop_last();
        assert(distinct_elements(u)) by {
            assert forall|a: int, b: int| 0 <= a < b < u.len() implies u[a].0 != u[b].0 by {
                assert(u[a] == v[a] && u[b] == v[b]);
            }
        }
        lemma_pairs_map_distinct(u);
        let l = v.last();
        if amounts_of(u).contains_key(l.0) {
            let b = choose|b: int| 0 <= b < u.len() && u[b].0 == l.0;
            assert(v[b].0 == v[v.len() - 1].0);
        }
        lemma_amounts_push(u, l.0, l.1);
        assert(u.push(l) =~= v);
        assert(pairs_map(v) == pairs_map(u).insert(l.0, l.1));
        assert(amounts_of(v) == amounts_of(u).insert(l.0, l.1@));
        assert forall|e: Element| #[trigger] pairs_map(v).contains_key(e) ==> pairs_map(v)[e]@
            == amounts_of(v)[e] by {
            if e != l.0 && pairs_map(v).contains_key(e) {
                assert(pairs_map(u).contains_key(e));
            }
        }
    } else {
        assert forall|e: Element| !#[trigger] amounts_of(v).contains_key(e) by {}
        assert(pairs_map(v) == Map::<Element, Frac>::empty());
    }
}

proof fn lemma_digits_end(s: Seq<char>, i: int)
    requires
        0 <= i <= s.len(),
    ensures
        i <= digits_end(s, i) <= s.len(),
        forall|k: int| i <= k < digits_end(s, i) ==> is_digit(#[trigger] s[k]),
    decreases s.len() - i,
{
    if i < s.len() && is_digit(s[i]) {
        lemma_digits_end(s, i + 1);
    }
}

/// Digit values are not negative and grow as digits are added.
proof fn lemma_digits_grow(s: Seq<char>, i: int, j: int, k: int)
    requires
        i <= j <= k,
        forall|q: int| i <= q < k ==> is_digit(#[trigger] s[q]),
    ensures
        0 <= digits_value(s, i, j) <= digits_value(s, i, k),
    decreases k - i,
{
    if k > i {
        if j < k {
            lemma_digits_grow(s, i, j, k - 1);
        } else {
            lemma_digits_grow(s, i, k - 1, k - 1);
        }
        assert(is_digit(s[k - 1]));
        assert(digit_value(s[k - 1]) >= 0);
    }
}

/// Powers of ten grow with the exponent.
proof fn lemma_pow10_grow(a: nat, b: nat)
    requires
        a <= b,
    ensures
        1 <= pow10(a) <= pow10(b),
    decreases b,
{
    if b > 0 {
        if a < b {
            lemma_pow10_grow(a, (b - 1) as nat);
        } else {
            lemma_pow10_grow(0, (b - 1) as nat);
        }
    }
}

/// The value of a decimal read `t` digits past the point, `dv * 10^t +
/// fraction digits`, grows with `t`.
proof fn lemma_decimal_grow(s: Seq<char>, dv: int, j: int, t: nat, m: nat)
    requires
        t <= m,
        dv >= 0,
        forall|q: int| j + 1 <= q < j + 1 + m ==> is_digit(#[trigger] s[q]),
    ensures
        dv * pow10(t) + digits_value(s, j + 1, j + 1 + t) <= dv * pow10(m) + digits_value(
            s,
            j + 1,
            j + 1 + m,
        ),
    decreases m,
{
    if t < m {
        let m1 = (m - 1) as nat;
        lemma_decimal_grow(s, dv, j, t, m1);
        lemma_digits_grow(s, j + 1, j + 1 + m1, j + 1 + m1);
        lemma_pow10_grow(0, m1);
        let v1 = dv * pow10(m1) + digits_value(s, j + 1, j + 1 + m1);
        let d = digit_value(s[j + 1 + m1]);
        assert(d >= 0);
        assert(j + 1 + m - 1 == j + 1 + m1);
        assert(digits_value(s, j + 1, j + 1 + m) == digits_value(s, j + 1, j + 1 + m1) * 10 + d);
        assert(pow10(m) == 10 * pow10(m1));
        assert(dv * pow10(m) + digits_value(s, j + 1, j + 1 + m) == 10 * v1 + d) by (nonlinear_arith)
            requires
                pow10(m) == 10 * pow10(m1),
                digits_value(s, j + 1, j + 1 + m) == digits_value(s, j + 1, j + 1 + m1) * 10 + d,
                v1 == dv * pow10(m1) + digits_value(s, j + 1, j + 1 + m1),
        ;
        assert(dv * pow10(m1) >= 0) by (nonlinear_arith)
            requires dv >= 0, pow10(m1) >= 1;
    }
}

/// Reads the number at `i`. `Err` exactly when a number starts there and
/// does not fit `i128` ([`number_fits`]).
fn parse_number(s: &Vec<char>, i: usize) -> (r: Result<Option<(Frac, usize)>, ()>)
    requires
        i <= s@.len(),
    ensures
        r matches Ok(None) <==> number_at(s@, i as int) is None,
        r matches Ok(Some((f, j))) ==> (number_at(s@, i as int) == Some((f@, j as int)) && f.wf()
            && i < j <= s@.len()),
        r is Err <==> (number_at(s@, i as int) is Some && !number_fits(s@, i as int)),
{
    if !(i < s.len() && '0' <= s[i] && s[i] <= '9') {
        return Ok(None);
    }
    proof {
        lemma_digits_end(s@, i as int);
        lemma_digits_end(s@, i + 1);
    }
    let ghost e = digits_end(s@, i as int);
    let ghost dec = e + 1 < s@.len() && s@[e] == '.' && is_digit(s@[e + 1]);
    let ghost m: nat = if dec { (digits_end(s@, e + 1) - e - 1) as nat } else { 0 };
    let ghost w: int = if dec {
        digits_value(s@, i as int, e) * pow10(m) + digits_value(s@, e + 1, e + 1 + m)
    } else {
        digits_value(s@, i as int, e)
    };
    proof {
        lemma_digits_grow(s@, i as int, e, e);
        if dec {
            lemma_digits_end(s@, e + 1);
            lemma_pow10_grow(0, m);
            lemma_digits_grow(s@, e + 1, e + 1, e + 1 + m);
            assert(w >= digits_value(s@, i as int, e)) by (nonlinear_arith)
                requires
                    w == digits_value(s@, i as int, e) * pow10(m) + digits_value(s@, e + 1, e + 1 + m),
                    digits_value(s@, i as int, e) >= 0,
                    digits_value(s@, e + 1, e + 1 + m) >= 0,
                    pow10(m) >= 1,
            ;
        }
        assert(!number_fits(s@, i as int) <==> (w > i128::MAX || (dec && pow10(m) > i128::MAX)));
    }
    let mut v: i128 = 0;
    let mut j: usize = i;
    while j < s.len() && '0' <= s[j] && s[j] <= '9'
        invariant
            i <= j <= e,
            e <= s@.len(),
            e == digits_end(s@, i as int),
            forall|k: int| i <= k < e ==> is_digit(#[trigger] s@[k]),
            i < s@.len() && is_digit(s@[i as int]),
            digits_end(s@, j as int) == e,
            v as int == digits_value(s@, i as int, j as int),
            v >= 0,
            w >= digits_value(s@, i as int, e),
            !number_fits(s@, i as int) <==> (w > i128::MAX || (dec && pow10(m) > i128::MAX)),
        decreases s@.len() - j,
    {
        let d = (s[j] as u32 - '0' as u32) as i128;
        proof {
            lemma_digits_end(s@, j + 1);
            assert(digits_end(s@, j as int) == digits_end(s@, j + 1));
            lemma_digits_grow(s@, i as int, j + 1, e);
            assert(digits_value(s@, i as int, j + 1) == v * 10 + d);
        }
        v = match v.checked_mul(10) {
            Some(x) => x,
            None => return Err(()),
        };
        v = match v.checked_add(d) {
            Some(x) => x,
            None => return Err(()),
        };
        j = j + 1;
    }
    assert(j as int == e);
    let ghost dv = digits_value(s@, i as int, j as int);
    if j < s.len() && j + 1 < s.len() && s[j] == '.' && '0' <= s[j + 1] && s[j + 1] <= '9' {
        assert(dec);
        let mut p: i128 = 1;
        let mut k: usize = j + 1;
        while k < s.len() && '0' <= s[k] && s[k] <= '9'
            invariant
                j + 1 <= k <= j + 1 + m,
                j + 1 + m == digits_end(s@, j + 1),
                digits_end(s@, j + 1) <= s@.len(),
                forall|q: int| j + 1 <= q < digits_end(s@, j + 1) ==> is_digit(#[trigger] s@[q]),
                digits_end(s@, k as int) == digits_end(s@, j + 1),
                p as int == pow10((k - j - 1) as nat),
                v as int == dv * (p as int) + digits_value(s@, j + 1, k as int),
                v >= 0,
                p >= 1,
                dv >= 0,
                j == e,
                dec,
                i < s@.len() && is_digit(s@[i as int]),
                w == dv * pow10(m) + digits_value(s@, j + 1, j + 1 + m),
                !number_fits(s@, i as int) <==> (w > i128::MAX || pow10(m) > i128::MAX),
            decreases s@.len() - k,
        {
            let d = (s[k] as u32 - '0' as u32) as i128;
            let ghost old_p = p as int;
            let ghost old_v = v as int;
            let ghost t1: nat = (k + 1 - j - 1) as nat;
            proof {
                lemma_digits_end(s@, k + 1);
                assert(digits_end(s@, k as int) == digits_end(s@, k + 1));
                assert(pow10(t1) == 10 * pow10((k - j - 1) as nat));
                assert(j + 1 + t1 == k + 1);
                lemma_decimal_grow(s@, dv, j as int, t1, m);
                lemma_pow10_grow(t1, m);
                assert(dv * pow10(t1) + digits_value(s@, j + 1, k + 1) == old_v * 10 + d) by (nonlinear_arith)
                    requires
                        old_v == dv * old_p + digits_value(s@, j + 1, k as int),
                        pow10(t1) == old_p * 10,
                        digits_value(s@, j + 1, k + 1) == digits_value(s@, j + 1, k as int) * 10 + d,
                ;
                assert(d >= 0);
                assert(w >= old_v * 10 + d);
            }
            v = match v.checked_mul(10) {
                Some(x) => x,
                None => {
                    assert(old_v * 10 > i128::MAX);
                    return Err(());
                },
            };
            v = match v.checked_add(d) {
                Some(x) => x,
                None => return Err(()),
            };
            p = match p.checked_mul(10) {
                Some(x) => x,
                None => return Err(()),
            };
            proof {
                assert(v as int == dv * (p as int) + digits_value(s@, j + 1, k + 1)) by (nonlinear_arith)
                    requires
                        old_v == dv * old_p + digits_value(s@, j + 1, k as int),
                        v as int == old_v * 10 + d,
                        p as int == old_p * 10,
                        digits_value(s@, j + 1, k + 1) == digits_value(s@, j + 1, k as int) * 10 + d,
                ;
            }
            k = k + 1;
        }
        assert(k as int == digits_end(s@, j + 1));
        let f = match Frac::new(v, p) {
            Ok(f) => f,
            Err(_) => return Err(()),
        };
        return Ok(Some((f, k)));
    }
    let f = match Frac::new(v, 1) {
        Ok(f) => f,
        Err(_) => return Err(()),
    };
    Ok(Some((f, j)))
}

/// Reads the element symbol at `i`.
fn parse_element(s: &Vec<char>, i: usize) -> (r: Option<(Element, usize)>)
    requires
        i < s@.len(),
        is_upper(s@[i as int]),
    ensures
        r is None <==> element_at(s@, i as int) is None,
        r matches Some((e, j)) ==> element_at(s@, i as int) == Some((e, j as int)),
{
    if s.len() - i > 1 && 'a' <= s[i + 1] && s[i + 1] <= 'z' {
        let mut two: Vec<char> = Vec::new();
        two.push(s[i]);
        two.push(s[i + 1]);
        assert(two@ =~= s@.subrange(i as int, i + 2));
        match Element::from_chars(&two) {
            Some(e) => {
                return Some((e, i + 2));
            },
            None => {},
        }
    }
    let mut one: Vec<char> = Vec::new();
    one.push(s[i]);
    assert(one@ =~= s@.subrange(i as int, i + 1));
    match Element::from_chars(&one) {
        Some(e) => Some((e, i + 1)),
        None => None,
    }
}

/// Adding one more entry to `inner` adds its scaled amount to the merge.
proof fn lemma_merge_step(acc: Map<Element, Q>, inner: Seq<(Element, Frac)>, t: int, f: Q)
    requires
        distinct_elements(inner),
        0 <= t < inner.len(),
    ensures
        merge_scaled(acc, amounts_of(inner.take(t + 1)), f) == add_amount(
            merge_scaled(acc, amounts_of(inner.take(t)), f),
            inner[t].0,
            qmul(inner[t].1@, f),
        ),
{
    let u = inner.take(t);
    let e = inner[t].0;
    assert(distinct_elements(u)) by {
        assert forall|a: int, b: int| 0 <= a < b < u.len() implies u[a].0 != u[b].0 by {
            assert(u[a] == inner[a] && u[b] == inner[b]);
        }
    }
    if amounts_of(u).contains_key(e) {
        let b = choose|b: int| 0 <= b < u.len() && u[b].0 == e;
        assert(inner[b].0 == inner[t].0);
    }
    lemma_amounts_push(u, e, inner[t].1);
    assert(u.push(inner[t]) =~= inner.take(t + 1));
    let lhs = merge_scaled(acc, amounts_of(inner.take(t + 1)), f);
    let rhs = add_amount(merge_scaled(acc, amounts_of(u), f), e, qmul(inner[t].1@, f));
    assert(lhs =~= rhs);
}

/// Adds `q` of `e` to the listing `acc`. `Err` exactly when the sum leaves
/// `i128` ([`amount_fits`]).
fn add_to(acc: &mut Vec<(Element, Frac)>, e: Element, q: Frac) -> (r: Result<(), ()>)
    requires
        distinct_elements(old(acc)@),
        all_wf(old(acc)@),
        q.wf(),
    ensures
        r is Ok ==> distinct_elements(final(acc)@) && all_wf(final(acc)@) && amounts_of(final(acc)@)
            == add_amount(amounts_of(old(acc)@), e, q@),
        r is Err <==> !amount_fits(amounts_of(old(acc)@), e, q@),
{
    let mut a: usize = 0;
    while a < acc.len()
        invariant
            a <= acc@.len(),
            acc@ == old(acc)@,
            distinct_elements(acc@),
            all_wf(acc@),
            q.wf(),
            forall|b: int| 0 <= b < a ==> (#[trigger] acc@[b]).0 != e,
        decreases acc@.len() - a,
    {
        let (cur_e, cur) = acc[a];
        if cur_e.index_u8() == e.index_u8() {
            proof {
                Element::lemma_index_injective(cur_e, e);
                lemma_amounts_lookup(acc@, a as int);
            }
            assert(cur.wf());
            let sum = match cur.checked_add(q) {
                Ok(x) => x,
                Err(_) => return Err(()),
            };
            proof {
                lemma_amounts_update(acc@, a as int, sum);
            }
            acc.set(a, (e, sum));
            return Ok(());
        }
        a = a + 1;
    }
    proof {
        if amounts_of(acc@).contains_key(e) {
            let b = choose|b: int| 0 <= b < acc@.len() && acc@[b].0 == e;
            assert(acc@[b].0 != e);
        }
        lemma_amounts_push(acc@, e, q);
    }
    acc.push((e, q));
    Ok(())
}

/// Adds every amount of `inner`, times `f`, to `acc`. `Err` exactly when
/// a product or sum leaves `i128` ([`merge_fits`]).
fn merge_scaled_into(acc: &mut Vec<(Element, Frac)>, inner: &Vec<(Element, Frac)>, f: Frac) -> (r: Result<(), ()>)
    requires
        distinct_elements(old(acc)@),
        all_wf(old(acc)@),
        distinct_elements(inner@),
        all_wf(inner@),
        f.wf(),
    ensures
        r is Ok ==> distinct_elements(final(acc)@) && all_wf(final(acc)@) && amounts_of(final(acc)@)
            == merge_scaled(amounts_of(old(acc)@), amounts_of(inner@), f@),
        r is Err <==> !merge_fits(amounts_of(old(acc)@), amounts_of(inner@), f@),
{
    let ghost acc0 = amounts_of(acc@);
    assert(amounts_of(inner@.take(0)) =~= Map::<Element, Q>::empty());
    assert(merge_scaled(acc0, Map::<Element, Q>::empty(), f@) =~= acc0);
    let mut t: usize = 0;
    while t < inner.len()
        invariant
            t <= inner@.len(),
            distinct_elements(acc@),
            all_wf(acc@),
            distinct_elements(inner@),
            all_wf(inner@),
            f.wf(),
            acc0 == amounts_of(old(acc)@),
            amounts_of(acc@) == merge_scaled(acc0, amounts_of(inner@.take(t as int)), f@),
            forall|u: int|
                0 <= u < t ==> mul_fits((#[trigger] inner@[u]).1@, f@) && (acc0.contains_key(inner@[u].0)
                    ==> add_fits(acc0[inner@[u].0], qmul(inner@[u].1@, f@))),
        decreases inner@.len() - t,
    {
        let (e, amt) = inner[t];
        assert(inner@[t as int].1.wf());
        proof {
            lemma_amounts_lookup(inner@, t as int);
            assert(!amounts_of(inner@.take(t as int)).contains_key(e)) by {
                if amounts_of(inner@.take(t as int)).contains_key(e) {
                    let b = choose|b: int| 0 <= b < t && inner@.take(t as int)[b].0 == e;
                    assert(inner@[b].0 != inner@[t as int].0);
                }
            }
            assert(amounts_of(acc@).contains_key(e) == acc0.contains_key(e));
            assert(acc0.contains_key(e) ==> amounts_of(acc@)[e] == acc0[e]);
        }
        let p = match amt.checked_mul(f) {
            Ok(x) => x,
            Err(_) => {
                assert(!mul_fits(amounts_of(inner@)[e], f@));
                return Err(());
            },
        };
        match add_to(acc, e, p) {
            Ok(()) => {},
            Err(()) => {
                assert(!add_fits(acc0[e], qmul(amounts_of(inner@)[e], f@)));
                return Err(());
            },
        }
        proof {
            lemma_merge_step(acc0, inner@, t as int, f@);
        }
        t = t + 1;
    }
    assert(inner@.take(inner@.len() as int) =~= inner@);
    assert forall|e: Element| #[trigger] amounts_of(inner@).contains_key(e) implies mul_fits(
        amounts_of(inner@)[e],
        f@,
    ) && (acc0.contains_key(e) ==> add_fits(acc0[e], qmul(amounts_of(inner@)[e], f@))) by {
        let b = choose|b: int| 0 <= b < inner@.len() && inner@[b].0 == e;
        lemma_amounts_lookup(inner@, b);
        assert(mul_fits(inner@[b].1@, f@));
    }
    Ok(())
}

/// Reads the units of one group from `start` at nesting `depth`, as
/// [`walk`] does from an empty start. `Err`, carrying the reason, exactly
/// when `walk` finds no parse.
fn parse_group(s: &Vec<char>, start: usize, depth: usize, Ghost(fuel0): Ghost<nat>) -> (r: Result<(Vec<(Element, Frac)>, usize), String>)
    requires
        start <= s@.len(),
        depth <= MAX_NESTING_DEPTH,
        fuel0 >= s@.len() - start + 1,
    ensures
        r matches Ok((v, j)) ==> walk(s@, start as int, depth as nat, fuel0, Map::empty(), false)
            == Some((amounts_of(v@), j as int)) && distinct_elements(v@) && all_wf(v@) && start < j
            <= s@.len(),
        r is Err <==> walk(s@, start as int, depth as nat, fuel0, Map::empty(), false) is None,
    decreases fuel0,
{
    let mut acc: Vec<(Element, Frac)> = Vec::new();
    let mut i: usize = start;
    let ghost mut fuel: nat = fuel0;
    let mut saw = false;
    assert(amounts_of(acc@) =~= Map::<Element, Q>::empty());
    loop
        invariant
            start <= i <= s@.len(),
            saw ==> start < i,
            fuel <= fuel0,
            fuel >= s@.len() - i + 1,
            depth <= MAX_NESTING_DEPTH,
            distinct_elements(acc@),
            all_wf(acc@),
            walk(s@, start as int, depth as nat, fuel0, Map::empty(), false) == walk(
                s@,
                i as int,
                depth as nat,
                fuel,
                amounts_of(acc@),
                saw,
            ),
        decreases s@.len() - i,
    {
        if i >= s.len() || s[i] == ')' {
            if saw {
                return Ok((acc, i));
            }
            return Err(String::from_str("empty formula group"));
        }
        let c = s[i];
        if 'A' <= c && c <= 'Z' {
            let (e, j) = match parse_element(s, i) {
                Some(x) => x,
                None => return Err(String::from_str("unrecognized element symbol")),
            };
            let (q, k) = match parse_number(s, j) {
                Ok(Some(x)) => x,
                Ok(None) => (Frac::one(), j),
                Err(()) => return Err(String::from_str("subscript too large")),
            };
            match add_to(&mut acc, e, q) {
                Ok(()) => {},
                Err(()) => return Err(String::from_str("amount too large")),
            }
            i = k;
            proof {
                fuel = (fuel - 1) as nat;
            }
            saw = true;
        } else if c == '(' {
            if depth >= MAX_NESTING_DEPTH {
                return Err(String::from_str("formula nesting exceeds the maximum supported depth (64)"));
            }
            let (inner, j) = match parse_group(s, i + 1, depth + 1, Ghost((fuel - 1) as nat)) {
                Ok(x) => x,
                Err(m) => return Err(m),
            };
            if !(j < s.len() && s[j] == ')') {
                return Err(String::from_str("expected ')'"));
            }
            let (f, k) = match parse_number(s, j + 1) {
                Ok(Some(x)) => x,
                Ok(None) => (Frac::one(), j + 1),
                Err(()) => return Err(String::from_str("subscript too large")),
            };
            match merge_scaled_into(&mut acc, &inner, f) {
                Ok(()) => {},
                Err(()) => return Err(String::from_str("amount too large")),
            }
            i = k;
            proof {
                fuel = (fuel - 1) as nat;
            }
            saw = true;
        } else {
            return Err(String::from_str("unexpected character"));
        }
    }
}

/// Reads a formula without hydrate part, as [`fragment_amounts`] does.
fn parse_fragment(s: &Vec<char>) -> (r: Result<Vec<(Element, Frac)>, String>)
    ensures
        r matches Ok(v) ==> fragment_amounts(s@) == Some(amounts_of(v@)) && distinct_elements(v@)
            && all_wf(v@),
        r is Err <==> fragment_amounts(s@) is None,
{
    let (v, j) = match parse_group(s, 0, 0, Ghost((s@.len() + 1) as nat)) {
        Ok(x) => x,
        Err(m) => return Err(m),
    };
    if j < s.len() {
        return Err(String::from_str("unexpected trailing character"));
    }
    Ok(v)
}

/// `v[lo..hi]` as a vector of its own.
fn slice_chars(v: &Vec<char>, lo: usize, hi: usize) -> (r: Vec<char>)
    requires
        lo <= hi <= v@.len(),
    ensures
        r@ == v@.subrange(lo as int, hi as int),
{
    let mut r: Vec<char> = Vec::new();
    let mut k: usize = lo;
    while k < hi
        invariant
            lo <= k <= hi <= v@.len(),
            r@ == v@.subrange(lo as int, k as int),
        decreases hi - k,
    {
        r.push(v[k]);
        assert(r@ =~= v@.subrange(lo as int, k + 1));
        k = k + 1;
    }
    r
}

/// The parse error for `formula`.
fn formula_error(formula: &str, reason: String) -> (r: CommercialCatalogError)
    ensures
        r matches CommercialCatalogError::FormulaParseError { formula: f, reason: m } && f@ == formula@
            && m == reason,
{
    CommercialCatalogError::FormulaParseError { formula: String::from_str(formula), reason }
}

/// Parses a chemical formula into a composition, exactly.
///
/// Succeeds exactly when [`formula_amounts`] gives amounts for the trimmed
/// formula, at least one and every one positive ([`formula_accepted`]),
/// with those amounts; otherwise fails
/// with `FormulaParseError` carrying the formula. `formula_amounts` has no
/// amounts when the formula is not in the grammar or an exact value on the
/// way leaves `i128`.
pub fn parse_formula(formula: &str) -> (r: Result<Composition, CommercialCatalogError>)
    ensures
        r is Ok <==> formula_accepted(trimmed(formula@)),
        r matches Ok(c) ==> c.wf(),
        r matches Ok(c) ==> (formula_amounts(trimmed(formula@)) matches Some(m) && c@.dom() == m.dom()
            && forall|e: Element| #[trigger] c@.contains_key(e) ==> c@[e]@ == m[e]),
        r matches Err(err) ==> (err matches CommercialCatalogError::FormulaParseError { formula: f, .. }
            && f@ == formula@),
{
    let raw = chars_of(formula);
    let t = trim_chars(&raw);
    let ghost ts = t@;
    assert(ts == trimmed(formula@));
    let mut sep: Option<usize> = None;
    let mut a: usize = 0;
    while a < t.len()
        invariant
            a <= t@.len(),
            ts == t@,
            ts == trimmed(formula@),
            sep matches Some(p) ==> (p < a && is_middle_dot(t@[p as int]) && forall|q: int|
                0 <= q < a && q != p ==> !is_middle_dot(#[trigger] t@[q])),
            sep is None ==> forall|q: int| 0 <= q < a ==> !is_middle_dot(#[trigger] t@[q]),
        decreases t@.len() - a,
    {
        if t[a] == '\u{B7}' {
            match sep {
                Some(p) => {
                    assert(is_middle_dot(t@[p as int]) && is_middle_dot(t@[a as int]));
                    assert(formula_amounts(ts) is None);
                    return Err(
                        formula_error(formula, String::from_str("more than one hydrate separator found")),
                    );
                },
                None => {
                    sep = Some(a);
                },
            }
        }
        a = a + 1;
    }
    let acc = match sep {
        None => {
            assert(!exists|p: int| 0 <= p < ts.len() && is_middle_dot(#[trigger] ts[p]));
            match parse_fragment(&t) {
                Ok(v) => v,
                Err(m) => return Err(formula_error(formula, m)),
            }
        },
        Some(p) => {
            assert(!exists|x: int, y: int|
                0 <= x < y < ts.len() && is_middle_dot(#[trigger] ts[x]) && is_middle_dot(
                    #[trigger] ts[y],
                )) by {
                if exists|x: int, y: int|
                    0 <= x < y < ts.len() && is_middle_dot(#[trigger] ts[x]) && is_middle_dot(
                        #[trigger] ts[y],
                    ) {
                    let (x, y) = choose|x: int, y: int|
                        0 <= x < y < ts.len() && is_middle_dot(#[trigger] ts[x]) && is_middle_dot(
                            #[trigger] ts[y],
                        );
                    assert(x == p as int || !is_middle_dot(ts[x]));
                    assert(y == p as int || !is_middle_dot(ts[y]));
                }
            }
            assert(is_middle_dot(ts[p as int]));
            assert((choose|q: int| 0 <= q < ts.len() && is_middle_dot(#[trigger] ts[q])) == p as int);
            let main = slice_chars(&t, 0, p);
            let hyd = slice_chars(&t, p + 1, t.len());
            let mut main_acc = match parse_fragment(&main) {
                Ok(v) => v,
                Err(m) => return Err(formula_error(formula, m)),
            };
            let (f, k) = match parse_number(&hyd, 0) {
                Ok(Some(x)) => x,
                Ok(None) => (Frac::one(), 0),
                Err(()) => {
                    return Err(formula_error(formula, String::from_str("hydrate multiplier too large")))
                },
            };
            let rest = slice_chars(&hyd, k, hyd.len());
            let h = match parse_fragment(&rest) {
                Ok(v) => v,
                Err(m) => {
                    let reason = String::from_str("hydrate fragment: ").concat(m.as_str());
                    return Err(formula_error(formula, reason));
                },
            };
            match merge_scaled_into(&mut main_acc, &h, f) {
                Ok(()) => {},
                Err(()) => return Err(formula_error(formula, String::from_str("amount too large"))),
            }
            main_acc
        },
    };
    let ghost m = amounts_of(acc@);
    assert(formula_amounts(ts) == Some(m));
    proof {
        lemma_pairs_map_distinct(acc@);
        if exists|e: Element| #[trigger] m.contains_key(e) && m[e].0 <= 0 {
            let e = choose|e: Element| #[trigger] m.contains_key(e) && m[e].0 <= 0;
            let b = choose|b: int| 0 <= b < acc@.len() && acc@[b].0 == e;
            assert(acc@[b].1@.0 <= 0);
        }
    }
    let ghost acc_v = acc@;
    match Composition::new(acc) {
        Ok(c) => {
            assert(c@.dom() =~= m.dom());
            proof {
                c.lemma_wf();
                assert forall|e: Element| #[trigger] m.contains_key(e) implies m[e].0 > 0 by {
                    assert(c@.contains_key(e));
                }
                assert(acc_v.len() > 0);
                lemma_amounts_lookup(acc_v, 0);
                assert(m.contains_key(acc_v[0].0));
                assert(formula_amounts(trimmed(formula@)) == Some(m));
                let e0 = acc_v[0].0;
                assert(m.contains_key(e0));
                assert(!Set::<Element>::empty().contains(e0));
                assert(forall|e: Element| #[trigger] m.contains_key(e) ==> m[e].0 > 0);
                assert(formula_amounts(ts) == Some(m));
                assert(formula_accepted(ts));
            }
            Ok(c)
        },
        Err(_) => {
            proof {
                if acc_v.len() > 0 {
                    let i = choose|i: int| 0 <= i < acc_v.len() && #[trigger] acc_v[i].1@.0 <= 0;
                    lemma_amounts_lookup(acc_v, i);
                    assert(!(m[acc_v[i].0].0 > 0));
                } else {
                    assert(m.dom() =~= Set::<Element>::empty());
                }
                assert(formula_amounts(trimmed(formula@)) == Some(m));
                assert(!formula_accepted(ts));
            }
            Err(formula_error(formula, String::from_str("element amounts must be positive")))
        },
    }
}

} // verus!
